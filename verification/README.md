# FiberHome Factory

Factory images of FiberHome AN758x optical network terminals. The library imports stock UBI/UBIFS
and JFFS2 partitions or unified factory images, and writes the 1 MiB layout that OpenWrt uses. What
it does is stated in contracts and proved with Verus.

| Offset | Size | Data |
| --- | --- | --- |
| `0x000000` | `0x0800` | APONCAL PON calibration |
| `0x000800` | `0x0800` | Reserved |
| `0x001000` | `0x1000` | MT7916 EEPROM |
| `0x002000` | `0x0006` | Base MAC |
| `0x002006` | `0x000a` | Reserved |
| `0x002010` | `0x0008` | PON serial number |
| `0x002018` | `0x0008` | Reserved |
| `0x002020` | `0x0020` | Device serial number |
| `0x002040` | `0xfdfc0` | Reserved |

## Layout

- `src/model.rs`: the factory image, its identity and its parts; `src/laws.rs`: what holds of it
  as a whole
- `src/identity.rs`, `src/calibration.rs`, `src/conf.rs`: MAC addresses and serial numbers,
  calibration containers, the `factory_conf` file
- `src/import.rs`, `src/ubi.rs`, `src/ubifs.rs`, `src/jffs2.rs`: stock images; `src/order.rs`: the
  order of JFFS2 nodes; `src/tree.rs`, `src/paths.rs`: directories; `src/codec.rs`, `src/lzo.rs`,
  `src/crc.rs`: compression and checksums
- `src/editor.rs`, `src/wording.rs`, `src/font.rs`: the decisions and texts of the editor
- `src/bytes.rs`, `src/text.rs`, `src/names.rs`, `src/keys.rs`: helpers
- `app/`: the window, dialogs and files
