//! Factory images: layout, identity, calibration data, opening and saving.

use fiberhome_factory::calibration::{
    calibration_crc32, encode_pon_calibration, fiberhome_crc32, normalize_pon_calibration,
    parse_pon_calibration, put_u16_le, put_u32_le, read_u16_le, read_u32_le,
};
use fiberhome_factory::conf::{parse_factory_conf, required_field, unquote};
use fiberhome_factory::crc::crc32_register;
use fiberhome_factory::identity::{
    decode_hex, display_sn, extract_wifi_eeprom, hex, hex_mac, local_mac, mac_from_draw,
    parse_device_serial, parse_mac, parse_pon_serial, place, serial_from_draw, show_serial,
    update_mac_field, vendor_serial,
};
use fiberhome_factory::model::{
    inspect_part, random_mac, random_sn, stock_file_names, unreadable, Factory, Field,
    ImportWarning, Part, PartStatus, PonCalibrationChip, Source, FACTORY_SIZE,
};
use fiberhome_factory::names::Files;

const CONF: &str = "config key 'brmac'\n\toption value '02:11:22:33:44:54'\n\
    config key 'GponSN'\r\n\toption value '4648545412345678'\r\n\
    config key \"SerialNumber\"\n\toption value  \"SN 0042\"  \n";

/// A stock calibration table for the chip with the given number.
fn bdbob(chip: u8) -> Vec<u8> {
    let mut d = vec![0u8; 0x800];
    d[..14].copy_from_slice(b"fiberhomebdbob");
    d[0x30] = chip;
    for i in 0x80..0x800usize {
        d[i] = (i % 251) as u8;
    }
    d[0x70..0x74].copy_from_slice(&0x780u32.to_le_bytes());
    let sum = fiberhome_crc32(&d[0x80..]);
    d[0x74..0x78].copy_from_slice(&sum.to_le_bytes());
    d[0x78..0x7c].copy_from_slice(&0x80u32.to_le_bytes());
    let sum = fiberhome_crc32(&d[..0x7c]);
    d[0x7c..0x80].copy_from_slice(&sum.to_le_bytes());
    d
}

fn eeprom() -> Vec<u8> {
    let mut d = vec![0u8; 0x1000];
    d[..2].copy_from_slice(&0x7916u16.to_le_bytes());
    d[4..10].copy_from_slice(&[2, 0, 0, 0, 0, 1]);
    d[10..16].copy_from_slice(&[2, 0, 0, 0, 0, 2]);
    d
}

fn stock_files() -> Files {
    let mut files = Files::new();
    files.insert("factory_conf".to_string(), CONF.as_bytes().to_vec());
    files.insert("table".to_string(), bdbob(0x2e));
    let mut wifi = eeprom();
    wifi.extend_from_slice(b"more");
    files.insert("wlan/AX3000_RT30xxEEPROM_5.bin".to_string(), wifi);
    files
}

/// An image with every field set, and other bytes in all that is reserved.
fn full_image() -> Vec<u8> {
    let mut d: Vec<u8> = (0..FACTORY_SIZE).map(|i| (i / 7 % 255) as u8).collect();
    d[..0x800].copy_from_slice(&encode_pon_calibration(PonCalibrationChip::Gn28l95, b"cal").unwrap());
    d[0x1000..0x2000].copy_from_slice(&eeprom());
    d[0x2000..0x2006].copy_from_slice(&[2, 0x11, 0x22, 0x33, 0x44, 0x54]);
    d[0x2010..0x2018].copy_from_slice(b"FHTT\x12\x34\x56\x78");
    d[0x2020..0x2040].fill(0);
    d[0x2020..0x2027].copy_from_slice(b"SN 0042");
    d
}

#[test]
fn parts_have_their_places() {
    assert_eq!(Part::Pon.range(), 0..0x800);
    assert_eq!(Part::Wifi.range(), 0x1000..0x2000);
    assert_eq!(FACTORY_SIZE, 1024 * 1024);
    assert_eq!(Part::Pon.description(), "PON calibration");
    assert_eq!(Part::Wifi.description(), "Wi-Fi EEPROM");
}

#[test]
fn checksums_have_known_values() {
    assert_eq!(calibration_crc32(b"123456789"), 0xcbf4_3926);
    assert_eq!(fiberhome_crc32(b""), u32::MAX);
    assert_eq!(
        fiberhome_crc32(b"123456789"),
        crc32_register(b"123456789", 0) ^ u32::MAX
    );
    assert_eq!(fiberhome_crc32(b"123456789"), !0x2dfd_2d88);
}

#[test]
fn little_endian_fields_are_written_and_read() {
    let mut d = vec![0u8; 8];
    put_u16_le(&mut d, 1, 0x1234);
    put_u32_le(&mut d, 4, 0xaabb_ccdd);
    assert_eq!(d, [0, 0x34, 0x12, 0, 0xdd, 0xcc, 0xbb, 0xaa]);
    assert_eq!(read_u16_le(&d, 1).unwrap(), 0x1234);
    assert_eq!(read_u32_le(&d, 4).unwrap(), 0xaabb_ccdd);
    assert_eq!(
        read_u32_le(&d, 0x1a).unwrap_err(),
        "Data is truncated at offset 0x1a"
    );
}

#[test]
fn chips_have_numbers_and_names() {
    assert!(PonCalibrationChip::from_id(1).unwrap() == PonCalibrationChip::Gn28l95);
    assert_eq!(PonCalibrationChip::from_id(2).unwrap().name(), "UX3363");
    assert_eq!(PonCalibrationChip::Gn28l95.name(), "GN28L95");
    assert_eq!(
        PonCalibrationChip::from_id(3).err().unwrap(),
        "Unknown PON frontend calibration chip 3"
    );
}

#[test]
fn calibration_container_has_its_layout() {
    let d = encode_pon_calibration(PonCalibrationChip::Ux3363, b"native").unwrap();
    assert_eq!(d.len(), 0x800);
    assert_eq!(&d[..8], b"APONCAL\0");
    assert_eq!(&d[8..0x18], &[1, 0, 0x80, 0, 2, 0, 0, 0, 1, 0, 0, 0, 6, 0, 0, 0]);
    assert_eq!(&d[0x18..0x1c], &calibration_crc32(b"native").to_le_bytes());
    assert!(d[0x1c..0x7c].iter().all(|b| *b == 0));
    assert_eq!(&d[0x7c..0x80], &calibration_crc32(&d[..0x7c]).to_le_bytes());
    assert_eq!(&d[0x80..0x86], b"native");
    assert!(d[0x86..].iter().all(|b| *b == 0xff));
    let info = parse_pon_calibration("x", &d).unwrap();
    assert_eq!(info.payload_length, 6);
    assert_eq!(info.chip.name(), "UX3363");
    assert_eq!(
        encode_pon_calibration(PonCalibrationChip::Ux3363, &[0; 1921]).unwrap_err(),
        "UX3363 calibration data exceeds 1920 bytes"
    );
    assert!(encode_pon_calibration(PonCalibrationChip::Ux3363, &[0; 1920]).is_ok());
}

#[test]
fn broken_containers_are_refused() {
    let good = encode_pon_calibration(PonCalibrationChip::Gn28l95, b"native").unwrap();
    let fails = |d: &[u8]| parse_pon_calibration("f.bin", d).err().unwrap();
    let changed = |at: usize, to: u8| {
        let mut d = good.clone();
        d[at] = to;
        let sum = calibration_crc32(&d[..0x7c]);
        d[0x7c..0x80].copy_from_slice(&sum.to_le_bytes());
        d
    };
    assert_eq!(fails(&good[1..]), "Invalid PON calibration container f.bin");
    assert_eq!(fails(&changed(0, b'B')), "Invalid PON calibration container f.bin");
    assert_eq!(fails(&changed(8, 2)), "Unsupported PON calibration format f.bin");
    assert_eq!(fails(&changed(0xa, 0)), "Unsupported PON calibration format f.bin");
    assert_eq!(fails(&changed(0x10, 0)), "Unsupported PON calibration format f.bin");
    let mut d = good.clone();
    d[0x20] = 1;
    assert_eq!(fails(&d), "PON calibration header CRC mismatch in f.bin");
    assert_eq!(fails(&changed(0xc, 9)), "Unknown PON frontend calibration chip 9");
    assert_eq!(
        fails(&changed(0x16, 1)),
        "Invalid PON calibration payload length in f.bin"
    );
    let mut d = good.clone();
    d[0x80] ^= 1;
    assert_eq!(fails(&d), "PON calibration payload CRC mismatch in f.bin");
}

#[test]
fn stock_tables_are_converted() {
    for (id, name) in [(0u8, "GN28L95"), (0x28, "GN28L95"), (0x2e, "UX3363")] {
        let table = bdbob(id);
        let d = normalize_pon_calibration("table", &table).unwrap();
        let info = parse_pon_calibration("table", &d).unwrap();
        assert_eq!(info.chip.name(), name);
        assert_eq!(info.payload_length, 0x780);
        assert_eq!(&d[0x80..], &table[0x80..]);
        // What is a container already stays as it is.
        assert_eq!(normalize_pon_calibration("again", &d).unwrap(), d);
    }
    let fails = |d: &[u8]| normalize_pon_calibration("t", d).err().unwrap();
    assert_eq!(fails(&bdbob(0x31)), "Unsupported PON BDBOB chip 0x31 in t");
    assert_eq!(fails(&[0; 3]), "PON BDBOB t is 3 bytes; expected 2048");
    assert_eq!(fails(&[0; 0x800]), "PON BDBOB t has no fiberhomebdbob header");
    let mut d = bdbob(0);
    d[0x70] = 1;
    assert_eq!(fails(&d), "Invalid PON BDBOB length fields in t");
    let mut d = bdbob(0);
    d[0x20] = 1;
    assert_eq!(fails(&d), "PON BDBOB header CRC mismatch in t");
    let mut d = bdbob(0);
    d[0x80] ^= 1;
    assert_eq!(fails(&d), "PON BDBOB payload CRC mismatch in t");
}

#[test]
fn conf_sections_are_read() {
    let fields = parse_factory_conf("c", CONF.as_bytes()).unwrap();
    assert_eq!(fields.get("brmac").unwrap(), "02:11:22:33:44:54");
    assert_eq!(fields.get("GponSN").unwrap(), "4648545412345678");
    assert_eq!(fields.get("SerialNumber").unwrap(), "SN 0042");
    assert_eq!(required_field("c", &fields, "GponSN").unwrap(), "4648545412345678");
    assert_eq!(
        required_field("c", &fields, "other").unwrap_err(),
        "c is missing other"
    );
}

#[test]
fn conf_lines_that_do_not_fit_are_passed_over() {
    let text = "option value 'none'\nconfig key 'a'\noption value '1'\noption value 2\n\
        config key b\noption value '3'\nconfig key 'c' 'd'\noption value '4'\n\
        config key 'e'\noption value ''\nconfig key 'a'\noption value 'last'";
    let fields = parse_factory_conf("c", text.as_bytes()).unwrap();
    assert_eq!(fields.get("a").unwrap(), "last");
    assert!(fields.get("b").is_none());
    assert!(fields.get("c").is_none());
    assert_eq!(fields.get("e").unwrap(), "");
    assert_eq!(required_field("c", &fields, "e").unwrap_err(), "c is missing e");
}

#[test]
fn conf_splits_at_unicode_white_space() {
    let text = "config\u{3000}key\u{a0}'a'\n\u{2003}option value '光 value 猫'\u{85}\n";
    let fields = parse_factory_conf("c", text.as_bytes()).unwrap();
    assert_eq!(fields.get("a").unwrap(), "光 value 猫");
}

#[test]
fn conf_must_be_utf8() {
    assert_eq!(
        parse_factory_conf("c", b"a\xff").err().unwrap(),
        "Invalid text encoding in c: invalid utf-8 sequence of 1 bytes from index 1"
    );
}

#[test]
fn quotes_come_in_pairs() {
    let of = |s: &str| {
        let chars: Vec<char> = s.chars().collect();
        unquote(&chars).map(|c| c.iter().collect::<String>())
    };
    assert_eq!(of("'a b'").unwrap(), "a b");
    assert_eq!(of("\"\"").unwrap(), "");
    assert_eq!(of("'a\""), None);
    assert_eq!(of("'"), None);
    assert_eq!(of("ab"), None);
}

#[test]
fn hexadecimal_is_decoded() {
    assert_eq!(decode_hex("s", "f", "0a:Ff-7", 2).unwrap_err(), "Invalid f length in s");
    assert_eq!(decode_hex("s", "f", "0a:Ff-70", 3).unwrap(), [0x0a, 0xff, 0x70]);
    assert_eq!(decode_hex("s", "f", "+5", 1).unwrap(), [5]);
    assert_eq!(
        decode_hex("s", "f", "5+", 1).unwrap_err(),
        "Invalid hexadecimal f in s"
    );
    assert_eq!(
        decode_hex("s", "f", "0g", 1).unwrap_err(),
        "Invalid hexadecimal f in s"
    );
    assert_eq!(decode_hex("s", "f", "é", 1).unwrap_err(), "Invalid f length in s");
}

#[test]
fn mac_addresses_are_checked() {
    let mac = [2, 0xa1, 0, 3, 4, 0xff];
    assert_eq!(hex_mac(&mac), "02:A1:00:03:04:FF");
    assert_eq!(parse_mac("s", "f", "02:A1:00:03:04:FF").unwrap(), mac);
    assert_eq!(parse_mac("s", "f", "02a1000304ff").unwrap(), mac);
    for bad in ["00:00:00:00:00:00", "FF:FF:FF:FF:FF:FF", "01:00:00:00:00:00"] {
        assert_eq!(parse_mac("s", "f", bad).unwrap_err(), "Invalid f in s");
    }
    assert_eq!(parse_mac("s", "f", "02").unwrap_err(), "Invalid f length in s");
}

#[test]
fn serial_numbers_are_shown_and_read() {
    assert_eq!(hex(&[0, 0xab, 0x10]), "00AB10");
    assert_eq!(show_serial(b"FHTT\x12\x34\x56\x78"), "FHTT12345678");
    assert_eq!(display_sn("FHTT12345678").unwrap(), b"FHTT\x12\x34\x56\x78");
    let plain = [0xfe, 1, 2, 3, 4, 5, 6, 7];
    assert_eq!(show_serial(&plain), "FE01020304050607");
    assert_eq!(display_sn("FE01020304050607").unwrap(), plain);
    assert_eq!(display_sn("FHTT1234567X").unwrap_err(), "Invalid hexadecimal PON SN in PON SN");
    assert_eq!(display_sn("FHTT").unwrap_err(), "Invalid GponSN length in PON SN");
    assert_eq!(display_sn("0000000000000000").unwrap_err(), "Invalid GponSN in PON SN");
    assert_eq!(
        parse_pon_serial("s", "FFFFFFFFFFFFFFFF").unwrap_err(),
        "Invalid GponSN in s"
    );
}

#[test]
fn device_serial_numbers_are_padded() {
    let mut want = b"SN 0042".to_vec();
    want.resize(32, 0);
    assert_eq!(parse_device_serial("s", "SN 0042").unwrap(), want);
    let long = "x".repeat(32);
    assert_eq!(parse_device_serial("s", &long).unwrap(), long.as_bytes());
    for bad in ["", "é", "a\tb"] {
        assert_eq!(
            parse_device_serial("s", bad).unwrap_err(),
            "Invalid SerialNumber in s"
        );
    }
    assert!(parse_device_serial("s", &"x".repeat(33)).is_err());
}

#[test]
fn eeproms_are_checked() {
    let mut d = eeprom();
    d.push(9);
    assert_eq!(extract_wifi_eeprom("s", &d).unwrap(), eeprom());
    assert_eq!(
        extract_wifi_eeprom("s", &d[..4095]).unwrap_err(),
        "MT7916 EEPROM s is shorter than 4096 bytes"
    );
    d[0] = 0;
    assert_eq!(
        extract_wifi_eeprom("s", &d).unwrap_err(),
        "Invalid MT7916 device ID in s"
    );
    assert_eq!(
        inspect_part(Part::Wifi, &d).err().unwrap(),
        "Wi-Fi EEPROM must be exactly 4096 bytes"
    );
}

#[test]
fn placing_stays_inside_the_image() {
    let mut d = vec![0u8; 4];
    place(&mut d, 2, b"ab", "thing").unwrap();
    assert_eq!(d, b"\0\0ab");
    assert_eq!(
        place(&mut d, 3, b"ab", "thing").unwrap_err(),
        "thing exceeds the factory image boundary"
    );
    assert_eq!(d, b"\0\0ab");
}

#[test]
fn unedited_mac_fields_are_left_alone() {
    let mut d = vec![0u8; 6];
    update_mac_field(&mut d, 0, "l", "junk", "junk").unwrap();
    assert_eq!(d, [0; 6]);
    assert_eq!(
        update_mac_field(&mut d, 0, "l", "", "junk").unwrap_err(),
        "l cannot be empty"
    );
    assert_eq!(
        update_mac_field(&mut d, 0, "l", "junk", "").unwrap_err(),
        "Invalid l length in identity"
    );
    update_mac_field(&mut d, 0, "l", "020000000009", "").unwrap();
    assert_eq!(d, [2, 0, 0, 0, 0, 9]);
}

#[test]
fn random_identities_are_accepted() {
    assert_eq!(local_mac(&[0xff, 1, 2, 3, 4, 5]), "FE:01:02:03:04:05");
    assert_eq!(local_mac(&[0, 1, 2, 3, 4, 5]), "02:01:02:03:04:05");
    assert_eq!(vendor_serial(&[0xab, 0, 1, 2]), "FHTTAB000102");
    let mac = random_mac().unwrap();
    assert_eq!(mac.len(), 17);
    assert_eq!(parse_mac("s", "f", &mac).unwrap()[0] & 3, 2);
    assert_ne!(mac, random_mac().unwrap());
    let sn = random_sn().unwrap();
    assert_eq!(&display_sn(&sn).unwrap()[..4], b"FHTT");
    assert_ne!(sn, random_sn().unwrap());
}

#[test]
fn new_factory_can_be_saved() {
    let f = Factory::new().unwrap();
    assert!(!f.part_present(Part::Pon));
    assert!(!f.part_present(Part::Wifi));
    assert_eq!(f.wifi_mac, "");
    let d = f.encode().unwrap();
    assert_eq!(d.len(), FACTORY_SIZE);
    assert_eq!(&d[0x2010..0x2014], b"FHTT");
    assert!(d[..0x2000].iter().all(|b| *b == 0xff));
    assert!(d[0x2018..].iter().all(|b| *b == 0xff));
    let g = Factory::from_image(d).unwrap();
    assert_eq!(g.mac, f.mac);
    assert_eq!(g.pon_sn, f.pon_sn);
}

#[test]
fn blank_factory_has_the_given_identity() {
    let f = Factory::blank("02:00:00:00:00:01".to_string(), "FHTT00000001".to_string());
    let d = f.encode().unwrap();
    assert_eq!(&d[0x2000..0x2006], &[2, 0, 0, 0, 0, 1]);
    assert_eq!(&d[0x2010..0x2018], b"FHTT\0\0\0\x01");
}

#[test]
fn image_is_shown() {
    let f = Factory::from_image(full_image()).unwrap();
    assert_eq!(f.mac, "02:11:22:33:44:54");
    assert_eq!(f.wifi_mac, "02:00:00:00:00:01");
    assert_eq!(f.wifi_mac2, "02:00:00:00:00:02");
    assert_eq!(f.pon_sn, "FHTT12345678");
    assert_eq!(f.device_sn, "SN 0042");
    assert_eq!(f.part(Part::Wifi), &eeprom()[..]);
    assert!(f.part_status(Part::Wifi) == (PartStatus::Wifi { length: 4096 }));
    assert!(
        f.part_status(Part::Pon)
            == (PartStatus::Pon {
                chip: PonCalibrationChip::Gn28l95,
                payload_length: 3,
            })
    );
}

#[test]
fn device_serial_is_shown_whatever_it_holds() {
    let shown = |field: &[u8]| {
        let mut d = full_image();
        d[0x2020..0x2020 + field.len()].copy_from_slice(field);
        Factory::from_image(d).unwrap().device_sn
    };
    assert_eq!(shown(b"A\0B"), "A");
    assert_eq!(shown(b"A\xff"), "A");
    assert_eq!(shown(&[b'x'; 32]), "x".repeat(32));
    assert_eq!(shown("光\0".as_bytes()), "光");
    assert_eq!(shown(b"A\x80B\0"), "A\u{fffd}B");
}

#[test]
fn image_size_is_checked() {
    assert_eq!(
        Factory::from_image(vec![0; 5]).err().unwrap(),
        "Unified factory image must be exactly 1 MiB"
    );
}

#[test]
fn unedited_image_is_saved_unchanged() {
    let d = full_image();
    let f = Factory::from_image(d.clone()).unwrap();
    assert!(f.encode().unwrap() == d);
}

#[test]
fn saving_writes_identity_only() {
    let before = full_image();
    let mut f = Factory::from_image(before.clone()).unwrap();
    f.mac = "02-00-00-00-00-0a".to_string();
    f.wifi_mac2 = "020000000003".to_string();
    f.pon_sn = "ABCD00000001".to_string();
    f.device_sn = "new".to_string();
    let after = f.encode().unwrap();
    for i in 0..FACTORY_SIZE {
        let identity = (0x2000..0x2006).contains(&i)
            || (0x2010..0x2018).contains(&i)
            || (0x2020..0x2040).contains(&i)
            || (0x100a..0x1010).contains(&i);
        assert!(identity || before[i] == after[i]);
    }
    let g = Factory::from_image(after.clone()).unwrap();
    assert_eq!(g.mac, "02:00:00:00:00:0A");
    assert_eq!(g.wifi_mac, "02:00:00:00:00:01");
    assert_eq!(g.wifi_mac2, "02:00:00:00:00:03");
    assert_eq!(g.pon_sn, "ABCD00000001");
    assert_eq!(g.device_sn, "new");
    assert!(g.encode().unwrap() == after);
    f.device_sn = String::new();
    assert_eq!(&f.encode().unwrap()[0x2020..0x2040], &[0; 32]);
}

#[test]
fn invalid_identities_are_not_saved() {
    let of = |edit: fn(&mut Factory)| {
        let mut f = Factory::from_image(full_image()).unwrap();
        edit(&mut f);
        f.encode().err().unwrap()
    };
    assert_eq!(of(|f| f.mac.clear()), "Invalid base MAC length in identity");
    assert_eq!(
        of(|f| f.mac = "03:00:00:00:00:00".to_string()),
        "Invalid base MAC in identity"
    );
    assert_eq!(of(|f| f.pon_sn.clear()), "Invalid GponSN length in PON SN");
    assert_eq!(of(|f| f.wifi_mac.clear()), "2.4 GHz MAC cannot be empty");
    assert_eq!(
        of(|f| f.wifi_mac2 = "x".to_string()),
        "Invalid 5 GHz MAC length in identity"
    );
    assert_eq!(
        of(|f| f.device_sn = "é".to_string()),
        "Invalid SerialNumber in identity"
    );
    let erased = Factory::from_image(vec![0xff; FACTORY_SIZE]).unwrap();
    assert_eq!(erased.mac, "FF:FF:FF:FF:FF:FF");
    assert_eq!(erased.encode().unwrap_err(), "Invalid base MAC in identity");
}

#[test]
fn replaced_part_is_valid() {
    let before = full_image();
    let mut f = Factory::from_image(before.clone()).unwrap();
    f.replace(Part::Pon, "t.bin", &bdbob(0x2e)).unwrap();
    assert!(
        f.part_status(Part::Pon)
            == (PartStatus::Pon {
                chip: PonCalibrationChip::Ux3363,
                payload_length: 0x780,
            })
    );
    let mut wifi = eeprom();
    wifi[9] = 7;
    wifi[15] = 8;
    f.replace(Part::Wifi, "w.bin", &wifi).unwrap();
    assert_eq!(f.wifi_mac, "02:00:00:00:00:07");
    assert_eq!(f.wifi_mac2, "02:00:00:00:00:08");
    let after = f.encode().unwrap();
    assert_eq!(&after[0x1000..0x2000], &wifi[..]);
    assert!(after[0x2000..] == before[0x2000..]);
    assert!(after[0x800..0x1000] == before[0x800..0x1000]);
}

#[test]
fn refused_replacement_changes_nothing() {
    let mut f = Factory::from_image(full_image()).unwrap();
    assert_eq!(
        f.replace(Part::Wifi, "w", &[0; 4]).unwrap_err(),
        "Wi-Fi EEPROM must be exactly 4096 bytes"
    );
    assert_eq!(
        f.replace(Part::Wifi, "w", &[0; 4096]).unwrap_err(),
        "Invalid MT7916 device ID in Wi-Fi EEPROM"
    );
    assert_eq!(
        f.replace(Part::Pon, "p.bin", &[0; 4]).unwrap_err(),
        "PON BDBOB p.bin is 4 bytes; expected 2048"
    );
    assert!(f.encode().unwrap() == full_image());
}

#[test]
fn exported_part_goes_back() {
    let mut f = Factory::from_image(full_image()).unwrap();
    for p in [Part::Pon, Part::Wifi] {
        let data = f.part(p).to_vec();
        f.clear(p);
        assert!(f.part_status(p) == PartStatus::Empty);
        f.replace(p, "export.bin", &data).unwrap();
        assert_eq!(f.part(p), &data[..]);
    }
    assert!(f.encode().unwrap() == full_image());
}

#[test]
fn cleared_part_is_empty() {
    let mut f = Factory::from_image(full_image()).unwrap();
    f.clear(Part::Wifi);
    assert!(!f.part_present(Part::Wifi));
    assert!(f.part_present(Part::Pon));
    assert_eq!(f.wifi_mac, "");
    let d = f.encode().unwrap();
    assert!(d[0x1000..0x2000].iter().all(|b| *b == 0xff));
    assert!(d[0x2000..] == full_image()[0x2000..]);
}

#[test]
fn broken_part_is_invalid() {
    let mut d = full_image();
    d[0x80] ^= 1;
    d[0x1000] ^= 1;
    let f = Factory::from_image(d).unwrap();
    assert!(f.part_status(Part::Pon) == PartStatus::Invalid);
    assert!(f.part_status(Part::Wifi) == PartStatus::Invalid);
}

#[test]
fn stock_files_make_an_image() {
    let f = Factory::from_files(&stock_files()).unwrap();
    assert_eq!(f.mac, "02:11:22:33:44:54");
    assert_eq!(f.pon_sn, "FHTT12345678");
    assert_eq!(f.device_sn, "SN 0042");
    assert_eq!(f.wifi_mac, "02:00:00:00:00:01");
    assert_eq!(f.part(Part::Wifi), &eeprom()[..]);
    let d = f.encode().unwrap();
    assert_eq!(&d[0x80..0x800], &bdbob(0x2e)[0x80..]);
    assert!(d[0x800..0x1000].iter().all(|b| *b == 0xff));
    assert!(d[0x2040..].iter().all(|b| *b == 0xff));
}

#[test]
fn stock_files_without_calibration_leave_it_erased() {
    let mut files = Files::new();
    files.insert("factory_conf".to_string(), CONF.as_bytes().to_vec());
    let f = Factory::from_files(&files).unwrap();
    assert!(f.part_status(Part::Pon) == PartStatus::Empty);
    assert!(f.part_status(Part::Wifi) == PartStatus::Empty);
}

#[test]
fn stock_files_are_checked() {
    let with = |name: &str, data: &[u8]| {
        let mut files = stock_files();
        files.insert(name.to_string(), data.to_vec());
        Factory::from_files(&files).err().unwrap()
    };
    assert_eq!(
        Factory::from_files(&Files::new()).err().unwrap(),
        "Stock image has no factory_conf"
    );
    assert_eq!(with("factory_conf", b""), "factory_conf is missing brmac");
    assert_eq!(
        with("factory_conf", b"config key 'brmac'\noption value '02:11:22:33:44:54'"),
        "factory_conf is missing GponSN"
    );
    assert_eq!(
        with("factory_conf", b"config key 'brmac'\noption value '2'"),
        "Invalid brmac length in factory_conf"
    );
    let mut long = CONF.to_string();
    long.push_str("option value '012345678901234567890123456789012'\n");
    assert_eq!(
        with("factory_conf", long.as_bytes()),
        "Invalid SerialNumber in factory_conf"
    );
    assert_eq!(with("table", b"x"), "PON BDBOB table is 1 bytes; expected 2048");
    assert_eq!(
        with("wlan/AX3000_RT30xxEEPROM_5.bin", b"x"),
        "MT7916 EEPROM Wi-Fi EEPROM is shorter than 4096 bytes"
    );
}

fn put_u32(data: &mut [u8], offset: usize, value: u32) {
    data[offset..offset + 4].copy_from_slice(&value.to_le_bytes());
}

/// A JFFS2 image that holds `factory_conf` alone.
fn jffs2_image(conf: &[u8]) -> Vec<u8> {
    let name = b"factory_conf";
    let mut dent = vec![0; 40 + name.len()];
    put_u32(&mut dent, 0, 0xe001_1985);
    put_u32(&mut dent, 4, 40 + name.len() as u32);
    put_u32(&mut dent, 12, 1);
    put_u32(&mut dent, 20, 8);
    dent[28] = name.len() as u8;
    dent[40..].copy_from_slice(name);
    let sum = crc32_register(&dent[..8], 0);
    put_u32(&mut dent, 8, sum);
    let sum = crc32_register(&dent[..32], 0);
    put_u32(&mut dent, 32, sum);
    put_u32(&mut dent, 36, crc32_register(name, 0));
    let mut inode = vec![0; 68 + conf.len()];
    put_u32(&mut inode, 0, 0xe002_1985);
    put_u32(&mut inode, 4, 68 + conf.len() as u32);
    put_u32(&mut inode, 12, 8);
    put_u32(&mut inode, 20, 0x81a4);
    put_u32(&mut inode, 28, conf.len() as u32);
    put_u32(&mut inode, 48, conf.len() as u32);
    put_u32(&mut inode, 52, conf.len() as u32);
    inode[68..].copy_from_slice(conf);
    let sum = crc32_register(&inode[..8], 0);
    put_u32(&mut inode, 8, sum);
    put_u32(&mut inode, 60, crc32_register(conf, 0));
    let sum = crc32_register(&inode[..60], 0);
    put_u32(&mut inode, 64, sum);
    dent.extend(inode);
    dent
}

#[test]
fn sources_are_opened() {
    let o = Factory::open(Source::Directory(stock_files())).unwrap();
    assert!(o.source_is_stock);
    assert!(o.warning.is_none());
    let o = Factory::open(Source::Image(full_image())).unwrap();
    assert!(!o.source_is_stock);
    assert!(o.warning.is_none());
    assert_eq!(o.factory.pon_sn, "FHTT12345678");
    let mut d = jffs2_image(CONF.as_bytes());
    let o = Factory::open(Source::Image(d.clone())).unwrap();
    assert!(o.source_is_stock);
    assert!(o.warning.is_none());
    assert_eq!(o.factory.mac, "02:11:22:33:44:54");
    // A damaged copy behind the intact one.
    let mut copy = jffs2_image(CONF.as_bytes());
    let last = copy.len() - 1;
    copy[last] ^= 1;
    while d.len() % 4 != 0 {
        d.push(0xff);
    }
    d.extend(copy);
    let o = Factory::open(Source::Image(d)).unwrap();
    assert!(o.warning == Some(ImportWarning::DamagedJffs2));
    assert_eq!(
        Factory::open(Source::Image(vec![1])).err().unwrap(),
        "Unified factory image must be exactly 1 MiB"
    );
}

#[test]
fn saved_file_opens() {
    let mut f = Factory::open(Source::Directory(stock_files())).unwrap().factory;
    f.mac = "020000000009".to_string();
    let file = f.encode().unwrap();
    let o = Factory::open(Source::Image(file)).unwrap();
    assert!(!o.source_is_stock);
    assert_eq!(o.factory.mac, "02:00:00:00:00:09");
    assert_eq!(o.factory.device_sn, "SN 0042");
}

#[test]
fn lines_of_the_identity_are_set() {
    let mut f = Factory::from_image(full_image()).unwrap();
    f.set_field(Field::Mac, "a".to_string());
    f.set_field(Field::WifiMac, "b".to_string());
    f.set_field(Field::WifiMac2, "c".to_string());
    f.set_field(Field::PonSn, "d".to_string());
    assert_eq!((f.mac, f.wifi_mac, f.wifi_mac2, f.pon_sn), (
        "a".to_string(),
        "b".to_string(),
        "c".to_string(),
        "d".to_string(),
    ));
}

#[test]
fn reading_is_described() {
    assert_eq!(
        stock_file_names(),
        ["table", "factory_conf", "wlan/AX3000_RT30xxEEPROM_5.bin"]
    );
    assert_eq!(
        unreadable("image", "a.bin", "no such file"),
        "Unable to read image a.bin: no such file"
    );
}

#[test]
fn one_wifi_mac_in_an_erased_part_shows_the_other_erased() {
    let mut f = Factory::blank("02:00:00:00:00:01".to_string(), "FHTT00000001".to_string());
    f.wifi_mac = "020000000002".to_string();
    let g = Factory::from_image(f.encode().unwrap()).unwrap();
    assert_eq!(g.wifi_mac, "02:00:00:00:00:02");
    assert_eq!(g.wifi_mac2, "FF:FF:FF:FF:FF:FF");
    f.wifi_mac2 = "020000000003".to_string();
    let g = Factory::from_image(f.encode().unwrap()).unwrap();
    assert_eq!(g.wifi_mac, "02:00:00:00:00:02");
    assert_eq!(g.wifi_mac2, "02:00:00:00:00:03");
}

#[test]
fn draws_make_an_identity_or_give_their_error() {
    assert_eq!(
        mac_from_draw(Ok(vec![0xff, 1, 2, 3, 4, 5])).unwrap(),
        "FE:01:02:03:04:05"
    );
    assert_eq!(mac_from_draw(Err("no entropy".to_string())).unwrap_err(), "no entropy");
    assert_eq!(serial_from_draw(Ok(vec![1, 2, 3, 4])).unwrap(), "FHTT01020304");
    assert_eq!(
        serial_from_draw(Err("none".to_string())).unwrap_err(),
        "none"
    );
    let mac = || Ok("02:00:00:00:00:01".to_string());
    let sn = || Ok("FHTT00000001".to_string());
    assert_eq!(Factory::from_draws(mac(), sn()).unwrap().pon_sn, "FHTT00000001");
    assert_eq!(
        Factory::from_draws(Err("first".to_string()), Err("second".to_string())).err().unwrap(),
        "first"
    );
    assert_eq!(
        Factory::from_draws(mac(), Err("second".to_string())).err().unwrap(),
        "second"
    );
}
