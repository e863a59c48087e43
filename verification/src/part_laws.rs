//! Which calibration data and Wi-Fi data is accepted, what it is converted to, and what an image
//! made of stock files holds.

use vstd::prelude::*;

use crate::bytes;
use crate::calibration;
use crate::calibration::PonCalibrationChip;
use crate::conf;
use crate::crc;
use crate::identity;
use crate::import;
use crate::jffs2;
use crate::model;
use crate::model::{FactoryModel, ImportWarning, OpenedModel, Part, PartStatus, Source};
use crate::save_laws;
use crate::ubi;

verus! {

/// The 32-bit little-endian value at offset `o`.
pub open spec fn le(d: Seq<u8>, o: int) -> int {
    bytes::le_value(d.subrange(o, o + 4)) as int
}

/// The 16-bit little-endian value at offset `o`.
pub open spec fn le_half(d: Seq<u8>, o: int) -> int {
    bytes::le_value(d.subrange(o, o + 2)) as int
}

/// `sum` is the complement of the register after `d`, started from `initial`.
pub open spec fn complements(d: Seq<u8>, initial: u32, sum: int) -> bool {
    crc::register(d, initial) + sum == 0xffff_ffff
}

proof fn lemma_complement(c: u32, sum: u32)
    ensures
        c ^ 0xffff_ffff == sum <==> c + sum == 0xffff_ffff,
{
    assert(c ^ 0xffff_ffff == 0xffff_ffff - c) by (bit_vector);
}

/// The number by which a container names a chip.
pub open spec fn chip_number(chip: PonCalibrationChip) -> int {
    match chip {
        PonCalibrationChip::Gn28l95 => 1,
        PonCalibrationChip::Ux3363 => 2,
    }
}

/// The letters `APONCAL` and a zero byte begin the data.
pub open spec fn begins_container(d: Seq<u8>) -> bool {
    &&& d.len() >= 8
    &&& d[0] == 0x41 && d[1] == 0x50 && d[2] == 0x4f && d[3] == 0x4e
    &&& d[4] == 0x43 && d[5] == 0x41 && d[6] == 0x4c && d[7] == 0
}

/// A calibration container of 2048 bytes for this chip, with a payload of `length` bytes: version
/// 1, a header of 128 bytes, format 1, and both checksums as they must be.
pub open spec fn is_container(d: Seq<u8>, chip: PonCalibrationChip, length: int) -> bool {
    &&& d.len() == 0x800
    &&& begins_container(d)
    &&& le_half(d, 8) == 1 && le_half(d, 10) == 0x80
    &&& le(d, 12) == chip_number(chip)
    &&& le(d, 16) == 1
    &&& le(d, 20) == length && 0 <= length <= 1920
    &&& complements(d.take(0x7c), 0xffff_ffff, le(d, 0x7c))
    &&& complements(d.subrange(0x80, 0x80 + length), 0xffff_ffff, le(d, 24))
}

proof fn lemma_magic(d: Seq<u8>)
    ensures
        bytes::begins(d, calibration::container_magic()) == begins_container(d),
{
    let m = calibration::container_magic();
    assert(m.len() == 8);
    if d.len() >= 8 {
        if begins_container(d) {
            assert(d.take(8) =~= m);
        }
        if d.take(8) == m {
            assert forall|i: int| 0 <= i < 8 implies d[i] == m[i] by {
                assert(d.take(8)[i] == d[i]);
            }
        }
    }
}

/// A calibration container is accepted exactly where it is one, and says its chip and its length.
pub proof fn containers_are_accepted(
    source: Seq<char>,
    d: Seq<u8>,
    chip: PonCalibrationChip,
    length: int,
)
    ensures
        calibration::parsed(source, d) == Ok::<(PonCalibrationChip, int), Seq<char>>((chip, length))
            <==> is_container(d, chip, length),
{
    lemma_magic(d);
    if d.len() == 0x800 {
        bytes::lemma_le2(d.subrange(8, 10));
        bytes::lemma_le2(d.subrange(10, 12));
        bytes::lemma_le4(d.subrange(12, 16));
        bytes::lemma_le4(d.subrange(16, 20));
        bytes::lemma_le4(d.subrange(20, 24));
        bytes::lemma_le4(d.subrange(24, 28));
        bytes::lemma_le4(d.subrange(0x7c, 0x80));
        lemma_complement(
            crc::register(d.take(0x7c), 0xffff_ffff),
            bytes::le_value(d.subrange(0x7c, 0x80)) as u32,
        );
        let n = bytes::le_value(d.subrange(20, 24)) as int;
        lemma_complement(
            crc::register(d.subrange(0x80, 0x80 + n), 0xffff_ffff),
            bytes::le_value(d.subrange(24, 28)) as u32,
        );
    }
}

/// The letters `fiberhomebdbob` begin the data.
pub open spec fn begins_table(d: Seq<u8>) -> bool {
    &&& d.len() >= 14
    &&& d[0] == 0x66 && d[1] == 0x69 && d[2] == 0x62 && d[3] == 0x65 && d[4] == 0x72
    &&& d[5] == 0x68 && d[6] == 0x6f && d[7] == 0x6d && d[8] == 0x65
    &&& d[9] == 0x62 && d[10] == 0x64 && d[11] == 0x62 && d[12] == 0x6f && d[13] == 0x62
}

/// A stock calibration table: 2048 bytes, of which 1920 behind the header, with both checksums as
/// they must be.
pub open spec fn is_table(d: Seq<u8>) -> bool {
    &&& d.len() == 0x800
    &&& begins_table(d)
    &&& le(d, 0x70) == 0x780 && le(d, 0x78) == 0x80
    &&& complements(d.take(0x7c), 0, le(d, 0x7c))
    &&& complements(d.skip(0x80), 0, le(d, 0x74))
}

/// A stock calibration table is accepted exactly where it is one.
pub proof fn tables_are_accepted(source: Seq<char>, d: Seq<u8>)
    ensures
        calibration::bdbob_checked(source, d) is Ok <==> is_table(d),
{
    let m = calibration::bdbob_magic();
    assert(m.len() == 14);
    if d.len() == 0x800 {
        if begins_table(d) {
            assert(d.take(14) =~= m);
        }
        if d.take(14) == m {
            assert forall|i: int| 0 <= i < 14 implies d[i] == m[i] by {
                assert(d.take(14)[i] == d[i]);
            }
        }
        bytes::lemma_le4(d.subrange(0x70, 0x74));
        bytes::lemma_le4(d.subrange(0x74, 0x78));
        bytes::lemma_le4(d.subrange(0x78, 0x7c));
        bytes::lemma_le4(d.subrange(0x7c, 0x80));
        lemma_complement(
            crc::register(d.take(0x7c), 0),
            bytes::le_value(d.subrange(0x7c, 0x80)) as u32,
        );
        lemma_complement(
            crc::register(d.skip(0x80), 0),
            bytes::le_value(d.subrange(0x74, 0x78)) as u32,
        );
    }
}

/// A stock table names its chip by the byte at 0x30.
pub open spec fn names_chip(d: Seq<u8>, chip: PonCalibrationChip) -> bool {
    match chip {
        PonCalibrationChip::Gn28l95 => d[0x30] == 0 || d[0x30] == 0x28,
        PonCalibrationChip::Ux3363 => d[0x30] == 0x2e,
    }
}

/// A stock table converts to a container for the chip that it names, which holds the table's own
/// data; a container is left as it is. Nothing else is accepted.
pub proof fn tables_convert_to_containers(source: Seq<char>, d: Seq<u8>, chip: PonCalibrationChip)
    ensures
        is_table(d) && names_chip(d, chip) ==> (calibration::normalized(source, d) matches Ok(c)
            && is_container(c, chip, 1920) && c.skip(0x80) == d.skip(0x80)),
        forall|length: int| #[trigger]
            is_container(d, chip, length) ==> calibration::normalized(source, d) == Ok::<
                Seq<u8>,
                Seq<char>,
            >(d),
        calibration::normalized(source, d) is Ok ==> {
            ||| is_table(d) && names_chip(d, PonCalibrationChip::Gn28l95)
            ||| is_table(d) && names_chip(d, PonCalibrationChip::Ux3363)
            ||| exists|c: PonCalibrationChip, length: int| #[trigger] is_container(d, c, length)
        },
{
    lemma_magic(d);
    tables_are_accepted(source, d);
    if is_table(d) && names_chip(d, chip) {
        let payload = d.skip(0x80);
        let c = calibration::container(chip, payload);
        calibration::container_reads_back(source, chip, payload);
        containers_are_accepted(source, c, chip, 1920);
        assert(c.skip(0x80) =~= c.subrange(0x80, 0x800));
    }
    assert forall|length: int| #[trigger] is_container(
        d,
        chip,
        length,
    ) implies calibration::normalized(source, d) == Ok::<Seq<u8>, Seq<char>>(d) by {
        containers_are_accepted(source, d, chip, length);
    }
    if begins_container(d) && calibration::normalized(source, d) is Ok {
        let (c, length) = calibration::parsed(source, d)->Ok_0;
        containers_are_accepted(source, d, c, length);
        assert(is_container(d, c, length));
    }
}

/// A payload of at most 1920 bytes is put into a container for its chip; a longer one is refused.
pub proof fn payloads_are_contained(chip: PonCalibrationChip, payload: Seq<u8>)
    ensures
        payload.len() > 1920 ==> calibration::encoded(chip, payload) is Err,
        payload.len() <= 1920 ==> (calibration::encoded(chip, payload) matches Ok(c) && {
            &&& is_container(c, chip, payload.len() as int)
            &&& c.subrange(0x80, 0x80 + payload.len() as int) == payload
            &&& forall|i: int| 0x1c <= i < 0x7c ==> #[trigger] c[i] == 0
            &&& forall|i: int| 0x80 + payload.len() <= i < 0x800 ==> #[trigger] c[i] == 0xff
        }),
{
    if payload.len() <= 1920 {
        let c = calibration::container(chip, payload);
        calibration::container_reads_back(""@, chip, payload);
        containers_are_accepted(""@, c, chip, payload.len() as int);
        let body = calibration::header_body(chip, payload);
        assert(body.len() == 0x7c);
        assert forall|i: int| 0x1c <= i < 0x7c implies #[trigger] c[i] == 0 by {
            assert(c[i] == body[i]);
        }
    }
}

/// Wi-Fi data: at least 4096 bytes that begin with the device number 0x7916.
pub open spec fn is_wifi_data(d: Seq<u8>) -> bool {
    d.len() >= 0x1000 && d[0] == 0x16 && d[1] == 0x79
}

/// Wi-Fi data is accepted exactly where it is, and its first 4096 bytes are taken.
pub proof fn wifi_data_is_accepted(source: Seq<char>, d: Seq<u8>)
    ensures
        is_wifi_data(d) ==> identity::eeprom_read(source, d) == Ok::<Seq<u8>, Seq<char>>(
            d.take(0x1000),
        ),
        !is_wifi_data(d) ==> identity::eeprom_read(source, d) is Err,
{
    if d.len() >= 0x1000 {
        bytes::lemma_le2(d.take(2));
        assert(d.take(2)[0] == d[0] && d.take(2)[1] == d[1]);
    }
}

/// What is said of a part: it is empty where every byte of it is erased; it is valid, with its
/// chip and length, where it holds a container or Wi-Fi data; all else is invalid. The PON part is
/// the first 2048 bytes of the image, the Wi-Fi part the 4096 bytes at 0x1000.
pub proof fn status_says_what_is_there(image: Seq<u8>, chip: PonCalibrationChip, length: usize)
    requires
        image.len() == 0x10_0000,
    ensures
        ({
            let pon = image.subrange(0, 0x800);
            let wifi = image.subrange(0x1000, 0x2000);
            let s = model::status_in(image, Part::Pon);
            let t = model::status_in(image, Part::Wifi);
            &&& model::part_of(image, Part::Pon) == pon
            &&& model::part_of(image, Part::Wifi) == wifi
            &&& s == PartStatus::Empty <==> bytes::all_are(pon, 0xff)
            &&& s == (PartStatus::Pon { chip, payload_length: length }) <==> is_container(
                pon,
                chip,
                length as int,
            )
            &&& t == PartStatus::Empty <==> bytes::all_are(wifi, 0xff)
            &&& t == (PartStatus::Wifi { length: 4096 }) <==> is_wifi_data(wifi)
            &&& !bytes::all_are(wifi, 0xff) && !is_wifi_data(wifi) <==> t == PartStatus::Invalid
        }),
{
    let pon = image.subrange(0, 0x800);
    let wifi = image.subrange(0x1000, 0x2000);
    containers_are_accepted("PON calibration"@, pon, chip, length as int);
    if let Ok((c, n)) = calibration::parsed("PON calibration"@, pon) {
        containers_are_accepted("PON calibration"@, pon, c, n);
    }
    wifi_data_is_accepted("Wi-Fi EEPROM"@, wifi);
}

/// A part is replaced wherever the data for it is valid: a container, a stock table that converts
/// to one, or exactly 4096 bytes of Wi-Fi data. The image then holds that data.
pub proof fn valid_data_replaces_part(
    f: FactoryModel,
    source: Seq<char>,
    d: Seq<u8>,
    chip: PonCalibrationChip,
    length: int,
)
    requires
        f.image.len() == 0x10_0000,
    ensures
        is_container(d, chip, length) ==> (model::replaced(f, Part::Pon, source, d) matches Ok(g)
            && g.image.subrange(0, 0x800) == d),
        is_table(d) && names_chip(d, chip) ==> (model::replaced(f, Part::Pon, source, d) matches Ok(
            g,
        ) && is_container(g.image.subrange(0, 0x800), chip, 1920) && g.image.subrange(0x80, 0x800)
            == d.skip(0x80)),
        is_wifi_data(d) && d.len() == 0x1000 ==> (model::replaced(f, Part::Wifi, source, d) matches
            Ok(g) && g.image.subrange(0x1000, 0x2000) == d && g.wifi_mac == identity::mac_text(
            d.subrange(4, 10),
        ) && g.wifi_mac2 == identity::mac_text(d.subrange(10, 16))),
        !(is_wifi_data(d) && d.len() == 0x1000) ==> model::replaced(f, Part::Wifi, source, d) is Err,
{
    tables_convert_to_containers(source, d, chip);
    wifi_data_is_accepted("Wi-Fi EEPROM"@, d);
    if is_container(d, chip, length) {
        containers_are_accepted("PON calibration"@, d, chip, length);
        let g = model::replaced(f, Part::Pon, source, d)->Ok_0;
        assert(g.image.subrange(0, 0x800) =~= d);
    } else if is_table(d) && names_chip(d, chip) {
        let c = calibration::normalized(source, d)->Ok_0;
        containers_are_accepted("PON calibration"@, c, chip, 1920);
        let g = model::replaced(f, Part::Pon, source, d)->Ok_0;
        assert(g.image.subrange(0, 0x800) =~= c);
        assert(g.image.subrange(0x80, 0x800) =~= c.skip(0x80));
    }
    if is_wifi_data(d) && d.len() == 0x1000 {
        let g = model::replaced(f, Part::Wifi, source, d)->Ok_0;
        assert(g.image.subrange(0x1000, 0x2000) =~= d);
    }
}

/// The PON part that a stock image gives: the file `table` as a container, or nothing.
pub open spec fn gives_pon(files: Map<Seq<char>, Seq<u8>>, pon: Seq<u8>) -> bool {
    if files.contains_key("table"@) {
        calibration::normalized("table"@, files["table"@]) == Ok::<Seq<u8>, Seq<char>>(pon)
    } else {
        pon == bytes::repeated(0x800, 0xff)
    }
}

/// The Wi-Fi part that a stock image gives: the first 4096 bytes of the file of Wi-Fi data, or
/// nothing.
pub open spec fn gives_wifi(files: Map<Seq<char>, Seq<u8>>, wifi: Seq<u8>) -> bool {
    let name = "wlan/AX3000_RT30xxEEPROM_5.bin"@;
    if files.contains_key(name) {
        is_wifi_data(files[name]) && wifi == files[name].take(0x1000)
    } else {
        wifi == bytes::repeated(0x1000, 0xff)
    }
}

/// The identity that the fields of `factory_conf` give: the MAC address `brmac`, the PON serial
/// number `GponSN` in digits, and the device serial number `SerialNumber`, whose field stays erased
/// where there is none.
pub open spec fn gives_identity(
    fields: Map<Seq<char>, Seq<char>>,
    mac: Seq<u8>,
    sn: Seq<u8>,
    device: Seq<u8>,
) -> bool {
    &&& fields.contains_key("brmac"@)
    &&& save_laws::spells(fields["brmac"@], mac) && save_laws::is_station(mac)
    &&& fields.contains_key("GponSN"@)
    &&& save_laws::gives_plain_serial(fields["GponSN"@], sn)
    &&& if fields.contains_key("SerialNumber"@) && fields["SerialNumber"@].len() > 0 {
        save_laws::is_serial_field(fields["SerialNumber"@], device)
    } else {
        device == bytes::repeated(32, 0xff)
    }
}

/// The place of a byte that stock files may give.
pub open spec fn is_given(i: int) -> bool {
    ||| 0 <= i < 0x800
    ||| 0x1000 <= i < 0x2006
    ||| 0x2010 <= i < 0x2018
    ||| 0x2020 <= i < 0x2040
}

proof fn lemma_parts_image(files: Map<Seq<char>, Seq<u8>>, pon: Seq<u8>, wifi: Seq<u8>)
    requires
        gives_pon(files, pon),
        gives_wifi(files, wifi),
    ensures
        pon.len() == 0x800,
        wifi.len() == 0x1000,
        model::parts_image(files) == Ok::<Seq<u8>, Seq<char>>(
            bytes::splice(
                bytes::splice(bytes::repeated(0x10_0000, 0xff), 0, pon),
                0x1000,
                wifi,
            ),
        ),
{
    let erased = bytes::repeated(0x10_0000, 0xff);
    let name = "wlan/AX3000_RT30xxEEPROM_5.bin"@;
    if files.contains_key("table"@) {
        calibration::normalized_is_a_container("table"@, "table"@, files["table"@]);
    } else {
        assert(bytes::splice(erased, 0, pon) =~= erased);
    }
    let image = bytes::splice(erased, 0, pon);
    if files.contains_key(name) {
        wifi_data_is_accepted("Wi-Fi EEPROM"@, files[name]);
    } else {
        assert(bytes::splice(image, 0x1000, wifi) =~= image);
    }
}

proof fn lemma_conf_identity(
    image: Seq<u8>,
    fields: Map<Seq<char>, Seq<char>>,
    mac: Seq<u8>,
    sn: Seq<u8>,
    device: Seq<u8>,
)
    requires
        image.len() == 0x10_0000,
        gives_identity(fields, mac, sn, device),
        image.subrange(0x2020, 0x2040) == bytes::repeated(32, 0xff),
    ensures
        device.len() == 32,
        model::identified_image(image, fields) == Ok::<Seq<u8>, Seq<char>>(
            bytes::splice(
                bytes::splice(bytes::splice(image, 0x2000, mac), 0x2010, sn),
                0x2020,
                device,
            ),
        ),
{
    let b = fields["brmac"@];
    let g = fields["GponSN"@];
    save_laws::lemma_bare(b);
    save_laws::lemma_bare(g);
    save_laws::station_addresses_are_read("factory_conf"@, "brmac"@, b, mac);
    save_laws::spelled_bytes_are_read("factory_conf"@, "GponSN"@, g, sn);
    let named = bytes::splice(bytes::splice(image, 0x2000, mac), 0x2010, sn);
    if fields.contains_key("SerialNumber"@) && fields["SerialNumber"@].len() > 0 {
        save_laws::serial_text_fills_field("factory_conf"@, fields["SerialNumber"@], device);
    } else {
        assert(named.subrange(0x2020, 0x2040) =~= device);
        assert(bytes::splice(named, 0x2020, device) =~= named);
    }
}

/// Stock files make an image wherever they give an identity and their parts are valid. It holds
/// each part and the identity in their places, and is erased everywhere else.
pub proof fn stock_files_make_image(
    files: Map<Seq<char>, Seq<u8>>,
    fields: Map<Seq<char>, Seq<char>>,
    pon: Seq<u8>,
    wifi: Seq<u8>,
    mac: Seq<u8>,
    sn: Seq<u8>,
    device: Seq<u8>,
)
    requires
        files.contains_key("factory_conf"@),
        conf::conf_fields("factory_conf"@, files["factory_conf"@]) == Ok::<
            Map<Seq<char>, Seq<char>>,
            Seq<char>,
        >(fields),
        gives_pon(files, pon),
        gives_wifi(files, wifi),
        gives_identity(fields, mac, sn, device),
    ensures
        model::files_image(files) matches Ok(image) && {
            &&& image.len() == 0x10_0000
            &&& image.subrange(0, 0x800) == pon
            &&& image.subrange(0x1000, 0x2000) == wifi
            &&& image.subrange(0x2000, 0x2006) == mac
            &&& image.subrange(0x2010, 0x2018) == sn
            &&& image.subrange(0x2020, 0x2040) == device
            &&& forall|i: int|
                0 <= i < 0x10_0000 && !is_given(i) ==> #[trigger] image[i] == 0xff
        },
{
    lemma_parts_image(files, pon, wifi);
    let parts = bytes::splice(
        bytes::splice(bytes::repeated(0x10_0000, 0xff), 0, pon),
        0x1000,
        wifi,
    );
    assert(parts.subrange(0x2020, 0x2040) =~= bytes::repeated(32, 0xff));
    lemma_conf_identity(parts, fields, mac, sn, device);
    let image = bytes::splice(
        bytes::splice(bytes::splice(parts, 0x2000, mac), 0x2010, sn),
        0x2020,
        device,
    );
    assert(image.subrange(0, 0x800) =~= pon);
    assert(image.subrange(0x1000, 0x2000) =~= wifi);
    assert(image.subrange(0x2000, 0x2006) =~= mac);
    assert(image.subrange(0x2010, 0x2018) =~= sn);
    assert(image.subrange(0x2020, 0x2040) =~= device);
}

/// Stock files without an identity make no image.
pub proof fn stock_identity_is_required(files: Map<Seq<char>, Seq<u8>>)
    ensures
        model::files_image(files) is Ok ==> files.contains_key("factory_conf"@) && (
        conf::conf_fields("factory_conf"@, files["factory_conf"@]) matches Ok(fields) && {
            &&& fields.contains_key("brmac"@) && save_laws::bare(fields["brmac"@]).len() == 12
            &&& fields.contains_key("GponSN"@) && save_laws::bare(fields["GponSN"@]).len() == 16
        }),
{
    if let Ok(fields) = conf::conf_fields("factory_conf"@, files["factory_conf"@]) {
        save_laws::read_bytes_were_spelled("factory_conf"@, "brmac"@, fields["brmac"@], 6);
        save_laws::read_bytes_were_spelled("factory_conf"@, "GponSN"@, fields["GponSN"@], 8);
    }
}

/// The letters `UBI#` begin the data.
pub open spec fn begins_ubi(d: Seq<u8>) -> bool {
    d.len() >= 4 && d[0] == 0x55 && d[1] == 0x42 && d[2] == 0x49 && d[3] == 0x23
}

/// The bytes 85 19 begin the data.
pub open spec fn begins_jffs2(d: Seq<u8>) -> bool {
    d.len() >= 2 && d[0] == 0x85 && d[1] == 0x19
}

proof fn lemma_begins(d: Seq<u8>)
    ensures
        bytes::begins(d, ubi::ec_magic()) == begins_ubi(d),
        bytes::begins(d, import::jffs2_magic()) == begins_jffs2(d),
{
    if d.len() >= 4 {
        let four = d.take(4);
        if begins_ubi(d) {
            assert(four =~= ubi::ec_magic());
        }
        if four == ubi::ec_magic() {
            assert(four[0] == d[0] && four[1] == d[1] && four[2] == d[2] && four[3] == d[3]);
        }
    }
    if d.len() >= 2 {
        let two = d.take(2);
        if begins_jffs2(d) {
            assert(two =~= import::jffs2_magic());
        }
        if two == import::jffs2_magic() {
            assert(two[0] == d[0] && two[1] == d[1]);
        }
    }
}

/// What is made of stock files: their image with its identity, marked as stock data.
pub open spec fn imported(
    files: Map<Seq<char>, Seq<u8>>,
    warning: Option<ImportWarning>,
) -> Result<OpenedModel, Seq<char>> {
    match model::files_image(files) {
        Err(e) => Err(e),
        Ok(image) => Ok(
            OpenedModel { factory: model::shown(image), source_is_stock: true, warning },
        ),
    }
}

/// What a file opens as is told by how it begins: a UBI image, whose journal may call for a
/// warning, a JFFS2 image, whose damage may, or else a factory image of exactly 1 MiB.
pub proof fn beginning_tells_source(data: Vec<u8>, files: Map<Seq<char>, Seq<u8>>, flag: bool)
    ensures
        ({
            let r = model::opened(Source::Image(data));
            let some = Ok::<(Map<Seq<char>, Seq<u8>>, bool), Seq<char>>((files, flag));
            &&& begins_ubi(data@) && ubi::image_files(data@) == some ==> r == imported(
                files,
                if flag {
                    Some(ImportWarning::DirtyUbifs)
                } else {
                    None
                },
            )
            &&& begins_jffs2(data@) && jffs2::image_files(data@) == some ==> r == imported(
                files,
                if flag {
                    Some(ImportWarning::DamagedJffs2)
                } else {
                    None
                },
            )
            &&& begins_ubi(data@) && ubi::image_files(data@) is Err ==> r is Err
            &&& begins_jffs2(data@) && jffs2::image_files(data@) is Err ==> r is Err
            &&& !begins_ubi(data@) && !begins_jffs2(data@) && data@.len() == 0x10_0000 ==> r == Ok::<
                OpenedModel,
                Seq<char>,
            >(
                OpenedModel {
                    factory: model::shown(data@),
                    source_is_stock: false,
                    warning: None,
                },
            )
            &&& !begins_ubi(data@) && !begins_jffs2(data@) && data@.len() != 0x10_0000 ==> r is Err
        }),
{
    lemma_begins(data@);
}

/// The production files of a directory open as stock data, without a warning.
pub proof fn directories_open_as_stock(source: Source)
    ensures
        source matches Source::Directory(files) ==> model::opened(source) == imported(files@, None),
{
}

/// What files a stock image has is told by how it begins; what begins otherwise is none.
pub proof fn beginning_tells_format(d: Seq<u8>)
    ensures
        begins_ubi(d) ==> import::stock_files(d) == ubi::image_files(d),
        begins_jffs2(d) ==> import::stock_files(d) == jffs2::image_files(d),
        !begins_ubi(d) && !begins_jffs2(d) ==> import::stock_files(d) is Err,
{
    lemma_begins(d);
}

} // verus!
