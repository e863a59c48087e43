//! What holds of a factory as a whole: which bytes saving writes, and how saving, opening,
//! replacing and clearing go together.

use vstd::prelude::*;
use vstd::utf8::*;

use crate::bytes;
use crate::calibration;
use crate::conf;
use crate::identity;
use crate::import;
use crate::model;
use crate::model::{FactoryModel, OpenedModel, Part, PartStatus, Source};
use crate::ubi;

verus! {

/// The place of a byte that saving may write: the MAC address, the PON serial number, the device
/// serial number or a MAC address of the Wi-Fi part.
pub open spec fn is_identity(i: int) -> bool {
    ||| 0x2000 <= i < 0x2006
    ||| 0x2010 <= i < 0x2018
    ||| 0x2020 <= i < 0x2040
    ||| 0x1004 <= i < 0x1010
}

/// Saving gives a full image that differs from the loaded one in the identity alone. The
/// calibration data and all reserved bytes stay; the MAC addresses of the Wi-Fi part and the
/// device serial number stay unless they were edited.
pub proof fn saving_writes_identity_only(f: FactoryModel)
    requires
        f.image.len() == model::FACTORY_SIZE,
    ensures
        model::applied(f) matches Ok(image) ==> {
            &&& image.len() == model::FACTORY_SIZE
            &&& forall|i: int|
                0 <= i < image.len() && !is_identity(i) ==> image[i] == #[trigger] f.image[i]
            &&& model::part_of(image, Part::Pon) == model::part_of(f.image, Part::Pon)
            &&& f.wifi_mac == model::shown(f.image).wifi_mac ==> image.subrange(0x1004, 0x100a)
                == f.image.subrange(0x1004, 0x100a)
            &&& f.wifi_mac2 == model::shown(f.image).wifi_mac2 ==> image.subrange(0x100a, 0x1010)
                == f.image.subrange(0x100a, 0x1010)
            &&& f.device_sn == model::shown(f.image).device_sn ==> image.subrange(0x2020, 0x2040)
                == f.image.subrange(0x2020, 0x2040)
        },
{
    if let Ok(image) = model::applied(f) {
        assert(model::part_of(image, Part::Pon) =~= model::part_of(f.image, Part::Pon));
        if f.wifi_mac == model::shown(f.image).wifi_mac {
            assert(image.subrange(0x1004, 0x100a) =~= f.image.subrange(0x1004, 0x100a));
        }
        if f.wifi_mac2 == model::shown(f.image).wifi_mac2 {
            assert(image.subrange(0x100a, 0x1010) =~= f.image.subrange(0x100a, 0x1010));
        }
        if f.device_sn == model::shown(f.image).device_sn {
            assert(image.subrange(0x2020, 0x2040) =~= f.image.subrange(0x2020, 0x2040));
        }
    }
}

/// An image that was opened and not edited is saved as it was, provided that it has a device
/// address and a PON serial number; without them it is refused.
pub proof fn unedited_image_is_saved_unchanged(image: Seq<u8>)
    requires
        image.len() == model::FACTORY_SIZE,
    ensures
        ({
            let mac = image.subrange(0x2000, 0x2006);
            let sn = image.subrange(0x2010, 0x2018);
            let accepted = identity::is_station_address(mac) && !bytes::all_are(sn, 0)
                && !bytes::all_are(sn, 0xff);
            &&& accepted ==> model::applied(model::shown(image)) == Ok::<Seq<u8>, Seq<char>>(image)
            &&& !accepted ==> model::applied(model::shown(image)) is Err
        }),
{
    let f = model::shown(image);
    let mac = image.subrange(0x2000, 0x2006);
    let sn = image.subrange(0x2010, 0x2018);
    identity::shown_bytes_read_back("identity"@, "base MAC"@, mac);
    if identity::is_station_address(mac) {
        if bytes::all_are(sn, 0) || bytes::all_are(sn, 0xff) {
            assert(!identity::has_vendor(sn)) by {
                assert(!identity::is_alphanumeric(sn[0] as char));
            }
            identity::shown_bytes_read_back("PON SN"@, "GponSN"@, sn);
            assert(!identity::shows_vendor(f.pon_sn));
        } else {
            identity::shown_serial_reads_back(sn);
            let named = bytes::splice(bytes::splice(image, 0x2000, mac), 0x2010, sn);
            assert(named =~= image);
        }
    }
}

pub proof fn lemma_text_end(d: Seq<u8>, i: int, n: int)
    requires
        0 <= i <= n <= d.len(),
        forall|j: int| i <= j < n ==> #[trigger] d[j] != 0 && d[j] != 0xff,
        n < d.len() ==> d[n] == 0 || d[n] == 0xff,
    ensures
        model::text_end(d, i) == n,
    decreases n - i,
{
    if i < n {
        lemma_text_end(d, i + 1, n);
    }
}

/// A device serial number that was edited is shown as it was entered.
pub proof fn edited_serial_is_shown(value: Seq<char>)
    ensures
        model::edited_serial(value) matches Ok(field) ==> field.len() == 32
            && model::device_serial_text(field) == value,
{
    if let Ok(field) = model::edited_serial(value) {
        if value.len() == 0 {
            lemma_text_end(field, 0, 0);
            assert(field.take(0) =~= Seq::<u8>::empty());
            assert(encode_utf8(value) =~= Seq::<u8>::empty());
        } else {
            let serial = encode_utf8(value);
            let n = serial.len() as int;
            assert forall|j: int| 0 <= j < n implies #[trigger] field[j] != 0 && field[j]
                != 0xff by {
                assert(identity::is_printable(serial[j]));
            }
            lemma_text_end(field, 0, n);
            assert(field.take(n) =~= serial);
        }
        encode_utf8_valid_utf8(value);
        encode_utf8_decode_utf8(value);
    }
}

/// What a MAC address of the Wi-Fi part shows after saving.
pub open spec fn saved_mac(label: Seq<char>, value: Seq<char>, before: Seq<char>) -> Seq<char> {
    if value == before {
        value
    } else {
        identity::mac_text(identity::mac_read("identity"@, label, value)->Ok_0)
    }
}

/// The Wi-Fi part is erased, and just one of its two MAC addresses was entered.
pub open spec fn gets_one_wifi_mac(f: FactoryModel) -> bool {
    let before = model::shown(f.image);
    &&& !model::is_present(f.image, Part::Wifi)
    &&& (f.wifi_mac == before.wifi_mac) != (f.wifi_mac2 == before.wifi_mac2)
}

/// A saved image opens again with the identity that was saved, in the notation in which
/// identities are shown, and saving it once more changes nothing. The one thing that can show up
/// beside it: where an erased Wi-Fi part was given one MAC address alone, the erased bytes of the
/// other are shown too.
pub proof fn saved_image_opens_again(f: FactoryModel)
    requires
        f.image.len() == model::FACTORY_SIZE,
    ensures
        model::applied(f) matches Ok(image) ==> {
            let g = model::shown(image);
            let before = model::shown(f.image);
            &&& model::factory_in(image) == Ok::<FactoryModel, Seq<char>>(g)
            &&& g.mac == identity::mac_text(
                identity::mac_read("identity"@, "base MAC"@, f.mac)->Ok_0,
            )
            &&& g.pon_sn == identity::serial_text(identity::serial_read(f.pon_sn)->Ok_0)
            &&& g.device_sn == f.device_sn
            &&& !gets_one_wifi_mac(f) ==> {
                &&& g.wifi_mac == saved_mac("2.4 GHz MAC"@, f.wifi_mac, before.wifi_mac)
                &&& g.wifi_mac2 == saved_mac("5 GHz MAC"@, f.wifi_mac2, before.wifi_mac2)
            }
            &&& model::applied(g) == Ok::<Seq<u8>, Seq<char>>(image)
        },
{
    if let Ok(image) = model::applied(f) {
        let before = model::shown(f.image);
        let mac = identity::mac_read("identity"@, "base MAC"@, f.mac)->Ok_0;
        let sn = identity::serial_read(f.pon_sn)->Ok_0;
        saving_writes_identity_only(f);
        assert(sn.len() == 8);
        assert(image.subrange(0x2000, 0x2006) =~= mac);
        assert(image.subrange(0x2010, 0x2018) =~= sn);
        assert(!bytes::all_are(sn, 0) && !bytes::all_are(sn, 0xff)) by {
            if identity::shows_vendor(f.pon_sn) {
                assert(identity::is_alphanumeric(f.pon_sn[0]));
                assert(sn[0] == f.pon_sn[0] as u8);
            }
        }
        unedited_image_is_saved_unchanged(image);
        if before.device_sn != f.device_sn {
            edited_serial_is_shown(f.device_sn);
            let device = model::edited_serial(f.device_sn)->Ok_0;
            assert(image.subrange(0x2020, 0x2040) =~= device);
        }
        if !gets_one_wifi_mac(f) {
            lemma_wifi_presence(f);
            let a = identity::mac_read("identity"@, "2.4 GHz MAC"@, f.wifi_mac)->Ok_0;
            let b = identity::mac_read("identity"@, "5 GHz MAC"@, f.wifi_mac2)->Ok_0;
            if f.wifi_mac != before.wifi_mac {
                assert(image.subrange(0x1004, 0x100a) =~= a);
            }
            if f.wifi_mac2 != before.wifi_mac2 {
                assert(image.subrange(0x100a, 0x1010) =~= b);
            }
        }
    }
}

proof fn lemma_wifi_presence(f: FactoryModel)
    requires
        f.image.len() == model::FACTORY_SIZE,
        model::applied(f) is Ok,
    ensures
        ({
            let before = model::shown(f.image);
            let edited = f.wifi_mac != before.wifi_mac || f.wifi_mac2 != before.wifi_mac2;
            model::is_present(model::applied(f)->Ok_0, Part::Wifi) == (edited
                || model::is_present(f.image, Part::Wifi))
        }),
{
    let image = model::applied(f)->Ok_0;
    let before = model::shown(f.image);
    let was = model::part_of(f.image, Part::Wifi);
    let now = model::part_of(image, Part::Wifi);
    saving_writes_identity_only(f);
    if f.wifi_mac2 != before.wifi_mac2 {
        let b = identity::mac_read("identity"@, "5 GHz MAC"@, f.wifi_mac2)->Ok_0;
        let k = choose|k: int| 0 <= k < b.len() && b[k] != 0xff;
        assert(now[10 + k] == b[k]);
    } else if f.wifi_mac != before.wifi_mac {
        let a = identity::mac_read("identity"@, "2.4 GHz MAC"@, f.wifi_mac)->Ok_0;
        let k = choose|k: int| 0 <= k < a.len() && a[k] != 0xff;
        assert(now[4 + k] == a[k]);
    } else {
        assert(now =~= was);
    }
}

/// What replacing a part does: the part holds the new data, which is valid, and nothing else of
/// the image changes, nor anything of the identity but the MAC addresses of a Wi-Fi part.
pub proof fn replaced_part_is_valid(f: FactoryModel, p: Part, source: Seq<char>, d: Seq<u8>)
    requires
        f.image.len() == model::FACTORY_SIZE,
    ensures
        model::replaced(f, p, source, d) matches Ok(g) ==> {
            let data = model::prepared(p, source, d)->Ok_0;
            &&& g.image.len() == model::FACTORY_SIZE
            &&& data.len() == model::part_size(p)
            &&& model::part_of(g.image, p) == data
            &&& p == Part::Wifi ==> data == d
            &&& Ok::<PartStatus, Seq<char>>(model::status_in(g.image, p)) == model::inspected(
                p,
                data,
            )
            &&& model::status_in(g.image, p) != PartStatus::Empty
            &&& model::status_in(g.image, p) != PartStatus::Invalid
            &&& forall|i: int|
                0 <= i < g.image.len() && !(model::part_offset(p) <= i < model::part_offset(p)
                    + model::part_size(p)) ==> g.image[i] == #[trigger] f.image[i]
            &&& g.mac == f.mac && g.pon_sn == f.pon_sn && g.device_sn == f.device_sn
            &&& p == Part::Pon ==> g.wifi_mac == f.wifi_mac && g.wifi_mac2 == f.wifi_mac2
            &&& p == Part::Wifi ==> g.wifi_mac == model::shown(g.image).wifi_mac && g.wifi_mac2
                == model::shown(g.image).wifi_mac2
        },
{
    if let Ok(g) = model::replaced(f, p, source, d) {
        let data = model::prepared(p, source, d)->Ok_0;
        assert(model::part_of(g.image, p) =~= data);
        match p {
            Part::Pon => {
                assert(data[0] == data.take(8)[0]);
            },
            Part::Wifi => {
                bytes::lemma_le2(data.take(2));
                assert(data[0] == data.take(2)[0]);
                assert(data[1] == data.take(2)[1]);
                assert(!bytes::all_are(data, 0xff)) by {
                    assert(data[0] != 0xff || data[1] != 0xff);
                }
                assert(g.image.subrange(0x1004, 0x100a) =~= data.subrange(4, 10));
                assert(g.image.subrange(0x100a, 0x1010) =~= data.subrange(10, 16));
            },
        }
    }
}

/// A cleared part holds nothing, the rest of the image stays, and clearing it again changes
/// nothing.
pub proof fn cleared_part_is_empty(f: FactoryModel, p: Part)
    requires
        f.image.len() == model::FACTORY_SIZE,
    ensures
        ({
            let g = model::cleared(f, p);
            &&& g.image.len() == model::FACTORY_SIZE
            &&& model::status_in(g.image, p) == PartStatus::Empty
            &&& !model::is_present(g.image, p)
            &&& forall|i: int|
                0 <= i < g.image.len() && !(model::part_offset(p) <= i < model::part_offset(p)
                    + model::part_size(p)) ==> g.image[i] == #[trigger] f.image[i]
            &&& g.mac == f.mac && g.pon_sn == f.pon_sn && g.device_sn == f.device_sn
            &&& p == Part::Pon ==> g.wifi_mac == f.wifi_mac && g.wifi_mac2 == f.wifi_mac2
            &&& p == Part::Wifi ==> g.wifi_mac == model::shown(g.image).wifi_mac && g.wifi_mac2
                == model::shown(g.image).wifi_mac2
            &&& model::cleared(g, p) == g
        }),
{
    let g = model::cleared(f, p);
    assert(model::cleared(g, p).image =~= g.image);
}

/// A valid part that was exported goes back in as it was: replacing the part with its own bytes
/// leaves the image as it is.
pub proof fn exported_part_goes_back(f: FactoryModel, p: Part, source: Seq<char>)
    requires
        f.image.len() == model::FACTORY_SIZE,
        model::inspected(p, model::part_of(f.image, p)) is Ok,
    ensures
        model::replaced(f, p, source, model::part_of(f.image, p)) matches Ok(g) && g.image
            == f.image,
{
    let d = model::part_of(f.image, p);
    assert(model::prepared(p, source, d) == Ok::<Seq<u8>, Seq<char>>(d));
    assert(bytes::splice(f.image, model::part_offset(p), d) =~= f.image);
}

/// A new factory can be saved whatever chance gave: the image is erased but for the MAC address
/// and the PON serial number.
pub proof fn new_factory_can_be_saved(mac: Seq<u8>, number: Seq<u8>)
    requires
        mac.len() == 6,
        number.len() == 4,
    ensures
        model::applied(model::new_factory(mac, number)) == Ok::<Seq<u8>, Seq<char>>(
            bytes::splice(
                bytes::splice(
                    bytes::repeated(model::FACTORY_SIZE as nat, 0xff),
                    0x2000,
                    identity::local_address(mac),
                ),
                0x2010,
                seq![0x46u8, 0x48, 0x54, 0x54] + number,
            ),
        ),
{
    let f = model::new_factory(mac, number);
    identity::random_mac_is_accepted("identity"@, "base MAC"@, mac);
    identity::random_sn_is_accepted(number);
    let raw = f.image.subrange(0x2020, 0x2040);
    lemma_text_end(raw, 0, 0);
    assert(raw.take(0) =~= Seq::<u8>::empty());
    reveal_strlit("");
    assert(model::shown(f.image).device_sn =~= ""@);
}

/// The image that stock files make is full and can be saved: saving it unedited gives it back.
/// Its identity is the one that `factory_conf` names.
pub proof fn stock_import_can_be_saved(files: Map<Seq<char>, Seq<u8>>)
    ensures
        model::files_image(files) matches Ok(image) ==> {
            let fields = conf::conf_fields("factory_conf"@, files["factory_conf"@])->Ok_0;
            &&& image.len() == model::FACTORY_SIZE
            &&& image.subrange(0x2000, 0x2006) == model::conf_mac(fields)->Ok_0
            &&& image.subrange(0x2010, 0x2018) == model::conf_serial(fields)->Ok_0
            &&& model::applied(model::shown(image)) == Ok::<Seq<u8>, Seq<char>>(image)
        },
{
    if let Ok(image) = model::files_image(files) {
        let fields = conf::conf_fields("factory_conf"@, files["factory_conf"@])->Ok_0;
        let mac = model::conf_mac(fields)->Ok_0;
        let sn = model::conf_serial(fields)->Ok_0;
        assert(image.subrange(0x2000, 0x2006) =~= mac);
        assert(image.subrange(0x2010, 0x2018) =~= sn);
        unedited_image_is_saved_unchanged(image);
    }
}

/// The parts of the image that stock files make: each is valid where there is a file for it, and
/// holds nothing where there is none.
pub proof fn stock_parts_are_valid(files: Map<Seq<char>, Seq<u8>>)
    ensures
        model::files_image(files) matches Ok(image) ==> {
            &&& if files.contains_key("table"@) {
                &&& calibration::normalized("table"@, files["table"@])
                    == Ok::<Seq<u8>, Seq<char>>(model::part_of(image, Part::Pon))
                &&& model::status_in(image, Part::Pon) is Pon
            } else {
                model::status_in(image, Part::Pon) == PartStatus::Empty
            }
            &&& if files.contains_key("wlan/AX3000_RT30xxEEPROM_5.bin"@) {
                &&& model::part_of(image, Part::Wifi)
                    == files["wlan/AX3000_RT30xxEEPROM_5.bin"@].take(0x1000)
                &&& model::status_in(image, Part::Wifi) == (PartStatus::Wifi { length: 0x1000 })
            } else {
                model::status_in(image, Part::Wifi) == PartStatus::Empty
            }
        },
{
    if let Ok(image) = model::files_image(files) {
        let pon = model::part_of(image, Part::Pon);
        let wifi = model::part_of(image, Part::Wifi);
        if files.contains_key("table"@) {
            calibration::normalized_is_a_container(
                "table"@,
                "PON calibration"@,
                files["table"@],
            );
            assert(pon =~= calibration::normalized("table"@, files["table"@])->Ok_0);
            assert(pon[0] == pon.take(8)[0]);
        }
        if files.contains_key("wlan/AX3000_RT30xxEEPROM_5.bin"@) {
            let d = files["wlan/AX3000_RT30xxEEPROM_5.bin"@];
            assert(wifi =~= d.take(0x1000));
            assert(wifi.take(2) =~= d.take(2));
            bytes::lemma_le2(wifi.take(2));
            assert(wifi[0] == wifi.take(2)[0]);
            assert(wifi[1] == wifi.take(2)[1]);
            assert(!bytes::all_are(wifi, 0xff)) by {
                assert(wifi[0] != 0xff || wifi[1] != 0xff);
            }
        }
    }
}

/// Whatever opens has a full image; what was imported from stock data can be saved as it is.
pub proof fn opened_stock_can_be_saved(source: Source)
    ensures
        model::opened(source) matches Ok(o) ==> {
            &&& o.factory.image.len() == model::FACTORY_SIZE
            &&& o.source_is_stock ==> model::applied(o.factory) == Ok::<Seq<u8>, Seq<char>>(
                o.factory.image,
            )
            &&& !o.source_is_stock ==> o.warning is None
        },
{
    match source {
        Source::Directory(files) => stock_import_can_be_saved(files@),
        Source::Image(data) => {
            if let Ok((files, _)) = import::stock_files(data@) {
                stock_import_can_be_saved(files);
            }
        },
    }
}

proof fn lemma_same_start(a: Seq<u8>, b: Seq<u8>)
    requires
        a.len() == model::FACTORY_SIZE,
        b.len() == model::FACTORY_SIZE,
        forall|i: int| 0 <= i < 4 ==> #[trigger] a[i] == b[i],
    ensures
        import::is_stock(a) == import::is_stock(b),
{
    assert(a.take(4) =~= b.take(4));
    assert(a.take(2) =~= b.take(2));
}

/// A file that was saved opens as a factory image, with the identity that it shows. Like every
/// image that the editor holds, the loaded one does not begin as a stock partition.
pub proof fn saved_file_opens(f: FactoryModel, file: Vec<u8>)
    requires
        f.image.len() == model::FACTORY_SIZE,
        !import::is_stock(f.image),
        model::applied(f) == Ok::<Seq<u8>, Seq<char>>(file@),
    ensures
        model::opened(Source::Image(file)) == Ok::<OpenedModel, Seq<char>>(
            OpenedModel {
                factory: model::shown(file@),
                source_is_stock: false,
                warning: None,
            },
        ),
{
    saving_writes_identity_only(f);
    assert(forall|i: int| 0 <= i < 4 ==> #[trigger] file@[i] == f.image[i]);
    lemma_same_start(file@, f.image);
}

/// No image that is opened, nor a new one, begins as a stock partition.
pub proof fn opened_image_is_not_stock(source: Source, mac: Seq<u8>, number: Seq<u8>)
    ensures
        model::opened(source) matches Ok(o) ==> !import::is_stock(o.factory.image),
        !import::is_stock(model::new_factory(mac, number).image),
{
    match source {
        Source::Directory(files) => lemma_import_is_not_stock(files@),
        Source::Image(data) => {
            if let Ok((files, _)) = import::stock_files(data@) {
                lemma_import_is_not_stock(files);
            }
        },
    }
    lemma_not_stock(model::new_factory(mac, number).image);
}

/// Replacing or clearing a part does not make an image begin as a stock partition.
pub proof fn edited_image_is_not_stock(f: FactoryModel, p: Part, source: Seq<char>, d: Seq<u8>)
    requires
        f.image.len() == model::FACTORY_SIZE,
        !import::is_stock(f.image),
    ensures
        model::replaced(f, p, source, d) matches Ok(g) ==> !import::is_stock(g.image),
        !import::is_stock(model::cleared(f, p).image),
{
    lemma_cleared_is_not_stock(f, p);
    if let Ok(g) = model::replaced(f, p, source, d) {
        replaced_part_is_valid(f, p, source, d);
        let data = model::part_of(g.image, p);
        assert(g.image[model::part_offset(p)] == data[0]);
        match p {
            Part::Pon => {
                assert(data[0] == data.take(8)[0]);
                lemma_not_stock(g.image);
            },
            Part::Wifi => {
                assert(forall|i: int| 0 <= i < 4 ==> g.image[i] == #[trigger] f.image[i]);
                lemma_same_start(f.image, g.image);
            },
        }
    }
}

proof fn lemma_cleared_is_not_stock(f: FactoryModel, p: Part)
    requires
        f.image.len() == model::FACTORY_SIZE,
        !import::is_stock(f.image),
    ensures
        !import::is_stock(model::cleared(f, p).image),
{
    let g = model::cleared(f, p);
    match p {
        Part::Pon => lemma_not_stock(g.image),
        Part::Wifi => lemma_same_start(f.image, g.image),
    }
}

proof fn lemma_not_stock(image: Seq<u8>)
    requires
        image.len() == model::FACTORY_SIZE,
        image[0] == 0xff || image[0] == 0x41,
    ensures
        !import::is_stock(image),
{
    assert(image.take(4)[0] == image[0]);
    assert(image.take(2)[0] == image[0]);
    assert(ubi::ec_magic()[0] == 0x55);
    assert(import::jffs2_magic()[0] == 0x85);
}

proof fn lemma_import_is_not_stock(files: Map<Seq<char>, Seq<u8>>)
    ensures
        model::files_image(files) matches Ok(image) ==> !import::is_stock(image),
{
    if let Ok(image) = model::files_image(files) {
        stock_import_can_be_saved(files);
        stock_parts_are_valid(files);
        let pon = model::part_of(image, Part::Pon);
        if files.contains_key("table"@) {
            calibration::normalized_is_a_container("table"@, "table"@, files["table"@]);
            assert(pon[0] == pon.take(8)[0]);
        }
        assert(image[0] == pon[0]);
        lemma_not_stock(image);
    }
}

} // verus!
