//! Builds the fixed 1 MiB factory layout from FiberHome production data.

use vstd::prelude::*;
use vstd::string::StringExecFns;

use crate::bytes;
use crate::calibration;
use crate::conf;
use crate::identity;
use crate::import;
use crate::names::Files;
use crate::text;

pub use crate::calibration::PonCalibrationChip;
pub use crate::identity::{random_mac, random_sn};

verus! {

pub const FACTORY_SIZE: usize = 0x100000;

pub const PON_OFFSET: usize = 0x0000;

pub const WIFI_OFFSET: usize = 0x1000;

pub const WIFI_SIZE: usize = 0x1000;

pub const BASE_MAC_OFFSET: usize = 0x2000;

pub const PON_SN_OFFSET: usize = 0x2010;

pub const DEVICE_SN_OFFSET: usize = 0x2020;

/// A part of the layout that is replaced as a whole.
#[derive(Clone, Copy, Debug, PartialEq, Eq, Structural)]
pub enum Part {
    Pon,
    Wifi,
}

/// Where a part begins.
pub open spec fn part_offset(p: Part) -> int {
    match p {
        Part::Pon => 0,
        Part::Wifi => 0x1000,
    }
}

/// How long a part is.
pub open spec fn part_size(p: Part) -> int {
    match p {
        Part::Pon => 0x800,
        Part::Wifi => 0x1000,
    }
}

/// The bytes of a part.
pub open spec fn part_of(image: Seq<u8>, p: Part) -> Seq<u8> {
    image.subrange(part_offset(p), part_offset(p) + part_size(p))
}

impl Part {
    /// Where the part stands in an image.
    pub fn range(self) -> (r: std::ops::Range<usize>)
        ensures
            r.start == part_offset(self),
            r.end == part_offset(self) + part_size(self),
    {
        match self {
            Self::Pon => PON_OFFSET..PON_OFFSET + calibration::PON_SIZE,
            Self::Wifi => WIFI_OFFSET..WIFI_OFFSET + WIFI_SIZE,
        }
    }
}

/// What a user should know of an import.
#[derive(Clone, Copy, Debug, PartialEq, Eq, Structural)]
pub enum ImportWarning {
    DirtyUbifs,
    DamagedJffs2,
}

/// What a part holds.
#[derive(Clone, Copy, Debug, PartialEq, Eq, Structural)]
pub enum PartStatus {
    Empty,
    Pon { chip: PonCalibrationChip, payload_length: usize },
    Wifi { length: usize },
    Invalid,
}

impl View for PartStatus {
    type V = PartStatus;

    open spec fn view(&self) -> PartStatus {
        *self
    }
}

/// What the data of a part says, or why it is not valid.
pub open spec fn inspected(p: Part, d: Seq<u8>) -> Result<PartStatus, Seq<char>> {
    match p {
        Part::Pon => match calibration::parsed("PON calibration"@, d) {
            Err(e) => Err(e),
            Ok((chip, length)) => Ok(PartStatus::Pon { chip, payload_length: length as usize }),
        },
        Part::Wifi => if d.len() != 0x1000 {
            Err("Wi-Fi EEPROM must be exactly 4096 bytes"@)
        } else {
            match identity::eeprom_read("Wi-Fi EEPROM"@, d) {
                Err(e) => Err(e),
                Ok(_) => Ok(PartStatus::Wifi { length: 0x1000 }),
            }
        },
    }
}

/// Checks the data of a part.
pub fn inspect_part(part: Part, data: &[u8]) -> (r: Result<PartStatus, String>)
    ensures
        text::says(r, inspected(part, data@)),
{
    match part {
        Part::Pon => {
            let info = calibration::parse_pon_calibration("PON calibration", data)?;
            Ok(PartStatus::Pon { chip: info.chip, payload_length: info.payload_length })
        },
        Part::Wifi => {
            if data.len() != WIFI_SIZE {
                return Err("Wi-Fi EEPROM must be exactly 4096 bytes".to_owned());
            }
            identity::extract_wifi_eeprom("Wi-Fi EEPROM", data)?;
            Ok(PartStatus::Wifi { length: data.len() })
        },
    }
}

/// A part whose bytes are not all ones holds something.
pub open spec fn is_present(image: Seq<u8>, p: Part) -> bool {
    !bytes::all_are(part_of(image, p), 0xff)
}

/// What a part of an image holds.
pub open spec fn status_in(image: Seq<u8>, p: Part) -> PartStatus {
    if !is_present(image, p) {
        PartStatus::Empty
    } else {
        match inspected(p, part_of(image, p)) {
            Ok(status) => status,
            Err(_) => PartStatus::Invalid,
        }
    }
}

/// The bytes of an image, which only this module writes.
pub struct Image {
    bytes: Vec<u8>,
}

impl View for Image {
    type V = Seq<u8>;

    closed spec fn view(&self) -> Seq<u8> {
        self.bytes@
    }
}

/// An image, and its identity as it is shown and edited.
pub struct Factory {
    pub image: Image,
    pub mac: String,
    pub wifi_mac: String,
    pub wifi_mac2: String,
    pub pon_sn: String,
    pub device_sn: String,
}

/// An image, and its identity as it is shown and edited.
#[verifier::ext_equal]
pub struct FactoryModel {
    pub image: Seq<u8>,
    pub mac: Seq<char>,
    pub wifi_mac: Seq<char>,
    pub wifi_mac2: Seq<char>,
    pub pon_sn: Seq<char>,
    pub device_sn: Seq<char>,
}

impl View for Factory {
    type V = FactoryModel;

    open spec fn view(&self) -> FactoryModel {
        FactoryModel {
            image: self.image@,
            mac: self.mac@,
            wifi_mac: self.wifi_mac@,
            wifi_mac2: self.wifi_mac2@,
            pon_sn: self.pon_sn@,
            device_sn: self.device_sn@,
        }
    }
}

/// The fields of a record are what its view shows, and setting them cannot spoil it: that a
/// record is well-formed depends on its image alone.
pub proof fn fields_are_shown(f: Factory, g: Factory)
    ensures
        f@.mac == f.mac@,
        f@.wifi_mac == f.wifi_mac@,
        f@.wifi_mac2 == f.wifi_mac2@,
        f@.pon_sn == f.pon_sn@,
        f@.device_sn == f.device_sn@,
        f@.image == f.image@,
        f.image@ == g.image@ ==> f.wf() == g.wf(),
{
}

/// Where the text in `d` ends, looking from `i` on: at the first zero or erased byte.
pub open spec fn text_end(d: Seq<u8>, i: int) -> int
    decreases d.len() - i,
{
    if 0 <= i < d.len() && d[i] != 0 && d[i] != 0xff {
        text_end(d, i + 1)
    } else {
        i
    }
}

/// The device serial number in its field.
pub open spec fn device_serial_text(d: Seq<u8>) -> Seq<char> {
    text::loose_text(d.take(text_end(d, 0)))
}

/// A MAC address of the Wi-Fi part at `offset`, which is shown where the part holds something.
pub open spec fn wifi_mac_text(image: Seq<u8>, offset: int) -> Seq<char> {
    if is_present(image, Part::Wifi) {
        identity::mac_text(image.subrange(offset, offset + 6))
    } else {
        ""@
    }
}

/// The identity of an image as it is shown.
pub open spec fn shown(image: Seq<u8>) -> FactoryModel {
    FactoryModel {
        image,
        mac: identity::mac_text(image.subrange(0x2000, 0x2006)),
        wifi_mac: wifi_mac_text(image, 0x1004),
        wifi_mac2: wifi_mac_text(image, 0x100a),
        pon_sn: identity::serial_text(image.subrange(0x2010, 0x2018)),
        device_sn: device_serial_text(image.subrange(0x2020, 0x2040)),
    }
}

/// A factory image, read.
pub open spec fn factory_in(image: Seq<u8>) -> Result<FactoryModel, Seq<char>> {
    if image.len() != FACTORY_SIZE {
        Err("Unified factory image must be exactly 1 MiB"@)
    } else {
        Ok(shown(image))
    }
}

/// The image that the production files of a stock image make, and the first fault that keeps
/// them from making one. The identity comes from `factory_conf`; calibration data that is
/// missing leaves its part erased.
pub open spec fn files_image(files: Map<Seq<char>, Seq<u8>>) -> Result<Seq<u8>, Seq<char>> {
    if !files.contains_key("factory_conf"@) {
        Err("Stock image has no factory_conf"@)
    } else {
        match conf::conf_fields("factory_conf"@, files["factory_conf"@]) {
            Err(e) => Err(e),
            Ok(fields) => match parts_image(files) {
                Err(e) => Err(e),
                Ok(image) => identified_image(image, fields),
            },
        }
    }
}

/// An erased image with the parts that a stock image has files for.
pub open spec fn parts_image(files: Map<Seq<char>, Seq<u8>>) -> Result<Seq<u8>, Seq<char>> {
    let erased = bytes::repeated(FACTORY_SIZE as nat, 0xff);
    let pon = if files.contains_key("table"@) {
        match calibration::normalized("table"@, files["table"@]) {
            Err(e) => Err(e),
            Ok(d) => Ok(bytes::splice(erased, 0, d)),
        }
    } else {
        Ok(erased)
    };
    match pon {
        Err(e) => Err(e),
        Ok(image) => if files.contains_key("wlan/AX3000_RT30xxEEPROM_5.bin"@) {
            match identity::eeprom_read(
                "Wi-Fi EEPROM"@,
                files["wlan/AX3000_RT30xxEEPROM_5.bin"@],
            ) {
                Err(e) => Err(e),
                Ok(d) => Ok(bytes::splice(image, 0x1000, d)),
            }
        } else {
            Ok(image)
        },
    }
}

/// A MAC address that `factory_conf` must give.
pub open spec fn conf_mac(fields: Map<Seq<char>, Seq<char>>) -> Result<Seq<u8>, Seq<char>> {
    match conf::required("factory_conf"@, fields, "brmac"@) {
        Err(e) => Err(e),
        Ok(value) => identity::mac_read("factory_conf"@, "brmac"@, value),
    }
}

/// A PON serial number that `factory_conf` must give.
pub open spec fn conf_serial(fields: Map<Seq<char>, Seq<char>>) -> Result<Seq<u8>, Seq<char>> {
    match conf::required("factory_conf"@, fields, "GponSN"@) {
        Err(e) => Err(e),
        Ok(value) => identity::pon_serial_read("factory_conf"@, value),
    }
}

/// `image` with the identity that `factory_conf` gives.
pub open spec fn identified_image(image: Seq<u8>, fields: Map<Seq<char>, Seq<char>>) -> Result<
    Seq<u8>,
    Seq<char>,
> {
    match conf_mac(fields) {
        Err(e) => Err(e),
        Ok(mac) => match conf_serial(fields) {
            Err(e) => Err(e),
            Ok(sn) => {
                let named = bytes::splice(bytes::splice(image, 0x2000, mac), 0x2010, sn);
                if fields.contains_key("SerialNumber"@) && fields["SerialNumber"@].len() > 0 {
                    match identity::device_serial_read(
                        "factory_conf"@,
                        fields["SerialNumber"@],
                    ) {
                        Err(e) => Err(e),
                        Ok(device) => Ok(bytes::splice(named, 0x2020, device)),
                    }
                } else {
                    Ok(named)
                }
            },
        },
    }
}

/// The production files of a stock image, read.
pub open spec fn factory_from(files: Map<Seq<char>, Seq<u8>>) -> Result<FactoryModel, Seq<char>> {
    match files_image(files) {
        Err(e) => Err(e),
        Ok(image) => Ok(shown(image)),
    }
}

/// The data for a part as it goes into an image; `source` names where it came from.
pub open spec fn prepared(p: Part, source: Seq<char>, d: Seq<u8>) -> Result<Seq<u8>, Seq<char>> {
    let normal = match p {
        Part::Pon => calibration::normalized(source, d),
        Part::Wifi => Ok(d),
    };
    match normal {
        Err(e) => Err(e),
        Ok(d) => match inspected(p, d) {
            Err(e) => Err(e),
            Ok(_) => Ok(d),
        },
    }
}

/// The image with other data in a part; the Wi-Fi part brings its own MAC addresses.
pub open spec fn replaced(f: FactoryModel, p: Part, source: Seq<char>, d: Seq<u8>) -> Result<
    FactoryModel,
    Seq<char>,
> {
    match prepared(p, source, d) {
        Err(e) => Err(e),
        Ok(d) => {
            let g = FactoryModel { image: bytes::splice(f.image, part_offset(p), d), ..f };
            match p {
                Part::Pon => Ok(g),
                Part::Wifi => Ok(
                    FactoryModel {
                        wifi_mac: identity::mac_text(d.subrange(4, 10)),
                        wifi_mac2: identity::mac_text(d.subrange(10, 16)),
                        ..g
                    },
                ),
            }
        },
    }
}

/// The image with a part erased.
pub open spec fn cleared(f: FactoryModel, p: Part) -> FactoryModel {
    let g = FactoryModel {
        image: bytes::splice(
            f.image,
            part_offset(p),
            bytes::repeated(part_size(p) as nat, 0xff),
        ),
        ..f
    };
    match p {
        Part::Pon => g,
        Part::Wifi => FactoryModel { wifi_mac: ""@, wifi_mac2: ""@, ..g },
    }
}

/// The field of an edited device serial number, which may be emptied.
pub open spec fn edited_serial(value: Seq<char>) -> Result<Seq<u8>, Seq<char>> {
    if value.len() == 0 {
        Ok(bytes::repeated(32, 0))
    } else {
        identity::device_serial_read("identity"@, value)
    }
}

/// The image with the edited identity in it. The MAC address and the PON serial number are
/// always written; the MAC addresses of the Wi-Fi part and the device serial number only where
/// they differ from what the image shows.
pub open spec fn applied(f: FactoryModel) -> Result<Seq<u8>, Seq<char>> {
    let before = shown(f.image);
    match identity::mac_read("identity"@, "base MAC"@, f.mac) {
        Err(e) => Err(e),
        Ok(mac) => match identity::serial_read(f.pon_sn) {
            Err(e) => Err(e),
            Ok(sn) => {
                let named = bytes::splice(bytes::splice(f.image, 0x2000, mac), 0x2010, sn);
                match wifi_applied(named, f, before) {
                    Err(e) => Err(e),
                    Ok(image) => if before.device_sn == f.device_sn {
                        Ok(image)
                    } else {
                        match edited_serial(f.device_sn) {
                            Err(e) => Err(e),
                            Ok(device) => Ok(bytes::splice(image, 0x2020, device)),
                        }
                    },
                }
            },
        },
    }
}

/// `image` with the MAC addresses of the Wi-Fi part that differ from `before`.
pub open spec fn wifi_applied(image: Seq<u8>, f: FactoryModel, before: FactoryModel) -> Result<
    Seq<u8>,
    Seq<char>,
> {
    match identity::mac_updated(image, 0x1004, "2.4 GHz MAC"@, f.wifi_mac, before.wifi_mac) {
        Err(e) => Err(e),
        Ok(image) => identity::mac_updated(
            image,
            0x100a,
            "5 GHz MAC"@,
            f.wifi_mac2,
            before.wifi_mac2,
        ),
    }
}

/// A factory without calibration data that has only a MAC address and a PON serial number.
pub open spec fn blank_factory(mac: Seq<char>, pon_sn: Seq<char>) -> FactoryModel {
    FactoryModel {
        image: bytes::repeated(FACTORY_SIZE as nat, 0xff),
        mac,
        wifi_mac: ""@,
        wifi_mac2: ""@,
        pon_sn,
        device_sn: ""@,
    }
}

/// A new factory, with the identity that six and four bytes of chance give.
pub open spec fn new_factory(mac: Seq<u8>, number: Seq<u8>) -> FactoryModel {
    blank_factory(
        identity::mac_text(identity::local_address(mac)),
        "FHTT"@ + identity::hex_text(number),
    )
}

/// A factory that was opened, and what should be known of where it came from.
pub struct OpenedFactory {
    pub factory: Factory,
    pub source_is_stock: bool,
    pub warning: Option<ImportWarning>,
}

/// A factory that was opened, and what should be known of where it came from.
pub struct OpenedModel {
    pub factory: FactoryModel,
    pub source_is_stock: bool,
    pub warning: Option<ImportWarning>,
}

impl View for OpenedFactory {
    type V = OpenedModel;

    open spec fn view(&self) -> OpenedModel {
        OpenedModel {
            factory: self.factory@,
            source_is_stock: self.source_is_stock,
            warning: self.warning,
        }
    }
}

/// What was read from disk: the production files of a directory, or the bytes of an image file.
pub enum Source {
    Directory(Files),
    Image(Vec<u8>),
}

impl Source {
    /// No file of a directory has two contents.
    pub open spec fn wf(&self) -> bool {
        match *self {
            Source::Directory(files) => files.wf(),
            Source::Image(_) => true,
        }
    }
}

/// What a source opens as. A directory and an image of a stock partition are imported; all else
/// must be a factory image.
pub open spec fn opened(source: Source) -> Result<OpenedModel, Seq<char>> {
    match source {
        Source::Directory(files) => match factory_from(files@) {
            Err(e) => Err(e),
            Ok(factory) => Ok(OpenedModel { factory, source_is_stock: true, warning: None }),
        },
        Source::Image(data) => if import::is_stock(data@) {
            match import::stock_files(data@) {
                Err(e) => Err(e),
                Ok((files, needs_warning)) => match factory_from(files) {
                    Err(e) => Err(e),
                    Ok(factory) => Ok(
                        OpenedModel {
                            factory,
                            source_is_stock: true,
                            warning: import_warning(data@, needs_warning),
                        },
                    ),
                },
            }
        } else {
            match factory_in(data@) {
                Err(e) => Err(e),
                Ok(factory) => Ok(OpenedModel { factory, source_is_stock: false, warning: None }),
            }
        },
    }
}

/// The warning that the import of a stock image calls for.
pub open spec fn import_warning(d: Seq<u8>, needed: bool) -> Option<ImportWarning> {
    if !needed {
        None
    } else if bytes::begins(d, import::jffs2_magic()) {
        Some(ImportWarning::DamagedJffs2)
    } else {
        Some(ImportWarning::DirtyUbifs)
    }
}

/// The paths of the production files in a directory.
pub fn stock_file_names() -> (r: [&'static str; 3])
    ensures
        r@[0]@ == "table"@,
        r@[1]@ == "factory_conf"@,
        r@[2]@ == "wlan/AX3000_RT30xxEEPROM_5.bin"@,
{
    ["table", "factory_conf", "wlan/AX3000_RT30xxEEPROM_5.bin"]
}

/// What the file that replaces a part is called in messages.
pub open spec fn part_description(p: Part) -> Seq<char> {
    match p {
        Part::Pon => "PON calibration"@,
        Part::Wifi => "Wi-Fi EEPROM"@,
    }
}

impl Part {
    /// What the file that replaces the part is called in messages.
    pub fn description(self) -> (r: &'static str)
        ensures
            r@ == part_description(self),
    {
        match self {
            Self::Pon => "PON calibration",
            Self::Wifi => "Wi-Fi EEPROM",
        }
    }
}

/// The message on a file that could not be read.
pub fn unreadable(description: &str, source: &str, error: &str) -> (r: String)
    ensures
        r@ == "Unable to read "@ + description@ + " "@ + source@ + ": "@ + error@,
{
    let mut message = text::joined("Unable to read ", description);
    message.append(" ");
    message.append(source);
    message.append(": ");
    message.append(error);
    message
}

/// A line of the identity that chance can fill.
#[derive(Clone, Copy, Debug, PartialEq, Eq, Structural)]
pub enum Field {
    Mac,
    WifiMac,
    WifiMac2,
    PonSn,
}

/// The factory with another value in a line of its identity.
pub open spec fn with_field(f: FactoryModel, field: Field, value: Seq<char>) -> FactoryModel {
    match field {
        Field::Mac => FactoryModel { mac: value, ..f },
        Field::WifiMac => FactoryModel { wifi_mac: value, ..f },
        Field::WifiMac2 => FactoryModel { wifi_mac2: value, ..f },
        Field::PonSn => FactoryModel { pon_sn: value, ..f },
    }
}

fn show_device_serial(raw: &[u8]) -> (r: String)
    ensures
        r@ == device_serial_text(raw@),
{
    let mut end: usize = 0;
    while end < raw.len() && raw[end] != 0 && raw[end] != 0xff
        invariant
            end <= raw.len(),
            text_end(raw@, 0) == text_end(raw@, end as int),
        decreases raw.len() - end,
    {
        end += 1;
    }
    assert(raw@.subrange(0, end as int) =~= raw@.take(end as int));
    text::utf8_text_lossy(&raw[0..end])
}

impl Factory {
    /// The image has its full size.
    pub open spec fn wf(&self) -> bool {
        self@.image.len() == FACTORY_SIZE
    }

    /// Reads a factory image, which must be exactly 1 MiB.
    pub fn from_image(image: Vec<u8>) -> (r: Result<Self, String>)
        ensures
            text::says(r, factory_in(image@)),
            r matches Ok(f) ==> f.wf(),
    {
        if image.len() != FACTORY_SIZE {
            return Err("Unified factory image must be exactly 1 MiB".to_owned());
        }
        let d = image.as_slice();
        let mac = identity::hex_mac(&d[BASE_MAC_OFFSET..BASE_MAC_OFFSET + identity::BASE_MAC_SIZE]);
        let wifi_present = !bytes::filled_with(&d[WIFI_OFFSET..WIFI_OFFSET + WIFI_SIZE], 0xff);
        let wifi_mac = if wifi_present {
            identity::hex_mac(&d[WIFI_OFFSET + 4..WIFI_OFFSET + 10])
        } else {
            "".to_owned()
        };
        let wifi_mac2 = if wifi_present {
            identity::hex_mac(&d[WIFI_OFFSET + 10..WIFI_OFFSET + 16])
        } else {
            "".to_owned()
        };
        let pon_sn = identity::show_serial(
            &d[PON_SN_OFFSET..PON_SN_OFFSET + identity::PON_SN_SIZE],
        );
        let device_sn = show_device_serial(
            &d[DEVICE_SN_OFFSET..DEVICE_SN_OFFSET + identity::DEVICE_SN_SIZE],
        );
        Ok(Self { image: Image { bytes: image }, mac, wifi_mac, wifi_mac2, pon_sn, device_sn })
    }

    /// Builds an image from the production files of a stock image.
    pub fn from_files(files: &Files) -> (r: Result<Self, String>)
        requires
            files.wf(),
        ensures
            text::says(r, factory_from(files@)),
            r matches Ok(f) ==> f.wf(),
    {
        let config = match files.get("factory_conf") {
            Some(config) => config,
            None => {
                return Err("Stock image has no factory_conf".to_owned());
            },
        };
        let fields = conf::parse_factory_conf("factory_conf", config.as_slice())?;
        let mut image = bytes::repeat(FACTORY_SIZE, 0xff);
        if let Some(pon) = files.get("table") {
            let data = calibration::normalize_pon_calibration("table", pon.as_slice())?;
            proof {
                calibration::normalized_is_a_container("table"@, "table"@, pon@);
            }
            identity::place(&mut image, PON_OFFSET, data.as_slice(), "PON calibration")?;
        }
        if let Some(wifi) = files.get("wlan/AX3000_RT30xxEEPROM_5.bin") {
            let data = identity::extract_wifi_eeprom("Wi-Fi EEPROM", wifi.as_slice())?;
            identity::place(&mut image, WIFI_OFFSET, data.as_slice(), "Wi-Fi EEPROM")?;
        }
        assert(parts_image(files@) == Ok::<Seq<u8>, Seq<char>>(image@));
        let mac = identity::parse_mac(
            "factory_conf",
            "brmac",
            conf::required_field("factory_conf", &fields, "brmac")?,
        )?;
        let sn = identity::parse_pon_serial(
            "factory_conf",
            conf::required_field("factory_conf", &fields, "GponSN")?,
        )?;
        identity::place(&mut image, BASE_MAC_OFFSET, mac.as_slice(), "MAC")?;
        identity::place(&mut image, PON_SN_OFFSET, sn.as_slice(), "PON SN")?;
        if let Some(value) = fields.get("SerialNumber") {
            if !value.as_str().is_empty() {
                let device = identity::parse_device_serial("factory_conf", value.as_str())?;
                identity::place(
                    &mut image,
                    DEVICE_SN_OFFSET,
                    device.as_slice(),
                    "device serial number",
                )?;
            }
        }
        Self::from_image(image)
    }

    /// The bytes of a part.
    pub fn part(&self, p: Part) -> (r: &[u8])
        requires
            self.wf(),
        ensures
            r@ == part_of(self@.image, p),
    {
        let range = p.range();
        &self.image.bytes.as_slice()[range.start..range.end]
    }

    /// Whether a part holds something.
    pub fn part_present(&self, p: Part) -> (r: bool)
        requires
            self.wf(),
        ensures
            r == is_present(self@.image, p),
    {
        !bytes::filled_with(self.part(p), 0xff)
    }

    /// What a part holds.
    pub fn part_status(&self, p: Part) -> (r: PartStatus)
        requires
            self.wf(),
        ensures
            r == status_in(self@.image, p),
    {
        if !self.part_present(p) {
            return PartStatus::Empty;
        }
        match inspect_part(p, self.part(p)) {
            Ok(status) => status,
            Err(_) => PartStatus::Invalid,
        }
    }

    /// Puts other data into a part; data that is refused changes nothing. `source` names where
    /// the data came from.
    pub fn replace(&mut self, p: Part, source: &str, data: &[u8]) -> (r: Result<(), String>)
        requires
            old(self).wf(),
        ensures
            final(self).wf(),
            match (r, replaced(old(self)@, p, source@, data@)) {
                (Ok(_), Ok(after)) => final(self)@ == after,
                (Err(e), Err(m)) => e@ == m && final(self)@ == old(self)@,
                _ => false,
            },
    {
        let data = match p {
            Part::Pon => calibration::normalize_pon_calibration(source, data)?,
            Part::Wifi => bytes::copy_of(data),
        };
        inspect_part(p, data.as_slice())?;
        bytes::overwrite(&mut self.image.bytes, p.range().start, data.as_slice());
        if let Part::Wifi = p {
            self.wifi_mac = identity::hex_mac(&data.as_slice()[4..10]);
            self.wifi_mac2 = identity::hex_mac(&data.as_slice()[10..16]);
        }
        Ok(())
    }

    /// Erases a part.
    pub fn clear(&mut self, p: Part)
        requires
            old(self).wf(),
        ensures
            final(self).wf(),
            final(self)@ == cleared(old(self)@, p),
    {
        let range = p.range();
        let erased = bytes::repeat(range.end - range.start, 0xff);
        bytes::overwrite(&mut self.image.bytes, range.start, erased.as_slice());
        if let Part::Wifi = p {
            self.wifi_mac = "".to_owned();
            self.wifi_mac2 = "".to_owned();
        }
    }

    /// Applies edited identity fields to the loaded image.
    pub fn encode(&self) -> (r: Result<Vec<u8>, String>)
        requires
            self.wf(),
        ensures
            text::says(r, applied(self@)),
    {
        let mac = identity::parse_mac("identity", "base MAC", self.mac.as_str())?;
        let sn = identity::display_sn(self.pon_sn.as_str())?;
        let mut image = bytes::copy_of(self.image.bytes.as_slice());
        identity::place(&mut image, BASE_MAC_OFFSET, mac.as_slice(), "MAC")?;
        identity::place(&mut image, PON_SN_OFFSET, sn.as_slice(), "PON SN")?;
        let original = Self::from_image(bytes::copy_of(self.image.bytes.as_slice()))?;
        identity::update_mac_field(
            &mut image,
            WIFI_OFFSET + 4,
            "2.4 GHz MAC",
            self.wifi_mac.as_str(),
            original.wifi_mac.as_str(),
        )?;
        identity::update_mac_field(
            &mut image,
            WIFI_OFFSET + 10,
            "5 GHz MAC",
            self.wifi_mac2.as_str(),
            original.wifi_mac2.as_str(),
        )?;
        if !text::same_text(original.device_sn.as_str(), self.device_sn.as_str()) {
            let device = if self.device_sn.as_str().is_empty() {
                bytes::repeat(identity::DEVICE_SN_SIZE, 0)
            } else {
                identity::parse_device_serial("identity", self.device_sn.as_str())?
            };
            identity::place(
                &mut image,
                DEVICE_SN_OFFSET,
                device.as_slice(),
                "device serial number",
            )?;
        }
        Ok(image)
    }

    /// A factory without calibration data that has only a MAC address and a PON serial number.
    pub fn blank(mac: String, pon_sn: String) -> (r: Self)
        ensures
            r.wf(),
            r@ == blank_factory(mac@, pon_sn@),
    {
        Self {
            image: Image { bytes: bytes::repeat(FACTORY_SIZE, 0xff) },
            mac,
            wifi_mac: "".to_owned(),
            wifi_mac2: "".to_owned(),
            pon_sn,
            device_sn: "".to_owned(),
        }
    }

    /// A factory with an identity that was drawn; where drawing failed, its error, that of the
    /// MAC address first.
    pub fn from_draws(mac: Result<String, String>, pon_sn: Result<String, String>) -> (r: Result<
        Self,
        String,
    >)
        ensures
            text::says(
                r,
                match (mac, pon_sn) {
                    (Ok(mac), Ok(pon_sn)) => Ok(blank_factory(mac@, pon_sn@)),
                    (Err(e), _) => Err(e@),
                    (Ok(_), Err(e)) => Err(e@),
                },
            ),
            r matches Ok(f) ==> f.wf(),
    {
        let mac = mac?;
        let pon_sn = pon_sn?;
        Ok(Self::blank(mac, pon_sn))
    }

    /// A new factory with a random identity.
    pub fn new() -> (r: Result<Self, String>)
        ensures
            r matches Ok(f) ==> f.wf() && exists|mac: Seq<u8>, number: Seq<u8>|
                mac.len() == 6 && number.len() == 4 && f@ == #[trigger] new_factory(mac, number),
    {
        let mac = random_mac();
        let pon_sn = random_sn();
        let ghost a = choose|d: Seq<u8>|
            d.len() == 6 && mac->Ok_0@ == identity::mac_text(#[trigger] identity::local_address(d));
        let ghost b = choose|d: Seq<u8>|
            d.len() == 4 && pon_sn->Ok_0@ == "FHTT"@ + #[trigger] identity::hex_text(d);
        let r = Self::from_draws(mac, pon_sn);
        assert(r matches Ok(f) ==> f@ == new_factory(a, b));
        r
    }

    /// Opens what was read from disk.
    pub fn open(source: Source) -> (r: Result<OpenedFactory, String>)
        requires
            source.wf(),
        ensures
            text::says(r, opened(source)),
            r matches Ok(o) ==> o.factory.wf(),
    {
        match source {
            Source::Directory(files) => Ok(
                OpenedFactory {
                    factory: Self::from_files(&files)?,
                    source_is_stock: true,
                    warning: None,
                },
            ),
            Source::Image(data) => {
                let jffs2 = import::is_jffs2(data.as_slice());
                if import::is_ubi(data.as_slice()) || jffs2 {
                    let (files, needs_warning) = import::extract(data.as_slice())?;
                    let factory = Self::from_files(&files)?;
                    let warning = if !needs_warning {
                        None
                    } else if jffs2 {
                        Some(ImportWarning::DamagedJffs2)
                    } else {
                        Some(ImportWarning::DirtyUbifs)
                    };
                    return Ok(OpenedFactory { factory, source_is_stock: true, warning });
                }
                Ok(
                    OpenedFactory {
                        factory: Self::from_image(data)?,
                        source_is_stock: false,
                        warning: None,
                    },
                )
            },
        }
    }

    /// Sets a line of the identity.
    pub fn set_field(&mut self, field: Field, value: String)
        ensures
            final(self)@ == with_field(old(self)@, field, value@),
    {
        match field {
            Field::Mac => self.mac = value,
            Field::WifiMac => self.wifi_mac = value,
            Field::WifiMac2 => self.wifi_mac2 = value,
            Field::PonSn => self.pon_sn = value,
        }
    }
}

} // verus!
