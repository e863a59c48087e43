//! PON frontend calibration: the APONCAL container, and its conversion from stock BDBOB tables.

use vstd::prelude::*;
use vstd::string::StringExecFns;

use crate::bytes;
use crate::crc;
use crate::text;

verus! {

/// The size of the PON calibration part.
pub const PON_SIZE: usize = 0x0800;

/// The size of the APONCAL header, behind which the payload stands.
pub const PON_CAL_HEADER_SIZE: usize = 0x80;

/// The size of the BDBOB header.
pub const BDBOB_HEADER_SIZE: usize = 0x80;

/// The frontend chip that calibration data is for.
#[derive(Clone, Copy, Debug, Eq, PartialEq, Structural)]
pub enum PonCalibrationChip {
    Gn28l95,
    Ux3363,
}

impl View for PonCalibrationChip {
    type V = PonCalibrationChip;

    open spec fn view(&self) -> PonCalibrationChip {
        *self
    }
}

/// The number that stands for a chip in a container.
pub open spec fn chip_id(chip: PonCalibrationChip) -> u32 {
    match chip {
        PonCalibrationChip::Gn28l95 => 1,
        PonCalibrationChip::Ux3363 => 2,
    }
}

/// The chip that a number stands for.
pub open spec fn chip_of(id: u32) -> Result<PonCalibrationChip, Seq<char>> {
    if id == 1 {
        Ok(PonCalibrationChip::Gn28l95)
    } else if id == 2 {
        Ok(PonCalibrationChip::Ux3363)
    } else {
        Err("Unknown PON frontend calibration chip "@ + text::decimal(id as nat))
    }
}

/// The name of a chip.
pub open spec fn chip_name(chip: PonCalibrationChip) -> Seq<char> {
    match chip {
        PonCalibrationChip::Gn28l95 => "GN28L95"@,
        PonCalibrationChip::Ux3363 => "UX3363"@,
    }
}

impl PonCalibrationChip {
    /// The chip that a number stands for.
    pub fn from_id(id: u32) -> (r: Result<Self, String>)
        ensures
            text::says(r, chip_of(id)),
    {
        if id == 1 {
            Ok(PonCalibrationChip::Gn28l95)
        } else if id == 2 {
            Ok(PonCalibrationChip::Ux3363)
        } else {
            let mut message = "Unknown PON frontend calibration chip ".to_owned();
            text::push_decimal(&mut message, id as u64);
            Err(message)
        }
    }

    /// The number that stands for the chip.
    pub fn id(self) -> (r: u32)
        ensures
            r == chip_id(self),
    {
        match self {
            PonCalibrationChip::Gn28l95 => 1,
            PonCalibrationChip::Ux3363 => 2,
        }
    }

    /// The name of the chip.
    pub fn name(self) -> (r: &'static str)
        ensures
            r@ == chip_name(self),
    {
        match self {
            PonCalibrationChip::Gn28l95 => "GN28L95",
            PonCalibrationChip::Ux3363 => "UX3363",
        }
    }
}

/// The chip that calibration data is for, and how much of it there is.
#[derive(Clone, Copy)]
pub struct PonCalibrationInfo {
    pub chip: PonCalibrationChip,
    pub payload_length: usize,
}

impl View for PonCalibrationInfo {
    type V = (PonCalibrationChip, int);

    open spec fn view(&self) -> (PonCalibrationChip, int) {
        (self.chip, self.payload_length as int)
    }
}

/// The BDBOB checksum: the complement of a register that starts from zero.
pub open spec fn bdbob_sum(d: Seq<u8>) -> u32 {
    crc::register(d, 0) ^ u32::MAX
}

/// The APONCAL checksum: the usual CRC-32.
pub open spec fn calibration_sum(d: Seq<u8>) -> u32 {
    crc::register(d, u32::MAX) ^ u32::MAX
}

/// BDBOB complements a CRC register initialized to zero.
pub fn fiberhome_crc32(data: &[u8]) -> (r: u32)
    ensures
        r == bdbob_sum(data@),
{
    crc::crc32_register(data, 0) ^ u32::MAX
}

/// The CRC-32 of calibration data.
pub fn calibration_crc32(data: &[u8]) -> (r: u32)
    ensures
        r == calibration_sum(data@),
{
    crc::crc32_register(data, u32::MAX) ^ u32::MAX
}

/// The message for data that ends before an offset.
pub open spec fn truncated_at(offset: int) -> Seq<char> {
    "Data is truncated at offset 0x"@ + text::hexadecimal(offset as nat)
}

/// The 32-bit little-endian integer at an offset.
pub open spec fn u32_at(d: Seq<u8>, offset: int) -> Result<u32, Seq<char>> {
    if offset + 4 > d.len() {
        Err(truncated_at(offset))
    } else {
        Ok(bytes::le_value(d.subrange(offset, offset + 4)) as u32)
    }
}

/// The 16-bit little-endian integer at an offset.
pub open spec fn u16_at(d: Seq<u8>, offset: int) -> Result<u16, Seq<char>> {
    if offset + 2 > d.len() {
        Err(truncated_at(offset))
    } else {
        Ok(bytes::le_value(d.subrange(offset, offset + 2)) as u16)
    }
}

fn truncation(offset: usize) -> (r: String)
    ensures
        r@ == truncated_at(offset as int),
{
    let mut message = "Data is truncated at offset 0x".to_owned();
    text::push_hexadecimal(&mut message, offset as u64);
    message
}

/// The 32-bit little-endian integer at an offset.
pub fn read_u32_le(data: &[u8], offset: usize) -> (r: Result<u32, String>)
    requires
        offset + 4 <= usize::MAX,
    ensures
        text::says(r, u32_at(data@, offset as int)),
{
    if offset + 4 > data.len() {
        return Err(truncation(offset));
    }
    bytes::le32(data, offset)
}

/// The 16-bit little-endian integer at an offset.
pub fn read_u16_le(data: &[u8], offset: usize) -> (r: Result<u16, String>)
    requires
        offset + 2 <= usize::MAX,
    ensures
        text::says(r, u16_at(data@, offset as int)),
{
    if offset + 2 > data.len() {
        return Err(truncation(offset));
    }
    bytes::le16(data, offset)
}

/// Writes a 16-bit little-endian integer at an offset.
pub fn put_u16_le(data: &mut Vec<u8>, offset: usize, value: u16)
    requires
        offset + 2 <= old(data)@.len(),
    ensures
        final(data)@ == bytes::splice(old(data)@, offset as int, bytes::le_bytes2(value)),
{
    let b: [u8; 2] = [(value % 256) as u8, (value / 256) as u8];
    assert(b@ =~= bytes::le_bytes2(value));
    bytes::overwrite(data, offset, &b);
}

/// Writes a 32-bit little-endian integer at an offset.
pub fn put_u32_le(data: &mut Vec<u8>, offset: usize, value: u32)
    requires
        offset + 4 <= old(data)@.len(),
    ensures
        final(data)@ == bytes::splice(old(data)@, offset as int, bytes::le_bytes4(value)),
{
    let b: [u8; 4] = [
        (value % 256) as u8,
        (value / 256 % 256) as u8,
        (value / 0x1_0000 % 256) as u8,
        (value / 0x100_0000) as u8,
    ];
    assert(b@ =~= bytes::le_bytes4(value));
    bytes::overwrite(data, offset, &b);
}

/// The letters `APONCAL` and a zero byte, which begin a container.
pub open spec fn container_magic() -> Seq<u8> {
    seq![0x41, 0x50, 0x4f, 0x4e, 0x43, 0x41, 0x4c, 0x00]
}

/// The header of a container without its own checksum: magic, version 1, header size, chip,
/// native format 1, payload length and checksum, and zeros.
pub open spec fn header_body(chip: PonCalibrationChip, payload: Seq<u8>) -> Seq<u8> {
    container_magic() + bytes::le_bytes2(1) + bytes::le_bytes2(0x80) + bytes::le_bytes4(
        chip_id(chip),
    ) + bytes::le_bytes4(1) + bytes::le_bytes4(payload.len() as u32) + bytes::le_bytes4(
        calibration_sum(payload),
    ) + bytes::repeated(96, 0)
}

/// The container of a payload: the header, its checksum, the payload, and 0xff up to the size
/// of the part.
pub open spec fn container(chip: PonCalibrationChip, payload: Seq<u8>) -> Seq<u8> {
    header_body(chip, payload) + bytes::le_bytes4(calibration_sum(header_body(chip, payload)))
        + payload + bytes::repeated((1920 - payload.len()) as nat, 0xff)
}

/// The container of a payload that fits into one.
pub open spec fn encoded(chip: PonCalibrationChip, payload: Seq<u8>) -> Result<
    Seq<u8>,
    Seq<char>,
> {
    if payload.len() > 1920 {
        Err(chip_name(chip) + " calibration data exceeds 1920 bytes"@)
    } else {
        Ok(container(chip, payload))
    }
}

/// Builds the container of a payload. The 128-byte APONCAL header keeps the native payload at
/// offset 0x80.
pub fn encode_pon_calibration(chip: PonCalibrationChip, payload: &[u8]) -> (r: Result<
    Vec<u8>,
    String,
>)
    ensures
        text::says(r, encoded(chip, payload@)),
{
    if payload.len() > PON_SIZE - PON_CAL_HEADER_SIZE {
        return Err(text::joined(chip.name(), " calibration data exceeds 1920 bytes"));
    }
    let magic: [u8; 8] = [0x41, 0x50, 0x4f, 0x4e, 0x43, 0x41, 0x4c, 0x00];
    assert(magic@ =~= container_magic());
    let mut output = bytes::repeat(124, 0);
    bytes::overwrite(&mut output, 0, &magic);
    put_u16_le(&mut output, 0x08, 1);
    put_u16_le(&mut output, 0x0a, PON_CAL_HEADER_SIZE as u16);
    put_u32_le(&mut output, 0x0c, chip.id());
    put_u32_le(&mut output, 0x10, 1);
    put_u32_le(&mut output, 0x14, payload.len() as u32);
    put_u32_le(&mut output, 0x18, calibration_crc32(payload));
    assert(output@ =~= header_body(chip, payload@));
    let header_crc = calibration_crc32(output.as_slice());
    bytes::pad(&mut output, PON_CAL_HEADER_SIZE, 0);
    put_u32_le(&mut output, 0x7c, header_crc);
    assert(output@ =~= header_body(chip, payload@) + bytes::le_bytes4(header_crc));
    bytes::append(&mut output, payload);
    bytes::pad(&mut output, PON_SIZE, 0xff);
    assert(output@ =~= container(chip, payload@));
    Ok(output)
}

/// What a container says, or why `d` is none; `source` names where it came from.
pub open spec fn parsed(source: Seq<char>, d: Seq<u8>) -> Result<
    (PonCalibrationChip, int),
    Seq<char>,
> {
    if d.len() != PON_SIZE || !bytes::begins(d, container_magic()) {
        Err("Invalid PON calibration container "@ + source)
    } else if u16_at(d, 0x08) != Ok::<u16, Seq<char>>(1) || u16_at(d, 0x0a) != Ok::<
        u16,
        Seq<char>,
    >(0x80) || u32_at(d, 0x10) != Ok::<u32, Seq<char>>(1) {
        Err("Unsupported PON calibration format "@ + source)
    } else if u32_at(d, 0x7c) != Ok::<u32, Seq<char>>(calibration_sum(d.take(0x7c))) {
        Err("PON calibration header CRC mismatch in "@ + source)
    } else {
        match chip_of(u32_at(d, 0x0c)->Ok_0) {
            Err(e) => Err(e),
            Ok(chip) => {
                let length = u32_at(d, 0x14)->Ok_0 as int;
                if 0x80 + length > d.len() {
                    Err("Invalid PON calibration payload length in "@ + source)
                } else if u32_at(d, 0x18) != Ok::<u32, Seq<char>>(
                    calibration_sum(d.subrange(0x80, 0x80 + length)),
                ) {
                    Err("PON calibration payload CRC mismatch in "@ + source)
                } else {
                    Ok((chip, length))
                }
            },
        }
    }
}

/// Reads what a container says.
pub fn parse_pon_calibration(source: &str, data: &[u8]) -> (r: Result<PonCalibrationInfo, String>)
    ensures
        text::says(r, parsed(source@, data@)),
{
    let magic: [u8; 8] = [0x41, 0x50, 0x4f, 0x4e, 0x43, 0x41, 0x4c, 0x00];
    assert(magic@ =~= container_magic());
    if data.len() != PON_SIZE || !bytes::starts_with(data, &magic) {
        return Err(text::joined("Invalid PON calibration container ", source));
    }
    if read_u16_le(data, 0x08)? != 1 || read_u16_le(data, 0x0a)? != PON_CAL_HEADER_SIZE as u16
        || read_u32_le(data, 0x10)? != 1 {
        return Err(text::joined("Unsupported PON calibration format ", source));
    }
    assert(data@.subrange(0, 0x7c) =~= data@.take(0x7c));
    if calibration_crc32(&data[0..0x7c]) != read_u32_le(data, 0x7c)? {
        return Err(text::joined("PON calibration header CRC mismatch in ", source));
    }
    let chip = PonCalibrationChip::from_id(read_u32_le(data, 0x0c)?)?;
    let payload_length: usize = read_u32_le(data, 0x14)? as usize;
    if payload_length > PON_SIZE - PON_CAL_HEADER_SIZE {
        return Err(text::joined("Invalid PON calibration payload length in ", source));
    }
    let payload = &data[PON_CAL_HEADER_SIZE..PON_CAL_HEADER_SIZE + payload_length];
    if calibration_crc32(payload) != read_u32_le(data, 0x18)? {
        return Err(text::joined("PON calibration payload CRC mismatch in ", source));
    }
    Ok(PonCalibrationInfo { chip, payload_length })
}

/// The letters `fiberhomebdbob`, which begin a stock table.
pub open spec fn bdbob_magic() -> Seq<u8> {
    seq![0x66, 0x69, 0x62, 0x65, 0x72, 0x68, 0x6f, 0x6d, 0x65, 0x62, 0x64, 0x62, 0x6f, 0x62]
}

/// A stock table is intact, or why it is not.
pub open spec fn bdbob_checked(source: Seq<char>, d: Seq<u8>) -> Result<(), Seq<char>> {
    if d.len() != PON_SIZE {
        Err(
            "PON BDBOB "@ + source + " is "@ + text::decimal(d.len()) + " bytes; expected "@
                + text::decimal(PON_SIZE as nat),
        )
    } else if !bytes::begins(d, bdbob_magic()) {
        Err("PON BDBOB "@ + source + " has no fiberhomebdbob header"@)
    } else if u32_at(d, 0x78) != Ok::<u32, Seq<char>>(0x80) || u32_at(d, 0x70) != Ok::<
        u32,
        Seq<char>,
    >(0x780) {
        Err("Invalid PON BDBOB length fields in "@ + source)
    } else if u32_at(d, 0x7c) != Ok::<u32, Seq<char>>(bdbob_sum(d.take(0x7c))) {
        Err("PON BDBOB header CRC mismatch in "@ + source)
    } else if u32_at(d, 0x74) != Ok::<u32, Seq<char>>(bdbob_sum(d.skip(0x80))) {
        Err("PON BDBOB payload CRC mismatch in "@ + source)
    } else {
        Ok(())
    }
}

/// Checks a stock table.
pub fn validate_bdbob(source: &str, data: &[u8]) -> (r: Result<(), String>)
    ensures
        text::says(r, bdbob_checked(source@, data@)),
{
    if data.len() != PON_SIZE {
        let mut message = text::joined("PON BDBOB ", source);
        message.append(" is ");
        text::push_decimal(&mut message, data.len() as u64);
        message.append(" bytes; expected ");
        text::push_decimal(&mut message, PON_SIZE as u64);
        return Err(message);
    }
    let magic: [u8; 14] = [
        0x66,
        0x69,
        0x62,
        0x65,
        0x72,
        0x68,
        0x6f,
        0x6d,
        0x65,
        0x62,
        0x64,
        0x62,
        0x6f,
        0x62,
    ];
    assert(magic@ =~= bdbob_magic());
    if !bytes::starts_with(data, &magic) {
        let mut message = text::joined("PON BDBOB ", source);
        message.append(" has no fiberhomebdbob header");
        return Err(message);
    }
    let data_size = read_u32_le(data, 0x70)?;
    let data_crc = read_u32_le(data, 0x74)?;
    let header_size = read_u32_le(data, 0x78)?;
    let header_crc = read_u32_le(data, 0x7c)?;
    if header_size != BDBOB_HEADER_SIZE as u32 || data_size != (PON_SIZE - BDBOB_HEADER_SIZE) as u32 {
        return Err(text::joined("Invalid PON BDBOB length fields in ", source));
    }
    assert(data@.subrange(0, 0x7c) =~= data@.take(0x7c));
    assert(data@.subrange(0x80, 0x800) =~= data@.skip(0x80));
    if fiberhome_crc32(&data[0..0x7c]) != header_crc {
        return Err(text::joined("PON BDBOB header CRC mismatch in ", source));
    }
    if fiberhome_crc32(&data[BDBOB_HEADER_SIZE..PON_SIZE]) != data_crc {
        return Err(text::joined("PON BDBOB payload CRC mismatch in ", source));
    }
    Ok(())
}

/// The container that a stock table converts to, with the chip that its header names.
pub open spec fn converted(source: Seq<char>, d: Seq<u8>) -> Result<Seq<u8>, Seq<char>> {
    match bdbob_checked(source, d) {
        Err(e) => Err(e),
        Ok(_) => if d[0x30] == 0 || d[0x30] == 0x28 {
            Ok(container(PonCalibrationChip::Gn28l95, d.skip(0x80)))
        } else if d[0x30] == 0x2e {
            Ok(container(PonCalibrationChip::Ux3363, d.skip(0x80)))
        } else {
            Err("Unsupported PON BDBOB chip 0x"@ + text::hex2(d[0x30]) + " in "@ + source)
        },
    }
}

/// Converts a stock table to a container.
pub fn convert_bdbob(source: &str, data: &[u8]) -> (r: Result<Vec<u8>, String>)
    ensures
        text::says(r, converted(source@, data@)),
{
    validate_bdbob(source, data)?;
    let id = data[0x30];
    let chip = if id == 0 || id == 0x28 {
        PonCalibrationChip::Gn28l95
    } else if id == 0x2e {
        PonCalibrationChip::Ux3363
    } else {
        let mut message = "Unsupported PON BDBOB chip 0x".to_owned();
        text::push_hex2(&mut message, id);
        message.append(" in ");
        message.append(source);
        return Err(message);
    };
    assert(data@.subrange(0x80, 0x800) =~= data@.skip(0x80));
    encode_pon_calibration(chip, &data[BDBOB_HEADER_SIZE..PON_SIZE])
}

/// The container in `d`, or the one that a stock table in `d` converts to.
pub open spec fn normalized(source: Seq<char>, d: Seq<u8>) -> Result<Seq<u8>, Seq<char>> {
    if bytes::begins(d, container_magic()) {
        match parsed(source, d) {
            Err(e) => Err(e),
            Ok(_) => Ok(d),
        }
    } else {
        converted(source, d)
    }
}

/// Brings calibration data of either format into a container.
pub fn normalize_pon_calibration(source: &str, data: &[u8]) -> (r: Result<Vec<u8>, String>)
    ensures
        text::says(r, normalized(source@, data@)),
{
    let magic: [u8; 8] = [0x41, 0x50, 0x4f, 0x4e, 0x43, 0x41, 0x4c, 0x00];
    assert(magic@ =~= container_magic());
    if bytes::starts_with(data, &magic) {
        parse_pon_calibration(source, data)?;
        Ok(bytes::copy_of(data))
    } else {
        convert_bdbob(source, data)
    }
}

/// A container reads back: it names the chip and the length of its payload, and the payload
/// stands behind the header.
pub proof fn container_reads_back(source: Seq<char>, chip: PonCalibrationChip, payload: Seq<u8>)
    requires
        payload.len() <= 1920,
    ensures
        container(chip, payload).len() == PON_SIZE,
        bytes::begins(container(chip, payload), container_magic()),
        parsed(source, container(chip, payload)) == Ok::<(PonCalibrationChip, int), Seq<char>>(
            (chip, payload.len() as int),
        ),
        container(chip, payload).subrange(0x80, 0x80 + payload.len() as int) == payload,
{
    let body = header_body(chip, payload);
    let d = container(chip, payload);
    bytes::le_bytes_read_back(1, chip_id(chip));
    bytes::le_bytes_read_back(0x80, 1);
    bytes::le_bytes_read_back(0, payload.len() as u32);
    bytes::le_bytes_read_back(0, calibration_sum(payload));
    bytes::le_bytes_read_back(0, calibration_sum(body));
    assert(d.take(8) =~= container_magic());
    assert(d.subrange(0x08, 0x0a) =~= bytes::le_bytes2(1));
    assert(d.subrange(0x0a, 0x0c) =~= bytes::le_bytes2(0x80));
    assert(d.subrange(0x0c, 0x10) =~= bytes::le_bytes4(chip_id(chip)));
    assert(d.subrange(0x10, 0x14) =~= bytes::le_bytes4(1));
    assert(d.subrange(0x14, 0x18) =~= bytes::le_bytes4(payload.len() as u32));
    assert(d.subrange(0x18, 0x1c) =~= bytes::le_bytes4(calibration_sum(payload)));
    assert(d.take(0x7c) =~= body);
    assert(d.subrange(0x7c, 0x80) =~= bytes::le_bytes4(calibration_sum(body)));
    assert(d.subrange(0x80, 0x80 + payload.len() as int) =~= payload);
}

/// What normalizing gives is a container, which normalizing again leaves as it is.
pub proof fn normalized_is_a_container(source: Seq<char>, again: Seq<char>, d: Seq<u8>)
    ensures
        normalized(source, d) matches Ok(c) ==> {
            &&& c.len() == PON_SIZE
            &&& bytes::begins(c, container_magic())
            &&& parsed(again, c) is Ok
            &&& normalized(again, c) == Ok::<Seq<u8>, Seq<char>>(c)
        },
{
    if bytes::begins(d, container_magic()) {
    } else if bdbob_checked(source, d) is Ok {
        container_reads_back(again, PonCalibrationChip::Gn28l95, d.skip(0x80));
        container_reads_back(again, PonCalibrationChip::Ux3363, d.skip(0x80));
    }
}

} // verus!
