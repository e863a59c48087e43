//! The identity of a device: MAC addresses, the PON serial number and the device serial number,
//! as text and as bytes.

use vstd::prelude::*;
use vstd::string::StringExecFns;
use vstd::utf8::*;

use crate::bytes;
use crate::text;

verus! {

pub const BASE_MAC_SIZE: usize = 0x0006;

pub const PON_SN_SIZE: usize = 0x0008;

pub const DEVICE_SN_SIZE: usize = 0x0020;

/// The value of a hexadecimal digit of either case.
pub open spec fn digit_value(c: char) -> Option<int> {
    if '0' <= c <= '9' {
        Some(c as int - '0' as int)
    } else if 'a' <= c <= 'f' {
        Some(c as int - 'a' as int + 10)
    } else if 'A' <= c <= 'F' {
        Some(c as int - 'A' as int + 10)
    } else {
        None
    }
}

/// The value of two characters as a hexadecimal number, which may carry a plus sign.
pub open spec fn pair_value(a: char, b: char) -> Option<u8> {
    match (digit_value(a), digit_value(b)) {
        (Some(hi), Some(lo)) => Some((16 * hi + lo) as u8),
        (None, Some(lo)) if a == '+' => Some(lo as u8),
        _ => None,
    }
}

/// The value of the pair of characters number `i`.
pub open spec fn pair_at(s: Seq<char>, i: int) -> Option<u8> {
    pair_value(s[2 * i], s[2 * i + 1])
}

/// Not one of the separators that may stand between hexadecimal digits.
pub open spec fn no_separator() -> spec_fn(char) -> bool {
    |c: char| c != ':' && c != '-'
}

/// `expected` bytes in hexadecimal notation; `field` and `source` say in messages what was read.
pub open spec fn decoded(
    source: Seq<char>,
    field: Seq<char>,
    value: Seq<char>,
    expected: nat,
) -> Result<Seq<u8>, Seq<char>> {
    let digits = value.filter(no_separator());
    if !is_ascii_chars(digits) || digits.len() != 2 * expected {
        Err("Invalid "@ + field + " length in "@ + source)
    } else if exists|i: int| 0 <= i < expected && #[trigger] pair_at(digits, i) is None {
        Err("Invalid hexadecimal "@ + field + " in "@ + source)
    } else {
        Ok(Seq::new(expected, |i: int| pair_at(digits, i)->Some_0))
    }
}

fn digit_of(c: char) -> (r: Option<u8>)
    ensures
        match r {
            Some(n) => digit_value(c) == Some(n as int) && n < 16,
            None => digit_value(c) is None,
        },
{
    if '0' <= c && c <= '9' {
        Some((c as u32 - '0' as u32) as u8)
    } else if 'a' <= c && c <= 'f' {
        Some((c as u32 - 'a' as u32) as u8 + 10)
    } else if 'A' <= c && c <= 'F' {
        Some((c as u32 - 'A' as u32) as u8 + 10)
    } else {
        None
    }
}

fn pair_of(a: char, b: char) -> (r: Option<u8>)
    ensures
        r == pair_value(a, b),
{
    match (digit_of(a), digit_of(b)) {
        (Some(hi), Some(lo)) => Some(16 * hi + lo),
        (None, Some(lo)) => if a == '+' {
            Some(lo)
        } else {
            None
        },
        _ => None,
    }
}

/// The characters of a text that are no separators.
fn without_separators(value: &str) -> (r: Vec<char>)
    ensures
        r@ == value@.filter(no_separator()),
{
    let chars = text::chars_of(value);
    let mut out: Vec<char> = Vec::new();
    let mut i: usize = 0;
    reveal(Seq::filter);
    while i < chars.len()
        invariant
            i <= chars.len(),
            chars@ == value@,
            out@ == value@.take(i as int).filter(no_separator()),
        decreases chars.len() - i,
    {
        reveal(Seq::filter);
        assert(value@.take(i + 1).drop_last() =~= value@.take(i as int));
        let c = chars[i];
        if c != ':' && c != '-' {
            out.push(c);
        }
        i += 1;
    }
    assert(value@.take(value@.len() as int) =~= value@);
    out
}

/// Reads `expected` bytes in hexadecimal notation.
pub fn decode_hex(source: &str, field: &str, value: &str, expected: usize) -> (r: Result<
    Vec<u8>,
    String,
>)
    requires
        2 * expected <= usize::MAX,
    ensures
        text::says(r, decoded(source@, field@, value@, expected as nat)),
{
    let digits = without_separators(value);
    if !text::text_of(digits.as_slice()).as_str().is_ascii() || digits.len() != expected * 2 {
        let mut message = text::joined("Invalid ", field);
        message.append(" length in ");
        message.append(source);
        return Err(message);
    }
    let mut out: Vec<u8> = Vec::new();
    let mut i: usize = 0;
    while i < expected
        invariant
            i <= expected,
            digits@ == value@.filter(no_separator()),
            is_ascii_chars(digits@),
            digits.len() == 2 * expected,
            out@.len() == i,
            forall|j: int| 0 <= j < i ==> #[trigger] pair_at(digits@, j) == Some(out@[j]),
        decreases expected - i,
    {
        match pair_of(digits[2 * i], digits[2 * i + 1]) {
            Some(b) => {
                assert(pair_at(digits@, i as int) == Some(b));
                out.push(b);
            },
            None => {
                assert(pair_at(digits@, i as int) is None);
                let mut message = text::joined("Invalid hexadecimal ", field);
                message.append(" in ");
                message.append(source);
                return Err(message);
            },
        }
        i += 1;
    }
    assert(out@ =~= Seq::new(expected as nat, |k: int| pair_at(digits@, k)->Some_0));
    Ok(out)
}

/// A MAC address in hexadecimal notation: six bytes that are neither all zero nor all ones, and
/// no group address.
pub open spec fn mac_read(source: Seq<char>, field: Seq<char>, value: Seq<char>) -> Result<
    Seq<u8>,
    Seq<char>,
> {
    match decoded(source, field, value, 6) {
        Err(e) => Err(e),
        Ok(mac) => if is_station_address(mac) {
            Ok(mac)
        } else {
            Err("Invalid "@ + field + " in "@ + source)
        },
    }
}

/// Six bytes that can be the address of a device.
pub open spec fn is_station_address(mac: Seq<u8>) -> bool {
    !bytes::all_are(mac, 0) && !bytes::all_are(mac, 0xff) && mac[0] & 1 == 0
}

/// Reads a MAC address.
pub fn parse_mac(source: &str, field: &str, value: &str) -> (r: Result<Vec<u8>, String>)
    ensures
        text::says(r, mac_read(source@, field@, value@)),
{
    let mac = decode_hex(source, field, value, BASE_MAC_SIZE)?;
    if bytes::filled_with(mac.as_slice(), 0) || bytes::filled_with(mac.as_slice(), 0xff) || mac[0]
        & 1 != 0 {
        let mut message = text::joined("Invalid ", field);
        message.append(" in ");
        message.append(source);
        return Err(message);
    }
    Ok(mac)
}

/// A PON serial number in hexadecimal notation: eight bytes, neither all zero nor all ones.
pub open spec fn pon_serial_read(source: Seq<char>, value: Seq<char>) -> Result<
    Seq<u8>,
    Seq<char>,
> {
    match decoded(source, "GponSN"@, value, 8) {
        Err(e) => Err(e),
        Ok(serial) => if bytes::all_are(serial, 0) || bytes::all_are(serial, 0xff) {
            Err("Invalid GponSN in "@ + source)
        } else {
            Ok(serial)
        },
    }
}

/// Reads a PON serial number in hexadecimal notation.
pub fn parse_pon_serial(source: &str, value: &str) -> (r: Result<Vec<u8>, String>)
    ensures
        text::says(r, pon_serial_read(source@, value@)),
{
    let serial = decode_hex(source, "GponSN", value, PON_SN_SIZE)?;
    if bytes::filled_with(serial.as_slice(), 0) || bytes::filled_with(serial.as_slice(), 0xff) {
        return Err(text::joined("Invalid GponSN in ", source));
    }
    Ok(serial)
}

/// Printable ASCII, the space included.
pub open spec fn is_printable(b: u8) -> bool {
    0x20 <= b <= 0x7e
}

/// The field of a device serial number: one to 32 printable ASCII characters, followed by
/// zeros.
pub open spec fn device_serial_read(source: Seq<char>, value: Seq<char>) -> Result<
    Seq<u8>,
    Seq<char>,
> {
    let serial = encode_utf8(value);
    if serial.len() == 0 || serial.len() > 32 || !(forall|i: int|
        0 <= i < serial.len() ==> is_printable(#[trigger] serial[i])) {
        Err("Invalid SerialNumber in "@ + source)
    } else {
        Ok(serial + bytes::repeated((32 - serial.len()) as nat, 0))
    }
}

/// Reads a device serial number into its field.
pub fn parse_device_serial(source: &str, value: &str) -> (r: Result<Vec<u8>, String>)
    ensures
        text::says(r, device_serial_read(source@, value@)),
{
    let serial = value.as_bytes();
    if serial.len() == 0 || serial.len() > DEVICE_SN_SIZE {
        return Err(text::joined("Invalid SerialNumber in ", source));
    }
    let mut i: usize = 0;
    while i < serial.len()
        invariant
            i <= serial.len(),
            serial@ == encode_utf8(value@),
            forall|j: int| 0 <= j < i ==> is_printable(#[trigger] serial@[j]),
        decreases serial.len() - i,
    {
        if serial[i] < 0x20 || serial[i] > 0x7e {
            assert(!is_printable(serial@[i as int]));
            return Err(text::joined("Invalid SerialNumber in ", source));
        }
        i += 1;
    }
    let mut fixed = bytes::copy_of(serial);
    bytes::pad(&mut fixed, DEVICE_SN_SIZE, 0);
    Ok(fixed)
}

/// The bytes of `d` in upper-case hexadecimal notation.
pub open spec fn hex_text(d: Seq<u8>) -> Seq<char> {
    Seq::new(
        2 * d.len(),
        |i: int|
            text::upper_digit(
                if i % 2 == 0 {
                    d[i / 2] as int / 16
                } else {
                    d[i / 2] as int % 16
                },
            ),
    )
}

/// The bytes of `d` in upper-case hexadecimal notation, with a colon between two of them.
pub open spec fn mac_text(d: Seq<u8>) -> Seq<char>
    decreases d.len(),
{
    if d.len() <= 1 {
        hex_text(d)
    } else {
        mac_text(d.drop_last()) + ":"@ + hex_text(d.skip(d.len() - 1))
    }
}

/// The bytes of `d` in upper-case hexadecimal notation.
pub fn hex(d: &[u8]) -> (r: String)
    ensures
        r@ == hex_text(d@),
{
    let mut out = String::new();
    let mut i: usize = 0;
    assert(out@ =~= hex_text(d@.take(0)));
    while i < d.len()
        invariant
            i <= d.len(),
            out@ == hex_text(d@.take(i as int)),
        decreases d.len() - i,
    {
        out.push(text::upper_digit_of(d[i] / 16));
        out.push(text::upper_digit_of(d[i] % 16));
        i += 1;
        assert(out@ =~= hex_text(d@.take(i as int)));
    }
    assert(d@.take(d@.len() as int) =~= d@);
    out
}

/// The bytes of `d` in upper-case hexadecimal notation, with a colon between two of them.
pub fn hex_mac(d: &[u8]) -> (r: String)
    ensures
        r@ == mac_text(d@),
{
    let mut out = String::new();
    let mut i: usize = 0;
    assert(out@ =~= mac_text(d@.take(0)));
    while i < d.len()
        invariant
            i <= d.len(),
            out@ == mac_text(d@.take(i as int)),
        decreases d.len() - i,
    {
        let ghost before = out@;
        let ghost next = d@.take(i + 1);
        assert(next.drop_last() =~= d@.take(i as int));
        assert(next.skip(i as int) =~= d@.subrange(i as int, i + 1));
        if i > 0 {
            out.append(":");
        }
        let pair = hex(&d[i..i + 1]);
        out.append(pair.as_str());
        proof {
            if i == 0 {
                assert(next =~= d@.subrange(0, 1));
                assert(out@ =~= mac_text(next));
            }
        }
        i += 1;
    }
    assert(d@.take(d@.len() as int) =~= d@);
    out
}

/// An ASCII letter or decimal digit.
pub open spec fn is_alphanumeric(c: char) -> bool {
    '0' <= c <= '9' || 'A' <= c <= 'Z' || 'a' <= c <= 'z'
}

/// The first four bytes of a PON serial number are ASCII letters and digits: a vendor code.
pub open spec fn has_vendor(sn: Seq<u8>) -> bool {
    forall|i: int| 0 <= i < 4 ==> is_alphanumeric(#[trigger] sn[i] as char)
}

/// How the eight bytes of a PON serial number are shown: the vendor code as letters, if there
/// is one, and all else in hexadecimal notation.
pub open spec fn serial_text(sn: Seq<u8>) -> Seq<char> {
    if has_vendor(sn) {
        Seq::new(4, |i: int| sn[i] as char) + hex_text(sn.skip(4))
    } else {
        hex_text(sn)
    }
}

/// The text has the twelve characters of a PON serial number with a vendor code.
pub open spec fn shows_vendor(value: Seq<char>) -> bool {
    &&& value.len() == 12
    &&& is_ascii_chars(value)
    &&& forall|i: int| 0 <= i < 4 ==> is_alphanumeric(#[trigger] value[i])
}

/// The eight bytes of a PON serial number, from either of the ways in which it is shown.
pub open spec fn serial_read(value: Seq<char>) -> Result<Seq<u8>, Seq<char>> {
    if shows_vendor(value) {
        match decoded("PON SN"@, "PON SN"@, value.skip(4), 4) {
            Err(e) => Err(e),
            Ok(d) => Ok(Seq::new(4, |i: int| value[i] as u8) + d),
        }
    } else {
        pon_serial_read("PON SN"@, value)
    }
}

fn alphanumeric(b: u8) -> (r: bool)
    ensures
        r == is_alphanumeric(b as char),
{
    (0x30 <= b && b <= 0x39) || (0x41 <= b && b <= 0x5a) || (0x61 <= b && b <= 0x7a)
}

/// Shows a PON serial number.
pub fn show_serial(sn: &[u8]) -> (r: String)
    requires
        sn@.len() == 8,
    ensures
        r@ == serial_text(sn@),
{
    if alphanumeric(sn[0]) && alphanumeric(sn[1]) && alphanumeric(sn[2]) && alphanumeric(sn[3]) {
        let mut out = String::new();
        out.push(sn[0] as char);
        out.push(sn[1] as char);
        out.push(sn[2] as char);
        out.push(sn[3] as char);
        assert(out@ =~= Seq::new(4, |i: int| sn@[i] as char));
        let rest = hex(&sn[4..8]);
        assert(sn@.subrange(4, 8) =~= sn@.skip(4));
        out.append(rest.as_str());
        assert(has_vendor(sn@)) by {
            assert forall|i: int| 0 <= i < 4 implies is_alphanumeric(#[trigger] sn@[i] as char) by {
                assert(i == 0 || i == 1 || i == 2 || i == 3);
            }
        }
        out
    } else {
        hex(sn)
    }
}

/// Reads a PON serial number as it is shown.
pub fn display_sn(value: &str) -> (r: Result<Vec<u8>, String>)
    ensures
        text::says(r, serial_read(value@)),
{
    let raw = value.as_bytes();
    if raw.len() == 12 && value.is_ascii() && alphanumeric(raw[0]) && alphanumeric(raw[1])
        && alphanumeric(raw[2]) && alphanumeric(raw[3]) {
        proof {
            is_ascii_chars_encode_utf8(value@);
            assert forall|i: int| 0 <= i < 4 implies is_alphanumeric(#[trigger] value@[i]) by {
                assert(i == 0 || i == 1 || i == 2 || i == 3);
                assert(value@[i] as u8 == raw@[i]);
            }
        }
        let mut out = bytes::copy_of(&raw[0..4]);
        assert(out@ =~= Seq::new(4, |i: int| value@[i] as u8));
        let chars = text::chars_of(value);
        assert(chars@.subrange(4, 12) =~= value@.skip(4));
        let rest = text::text_of(&chars.as_slice()[4..12]);
        let tail = decode_hex("PON SN", "PON SN", rest.as_str(), 4)?;
        bytes::append(&mut out, tail.as_slice());
        return Ok(out);
    }
    proof {
        if is_ascii_chars(value@) {
            is_ascii_chars_encode_utf8(value@);
            if value@.len() == 12 {
                assert(forall|i: int| 0 <= i < 12 ==> value@[i] as u8 == #[trigger] raw@[i]);
                if shows_vendor(value@) {
                    assert(is_alphanumeric(value@[0]) && is_alphanumeric(value@[1])
                        && is_alphanumeric(value@[2]) && is_alphanumeric(value@[3]));
                }
            }
        }
    }
    parse_pon_serial("PON SN", value)
}

/// `image` with `data` at `offset`, which must fit.
pub open spec fn placed(image: Seq<u8>, offset: int, data: Seq<u8>, name: Seq<char>) -> Result<
    Seq<u8>,
    Seq<char>,
> {
    if offset + data.len() > image.len() {
        Err(name + " exceeds the factory image boundary"@)
    } else {
        Ok(bytes::splice(image, offset, data))
    }
}

/// Puts `data` at `offset`; an image that it does not fit into stays as it is.
pub fn place(image: &mut Vec<u8>, offset: usize, data: &[u8], name: &str) -> (r: Result<(), String>)
    requires
        offset + data@.len() <= usize::MAX,
    ensures
        match (r, placed(old(image)@, offset as int, data@, name@)) {
            (Ok(_), Ok(after)) => final(image)@ == after,
            (Err(e), Err(m)) => e@ == m && final(image)@ == old(image)@,
            _ => false,
        },
{
    if offset + data.len() > image.len() {
        return Err(text::joined(name, " exceeds the factory image boundary"));
    }
    bytes::overwrite(image, offset, data);
    Ok(())
}

/// `image` with an edited MAC address at `offset`; an unedited one leaves it as it is.
pub open spec fn mac_updated(
    image: Seq<u8>,
    offset: int,
    label: Seq<char>,
    value: Seq<char>,
    original: Seq<char>,
) -> Result<Seq<u8>, Seq<char>> {
    if value == original {
        Ok(image)
    } else if value.len() == 0 {
        Err(label + " cannot be empty"@)
    } else {
        match mac_read("identity"@, label, value) {
            Err(e) => Err(e),
            Ok(mac) => placed(image, offset, mac, label),
        }
    }
}

/// Puts an edited MAC address at `offset`; on an error the image stays as it is.
pub fn update_mac_field(
    image: &mut Vec<u8>,
    offset: usize,
    label: &str,
    value: &str,
    original: &str,
) -> (r: Result<(), String>)
    requires
        offset + 6 <= usize::MAX,
    ensures
        match (r, mac_updated(old(image)@, offset as int, label@, value@, original@)) {
            (Ok(_), Ok(after)) => final(image)@ == after,
            (Err(e), Err(m)) => e@ == m && final(image)@ == old(image)@,
            _ => false,
        },
{
    if text::same_text(value, original) {
        return Ok(());
    }
    if value.is_empty() {
        return Err(text::joined(label, " cannot be empty"));
    }
    let mac = parse_mac("identity", label, value)?;
    place(image, offset, mac.as_slice(), label)
}

/// The Wi-Fi EEPROM in front of a container: 4096 bytes that begin with the device number
/// 0x7916.
pub open spec fn eeprom_read(source: Seq<char>, d: Seq<u8>) -> Result<Seq<u8>, Seq<char>> {
    if d.len() < 0x1000 {
        Err("MT7916 EEPROM "@ + source + " is shorter than 4096 bytes"@)
    } else if bytes::le_value(d.take(2)) != 0x7916 {
        Err("Invalid MT7916 device ID in "@ + source)
    } else {
        Ok(d.take(0x1000))
    }
}

/// Takes the Wi-Fi EEPROM out of a container.
pub fn extract_wifi_eeprom(source: &str, container: &[u8]) -> (r: Result<Vec<u8>, String>)
    ensures
        text::says(r, eeprom_read(source@, container@)),
{
    if container.len() < 0x1000 {
        let mut message = text::joined("MT7916 EEPROM ", source);
        message.append(" is shorter than 4096 bytes");
        return Err(message);
    }
    assert(container@.subrange(0, 0x1000) =~= container@.take(0x1000));
    proof {
        bytes::lemma_le2(container@.take(2));
    }
    if container[0] as u16 + 256 * container[1] as u16 != 0x7916 {
        return Err(text::joined("Invalid MT7916 device ID in ", source));
    }
    Ok(bytes::copy_of(&container[0..0x1000]))
}

/// Fills `data` with [`getrandom::fill`]. Which bytes come back is left to chance, and whether
/// the call succeeds, and with what message it fails, to the machine: all that holds of every
/// outcome is that the length stays.
#[verifier::external_body]
fn fill_random(data: &mut Vec<u8>) -> (r: Result<(), String>)
    ensures
        final(data)@.len() == old(data)@.len(),
{
    getrandom::fill(data.as_mut_slice()).map_err(|e| e.to_string())
}

/// The address with the bit of local administration set and the group bit cleared.
pub open spec fn local_address(d: Seq<u8>) -> Seq<u8> {
    d.update(0, (d[0] & 0xfc) | 2)
}

/// A locally administered MAC address made of six random bytes.
pub fn local_mac(random: &[u8]) -> (r: String)
    requires
        random@.len() == 6,
    ensures
        r@ == mac_text(local_address(random@)),
{
    let mut data = bytes::copy_of(random);
    let first: u8 = (data[0] & 0xfc) | 2;
    data[0] = first;
    hex_mac(data.as_slice())
}

/// Draws `n` random bytes.
fn draw(n: usize) -> (r: Result<Vec<u8>, String>)
    ensures
        r matches Ok(d) ==> d@.len() == n,
{
    let mut data = bytes::repeat(n, 0);
    fill_random(&mut data)?;
    Ok(data)
}

/// The MAC address that a draw of six bytes gives; a draw that failed gives its error.
pub open spec fn drawn_mac(drawn: Result<Seq<u8>, Seq<char>>) -> Result<Seq<char>, Seq<char>> {
    match drawn {
        Ok(d) => Ok(mac_text(local_address(d))),
        Err(e) => Err(e),
    }
}

/// A draw, as bytes and characters.
pub open spec fn draw_model(drawn: Result<Vec<u8>, String>) -> Result<Seq<u8>, Seq<char>> {
    match drawn {
        Ok(d) => Ok(d@),
        Err(e) => Err(e@),
    }
}

/// Makes a MAC address of a draw of six bytes.
pub fn mac_from_draw(drawn: Result<Vec<u8>, String>) -> (r: Result<String, String>)
    requires
        drawn matches Ok(d) ==> d@.len() == 6,
    ensures
        text::says(r, drawn_mac(draw_model(drawn))),
{
    let d = drawn?;
    Ok(local_mac(d.as_slice()))
}

/// A random, locally administered MAC address.
pub fn random_mac() -> (r: Result<String, String>)
    ensures
        r matches Ok(mac) ==> exists|d: Seq<u8>|
            d.len() == 6 && mac@ == mac_text(#[trigger] local_address(d)),
{
    let drawn = draw(BASE_MAC_SIZE);
    mac_from_draw(drawn)
}

/// The PON serial number of the vendor FHTT with the given number.
pub fn vendor_serial(number: &[u8]) -> (r: String)
    ensures
        r@ == "FHTT"@ + hex_text(number@),
{
    let digits = hex(number);
    text::joined("FHTT", digits.as_str())
}

/// The PON serial number that a draw gives; a draw that failed gives its error.
pub open spec fn drawn_serial(drawn: Result<Seq<u8>, Seq<char>>) -> Result<Seq<char>, Seq<char>> {
    match drawn {
        Ok(d) => Ok("FHTT"@ + hex_text(d)),
        Err(e) => Err(e),
    }
}

/// Makes a PON serial number of a draw.
pub fn serial_from_draw(drawn: Result<Vec<u8>, String>) -> (r: Result<String, String>)
    ensures
        text::says(r, drawn_serial(draw_model(drawn))),
{
    let d = drawn?;
    Ok(vendor_serial(d.as_slice()))
}

/// A random PON serial number of the vendor FHTT.
pub fn random_sn() -> (r: Result<String, String>)
    ensures
        r matches Ok(sn) ==> exists|d: Seq<u8>|
            d.len() == 4 && sn@ == "FHTT"@ + #[trigger] hex_text(d),
{
    let drawn = draw(4);
    serial_from_draw(drawn)
}

proof fn lemma_filter_keeps(s: Seq<char>)
    requires
        forall|i: int| 0 <= i < s.len() ==> #[trigger] s[i] != ':' && s[i] != '-',
    ensures
        s.filter(no_separator()) == s,
    decreases s.len(),
{
    reveal(Seq::filter);
    if s.len() > 0 {
        lemma_filter_keeps(s.drop_last());
        assert(s =~= s.drop_last().push(s.last()));
    }
}

proof fn lemma_upper_digit(n: int)
    requires
        0 <= n < 16,
    ensures
        digit_value(text::upper_digit(n)) == Some(n),
        '0' <= text::upper_digit(n) <= '9' || 'A' <= text::upper_digit(n) <= 'F',
{
}

pub proof fn lemma_hex_text(d: Seq<u8>)
    ensures
        forall|i: int| 0 <= i < d.len() ==> #[trigger] pair_at(hex_text(d), i) == Some(d[i]),
        forall|i: int|
            0 <= i < 2 * d.len() ==> '0' <= #[trigger] hex_text(d)[i] <= '9' || 'A' <= hex_text(
                d,
            )[i] <= 'F',
        is_ascii_chars(hex_text(d)),
        hex_text(d).filter(no_separator()) == hex_text(d),
{
    assert forall|i: int| 0 <= i < d.len() implies #[trigger] pair_at(hex_text(d), i) == Some(
        d[i],
    ) by {
        lemma_upper_digit(d[i] as int / 16);
        lemma_upper_digit(d[i] as int % 16);
    }
    assert forall|i: int| 0 <= i < 2 * d.len() implies '0' <= #[trigger] hex_text(d)[i] <= '9'
        || 'A' <= hex_text(d)[i] <= 'F' by {
        lemma_upper_digit(d[i / 2] as int / 16);
        lemma_upper_digit(d[i / 2] as int % 16);
    }
    lemma_filter_keeps(hex_text(d));
}

pub proof fn lemma_mac_text(d: Seq<u8>)
    ensures
        mac_text(d).filter(no_separator()) == hex_text(d),
    decreases d.len(),
{
    lemma_hex_text(d);
    if d.len() > 1 {
        let front = d.drop_last();
        let back = d.skip(d.len() - 1);
        lemma_mac_text(front);
        lemma_hex_text(back);
        reveal_strlit(":");
        assert(":"@.filter(no_separator()) =~= Seq::<char>::empty()) by {
            reveal(Seq::filter);
            assert(":"@.drop_last() =~= Seq::<char>::empty());
            assert(Seq::<char>::empty().filter(no_separator()) =~= Seq::<char>::empty());
        }
        Seq::filter_distributes_over_add(mac_text(front) + ":"@, hex_text(back), no_separator());
        Seq::filter_distributes_over_add(mac_text(front), ":"@, no_separator());
        assert(hex_text(d) =~= hex_text(front) + hex_text(back));
    }
}

#[verifier::spinoff_prover]
proof fn lemma_pairs_read_back(source: Seq<char>, field: Seq<char>, value: Seq<char>, d: Seq<u8>)
    requires
        value.filter(no_separator()) == hex_text(d),
    ensures
        decoded(source, field, value, d.len()) == Ok::<Seq<u8>, Seq<char>>(d),
{
    lemma_hex_text(d);
    let digits = hex_text(d);
    assert forall|i: int| 0 <= i < d.len() implies !(#[trigger] pair_at(digits, i) is None) by {}
    assert(Seq::new(d.len(), |i: int| pair_at(digits, i)->Some_0) =~= d);
}

/// Bytes in the hexadecimal notation in which they are shown, with colons or without, decode to
/// the same bytes.
#[verifier::spinoff_prover]
pub proof fn shown_bytes_read_back(source: Seq<char>, field: Seq<char>, d: Seq<u8>)
    ensures
        decoded(source, field, hex_text(d), d.len()) == Ok::<Seq<u8>, Seq<char>>(d),
        decoded(source, field, mac_text(d), d.len()) == Ok::<Seq<u8>, Seq<char>>(d),
{
    assert(hex_text(d).filter(no_separator()) == hex_text(d)) by {
        lemma_hex_text(d);
    }
    lemma_mac_text(d);
    lemma_pairs_read_back(source, field, hex_text(d), d);
    lemma_pairs_read_back(source, field, mac_text(d), d);
}

/// A device address reads back as it is shown.
pub proof fn shown_mac_reads_back(source: Seq<char>, field: Seq<char>, mac: Seq<u8>)
    requires
        mac.len() == 6,
        is_station_address(mac),
    ensures
        mac_read(source, field, mac_text(mac)) == Ok::<Seq<u8>, Seq<char>>(mac),
{
    shown_bytes_read_back(source, field, mac);
}

#[verifier::spinoff_prover]
proof fn lemma_vendor_is_shown(sn: Seq<u8>)
    requires
        sn.len() == 8,
        has_vendor(sn),
    ensures
        shows_vendor(serial_text(sn)),
        serial_text(sn).skip(4) == hex_text(sn.skip(4)),
        Seq::new(4, |i: int| serial_text(sn)[i] as u8) == sn.take(4),
{
    let shown = serial_text(sn);
    let tail = hex_text(sn.skip(4));
    assert(shown.skip(4) =~= tail);
    assert forall|i: int| 0 <= i < 4 implies is_alphanumeric(#[trigger] shown[i]) by {
        assert(shown[i] == sn[i] as char);
    }
    assert(is_ascii_chars(tail)) by {
        lemma_hex_text(sn.skip(4));
    }
    assert forall|i: int| 0 <= i < shown.len() implies '\0' <= #[trigger] shown[i] <= '\u{7f}' by {
        if i < 4 {
            assert(is_alphanumeric(shown[i]));
        } else {
            assert(shown[i] == tail[i - 4]);
        }
    }
    assert(Seq::new(4, |i: int| shown[i] as u8) =~= sn.take(4));
}

/// A PON serial number reads back as it is shown.
#[verifier::spinoff_prover]
pub proof fn shown_serial_reads_back(sn: Seq<u8>)
    requires
        sn.len() == 8,
        !bytes::all_are(sn, 0),
        !bytes::all_are(sn, 0xff),
    ensures
        serial_read(serial_text(sn)) == Ok::<Seq<u8>, Seq<char>>(sn),
{
    if has_vendor(sn) {
        lemma_vendor_is_shown(sn);
        shown_bytes_read_back("PON SN"@, "PON SN"@, sn.skip(4));
        assert(sn.take(4) + sn.skip(4) =~= sn);
    } else {
        shown_bytes_read_back("PON SN"@, "GponSN"@, sn);
    }
}

/// Whatever six bytes chance gives, the MAC address made of them is locally administered, is no
/// group address and is accepted.
pub proof fn random_mac_is_accepted(source: Seq<char>, field: Seq<char>, d: Seq<u8>)
    requires
        d.len() == 6,
    ensures
        local_address(d)[0] & 3 == 2,
        mac_read(source, field, mac_text(local_address(d))) == Ok::<Seq<u8>, Seq<char>>(
            local_address(d),
        ),
{
    let first = d[0];
    assert(((first & 0xfc) | 2) & 3 == 2) by (bit_vector);
    assert(((first & 0xfc) | 2) & 1 == 0) by (bit_vector);
    assert(((first & 0xfc) | 2) != 0) by (bit_vector);
    assert(((first & 0xfc) | 2) != 0xff) by (bit_vector);
    assert(local_address(d)[0] == ((first & 0xfc) | 2));
    shown_mac_reads_back(source, field, local_address(d));
}

/// Whatever four bytes chance gives, the serial number made of them is accepted: it is the
/// vendor code FHTT followed by those bytes.
pub proof fn random_sn_is_accepted(d: Seq<u8>)
    requires
        d.len() == 4,
    ensures
        serial_read("FHTT"@ + hex_text(d)) == Ok::<Seq<u8>, Seq<char>>(
            seq![0x46u8, 0x48, 0x54, 0x54] + d,
        ),
{
    let sn = seq![0x46u8, 0x48, 0x54, 0x54] + d;
    reveal_strlit("FHTT");
    assert(sn[0] == 0x46);
    assert(has_vendor(sn)) by {
        assert forall|i: int| 0 <= i < 4 implies is_alphanumeric(#[trigger] sn[i] as char) by {
            assert(sn[0] == 0x46 && sn[1] == 0x48 && sn[2] == 0x54 && sn[3] == 0x54);
        }
    }
    assert(sn.skip(4) =~= d);
    assert(serial_text(sn) =~= "FHTT"@ + hex_text(d));
    shown_serial_reads_back(sn);
}

} // verus!
