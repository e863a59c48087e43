//! How an identity is written and read, and when an edited one is saved.

use vstd::prelude::*;
use vstd::utf8::*;

use crate::bytes;
use crate::identity;
use crate::laws;
use crate::model;
use crate::model::{FactoryModel, Part};
use crate::text;

verus! {

/// `c` is the hexadecimal digit of `n`, in either case.
pub open spec fn is_digit(c: char, n: int) -> bool {
    ||| 0 <= n < 10 && c as int == 0x30 + n
    ||| 10 <= n < 16 && (c as int == 0x41 + n - 10 || c as int == 0x61 + n - 10)
}

/// `c` is the upper-case hexadecimal digit of `n`.
pub open spec fn is_upper_digit(c: char, n: int) -> bool {
    is_digit(c, n) && (c as int) < 0x61
}

/// A text without its colons and hyphens.
pub open spec fn bare(s: Seq<char>) -> Seq<char>
    decreases s.len(),
{
    if s.len() == 0 {
        s
    } else if s.last() == ':' || s.last() == '-' {
        bare(s.drop_last())
    } else {
        bare(s.drop_last()).push(s.last())
    }
}

/// The text gives the bytes `d` in hexadecimal notation: two digits for each, in either case, with
/// colons and hyphens anywhere between them.
pub open spec fn spells(s: Seq<char>, d: Seq<u8>) -> bool {
    &&& bare(s).len() == 2 * d.len()
    &&& forall|i: int|
        0 <= i < d.len() ==> is_digit(bare(s)[2 * i], #[trigger] d[i] as int / 16) && is_digit(
            bare(s)[2 * i + 1],
            d[i] as int % 16,
        )
}

pub proof fn lemma_bare(s: Seq<char>)
    ensures
        bare(s) == s.filter(identity::no_separator()),
        bare(s).len() <= s.len(),
    decreases s.len(),
{
    reveal(Seq::filter);
    if s.len() > 0 {
        lemma_bare(s.drop_last());
    } else {
        assert(s.filter(identity::no_separator()) =~= s);
    }
}

proof fn lemma_digit(c: char, n: int)
    requires
        is_digit(c, n),
    ensures
        identity::digit_value(c) == Some(n),
        0 <= n < 16,
        c != ':' && c != '-' && c as int <= 0x7f,
{
}

proof fn lemma_pair(a: char, b: char, v: u8)
    requires
        is_digit(a, v as int / 16),
        is_digit(b, v as int % 16),
    ensures
        identity::pair_value(a, b) == Some(v),
{
    lemma_digit(a, v as int / 16);
    lemma_digit(b, v as int % 16);
}

/// Bytes are read from any spelling of them, whatever the case of the digits and wherever colons
/// and hyphens stand.
pub proof fn spelled_bytes_are_read(source: Seq<char>, field: Seq<char>, s: Seq<char>, d: Seq<u8>)
    requires
        spells(s, d),
    ensures
        identity::decoded(source, field, s, d.len()) == Ok::<Seq<u8>, Seq<char>>(d),
{
    lemma_bare(s);
    let digits = bare(s);
    assert forall|i: int| 0 <= i < d.len() implies #[trigger] identity::pair_at(digits, i) == Some(
        d[i],
    ) by {
        lemma_pair(digits[2 * i], digits[2 * i + 1], d[i]);
    }
    assert forall|i: int| 0 <= i < digits.len() implies '\0' <= #[trigger] digits[i] <= '\u{7f}' by {
        let k = i / 2;
        assert(is_digit(digits[2 * k], d[k] as int / 16));
        assert(is_digit(digits[2 * k + 1], d[k] as int % 16));
        assert(i == 2 * k || i == 2 * k + 1);
    }
    assert(Seq::new(d.len(), |i: int| identity::pair_at(digits, i)->Some_0) =~= d);
}

/// A byte is given by two digits, or by a plus sign and one digit.
pub open spec fn gives_byte(a: char, b: char, v: u8) -> bool {
    &&& is_digit(b, v as int % 16)
    &&& is_digit(a, v as int / 16) || (a == '+' && v < 16)
}

proof fn lemma_pair_read(a: char, b: char)
    ensures
        identity::pair_value(a, b) matches Some(v) ==> gives_byte(a, b, v),
{
    if let (Some(hi), Some(lo)) = (identity::digit_value(a), identity::digit_value(b)) {
        let v = (16 * hi + lo) as u8;
        assert(v as int / 16 == hi && v as int % 16 == lo);
    }
}

/// What is read was spelled: two characters for each byte, beside colons and hyphens.
pub proof fn read_bytes_were_spelled(source: Seq<char>, field: Seq<char>, s: Seq<char>, n: nat)
    ensures
        identity::decoded(source, field, s, n) matches Ok(d) ==> {
            &&& d.len() == n
            &&& bare(s).len() == 2 * n
            &&& forall|i: int|
                0 <= i < n ==> gives_byte(bare(s)[2 * i], bare(s)[2 * i + 1], #[trigger] d[i])
        },
{
    lemma_bare(s);
    if let Ok(d) = identity::decoded(source, field, s, n) {
        let digits = bare(s);
        assert forall|i: int| 0 <= i < n implies gives_byte(
            bare(s)[2 * i],
            bare(s)[2 * i + 1],
            #[trigger] d[i],
        ) by {
            assert(!(identity::pair_at(digits, i) is None));
            lemma_pair_read(digits[2 * i], digits[2 * i + 1]);
        }
    }
}

/// Six bytes that can be the address of a device: neither all zero nor all ones, and no group
/// address.
pub open spec fn is_station(mac: Seq<u8>) -> bool {
    &&& mac.len() == 6
    &&& exists|i: int| 0 <= i < 6 && #[trigger] mac[i] != 0
    &&& exists|i: int| 0 <= i < 6 && #[trigger] mac[i] != 0xff
    &&& mac[0] % 2 == 0
}

proof fn lemma_station(mac: Seq<u8>)
    requires
        mac.len() == 6,
    ensures
        identity::is_station_address(mac) == is_station(mac),
{
    let first = mac[0];
    assert(first & 1 == 0 <==> first % 2 == 0) by (bit_vector);
}

/// A MAC address is read exactly where the text gives six bytes that can be one.
pub proof fn station_addresses_are_read(source: Seq<char>, field: Seq<char>, s: Seq<char>, mac: Seq<u8>)
    ensures
        spells(s, mac) && is_station(mac) ==> identity::mac_read(source, field, s) == Ok::<
            Seq<u8>,
            Seq<char>,
        >(mac),
        spells(s, mac) && mac.len() == 6 && !is_station(mac) ==> identity::mac_read(
            source,
            field,
            s,
        ) is Err,
        identity::mac_read(source, field, s) matches Ok(read) ==> is_station(read) && bare(s).len()
            == 12,
{
    read_bytes_were_spelled(source, field, s, 6);
    if let Ok(read) = identity::mac_read(source, field, s) {
        lemma_station(read);
    }
    if spells(s, mac) && mac.len() == 6 {
        spelled_bytes_are_read(source, field, s, mac);
        lemma_station(mac);
    }
}

/// How a MAC address is shown: two upper-case digits for each byte, and a colon between bytes.
pub proof fn mac_is_shown_with_colons(d: Seq<u8>, i: int)
    requires
        0 <= i < d.len(),
    ensures
        identity::mac_text(d).len() == 3 * d.len() - 1,
        is_upper_digit(identity::mac_text(d)[3 * i], d[i] as int / 16),
        is_upper_digit(identity::mac_text(d)[3 * i + 1], d[i] as int % 16),
        i + 1 < d.len() ==> identity::mac_text(d)[3 * i + 2] == ':',
    decreases d.len(),
{
    reveal_strlit(":");
    if d.len() == 1 {
        assert(identity::hex_text(d)[0] == text::upper_digit(d[0] as int / 16));
        assert(identity::hex_text(d)[1] == text::upper_digit(d[0] as int % 16));
    } else {
        let front = d.drop_last();
        let back = d.skip(d.len() - 1);
        mac_is_shown_with_colons(front, if i < front.len() { i } else { 0 });
        assert(back[0] == d.last());
        assert(identity::hex_text(back)[0] == text::upper_digit(d.last() as int / 16));
        assert(identity::hex_text(back)[1] == text::upper_digit(d.last() as int % 16));
    }
}

proof fn lemma_digits_shown(d: Seq<u8>, i: int)
    requires
        0 <= i < d.len(),
    ensures
        identity::hex_text(d).len() == 2 * d.len(),
        is_digit(identity::hex_text(d)[2 * i], d[i] as int / 16),
        is_digit(identity::hex_text(d)[2 * i + 1], d[i] as int % 16),
{
    assert(identity::hex_text(d)[2 * i] == text::upper_digit(d[i] as int / 16));
    assert(identity::hex_text(d)[2 * i + 1] == text::upper_digit(d[i] as int % 16));
}

proof fn lemma_spells(s: Seq<char>, d: Seq<u8>)
    requires
        bare(s) == identity::hex_text(d),
    ensures
        spells(s, d),
{
    assert forall|i: int| 0 <= i < d.len() implies is_digit(
        bare(s)[2 * i],
        #[trigger] d[i] as int / 16,
    ) && is_digit(bare(s)[2 * i + 1], d[i] as int % 16) by {
        lemma_digits_shown(d, i);
    }
}

proof fn lemma_shown_spells(d: Seq<u8>)
    ensures
        spells(identity::mac_text(d), d),
        spells(identity::hex_text(d), d),
{
    assert(bare(identity::mac_text(d)) == identity::hex_text(d)) by {
        lemma_bare(identity::mac_text(d));
        identity::lemma_mac_text(d);
    }
    assert(bare(identity::hex_text(d)) == identity::hex_text(d)) by {
        lemma_bare(identity::hex_text(d));
        identity::lemma_hex_text(d);
    }
    lemma_spells(identity::mac_text(d), d);
    lemma_spells(identity::hex_text(d), d);
}

/// An ASCII letter or decimal digit.
pub open spec fn is_letter_or_digit(c: int) -> bool {
    0x30 <= c <= 0x39 || 0x41 <= c <= 0x5a || 0x61 <= c <= 0x7a
}

/// The text gives the PON serial number `sn` by its vendor code of four letters and digits, and
/// eight characters that spell the rest.
pub open spec fn gives_vendor_serial(s: Seq<char>, sn: Seq<u8>) -> bool {
    &&& sn.len() == 8
    &&& s.len() == 12
    &&& forall|i: int|
        0 <= i < 4 ==> #[trigger] s[i] as int == sn[i] && is_letter_or_digit(sn[i] as int)
    &&& spells(s.skip(4), sn.skip(4))
}

/// The text gives the PON serial number `sn` in digits alone; one that is all zero or all ones is
/// none.
pub open spec fn gives_plain_serial(s: Seq<char>, sn: Seq<u8>) -> bool {
    &&& sn.len() == 8
    &&& spells(s, sn)
    &&& exists|i: int| 0 <= i < 8 && #[trigger] sn[i] != 0
    &&& exists|i: int| 0 <= i < 8 && #[trigger] sn[i] != 0xff
}

proof fn lemma_spelled_ascii(s: Seq<char>, d: Seq<u8>)
    requires
        spells(s, d),
    ensures
        is_ascii_chars(s),
    decreases s.len(),
{
    lemma_bare(s);
    assert forall|i: int| 0 <= i < s.len() implies '\0' <= #[trigger] s[i] <= '\u{7f}' by {
        if s[i] != ':' && s[i] != '-' {
            let k = lemma_kept(s, i);
            let j = k / 2;
            assert(is_digit(bare(s)[2 * j], d[j] as int / 16));
            assert(is_digit(bare(s)[2 * j + 1], d[j] as int % 16));
            assert(k == 2 * j || k == 2 * j + 1);
        }
    }
}

proof fn lemma_kept(s: Seq<char>, i: int) -> (k: int)
    requires
        0 <= i < s.len(),
        s[i] != ':' && s[i] != '-',
    ensures
        0 <= k < bare(s).len(),
        bare(s)[k] == s[i],
    decreases s.len(),
{
    if i == s.len() - 1 {
        bare(s).len() - 1
    } else {
        let k = lemma_kept(s.drop_last(), i);
        k
    }
}

/// A PON serial number is read from either of its notations.
pub proof fn given_serial_is_read(s: Seq<char>, sn: Seq<u8>)
    ensures
        gives_vendor_serial(s, sn) || gives_plain_serial(s, sn) ==> identity::serial_read(s) == Ok::<
            Seq<u8>,
            Seq<char>,
        >(sn),
{
    if gives_vendor_serial(s, sn) {
        let tail = s.skip(4);
        lemma_spelled_ascii(tail, sn.skip(4));
        spelled_bytes_are_read("PON SN"@, "PON SN"@, tail, sn.skip(4));
        assert(s[0] as int == sn[0] && s[1] as int == sn[1] && s[2] as int == sn[2] && s[3] as int
            == sn[3]);
        assert forall|i: int| 0 <= i < s.len() implies '\0' <= #[trigger] s[i] <= '\u{7f}' by {
            if i >= 4 {
                assert(tail[i - 4] == s[i]);
            } else {
                assert(s[i] as int == sn[i]);
            }
        }
        assert forall|i: int| 0 <= i < 4 implies identity::is_alphanumeric(#[trigger] s[i]) by {
            assert(is_letter_or_digit(sn[i] as int));
        }
        assert(Seq::new(4, |i: int| s[i] as u8) + sn.skip(4) =~= sn) by {
            assert forall|i: int| 0 <= i < 4 implies (#[trigger] s[i]) as u8 == sn[i] by {
                assert(s[i] as int == sn[i]);
            }
        }
    } else if gives_plain_serial(s, sn) {
        lemma_bare(s);
        spelled_bytes_are_read("PON SN"@, "GponSN"@, s, sn);
    }
}

/// How a PON serial number is shown: four letters and digits that begin it as they are, and the
/// rest in digits; all in digits where it does not begin so. Either way it reads back.
pub proof fn serial_is_shown(sn: Seq<u8>)
    requires
        sn.len() == 8,
        exists|i: int| 0 <= i < 8 && #[trigger] sn[i] != 0,
        exists|i: int| 0 <= i < 8 && #[trigger] sn[i] != 0xff,
    ensures
        ({
            let vendor = is_letter_or_digit(sn[0] as int) && is_letter_or_digit(sn[1] as int)
                && is_letter_or_digit(sn[2] as int) && is_letter_or_digit(sn[3] as int);
            &&& vendor ==> gives_vendor_serial(identity::serial_text(sn), sn)
            &&& !vendor ==> gives_plain_serial(identity::serial_text(sn), sn)
                && identity::serial_text(sn).len() == 16
        }),
{
    let s = identity::serial_text(sn);
    assert(identity::has_vendor(sn) == (is_letter_or_digit(sn[0] as int) && is_letter_or_digit(
        sn[1] as int,
    ) && is_letter_or_digit(sn[2] as int) && is_letter_or_digit(sn[3] as int))) by {
        if is_letter_or_digit(sn[0] as int) && is_letter_or_digit(sn[1] as int)
            && is_letter_or_digit(sn[2] as int) && is_letter_or_digit(sn[3] as int) {
            assert forall|i: int| 0 <= i < 4 implies identity::is_alphanumeric(
                #[trigger] sn[i] as char,
            ) by {
                assert(i == 0 || i == 1 || i == 2 || i == 3);
            }
        }
        if identity::has_vendor(sn) {
            assert(identity::is_alphanumeric(sn[0] as char));
            assert(identity::is_alphanumeric(sn[1] as char));
            assert(identity::is_alphanumeric(sn[2] as char));
            assert(identity::is_alphanumeric(sn[3] as char));
        }
    }
    if identity::has_vendor(sn) {
        lemma_shown_spells(sn.skip(4));
        assert(s.skip(4) =~= identity::hex_text(sn.skip(4)));
        assert forall|i: int| 0 <= i < 4 implies #[trigger] s[i] as int == sn[i]
            && is_letter_or_digit(sn[i] as int) by {
            assert(identity::is_alphanumeric(sn[i] as char));
        }
    } else {
        lemma_shown_spells(sn);
    }
}

/// A MAC address of the Wi-Fi part is left as it is shown, with the bytes that were there, or
/// gives the address `mac`.
pub open spec fn keeps_or_gives(s: Seq<char>, shown: Seq<char>, old: Seq<u8>, mac: Seq<u8>) -> bool {
    (s == shown && mac == old) || (spells(s, mac) && is_station(mac))
}

/// The field holds the text in printable ASCII, with zeros behind it.
pub open spec fn is_serial_field(s: Seq<char>, field: Seq<u8>) -> bool {
    &&& field.len() == 32
    &&& s.len() <= 32
    &&& forall|i: int|
        0 <= i < s.len() ==> 0x20 <= #[trigger] s[i] as int <= 0x7e && field[i] == s[i] as int
    &&& forall|i: int| s.len() <= i < 32 ==> #[trigger] field[i] == 0
}

proof fn lemma_wifi_mac(
    image: Seq<u8>,
    named: Seq<u8>,
    s: Seq<char>,
    mac: Seq<u8>,
    offset: int,
    label: Seq<char>,
)
    requires
        offset == 0x1004 || offset == 0x100a,
        image.len() == 0x10_0000,
        named.len() == 0x10_0000,
        named.subrange(offset, offset + 6) == image.subrange(offset, offset + 6),
        keeps_or_gives(
            s,
            model::wifi_mac_text(image, offset),
            image.subrange(offset, offset + 6),
            mac,
        ),
    ensures
        mac.len() == 6,
        identity::mac_updated(named, offset, label, s, model::wifi_mac_text(image, offset)) == Ok::<
            Seq<u8>,
            Seq<char>,
        >(bytes::splice(named, offset, mac)),
{
    let old = image.subrange(offset, offset + 6);
    let shown = model::wifi_mac_text(image, offset);
    lemma_bare(s);
    if s == shown {
        if spells(s, mac) && is_station(mac) {
            reveal_strlit("");
            assert(s.len() >= 12);
            assert(model::is_present(image, Part::Wifi));
            lemma_shown_spells(old);
            spelled_bytes_are_read(""@, ""@, s, mac);
            spelled_bytes_are_read(""@, ""@, s, old);
        }
        assert(mac == named.subrange(offset, offset + 6));
        assert(bytes::splice(named, offset, mac) =~= named);
    } else {
        station_addresses_are_read("identity"@, label, s, mac);
    }
}

/// The image with each part of the identity in its place.
spec fn with_identity(
    image: Seq<u8>,
    mac: Seq<u8>,
    sn: Seq<u8>,
    a: Seq<u8>,
    b: Seq<u8>,
    device: Seq<u8>,
) -> Seq<u8> {
    let named = bytes::splice(bytes::splice(image, 0x2000, mac), 0x2010, sn);
    bytes::splice(bytes::splice(bytes::splice(named, 0x1004, a), 0x100a, b), 0x2020, device)
}

proof fn lemma_with_identity(
    image: Seq<u8>,
    mac: Seq<u8>,
    sn: Seq<u8>,
    a: Seq<u8>,
    b: Seq<u8>,
    device: Seq<u8>,
)
    requires
        image.len() == 0x10_0000,
        mac.len() == 6,
        sn.len() == 8,
        a.len() == 6,
        b.len() == 6,
        device.len() == 32,
    ensures
        ({
            let after = with_identity(image, mac, sn, a, b, device);
            &&& after.len() == 0x10_0000
            &&& after.subrange(0x2000, 0x2006) == mac
            &&& after.subrange(0x2010, 0x2018) == sn
            &&& after.subrange(0x1004, 0x100a) == a
            &&& after.subrange(0x100a, 0x1010) == b
            &&& after.subrange(0x2020, 0x2040) == device
            &&& forall|i: int|
                0 <= i < 0x10_0000 && !laws::is_identity(i) ==> after[i] == #[trigger] image[i]
        }),
{
    let after = with_identity(image, mac, sn, a, b, device);
    assert(after.subrange(0x2000, 0x2006) =~= mac);
    assert(after.subrange(0x2010, 0x2018) =~= sn);
    assert(after.subrange(0x1004, 0x100a) =~= a);
    assert(after.subrange(0x100a, 0x1010) =~= b);
    assert(after.subrange(0x2020, 0x2040) =~= device);
}

/// A device serial number of one to 32 printable characters is read into its field.
pub proof fn serial_text_fills_field(source: Seq<char>, s: Seq<char>, field: Seq<u8>)
    requires
        s.len() > 0,
        is_serial_field(s, field),
    ensures
        identity::device_serial_read(source, s) == Ok::<Seq<u8>, Seq<char>>(field),
{
    assert forall|i: int| 0 <= i < s.len() implies '\0' <= #[trigger] s[i] <= '\u{7f}' by {
        assert(0x20 <= s[i] as int <= 0x7e);
    }
    is_ascii_chars_encode_utf8(s);
    let raw = encode_utf8(s);
    assert forall|i: int| 0 <= i < raw.len() implies identity::is_printable(#[trigger] raw[i]) by {
        assert(0x20 <= s[i] as int <= 0x7e);
    }
    assert(raw + bytes::repeated((32 - raw.len()) as nat, 0) =~= field) by {
        assert forall|i: int| 0 <= i < s.len() implies raw[i] == #[trigger] field[i] by {
            assert(field[i] == s[i] as int);
        }
    }
}

proof fn lemma_serial_field(s: Seq<char>, field: Seq<u8>)
    requires
        is_serial_field(s, field),
    ensures
        model::edited_serial(s) == Ok::<Seq<u8>, Seq<char>>(field),
{
    if s.len() == 0 {
        assert(field =~= bytes::repeated(32, 0));
    } else {
        serial_text_fills_field("identity"@, s, field);
    }
}

/// An edited identity is saved wherever it is one: with a device address, a PON serial number, and
/// Wi-Fi addresses and a device serial number that are left as they are shown or are given anew,
/// in any notation, saving succeeds. The image then holds exactly these bytes in their places, and
/// all others as they were.
pub proof fn edited_identity_is_saved(
    f: FactoryModel,
    mac: Seq<u8>,
    sn: Seq<u8>,
    a: Seq<u8>,
    b: Seq<u8>,
    device: Seq<u8>,
)
    requires
        f.image.len() == 0x10_0000,
        spells(f.mac, mac) && is_station(mac),
        gives_vendor_serial(f.pon_sn, sn) || gives_plain_serial(f.pon_sn, sn),
        keeps_or_gives(
            f.wifi_mac,
            model::shown(f.image).wifi_mac,
            f.image.subrange(0x1004, 0x100a),
            a,
        ),
        keeps_or_gives(
            f.wifi_mac2,
            model::shown(f.image).wifi_mac2,
            f.image.subrange(0x100a, 0x1010),
            b,
        ),
        if f.device_sn == model::shown(f.image).device_sn {
            device == f.image.subrange(0x2020, 0x2040)
        } else {
            is_serial_field(f.device_sn, device)
        },
    ensures
        model::applied(f) matches Ok(image) && {
            &&& image.len() == 0x10_0000
            &&& image.subrange(0x2000, 0x2006) == mac
            &&& image.subrange(0x2010, 0x2018) == sn
            &&& image.subrange(0x1004, 0x100a) == a
            &&& image.subrange(0x100a, 0x1010) == b
            &&& image.subrange(0x2020, 0x2040) == device
            &&& forall|i: int|
                0 <= i < 0x10_0000 && !laws::is_identity(i) ==> image[i] == #[trigger] f.image[i]
        },
{
    station_addresses_are_read("identity"@, "base MAC"@, f.mac, mac);
    given_serial_is_read(f.pon_sn, sn);
    let named = bytes::splice(bytes::splice(f.image, 0x2000, mac), 0x2010, sn);
    assert(named.subrange(0x1004, 0x100a) =~= f.image.subrange(0x1004, 0x100a));
    lemma_wifi_mac(f.image, named, f.wifi_mac, a, 0x1004, "2.4 GHz MAC"@);
    let first = bytes::splice(named, 0x1004, a);
    assert(first.subrange(0x100a, 0x1010) =~= f.image.subrange(0x100a, 0x1010));
    lemma_wifi_mac(f.image, first, f.wifi_mac2, b, 0x100a, "5 GHz MAC"@);
    let second = bytes::splice(first, 0x100a, b);
    if f.device_sn != model::shown(f.image).device_sn {
        lemma_serial_field(f.device_sn, device);
    } else {
        assert(second.subrange(0x2020, 0x2040) =~= device);
        assert(bytes::splice(second, 0x2020, device) =~= second);
    }
    lemma_with_identity(f.image, mac, sn, a, b, device);
}

/// Saving accepts a Wi-Fi MAC address in the notation in which it is shown, and writes it.
pub proof fn shown_wifi_mac_is_saved(f: FactoryModel, mac: Seq<u8>, sn: Seq<u8>, a: Seq<u8>, b: Seq<u8>)
    requires
        f.image.len() == 0x10_0000,
        is_station(mac) && f.mac == identity::mac_text(mac),
        gives_vendor_serial(f.pon_sn, sn) || gives_plain_serial(f.pon_sn, sn),
        f.device_sn == model::shown(f.image).device_sn,
        is_station(a) && f.wifi_mac == identity::mac_text(a),
        is_station(b) && f.wifi_mac2 == identity::mac_text(b),
    ensures
        model::applied(f) matches Ok(image) && image.subrange(0x1004, 0x100a) == a
            && image.subrange(0x100a, 0x1010) == b,
{
    lemma_shown_spells(mac);
    lemma_shown_spells(a);
    lemma_shown_spells(b);
    edited_identity_is_saved(f, mac, sn, a, b, f.image.subrange(0x2020, 0x2040));
}

/// Nothing is saved without a device address of six bytes and a PON serial number of eight, nor
/// with an edited Wi-Fi address that is none.
pub proof fn saved_identity_was_given(f: FactoryModel)
    requires
        f.image.len() == 0x10_0000,
    ensures
        model::applied(f) matches Ok(image) ==> {
            &&& bare(f.mac).len() == 12 && is_station(image.subrange(0x2000, 0x2006))
            &&& bare(f.pon_sn).len() == 16 || (f.pon_sn.len() == 12 && bare(f.pon_sn.skip(4)).len()
                == 8)
            &&& f.wifi_mac == model::shown(f.image).wifi_mac || (bare(f.wifi_mac).len() == 12
                && is_station(image.subrange(0x1004, 0x100a)))
            &&& f.wifi_mac2 == model::shown(f.image).wifi_mac2 || (bare(f.wifi_mac2).len() == 12
                && is_station(image.subrange(0x100a, 0x1010)))
        },
{
    let none = Seq::<u8>::empty();
    station_addresses_are_read("identity"@, "base MAC"@, f.mac, none);
    station_addresses_are_read("identity"@, "2.4 GHz MAC"@, f.wifi_mac, none);
    station_addresses_are_read("identity"@, "5 GHz MAC"@, f.wifi_mac2, none);
    read_bytes_were_spelled("PON SN"@, "GponSN"@, f.pon_sn, 8);
    read_bytes_were_spelled("PON SN"@, "PON SN"@, f.pon_sn.skip(4), 4);
    if let Ok(image) = model::applied(f) {
        let mac = identity::mac_read("identity"@, "base MAC"@, f.mac)->Ok_0;
        let a = identity::mac_read("identity"@, "2.4 GHz MAC"@, f.wifi_mac)->Ok_0;
        let b = identity::mac_read("identity"@, "5 GHz MAC"@, f.wifi_mac2)->Ok_0;
        assert(image.subrange(0x2000, 0x2006) =~= mac);
        if f.wifi_mac != model::shown(f.image).wifi_mac {
            assert(image.subrange(0x1004, 0x100a) =~= a);
        }
        if f.wifi_mac2 != model::shown(f.image).wifi_mac2 {
            assert(image.subrange(0x100a, 0x1010) =~= b);
        }
    }
}

/// Where the Wi-Fi part holds something, that is some byte is not erased, the two MAC addresses in
/// it are shown; where it holds nothing, none is.
pub proof fn wifi_macs_are_shown(image: Seq<u8>)
    requires
        image.len() == 0x10_0000,
    ensures
        ({
            let present = exists|i: int| 0x1000 <= i < 0x2000 && #[trigger] image[i] != 0xff;
            let f = model::shown(image);
            &&& present ==> f.wifi_mac == identity::mac_text(image.subrange(0x1004, 0x100a))
                && f.wifi_mac2 == identity::mac_text(image.subrange(0x100a, 0x1010))
            &&& !present ==> f.wifi_mac.len() == 0 && f.wifi_mac2.len() == 0
            &&& f.mac == identity::mac_text(image.subrange(0x2000, 0x2006))
            &&& f.pon_sn == identity::serial_text(image.subrange(0x2010, 0x2018))
        }),
{
    reveal_strlit("");
    let part = model::part_of(image, Part::Wifi);
    if exists|i: int| 0x1000 <= i < 0x2000 && #[trigger] image[i] != 0xff {
        let i = choose|i: int| 0x1000 <= i < 0x2000 && #[trigger] image[i] != 0xff;
        assert(part[i - 0x1000] == image[i]);
    } else {
        assert forall|i: int| 0 <= i < part.len() implies part[i] == 0xff by {
            assert(image[i + 0x1000] == 0xff);
        }
    }
}

/// The device serial number that is shown is what stands before the first zero or erased byte of
/// its field.
pub proof fn device_serial_ends_early(image: Seq<u8>, s: Seq<char>, n: int)
    requires
        image.len() == 0x10_0000,
        encode_utf8(s).len() == n <= 32,
        image.subrange(0x2020, 0x2020 + n) == encode_utf8(s),
        forall|i: int| 0 <= i < n ==> #[trigger] encode_utf8(s)[i] != 0 && encode_utf8(s)[i] != 0xff,
        n < 32 ==> image[0x2020 + n] == 0 || image[0x2020 + n] == 0xff,
    ensures
        model::shown(image).device_sn == s,
{
    let field = image.subrange(0x2020, 0x2040);
    let raw = encode_utf8(s);
    assert forall|j: int| 0 <= j < n implies #[trigger] field[j] != 0 && field[j] != 0xff by {
        assert(image.subrange(0x2020, 0x2020 + n)[j] == raw[j]);
    }
    laws::lemma_text_end(field, 0, n);
    assert(field.take(n) =~= raw);
    encode_utf8_valid_utf8(s);
    encode_utf8_decode_utf8(s);
}

/// A text of ASCII characters is a device serial number exactly where it has one to 32 of them, all
/// printable.
pub proof fn ascii_serials_are_accepted(source: Seq<char>, s: Seq<char>)
    requires
        is_ascii_chars(s),
    ensures
        identity::device_serial_read(source, s) is Ok <==> 1 <= s.len() <= 32 && forall|i: int|
            0 <= i < s.len() ==> 0x20 <= #[trigger] s[i] as int <= 0x7e,
        identity::device_serial_read(source, s) matches Ok(field) ==> is_serial_field(s, field),
{
    is_ascii_chars_encode_utf8(s);
    is_ascii_chars_nat_bound(s);
    let raw = encode_utf8(s);
    assert forall|i: int| 0 <= i < s.len() implies #[trigger] s[i] as int == raw[i] by {
        assert(s[i] as u8 == raw[i]);
    }
    if forall|i: int| 0 <= i < raw.len() ==> identity::is_printable(#[trigger] raw[i]) {
        assert forall|i: int| 0 <= i < s.len() implies 0x20 <= #[trigger] s[i] as int <= 0x7e by {
            assert(identity::is_printable(raw[i]));
        }
    }
    if forall|i: int| 0 <= i < s.len() ==> 0x20 <= #[trigger] s[i] as int <= 0x7e {
        assert forall|i: int| 0 <= i < raw.len() implies identity::is_printable(
            #[trigger] raw[i],
        ) by {
            assert(0x20 <= s[i] as int <= 0x7e);
        }
    }
}

/// The address that six random bytes make has all of their bits but two, which mark it as locally
/// administered and as that of one device. The serial number that four random bytes make has all
/// of them behind the vendor code.
pub proof fn random_identity_keeps_its_bits(mac: Seq<u8>, number: Seq<u8>)
    requires
        mac.len() == 6,
        number.len() == 4,
    ensures
        identity::local_address(mac).len() == 6,
        forall|i: int| 1 <= i < 6 ==> #[trigger] identity::local_address(mac)[i] == mac[i],
        identity::local_address(mac)[0] == 4 * (mac[0] as int / 4) + 2,
        identity::drawn_mac(Ok(mac)) matches Ok(s) && spells(s, identity::local_address(mac)),
        identity::drawn_serial(Ok(number)) matches Ok(s) && identity::serial_read(s) == Ok::<
            Seq<u8>,
            Seq<char>,
        >(seq![0x46u8, 0x48, 0x54, 0x54] + number),
{
    let first = mac[0];
    assert((first & 0xfc) | 2 == 4 * (first / 4) + 2) by (bit_vector);
    lemma_shown_spells(identity::local_address(mac));
    identity::random_sn_is_accepted(number);
}

} // verus!
