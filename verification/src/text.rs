//! Text helpers: how results are compared with their specification, UTF-8 decoding,
//! decimal and hexadecimal digits.

use vstd::prelude::*;
use vstd::string::StringExecFns;
use vstd::utf8::*;

verus! {

/// An outcome agrees with its specification: both succeed with the same contents, or both
/// fail with the same message.
pub open spec fn says<T: View>(r: Result<T, String>, want: Result<T::V, Seq<char>>) -> bool {
    match (r, want) {
        (Ok(a), Ok(b)) => a@ == b,
        (Err(e), Err(m)) => e@ == m,
        _ => false,
    }
}

/// Appends one character: [`String::push`] extends the text by exactly that character.
pub assume_specification[ String::push ](s: &mut String, c: char)
    ensures
        final(s)@ == old(s)@.push(c),
;

/// The message of the error that [`std::str::from_utf8`] reports for `bytes`.
pub uninterp spec fn utf8_error_text(bytes: Seq<u8>) -> Seq<char>;

/// Decodes UTF-8 with [`std::str::from_utf8`]: it succeeds exactly on valid UTF-8, and yields
/// the encoded characters. The wording of the error is left to the standard library.
#[verifier::external_body]
pub(crate) fn utf8_text(bytes: &[u8]) -> (r: Result<String, String>)
    ensures
        says(
            r,
            if valid_utf8(bytes@) {
                Ok(decode_utf8(bytes@))
            } else {
                Err(utf8_error_text(bytes@))
            },
        ),
{
    match std::str::from_utf8(bytes) {
        Ok(s) => Ok(s.to_owned()),
        Err(e) => Err(e.to_string()),
    }
}

/// What [`String::from_utf8_lossy`] makes of `bytes` that are not valid UTF-8.
pub uninterp spec fn lossy_text(bytes: Seq<u8>) -> Seq<char>;

/// The text of `bytes`, whether they are valid UTF-8 or not.
pub open spec fn loose_text(bytes: Seq<u8>) -> Seq<char> {
    if valid_utf8(bytes) {
        decode_utf8(bytes)
    } else {
        lossy_text(bytes)
    }
}

/// Decodes UTF-8 with [`String::from_utf8_lossy`]: valid UTF-8 is decoded exactly; which
/// replacement characters stand for invalid sequences is left to the standard library.
#[verifier::external_body]
pub(crate) fn utf8_text_lossy(bytes: &[u8]) -> (r: String)
    ensures
        r@ == if valid_utf8(bytes@) {
            decode_utf8(bytes@)
        } else {
            lossy_text(bytes@)
        },
{
    String::from_utf8_lossy(bytes).into_owned()
}

/// The characters of a text, one by one.
pub fn chars_of(s: &str) -> (r: Vec<char>)
    ensures
        r@ == s@,
{
    let mut out: Vec<char> = Vec::new();
    for c in it: s.chars()
        invariant
            out@ == it.seq().take(it.index() as int),
            it.seq() == s@,
    {
        out.push(c);
        assert(it.seq().take(it.index() + 1) =~= it.seq().take(it.index() as int).push(c));
    }
    assert(out@ =~= s@);
    out
}

/// A text made of the given characters.
pub fn text_of(chars: &[char]) -> (r: String)
    ensures
        r@ == chars@,
{
    let mut out = String::new();
    let mut i: usize = 0;
    while i < chars.len()
        invariant
            i <= chars.len(),
            out@ == chars@.take(i as int),
        decreases chars.len() - i,
    {
        out.push(chars[i]);
        assert(chars@.take(i + 1) =~= chars@.take(i as int).push(chars@[i as int]));
        i += 1;
    }
    assert(chars@.take(chars@.len() as int) =~= chars@);
    out
}

/// Whether two byte strings are equal.
pub fn same_bytes(a: &[u8], b: &[u8]) -> (r: bool)
    ensures
        r == (a@ == b@),
{
    if a.len() != b.len() {
        return false;
    }
    let mut i: usize = 0;
    while i < a.len()
        invariant
            i <= a.len(),
            a.len() == b.len(),
            forall|j: int| 0 <= j < i ==> a@[j] == b@[j],
        decreases a.len() - i,
    {
        if a[i] != b[i] {
            return false;
        }
        i += 1;
    }
    assert(a@ =~= b@);
    true
}

/// Whether two texts are equal.
pub fn same_text(a: &str, b: &str) -> (r: bool)
    ensures
        r == (a@ == b@),
{
    let r = same_bytes(a.as_bytes(), b.as_bytes());
    proof {
        encode_utf8_decode_utf8(a@);
        encode_utf8_decode_utf8(b@);
    }
    r
}

/// The upper-case hexadecimal digit of `n`.
pub open spec fn upper_digit(n: int) -> char {
    if n < 10 {
        ('0' as int + n) as char
    } else {
        ('A' as int + n - 10) as char
    }
}

/// The lower-case hexadecimal digit of `n`, which below ten is also its decimal digit.
pub open spec fn lower_digit(n: int) -> char {
    if n < 10 {
        ('0' as int + n) as char
    } else {
        ('a' as int + n - 10) as char
    }
}

/// The decimal notation of `n`.
pub open spec fn decimal(n: nat) -> Seq<char>
    decreases n,
{
    if n < 10 {
        seq![lower_digit(n as int)]
    } else {
        decimal(n / 10).push(lower_digit((n % 10) as int))
    }
}

/// The lower-case hexadecimal notation of `n`.
pub open spec fn hexadecimal(n: nat) -> Seq<char>
    decreases n,
{
    if n < 16 {
        seq![lower_digit(n as int)]
    } else {
        hexadecimal(n / 16).push(lower_digit((n % 16) as int))
    }
}

/// The lower-case hexadecimal notation of `v`, with two digits.
pub open spec fn hex2(v: u8) -> Seq<char> {
    seq![lower_digit(v as int / 16), lower_digit(v as int % 16)]
}

/// The lower-case hexadecimal notation of `v`, with eight digits.
pub open spec fn hex8(v: u32) -> Seq<char> {
    seq![
        lower_digit(v as int / 0x1000_0000),
        lower_digit(v as int / 0x100_0000 % 16),
        lower_digit(v as int / 0x10_0000 % 16),
        lower_digit(v as int / 0x1_0000 % 16),
        lower_digit(v as int / 0x1000 % 16),
        lower_digit(v as int / 0x100 % 16),
        lower_digit(v as int / 0x10 % 16),
        lower_digit(v as int % 16),
    ]
}

fn lower_digit_of(n: u32) -> (c: char)
    requires
        n < 16,
    ensures
        c == lower_digit(n as int),
{
    if n < 10 {
        (0x30u8 + n as u8) as char
    } else {
        (0x61u8 + (n as u8 - 10)) as char
    }
}

/// The character of [`upper_digit`].
pub fn upper_digit_of(n: u8) -> (c: char)
    requires
        n < 16,
    ensures
        c == upper_digit(n as int),
{
    if n < 10 {
        (0x30u8 + n) as char
    } else {
        (0x41u8 + (n - 10)) as char
    }
}

/// Appends the decimal notation of `n`.
pub fn push_decimal(s: &mut String, n: u64)
    ensures
        final(s)@ == old(s)@ + decimal(n as nat),
    decreases n,
{
    let ghost start = s@;
    if n >= 10 {
        push_decimal(s, n / 10);
    }
    s.push(lower_digit_of((n % 10) as u32));
    assert(s@ =~= start + decimal(n as nat));
}

/// Appends the lower-case hexadecimal notation of `n`.
pub fn push_hexadecimal(s: &mut String, n: u64)
    ensures
        final(s)@ == old(s)@ + hexadecimal(n as nat),
    decreases n,
{
    let ghost start = s@;
    if n >= 16 {
        push_hexadecimal(s, n / 16);
    }
    s.push(lower_digit_of((n % 16) as u32));
    assert(s@ =~= start + hexadecimal(n as nat));
}

/// Appends `v` as two lower-case hexadecimal digits.
pub fn push_hex2(s: &mut String, v: u8)
    ensures
        final(s)@ == old(s)@ + hex2(v),
{
    let ghost start = s@;
    s.push(lower_digit_of((v / 16) as u32));
    s.push(lower_digit_of((v % 16) as u32));
    assert(s@ =~= start + hex2(v));
}

/// Appends `v` as eight lower-case hexadecimal digits.
pub fn push_hex8(s: &mut String, v: u32)
    ensures
        final(s)@ == old(s)@ + hex8(v),
{
    let ghost start = s@;
    s.push(lower_digit_of(v / 0x1000_0000));
    s.push(lower_digit_of(v / 0x100_0000 % 16));
    s.push(lower_digit_of(v / 0x10_0000 % 16));
    s.push(lower_digit_of(v / 0x1_0000 % 16));
    s.push(lower_digit_of(v / 0x1000 % 16));
    s.push(lower_digit_of(v / 0x100 % 16));
    s.push(lower_digit_of(v / 0x10 % 16));
    s.push(lower_digit_of(v % 16));
    assert(s@ =~= start + hex8(v));
}

/// A text followed by another.
pub fn joined(a: &str, b: &str) -> (r: String)
    ensures
        r@ == a@ + b@,
{
    let mut s = a.to_owned();
    s.append(b);
    s
}

} // verus!
