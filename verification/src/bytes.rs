//! Bounded reads and writes of bytes and fixed-width integers.

use vstd::prelude::*;

use crate::text;

verus! {

/// The `n` bytes of `d` at offset `o`, if they all lie inside it.
pub open spec fn slice_at(d: Seq<u8>, o: int, n: int) -> Result<Seq<u8>, Seq<char>> {
    if o + n > usize::MAX {
        Err("Length overflow"@)
    } else if o + n > d.len() {
        Err("Image data is truncated"@)
    } else {
        Ok(d.subrange(o, o + n))
    }
}

/// The little-endian value of the bytes `b`.
pub open spec fn le_value(b: Seq<u8>) -> nat
    decreases b.len(),
{
    if b.len() == 0 {
        0
    } else {
        b[0] as nat + 256 * le_value(b.skip(1))
    }
}

/// The big-endian value of the bytes `b`.
pub open spec fn be_value(b: Seq<u8>) -> nat
    decreases b.len(),
{
    if b.len() == 0 {
        0
    } else {
        256 * be_value(b.drop_last()) + b.last() as nat
    }
}

pub open spec fn le16_at(d: Seq<u8>, o: int) -> Result<u16, Seq<char>> {
    match slice_at(d, o, 2) {
        Ok(b) => Ok(le_value(b) as u16),
        Err(e) => Err(e),
    }
}

pub open spec fn le32_at(d: Seq<u8>, o: int) -> Result<u32, Seq<char>> {
    match slice_at(d, o, 4) {
        Ok(b) => Ok(le_value(b) as u32),
        Err(e) => Err(e),
    }
}

pub open spec fn le64_at(d: Seq<u8>, o: int) -> Result<u64, Seq<char>> {
    match slice_at(d, o, 8) {
        Ok(b) => Ok(le_value(b) as u64),
        Err(e) => Err(e),
    }
}

pub open spec fn be32_at(d: Seq<u8>, o: int) -> Result<u32, Seq<char>> {
    match slice_at(d, o, 4) {
        Ok(b) => Ok(be_value(b) as u32),
        Err(e) => Err(e),
    }
}

pub open spec fn be64_at(d: Seq<u8>, o: int) -> Result<u64, Seq<char>> {
    match slice_at(d, o, 8) {
        Ok(b) => Ok(be_value(b) as u64),
        Err(e) => Err(e),
    }
}

/// The value of two little-endian bytes, written out.
pub proof fn lemma_le2(b: Seq<u8>)
    requires
        b.len() == 2,
    ensures
        le_value(b) == b[0] + 256 * b[1],
        le_value(b) <= u16::MAX,
{
    reveal_with_fuel(le_value, 3);
}

/// The value of four little-endian bytes, written out.
pub proof fn lemma_le4(b: Seq<u8>)
    requires
        b.len() == 4,
    ensures
        le_value(b) == b[0] + 0x100 * b[1] + 0x1_0000 * b[2] + 0x100_0000 * b[3],
        le_value(b) <= u32::MAX,
{
    reveal_with_fuel(le_value, 5);
}

pub proof fn lemma_le8(b: Seq<u8>)
    requires
        b.len() == 8,
    ensures
        le_value(b) == le_value(b.subrange(0, 4)) + 0x1_0000_0000 * le_value(b.subrange(4, 8)),
        le_value(b) <= u64::MAX,
{
    let lo = b.subrange(0, 4);
    let hi = b.subrange(4, 8);
    lemma_le4(lo);
    lemma_le4(hi);
    let rest = b.skip(4);
    assert(rest =~= hi);
    assert(b.skip(1).skip(1).skip(1).skip(1) =~= rest);
    assert(le_value(b.skip(1).skip(1).skip(1)) == b[3] + 256 * le_value(rest));
    assert(le_value(b.skip(1).skip(1)) == b[2] + 256 * le_value(b.skip(1).skip(1).skip(1)));
    assert(le_value(b.skip(1)) == b[1] + 256 * le_value(b.skip(1).skip(1)));
}

/// The value of two big-endian bytes, written out.
pub proof fn lemma_be2(b: Seq<u8>)
    requires
        b.len() == 2,
    ensures
        be_value(b) == 256 * b[0] + b[1],
        be_value(b) <= u16::MAX,
{
    reveal_with_fuel(be_value, 3);
}

pub proof fn lemma_be4(b: Seq<u8>)
    requires
        b.len() == 4,
    ensures
        be_value(b) == 0x100_0000 * b[0] + 0x1_0000 * b[1] + 0x100 * b[2] + b[3],
        be_value(b) <= u32::MAX,
{
    reveal_with_fuel(be_value, 5);
}

pub proof fn lemma_be8(b: Seq<u8>)
    requires
        b.len() == 8,
    ensures
        be_value(b) == 0x1_0000_0000 * be_value(b.subrange(0, 4)) + be_value(b.subrange(4, 8)),
        be_value(b) <= u64::MAX,
{
    let hi = b.subrange(0, 4);
    let lo = b.subrange(4, 8);
    lemma_be4(lo);
    lemma_be4(hi);
    let b7 = b.drop_last();
    let b6 = b7.drop_last();
    let b5 = b6.drop_last();
    assert(b5.drop_last() =~= hi);
    assert(be_value(b5) == 256 * be_value(hi) + b[4]);
    assert(be_value(b6) == 256 * be_value(b5) + b[5]);
    assert(be_value(b7) == 256 * be_value(b6) + b[6]);
}

/// The two little-endian bytes of `v`.
pub open spec fn le_bytes2(v: u16) -> Seq<u8> {
    seq![(v % 256) as u8, (v / 256) as u8]
}

/// The four little-endian bytes of `v`.
pub open spec fn le_bytes4(v: u32) -> Seq<u8> {
    seq![
        (v % 256) as u8,
        (v / 256 % 256) as u8,
        (v / 0x1_0000 % 256) as u8,
        (v / 0x100_0000) as u8,
    ]
}

/// Reading back the bytes of an integer gives the integer.
pub proof fn le_bytes_read_back(v2: u16, v4: u32)
    ensures
        le_value(le_bytes2(v2)) == v2,
        le_value(le_bytes4(v4)) == v4,
{
    lemma_le2(le_bytes2(v2));
    lemma_le4(le_bytes4(v4));
}

/// The `n` bytes of `d` at offset `o`.
pub fn bytes<'a>(d: &'a [u8], o: usize, n: usize) -> (r: Result<&'a [u8], String>)
    ensures
        text::says(r, slice_at(d@, o as int, n as int)),
{
    match o.checked_add(n) {
        None => Err("Length overflow".to_owned()),
        Some(end) => if end <= d.len() {
            Ok(&d[o..end])
        } else {
            Err("Image data is truncated".to_owned())
        },
    }
}

/// The 16-bit little-endian integer at offset `o`.
pub fn le16(d: &[u8], o: usize) -> (r: Result<u16, String>)
    ensures
        text::says(r, le16_at(d@, o as int)),
{
    let b = bytes(d, o, 2)?;
    proof {
        lemma_le2(b@);
    }
    Ok(b[0] as u16 + 256 * (b[1] as u16))
}

/// The 32-bit little-endian integer at offset `o`.
pub fn le32(d: &[u8], o: usize) -> (r: Result<u32, String>)
    ensures
        text::says(r, le32_at(d@, o as int)),
{
    let b = bytes(d, o, 4)?;
    proof {
        lemma_le4(b@);
    }
    Ok(b[0] as u32 + 0x100 * (b[1] as u32) + 0x1_0000 * (b[2] as u32) + 0x100_0000 * (b[3] as u32))
}

/// The 64-bit little-endian integer at offset `o`.
pub fn le64(d: &[u8], o: usize) -> (r: Result<u64, String>)
    ensures
        text::says(r, le64_at(d@, o as int)),
{
    let b = bytes(d, o, 8)?;
    proof {
        lemma_le8(b@);
        lemma_le4(b@.subrange(0, 4));
        lemma_le4(b@.subrange(4, 8));
    }
    let lo: u64 = b[0] as u64 + 0x100 * (b[1] as u64) + 0x1_0000 * (b[2] as u64) + 0x100_0000 * (
    b[3] as u64);
    let hi: u64 = b[4] as u64 + 0x100 * (b[5] as u64) + 0x1_0000 * (b[6] as u64) + 0x100_0000 * (
    b[7] as u64);
    Ok(lo + 0x1_0000_0000 * hi)
}

/// The 32-bit big-endian integer at offset `o`.
pub fn be32(d: &[u8], o: usize) -> (r: Result<u32, String>)
    ensures
        text::says(r, be32_at(d@, o as int)),
{
    let b = bytes(d, o, 4)?;
    proof {
        lemma_be4(b@);
    }
    Ok(0x100_0000 * (b[0] as u32) + 0x1_0000 * (b[1] as u32) + 0x100 * (b[2] as u32) + b[3] as u32)
}

/// The 64-bit big-endian integer at offset `o`.
pub fn be64(d: &[u8], o: usize) -> (r: Result<u64, String>)
    ensures
        text::says(r, be64_at(d@, o as int)),
{
    let b = bytes(d, o, 8)?;
    proof {
        lemma_be8(b@);
        lemma_be4(b@.subrange(0, 4));
        lemma_be4(b@.subrange(4, 8));
    }
    let hi: u64 = 0x100_0000 * (b[0] as u64) + 0x1_0000 * (b[1] as u64) + 0x100 * (b[2] as u64)
        + b[3] as u64;
    let lo: u64 = 0x100_0000 * (b[4] as u64) + 0x1_0000 * (b[5] as u64) + 0x100 * (b[6] as u64)
        + b[7] as u64;
    Ok(0x1_0000_0000 * hi + lo)
}

/// Whether `d` begins with `prefix`.
pub open spec fn begins(d: Seq<u8>, prefix: Seq<u8>) -> bool {
    d.len() >= prefix.len() && d.take(prefix.len() as int) == prefix
}

/// Whether `d` begins with `prefix`.
pub fn starts_with(d: &[u8], prefix: &[u8]) -> (r: bool)
    ensures
        r == begins(d@, prefix@),
{
    if d.len() < prefix.len() {
        return false;
    }
    text::same_bytes(&d[0..prefix.len()], prefix)
}

/// Every byte of `d` is `value`.
pub open spec fn all_are(d: Seq<u8>, value: u8) -> bool {
    forall|i: int| 0 <= i < d.len() ==> d[i] == value
}

/// Whether every byte of `d` is `value`.
pub fn filled_with(d: &[u8], value: u8) -> (r: bool)
    ensures
        r == all_are(d@, value),
{
    let mut i: usize = 0;
    while i < d.len()
        invariant
            i <= d.len(),
            forall|j: int| 0 <= j < i ==> d@[j] == value,
        decreases d.len() - i,
    {
        if d[i] != value {
            return false;
        }
        i += 1;
    }
    true
}

/// `d` with the bytes from offset `o` on replaced by `s`.
pub open spec fn splice(d: Seq<u8>, o: int, s: Seq<u8>) -> Seq<u8> {
    Seq::new(d.len(), |i: int| if o <= i < o + s.len() { s[i - o] } else { d[i] })
}

/// Overwrites the bytes of `d` from offset `o` on with `s`.
pub fn overwrite(d: &mut Vec<u8>, o: usize, s: &[u8])
    requires
        o + s@.len() <= old(d)@.len(),
    ensures
        final(d)@ == splice(old(d)@, o as int, s@),
{
    let ghost start = d@;
    let mut i: usize = 0;
    while i < s.len()
        invariant
            i <= s.len(),
            o + s@.len() <= d.len(),
            d@ == splice(start, o as int, s@.take(i as int)),
        decreases s.len() - i,
    {
        d[o + i] = s[i];
        i += 1;
        assert(d@ =~= splice(start, o as int, s@.take(i as int)));
    }
    assert(s@.take(s@.len() as int) =~= s@);
    assert(d@ =~= splice(start, o as int, s@));
}

/// `n` bytes of the given value.
pub open spec fn repeated(n: nat, value: u8) -> Seq<u8> {
    Seq::new(n, |i: int| value)
}

/// `n` bytes of the given value.
pub fn repeat(n: usize, value: u8) -> (r: Vec<u8>)
    ensures
        r@ == repeated(n as nat, value),
{
    let v = vec![value; n];
    assert(v@ =~= repeated(n as nat, value));
    v
}

/// An owned copy of `d`.
pub fn copy_of(d: &[u8]) -> (r: Vec<u8>)
    ensures
        r@ == d@,
{
    vstd::slice::slice_to_vec(d)
}

/// Appends `s`.
pub fn append(d: &mut Vec<u8>, s: &[u8])
    ensures
        final(d)@ == old(d)@ + s@,
{
    let ghost start = d@;
    d.extend_from_slice(s);
    assert(d@ =~= start + s@);
}

/// Appends bytes of the given value up to a length of `n`.
pub fn pad(d: &mut Vec<u8>, n: usize, value: u8)
    requires
        old(d)@.len() <= n,
    ensures
        final(d)@ == old(d)@ + repeated((n - old(d)@.len()) as nat, value),
{
    let ghost start = d@;
    d.resize(n, value);
    assert(d@ =~= start + repeated((n - start.len()) as nat, value)) by {
        if n > start.len() {
            assert forall|i: int| 0 <= i < start.len() implies d@[i] == start[i] by {
                assert(d@.subrange(0, start.len() as int)[i] == start[i]);
            }
        }
    }
}

} // verus!
