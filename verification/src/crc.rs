//! The reflected CRC-32 register that every container of a stock image is checked with.

use vstd::prelude::*;
use vstd::string::StringExecFns;

use crate::text;

verus! {

/// One bit of the reflected polynomial division.
pub open spec fn crc_bit(crc: u32) -> u32 {
    if crc & 1 == 1 {
        (crc >> 1) ^ 0xedb8_8320
    } else {
        crc >> 1
    }
}

/// `n` bits of the reflected polynomial division.
pub open spec fn crc_bits(crc: u32, n: nat) -> u32
    decreases n,
{
    if n == 0 {
        crc
    } else {
        crc_bit(crc_bits(crc, (n - 1) as nat))
    }
}

/// The register after one more byte.
pub open spec fn crc_byte(crc: u32, byte: u8) -> u32 {
    crc_bits(crc ^ (byte as u32), 8)
}

/// The raw register after all of `d`, started from `initial`.
pub open spec fn register(d: Seq<u8>, initial: u32) -> u32
    decreases d.len(),
{
    if d.len() == 0 {
        initial
    } else {
        crc_byte(register(d.drop_last(), initial), d.last())
    }
}

/// The message for a stored checksum that is not the computed one.
pub open spec fn mismatch(expected: u32, actual: u32) -> Seq<char> {
    "Stock image CRC mismatch: stored 0x"@ + text::hex8(expected) + ", calculated 0x"@
        + text::hex8(actual)
}

/// A checksum passes, or fails with the mismatch.
pub open spec fn checked(d: Seq<u8>, initial: u32, expected: u32) -> Result<(), Seq<char>> {
    if register(d, initial) == expected {
        Ok(())
    } else {
        Err(mismatch(expected, register(d, initial)))
    }
}

proof fn lemma_crc_bit(crc: u32)
    ensures
        crc_bit(crc) == (crc >> 1) ^ (0xedb8_8320 & (if crc & 1 == 1 {
            0xffff_ffffu32
        } else {
            0u32
        })),
        crc & 1 == 0 || crc & 1 == 1,
{
    assert(crc & 1 == 0 || crc & 1 == 1) by (bit_vector);
    let half = crc >> 1;
    assert(half ^ (0xedb8_8320u32 & 0xffff_ffffu32) == half ^ 0xedb8_8320u32) by (bit_vector);
    assert(half ^ (0xedb8_8320u32 & 0u32) == half) by (bit_vector);
}

/// Returns the raw reflected CRC-32 register after processing `data`.
pub fn crc32_register(data: &[u8], crc: u32) -> (r: u32)
    ensures
        r == register(data@, crc),
{
    let initial = crc;
    let mut crc: u32 = crc;
    let mut i: usize = 0;
    assert(data@.take(0) =~= Seq::<u8>::empty());
    while i < data.len()
        invariant
            i <= data.len(),
            crc == register(data@.take(i as int), initial),
        decreases data.len() - i,
    {
        let ghost before = crc;
        crc = crc ^ (data[i] as u32);
        let ghost mixed = crc;
        let mut n: u32 = 0;
        while n < 8
            invariant
                n <= 8,
                crc == crc_bits(mixed, n as nat),
            decreases 8 - n,
        {
            proof {
                lemma_crc_bit(crc);
            }
            let mask: u32 = 0u32.wrapping_sub(crc & 1);
            crc = (crc >> 1) ^ (0xedb8_8320 & mask);
            n += 1;
        }
        assert(data@.take(i + 1).drop_last() =~= data@.take(i as int));
        i += 1;
    }
    assert(data@.take(data@.len() as int) =~= data@);
    crc
}

/// Compares the register after `d` with a stored checksum.
pub fn check_crc(d: &[u8], initial: u32, expected: u32) -> (r: Result<(), String>)
    ensures
        text::says(r, checked(d@, initial, expected)),
{
    let actual = crc32_register(d, initial);
    if actual != expected {
        let mut message = "Stock image CRC mismatch: stored 0x".to_owned();
        text::push_hex8(&mut message, expected);
        message.append(", calculated 0x");
        text::push_hex8(&mut message, actual);
        return Err(message);
    }
    Ok(())
}

/// The register over a concatenation continues from the register over the first part.
pub proof fn register_continues(a: Seq<u8>, b: Seq<u8>, initial: u32)
    ensures
        register(a + b, initial) == register(b, register(a, initial)),
    decreases b.len(),
{
    if b.len() == 0 {
        assert(a + b =~= a);
    } else {
        assert((a + b).drop_last() =~= a + b.drop_last());
        register_continues(a, b.drop_last(), initial);
    }
}

proof fn lemma_crc_bits_injective(x: u32, y: u32, n: nat)
    requires
        x != y,
    ensures
        crc_bits(x, n) != crc_bits(y, n),
    decreases n,
{
    if n > 0 {
        lemma_crc_bits_injective(x, y, (n - 1) as nat);
        let p = crc_bits(x, (n - 1) as nat);
        let q = crc_bits(y, (n - 1) as nat);
        assert(p != q ==> (if p & 1 == 1 {
            (p >> 1) ^ 0xedb8_8320
        } else {
            p >> 1
        }) != (if q & 1 == 1 {
            (q >> 1) ^ 0xedb8_8320
        } else {
            q >> 1
        })) by (bit_vector);
    }
}

proof fn lemma_register_injective(d: Seq<u8>, x: u32, y: u32)
    requires
        x != y,
    ensures
        register(d, x) != register(d, y),
    decreases d.len(),
{
    if d.len() > 0 {
        lemma_register_injective(d.drop_last(), x, y);
        let p = register(d.drop_last(), x);
        let q = register(d.drop_last(), y);
        let b = d.last() as u32;
        assert(p != q ==> p ^ b != q ^ b) by (bit_vector);
        lemma_crc_bits_injective(p ^ b, q ^ b, 8);
    }
}

/// A change of one byte, wherever it stands, changes the register, so that the stored
/// checksum of the intact data no longer passes.
pub proof fn one_changed_byte_is_detected(d: Seq<u8>, i: int, byte: u8, initial: u32)
    requires
        0 <= i < d.len(),
        d[i] != byte,
    ensures
        register(d.update(i, byte), initial) != register(d, initial),
        checked(d.update(i, byte), initial, register(d, initial)) is Err,
{
    let a = d.take(i);
    let rest = d.skip(i + 1);
    let c = register(a, initial);
    assert(d =~= a.push(d[i]) + rest);
    assert(d.update(i, byte) =~= a.push(byte) + rest);
    register_continues(a.push(d[i]), rest, initial);
    register_continues(a.push(byte), rest, initial);
    assert(a.push(d[i]).drop_last() =~= a);
    assert(a.push(byte).drop_last() =~= a);
    let p = d[i] as u32;
    let q = byte as u32;
    assert(p != q ==> c ^ p != c ^ q) by (bit_vector);
    lemma_crc_bits_injective(c ^ p, c ^ q, 8);
    lemma_register_injective(rest, crc_byte(c, d[i]), crc_byte(c, byte));
}

} // verus!
