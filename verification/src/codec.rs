//! The compression methods of UBIFS and JFFS2 data.

use std::io::Read;

use vstd::prelude::*;

use crate::bytes;
use crate::lzo;
use crate::text;

verus! {

/// No file or file block of an image is larger than this.
pub const MAX_FILE: usize = 0x100_0000;

/// What a zlib stream decodes to, cut after `limit` bytes: the data that
/// `flate2::read::ZlibDecoder` yields, or the message of its error.
pub uninterp spec fn zlib_decoded(d: Seq<u8>, limit: u64) -> Result<Seq<u8>, Seq<char>>;

/// Reads at most `limit` bytes from `flate2::read::ZlibDecoder`. The outcome depends on the
/// stream and the limit alone, and never exceeds the limit.
#[verifier::external_body]
fn zlib_read(d: &[u8], limit: u64) -> (r: Result<Vec<u8>, String>)
    ensures
        text::says(r, zlib_decoded(d@, limit)),
        r matches Ok(out) ==> out@.len() <= limit,
{
    let mut out = Vec::new();
    match flate2::read::ZlibDecoder::new(d).take(limit).read_to_end(&mut out) {
        Ok(_) => Ok(out),
        Err(e) => Err(e.to_string()),
    }
}

/// What a raw DEFLATE stream decodes to, cut after `limit` bytes: the data that
/// `flate2::read::DeflateDecoder` yields, or the message of its error.
pub uninterp spec fn deflate_decoded(d: Seq<u8>, limit: u64) -> Result<Seq<u8>, Seq<char>>;

/// Reads at most `limit` bytes from `flate2::read::DeflateDecoder`. The outcome depends on
/// the stream and the limit alone, and never exceeds the limit.
#[verifier::external_body]
fn deflate_read(d: &[u8], limit: u64) -> (r: Result<Vec<u8>, String>)
    ensures
        text::says(r, deflate_decoded(d@, limit)),
        r matches Ok(out) ==> out@.len() <= limit,
{
    let mut out = Vec::new();
    match flate2::read::DeflateDecoder::new(d).take(limit).read_to_end(&mut out) {
        Ok(_) => Ok(out),
        Err(e) => Err(e.to_string()),
    }
}

/// What the stream itself yields, before its length is compared. Method 0 stores the data, 1 is
/// LZO, 2 is zlib and 4 raw DEFLATE.
pub open spec fn unpacked(d: Seq<u8>, size: int, kind: u16) -> Result<Seq<u8>, Seq<char>> {
    if kind == 0 {
        Ok(d)
    } else if kind == 1 {
        if lzo::in_bounds(d) {
            lzo::lzo_decoded(d)
        } else {
            Err("LZO stream reaches back before its start"@)
        }
    } else if kind == 2 {
        zlib_decoded(d, (size + 1) as u64)
    } else if kind == 4 {
        deflate_decoded(d, (size + 1) as u64)
    } else {
        Err("Unsupported compression type "@ + text::decimal(kind as nat))
    }
}

/// Data of exactly the declared length, or the reason why there is none.
pub open spec fn sized(out: Result<Seq<u8>, Seq<char>>, size: int) -> Result<Seq<u8>, Seq<char>> {
    match out {
        Ok(b) => if b.len() == size {
            Ok(b)
        } else {
            Err("Decompressed length differs from the node header"@)
        },
        Err(e) => Err(e),
    }
}

/// The block of `size` bytes that `d` stands for.
pub open spec fn decompressed(d: Seq<u8>, size: int, kind: u16) -> Result<Seq<u8>, Seq<char>> {
    if size > MAX_FILE {
        Err("File block is too large"@)
    } else {
        sized(unpacked(d, size, kind), size)
    }
}

/// Accepts unpacked data if it has the declared length.
pub fn expect_size(out: Result<Vec<u8>, String>, size: usize) -> (r: Result<Vec<u8>, String>)
    ensures
        forall|want: Result<Seq<u8>, Seq<char>>| #[trigger]
            text::says(out, want) ==> text::says(r, sized(want, size as int)),
        out matches Err(e) ==> r == Err::<Vec<u8>, String>(e),
        out matches Ok(b) ==> if b@.len() == size {
            r == Ok::<Vec<u8>, String>(b)
        } else {
            r matches Err(e) && e@ == "Decompressed length differs from the node header"@
        },
{
    let out = out?;
    if out.len() != size {
        return Err("Decompressed length differs from the node header".to_owned());
    }
    Ok(out)
}

/// Unpacks a file block with the compression method `kind`.
pub fn decompress(d: &[u8], size: usize, kind: u16) -> (r: Result<Vec<u8>, String>)
    ensures
        text::says(r, decompressed(d@, size as int, kind)),
        r matches Ok(out) ==> out@.len() == size && size <= MAX_FILE,
{
    if size > MAX_FILE {
        return Err("File block is too large".to_owned());
    }
    let out: Result<Vec<u8>, String> = if kind == 0 {
        Ok(bytes::copy_of(d))
    } else if kind == 1 {
        if lzo::stays_in_bounds(d) {
            lzo::lzo_decompress(d, size)
        } else {
            Err("LZO stream reaches back before its start".to_owned())
        }
    } else if kind == 2 {
        zlib_read(d, size as u64 + 1)
    } else if kind == 4 {
        // UBIFS stores raw DEFLATE while JFFS2 compression type 6 keeps the zlib wrapper.
        deflate_read(d, size as u64 + 1)
    } else {
        let mut message = "Unsupported compression type ".to_owned();
        text::push_decimal(&mut message, kind as u64);
        Err(message)
    };
    assert(text::says(out, unpacked(d@, size as int, kind)));
    expect_size(out, size)
}

/// `out` extended by `count` bytes, each a copy of the byte that stands as far behind `start`
/// as the new byte stands behind the old end.
pub open spec fn back_copy(out: Seq<u8>, start: int, count: nat) -> Seq<u8>
    decreases count,
{
    if count == 0 {
        out
    } else {
        back_copy(out.push(out[start]), start + 1, (count - 1) as nat)
    }
}

/// RTIME decoding from the pair at `i` on: each pair is a byte and the length of a run copied
/// from behind the place where that byte last occurred. `last` holds, for each byte value,
/// the position behind its last occurrence.
pub open spec fn rtime_from(d: Seq<u8>, size: int, i: int, out: Seq<u8>, last: Seq<int>) -> Result<
    Seq<u8>,
    Seq<char>,
>
    decreases d.len() - i,
{
    if i + 2 > d.len() || out.len() >= size {
        if out.len() == size {
            Ok(out)
        } else {
            Err("RTIME output is shorter than the declared length"@)
        }
    } else if out.len() + 1 + d[i + 1] > size {
        Err("RTIME output exceeds the declared length"@)
    } else {
        rtime_from(
            d,
            size,
            i + 2,
            back_copy(out.push(d[i]), last[d[i] as int], d[i + 1] as nat),
            last.update(d[i] as int, out.len() as int + 1),
        )
    }
}

/// The `size` bytes that the RTIME stream `d` stands for.
pub open spec fn rtime_decoded(d: Seq<u8>, size: int) -> Result<Seq<u8>, Seq<char>> {
    if size > MAX_FILE {
        Err("RTIME output is too large"@)
    } else {
        rtime_from(d, size, 0, Seq::empty(), Seq::new(256, |i: int| 0))
    }
}

proof fn lemma_back_copy_len(out: Seq<u8>, start: int, count: nat)
    ensures
        back_copy(out, start, count).len() == out.len() + count,
    decreases count,
{
    if count > 0 {
        lemma_back_copy_len(out.push(out[start]), start + 1, (count - 1) as nat);
    }
}

/// Decodes RTIME, the run-length method of JFFS2.
pub fn rtime(d: &[u8], size: usize) -> (r: Result<Vec<u8>, String>)
    ensures
        text::says(r, rtime_decoded(d@, size as int)),
        r matches Ok(out) ==> out@.len() == size && size <= MAX_FILE,
{
    if size > MAX_FILE {
        return Err("RTIME output is too large".to_owned());
    }
    let mut out: Vec<u8> = Vec::with_capacity(size);
    let mut positions: Vec<usize> = vec![0; 256];
    let ghost mut last: Seq<int> = Seq::new(256, |i: int| 0);
    let mut i: usize = 0;
    while d.len() - i >= 2 && out.len() < size
        invariant
            i <= d.len(),
            size <= MAX_FILE,
            out@.len() <= size,
            positions@.len() == 256,
            last.len() == 256,
            forall|b: int| 0 <= b < 256 ==> positions@[b] == #[trigger] last[b],
            forall|b: int| 0 <= b < 256 ==> 0 <= #[trigger] last[b] <= out@.len(),
            rtime_decoded(d@, size as int) == rtime_from(d@, size as int, i as int, out@, last),
        decreases d.len() - i,
    {
        let b = d[i];
        let count: usize = d[i + 1] as usize;
        let ghost before = out@;
        out.push(b);
        let start: usize = positions[b as usize];
        assert(start == last[b as int]);
        positions[b as usize] = out.len();
        let ghost base = out@;
        if count > size - out.len() {
            return Err("RTIME output exceeds the declared length".to_owned());
        }
        let mut j: usize = 0;
        while j < count
            invariant
                j <= count,
                count <= 255,
                size <= MAX_FILE,
                start < base.len(),
                base.len() + count <= size,
                out@.len() == base.len() + j,
                back_copy(base, start as int, count as nat) == back_copy(
                    out@,
                    start + j,
                    (count - j) as nat,
                ),
            decreases count - j,
        {
            let c = out[start + j];
            out.push(c);
            j += 1;
        }
        assert(out@ == back_copy(base, start as int, count as nat));
        proof {
            lemma_back_copy_len(base, start as int, count as nat);
            last = last.update(b as int, base.len() as int);
        }
        i += 2;
    }
    if out.len() != size {
        return Err("RTIME output is shorter than the declared length".to_owned());
    }
    Ok(out)
}

proof fn lemma_rtime_size(d: Seq<u8>, size: int, i: int, out: Seq<u8>, last: Seq<int>)
    ensures
        rtime_from(d, size, i, out, last) matches Ok(b) ==> b.len() == size,
    decreases d.len() - i,
{
    if i + 2 > d.len() || out.len() >= size {
    } else if out.len() + 1 + d[i + 1] > size {
    } else {
        lemma_rtime_size(
            d,
            size,
            i + 2,
            back_copy(out.push(d[i]), last[d[i] as int], d[i + 1] as nat),
            last.update(d[i] as int, out.len() as int + 1),
        );
    }
}

/// Unpacked data has the declared length, by whichever method, and is not larger than the limit.
pub proof fn unpacked_data_has_declared_length(d: Seq<u8>, size: int, kind: u16)
    ensures
        decompressed(d, size, kind) matches Ok(out) ==> out.len() == size <= MAX_FILE,
        rtime_decoded(d, size) matches Ok(out) ==> out.len() == size <= MAX_FILE,
{
    lemma_rtime_size(d, size, 0, Seq::empty(), Seq::new(256, |i: int| 0));
}

} // verus!
