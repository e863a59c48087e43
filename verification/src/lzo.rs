//! LZO streams: which of them stay inside the data they have already produced, and their
//! decompression.

use vstd::prelude::*;

use crate::text;

verus! {

/// What one instruction of an LZO stream does.
pub enum Op {
    /// The stream ends here, or its bytes run out.
    Stop,
    /// Copy `count` literal bytes that stand at `next`.
    Literals { next: usize, count: usize },
    /// Copy `count` bytes from `distance` bytes back, then `tail` literal bytes that stand
    /// at `next`.
    Copy { next: usize, distance: usize, count: usize, tail: usize },
    /// A length that no buffer can hold.
    Oversized,
}

/// How many zero bytes stand at `pos`, before the first other byte or the end.
pub open spec fn zero_run(d: Seq<u8>, pos: int) -> nat
    decreases d.len() - pos,
{
    if 0 <= pos < d.len() && d[pos] == 0 {
        1 + zero_run(d, pos + 1)
    } else {
        0
    }
}

/// A length field. A nonzero `short` is the length itself. Otherwise the length is extended:
/// each of the zero bytes at `pos` stands for 255, and the byte after them ends the field.
/// The result is the length above `base` and the position behind the field.
pub open spec fn length_field(d: Seq<u8>, pos: int, short: int, base: int) -> Option<(int, int)> {
    if short != 0 {
        Some((short, pos))
    } else {
        let end = pos + zero_run(d, pos);
        if end >= d.len() {
            None
        } else {
            Some((zero_run(d, pos) * 255 + base + d[end], end + 1))
        }
    }
}

/// The instruction that copies from farther back, with a 16-bit operand: `far` is the
/// distance that its opcode adds, and `last` says that no distance at all ends the stream.
pub open spec fn long_copy(d: Seq<u8>, field: Option<(int, int)>, far: int, last: bool) -> Op {
    match field {
        None => Op::Stop,
        Some((extra, at)) => if at + 2 > d.len() {
            Op::Stop
        } else {
            let word = d[at] + 256 * d[at + 1];
            let distance = if last {
                far + word / 4 + 16384
            } else {
                word / 4 + 1
            };
            if last && far + word / 4 == 0 {
                Op::Stop
            } else if extra + 3 > isize::MAX {
                Op::Oversized
            } else {
                Op::Copy {
                    next: (at + 2) as usize,
                    distance: distance as usize,
                    count: (extra + 2) as usize,
                    tail: (word % 4) as usize,
                }
            }
        },
    }
}

/// The instruction at `pos`, after an instruction that left `state` literals.
pub open spec fn op_at(d: Seq<u8>, pos: int, state: int) -> Op {
    if pos >= d.len() {
        Op::Stop
    } else {
        let inst = d[pos] as int;
        if inst >= 64 {
            if pos + 2 > d.len() {
                Op::Stop
            } else {
                Op::Copy {
                    next: (pos + 2) as usize,
                    distance: (d[pos + 1] * 8 + inst / 4 % 8 + 1) as usize,
                    count: (inst / 32 + 1) as usize,
                    tail: (inst % 4) as usize,
                }
            }
        } else if inst >= 32 {
            long_copy(d, length_field(d, pos + 1, inst % 32, 31), 0, false)
        } else if inst >= 16 {
            long_copy(
                d,
                length_field(d, pos + 1, inst % 8, 7),
                if inst >= 24 { 16384 } else { 0 },
                true,
            )
        } else if state == 0 {
            match length_field(d, pos + 1, inst, 15) {
                None => Op::Stop,
                Some((extra, at)) => if extra + 3 > isize::MAX {
                    Op::Oversized
                } else {
                    Op::Literals { next: at as usize, count: (extra + 3) as usize }
                },
            }
        } else if pos + 2 > d.len() {
            Op::Stop
        } else {
            Op::Copy {
                next: (pos + 2) as usize,
                distance: (inst / 4 + d[pos + 1] * 4 + if state == 4 { 2049int } else { 1int }) as usize,
                count: if state == 4 { 3 } else { 2 },
                tail: (inst % 4) as usize,
            }
        }
    }
}

/// The position behind the instruction's own bytes, where its literals begin.
pub open spec fn op_next(op: Op) -> int {
    match op {
        Op::Literals { next, .. } => next as int,
        Op::Copy { next, .. } => next as int,
        _ => 0,
    }
}

/// From position `pos`, with `out` bytes produced, no instruction of the stream reaches back
/// before the first byte produced, and no length outgrows a buffer.
pub open spec fn in_bounds_from(d: Seq<u8>, pos: int, out: int, state: int) -> bool
    decreases d.len() - pos,
{
    match op_at(d, pos, state) {
        Op::Stop => true,
        Op::Oversized => false,
        Op::Literals { next, count } => if next + count > d.len() {
            true
        } else {
            &&& out + count <= isize::MAX
            &&& pos < next
            &&& in_bounds_from(d, next + count, out + count, 4)
        },
        Op::Copy { next, distance, count, tail } => {
            &&& distance <= out
            &&& out + count + tail <= isize::MAX
            &&& if next + tail > d.len() {
                true
            } else {
                &&& pos < next
                &&& in_bounds_from(d, next + tail, out + count + tail, tail as int)
            }
        },
    }
}

/// Decompressing `d` never reaches back before the first byte produced.
pub open spec fn in_bounds(d: Seq<u8>) -> bool {
    if d.len() == 0 || d[0] < 18 {
        in_bounds_from(d, 0, 0, 0)
    } else {
        let count = d[0] - 17;
        if 1 + count > d.len() {
            true
        } else {
            in_bounds_from(d, 1 + count, count, if count >= 5 { 4 } else { count })
        }
    }
}

fn read_zero_run(d: &[u8], pos: usize) -> (n: usize)
    requires
        pos <= d@.len(),
    ensures
        n == zero_run(d@, pos as int),
        pos + n <= d.len(),
{
    let mut n: usize = 0;
    while pos + n < d.len() && d[pos + n] == 0
        invariant
            pos + n <= d.len(),
            zero_run(d@, pos as int) == n + zero_run(d@, pos + n),
        decreases d.len() - pos - n,
    {
        n += 1;
    }
    n
}

/// What [`length_field`] describes; the length is `None` where it outgrows a buffer.
fn read_length_field(d: &[u8], pos: usize, short: usize, base: usize) -> (r: Option<
    (Option<usize>, usize),
>)
    requires
        pos <= d@.len(),
        short <= 64,
        base <= 64,
    ensures
        match (r, length_field(d@, pos as int, short as int, base as int)) {
            (None, None) => true,
            (Some((Some(n), at)), Some((want, end))) => n == want && n + 3 <= isize::MAX && at
                == end && pos <= at <= d@.len(),
            (Some((None, at)), Some((want, end))) => want + 3 > isize::MAX && at == end && pos
                <= at <= d@.len(),
            _ => false,
        },
{
    if short != 0 {
        return Some((Some(short), pos));
    }
    let zeros = read_zero_run(d, pos);
    let end = pos + zeros;
    if end >= d.len() {
        return None;
    }
    let last = d[end] as usize;
    let limit: usize = isize::MAX as usize - 3;
    match zeros.checked_mul(255) {
        None => Some((None, end + 1)),
        Some(n) => {
            if n > limit - base - last {
                Some((None, end + 1))
            } else {
                Some((Some(n + base + last), end + 1))
            }
        },
    }
}

/// The instruction that [`long_copy`] describes.
fn read_long_copy(d: &[u8], field: Option<(Option<usize>, usize)>, far: usize, last: bool) -> (op:
    Op)
    requires
        field matches Some((_, at)) ==> at <= d@.len(),
        field matches Some((Some(n), _)) ==> n + 3 <= isize::MAX,
        far <= 16384,
    ensures
        forall|want: Option<(int, int)>| #[trigger]
            reads(field, want) ==> op == long_copy(d@, want, far as int, last),
{
    match field {
        None => Op::Stop,
        Some((extra, at)) => {
            if d.len() - at < 2 {
                return Op::Stop;
            }
            let word: usize = d[at] as usize + 256 * (d[at + 1] as usize);
            if last && far + word / 4 == 0 {
                return Op::Stop;
            }
            let distance: usize = if last {
                far + word / 4 + 16384
            } else {
                word / 4 + 1
            };
            match extra {
                None => Op::Oversized,
                Some(n) => Op::Copy { next: at + 2, distance, count: n + 2, tail: word % 4 },
            }
        },
    }
}

/// A length field that was read is the one described.
pub open spec fn reads(field: Option<(Option<usize>, usize)>, want: Option<(int, int)>) -> bool {
    match (field, want) {
        (None, None) => true,
        (Some((Some(n), at)), Some((extra, end))) => n == extra && n + 3 <= isize::MAX && at == end,
        (Some((None, at)), Some((extra, end))) => extra + 3 > isize::MAX && at == end,
        _ => false,
    }
}

/// The instruction at `pos`.
fn read_op(d: &[u8], pos: usize, state: usize) -> (op: Op)
    requires
        pos <= d@.len(),
    ensures
        op == op_at(d@, pos as int, state as int),
        op is Literals || op is Copy ==> pos < op_next(op) <= d@.len(),
{
    if pos >= d.len() {
        return Op::Stop;
    }
    let inst: usize = d[pos] as usize;
    if inst >= 64 {
        if d.len() - pos < 2 {
            return Op::Stop;
        }
        Op::Copy {
            next: pos + 2,
            distance: d[pos + 1] as usize * 8 + inst / 4 % 8 + 1,
            count: inst / 32 + 1,
            tail: inst % 4,
        }
    } else if inst >= 32 {
        let field = read_length_field(d, pos + 1, inst % 32, 31);
        assert(reads(field, length_field(d@, pos + 1, inst as int % 32, 31)));
        read_long_copy(d, field, 0, false)
    } else if inst >= 16 {
        let field = read_length_field(d, pos + 1, inst % 8, 7);
        assert(reads(field, length_field(d@, pos + 1, inst as int % 8, 7)));
        read_long_copy(d, field, if inst >= 24 { 16384 } else { 0 }, true)
    } else if state == 0 {
        match read_length_field(d, pos + 1, inst, 15) {
            None => Op::Stop,
            Some((None, at)) => Op::Oversized,
            Some((Some(n), at)) => Op::Literals { next: at, count: n + 3 },
        }
    } else if d.len() - pos < 2 {
        Op::Stop
    } else {
        let base: usize = if state == 4 {
            2049
        } else {
            1
        };
        Op::Copy {
            next: pos + 2,
            distance: inst / 4 + d[pos + 1] as usize * 4 + base,
            count: if state == 4 { 3 } else { 2 },
            tail: inst % 4,
        }
    }
}

/// Whether decompressing `d` never reaches back before the first byte produced.
pub fn stays_in_bounds(d: &[u8]) -> (r: bool)
    ensures
        r == in_bounds(d@),
{
    let limit: usize = isize::MAX as usize;
    let mut pos: usize = 0;
    let mut out: usize = 0;
    let mut state: usize = 0;
    if d.len() > 0 && d[0] >= 18 {
        let count: usize = d[0] as usize - 17;
        if d.len() - 1 < count {
            return true;
        }
        pos = 1 + count;
        out = count;
        state = if count >= 5 {
            4
        } else {
            count
        };
    }
    loop
        invariant
            pos <= d@.len(),
            out <= limit,
            limit == isize::MAX,
            in_bounds(d@) == in_bounds_from(d@, pos as int, out as int, state as int),
        decreases d.len() - pos,
    {
        match read_op(d, pos, state) {
            Op::Stop => {
                return true;
            },
            Op::Oversized => {
                return false;
            },
            Op::Literals { next, count } => {
                if count > d.len() - next {
                    return true;
                }
                if count > limit - out {
                    return false;
                }
                pos = next + count;
                out = out + count;
                state = 4;
            },
            Op::Copy { next, distance, count, tail } => {
                if distance > out || count > limit - out || tail > limit - out - count {
                    return false;
                }
                if tail > d.len() - next {
                    return true;
                }
                pos = next + tail;
                out = out + count + tail;
                state = tail;
            },
        }
    }
}

/// What `lzokay_native::decompress` makes of a stream: the data, or the message of the error.
pub uninterp spec fn lzo_decoded(d: Seq<u8>) -> Result<Seq<u8>, Seq<char>>;

/// Decompresses with `lzokay_native::decompress`. The outcome depends on the stream alone:
/// `size` only sets how much room is reserved at first. The decompressor indexes the data it
/// has produced without a check of its own, so a stream that reaches back too far is left out.
#[verifier::external_body]
pub(crate) fn lzo_decompress(d: &[u8], size: usize) -> (r: Result<Vec<u8>, String>)
    requires
        in_bounds(d@),
        size <= isize::MAX,
    ensures
        text::says(r, lzo_decoded(d@)),
{
    lzokay_native::decompress(&mut std::io::Cursor::new(d), Some(size)).map_err(|e| e.to_string())
}

} // verus!
