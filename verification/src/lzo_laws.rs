//! Which LZO streams are taken for ones that stay inside what they produced.

use vstd::prelude::*;

use crate::lzo;
use crate::lzo::Op;

verus! {

/// The three bytes that end a stream.
pub open spec fn end_mark() -> Seq<u8> {
    seq![0x11u8, 0, 0]
}

/// A stream that begins with `x` as literal bytes, and goes on with `rest`.
pub open spec fn literals_then(x: Seq<u8>, rest: Seq<u8>) -> Seq<u8> {
    seq![(17 + x.len()) as u8] + x + rest
}

proof fn lemma_end_mark(d: Seq<u8>, pos: int, out: int, state: int)
    requires
        0 <= pos,
        d.len() == pos + 3,
        d[pos] == 0x11 && d[pos + 1] == 0 && d[pos + 2] == 0,
    ensures
        lzo::in_bounds_from(d, pos, out, state),
{
    assert(lzo::op_at(d, pos, state) is Stop);
}

/// A stream of literal bytes alone stays in bounds.
pub proof fn literals_stay_in_bounds(x: Seq<u8>)
    requires
        1 <= x.len() <= 238,
    ensures
        lzo::in_bounds(literals_then(x, end_mark())),
{
    let d = literals_then(x, end_mark());
    let k = x.len() as int;
    assert(d[0] == 17 + k);
    lemma_end_mark(d, 1 + k, k, if k >= 5 { 4 } else { k });
}

/// A copy of up to eight bytes from at most 2048 bytes back stays in bounds exactly where it does
/// not reach back farther than what was produced.
pub proof fn near_copy_stays_in_bounds(x: Seq<u8>, inst: u8, b: u8)
    requires
        1 <= x.len() <= 238,
        inst >= 64 && inst % 4 == 0,
    ensures
        lzo::in_bounds(literals_then(x, seq![inst, b] + end_mark())) <==> 8 * b + (inst as int / 4)
            % 8 + 1 <= x.len(),
{
    let d = literals_then(x, seq![inst, b] + end_mark());
    let k = x.len() as int;
    let pos = 1 + k;
    assert(d[0] == 17 + k);
    assert(d[pos] == inst && d[pos + 1] == b);
    assert(d[pos + 2] == 0x11 && d[pos + 3] == 0 && d[pos + 4] == 0);
    let state = if k >= 5 {
        4
    } else {
        k
    };
    let distance = b * 8 + inst as int / 4 % 8 + 1;
    let count = inst as int / 32 + 1;
    assert(lzo::op_at(d, pos, state) == Op::Copy {
        next: (pos + 2) as usize,
        distance: distance as usize,
        count: count as usize,
        tail: 0,
    });
    lemma_end_mark(d, pos + 2, k + count, 0);
}

/// A copy from at most 16384 bytes back stays in bounds exactly where it does not reach back
/// farther than what was produced.
pub proof fn far_copy_stays_in_bounds(x: Seq<u8>, n: u8, lo: u8, hi: u8)
    requires
        1 <= x.len() <= 238,
        1 <= n <= 31,
        lo % 4 == 0,
    ensures
        lzo::in_bounds(literals_then(x, seq![(32 + n) as u8, lo, hi] + end_mark())) <==> (lo + 256
            * hi) / 4 + 1 <= x.len(),
{
    let d = literals_then(x, seq![(32 + n) as u8, lo, hi] + end_mark());
    let k = x.len() as int;
    let pos = 1 + k;
    assert(d[0] == 17 + k);
    assert(d[pos] == 32 + n && d[pos + 1] == lo && d[pos + 2] == hi);
    assert(d[pos + 3] == 0x11 && d[pos + 4] == 0 && d[pos + 5] == 0);
    let state = if k >= 5 {
        4
    } else {
        k
    };
    let distance = (lo + 256 * hi) / 4 + 1;
    assert(lzo::op_at(d, pos, state) == Op::Copy {
        next: (pos + 3) as usize,
        distance: distance as usize,
        count: (n + 2) as usize,
        tail: 0,
    });
    lemma_end_mark(d, pos + 3, k + n + 2, 0);
}

/// A length that is too long for its instruction: a zero byte for each 255, and a last byte.
pub open spec fn long_length(z: nat, m: u8) -> Seq<u8> {
    Seq::new(z, |i: int| 0u8) + seq![m]
}

proof fn lemma_zero_run(d: Seq<u8>, pos: int, z: nat)
    requires
        0 <= pos,
        pos + z < d.len(),
        forall|i: int| pos <= i < pos + z ==> #[trigger] d[i] == 0,
        d[pos + z as int] != 0,
    ensures
        lzo::zero_run(d, pos) == z,
    decreases z,
{
    if z > 0 {
        assert(d[pos] == 0);
        lemma_zero_run(d, pos + 1, (z - 1) as nat);
    }
}

/// A long run of literal bytes, whose length is what its long length says and 18, stays in bounds.
pub proof fn long_literals_stay_in_bounds(x: Seq<u8>, z: nat, m: u8)
    requires
        m > 0,
        x.len() == 18 + 255 * z + m,
        x.len() <= isize::MAX,
        x.len() + z + 10 <= usize::MAX,
    ensures
        lzo::in_bounds(seq![0u8] + long_length(z, m) + x + end_mark()),
{
    let d = seq![0u8] + long_length(z, m) + x + end_mark();
    let pos = 1 + z as int;
    assert(d[0] == 0);
    assert forall|i: int| 1 <= i < 1 + z implies #[trigger] d[i] == 0 by {
        assert(d[i] == long_length(z, m)[i - 1]);
    }
    assert(d[pos] == m);
    lemma_zero_run(d, 1, z);
    let end = d.len() - 3;
    assert(d[end] == 0x11 && d[end + 1] == 0 && d[end + 2] == 0);
    assert(lzo::op_at(d, 0, 0) == Op::Literals {
        next: (pos + 1) as usize,
        count: x.len() as usize,
    });
    lemma_end_mark(d, end, x.len() as int, 4);
}

/// A long copy stays in bounds exactly where it does not reach back farther than what was
/// produced, however long it is.
pub proof fn long_copy_stays_in_bounds(x: Seq<u8>, z: nat, m: u8, lo: u8, hi: u8)
    requires
        1 <= x.len() <= 238,
        m > 0,
        lo % 4 == 0,
        255 * z + 1000 <= isize::MAX,
    ensures
        lzo::in_bounds(literals_then(x, seq![32u8] + long_length(z, m) + seq![lo, hi] + end_mark()))
            <==> (lo + 256 * hi) / 4 + 1 <= x.len(),
{
    let rest = seq![32u8] + long_length(z, m) + seq![lo, hi] + end_mark();
    let d = literals_then(x, rest);
    let k = x.len() as int;
    let pos = 1 + k;
    let at = pos + 2 + z;
    assert(d[0] == 17 + k);
    assert(d[pos] == rest[0]);
    assert forall|i: int| pos + 1 <= i < pos + 1 + z implies #[trigger] d[i] == 0 by {
        assert(d[i] == rest[i - pos]);
        assert(rest[i - pos] == long_length(z, m)[i - pos - 1]);
    }
    assert(d[at - 1] == rest[at - 1 - pos]);
    assert(d[at] == lo && d[at + 1] == hi);
    assert(d[at + 2] == 0x11 && d[at + 3] == 0 && d[at + 4] == 0);
    lemma_zero_run(d, pos + 1, z);
    let state = if k >= 5 {
        4
    } else {
        k
    };
    let distance = (lo + 256 * hi) / 4 + 1;
    let count = 255 * z + 31 + m + 2;
    assert(lzo::op_at(d, pos, state) == Op::Copy {
        next: (at + 2) as usize,
        distance: distance as usize,
        count: count as usize,
        tail: 0,
    });
    lemma_end_mark(d, at + 2, k + count, 0);
}

/// A stream that begins with a long run of literal bytes, and goes on with `rest`.
pub open spec fn long_literals_then(x: Seq<u8>, z: nat, m: u8, rest: Seq<u8>) -> Seq<u8> {
    seq![0u8] + long_length(z, m) + x + rest
}

/// The length of `x` is what a long length of literal bytes gives.
pub open spec fn is_long_run(x: Seq<u8>, z: nat, m: u8) -> bool {
    &&& m > 0
    &&& x.len() == 18 + 255 * z + m
    &&& x.len() + 1000 <= isize::MAX
}

proof fn lemma_prefix(x: Seq<u8>, z: nat, m: u8, rest: Seq<u8>) -> (pos: int)
    requires
        is_long_run(x, z, m),
        rest.len() <= 100,
    ensures
        ({
            let d = long_literals_then(x, z, m, rest);
            &&& pos == 2 + z + x.len()
            &&& d.len() == pos + rest.len()
            &&& forall|i: int| 0 <= i < rest.len() ==> #[trigger] d[pos + i] == rest[i]
            &&& lzo::in_bounds(d) == lzo::in_bounds_from(d, pos, x.len() as int, 4)
        }),
{
    let d = long_literals_then(x, z, m, rest);
    let at = 1 + z as int;
    let pos = 2 + z + x.len() as int;
    assert(d[0] == 0);
    assert forall|i: int| 1 <= i < 1 + z implies #[trigger] d[i] == 0 by {
        assert(d[i] == long_length(z, m)[i - 1]);
    }
    assert(d[at] == m);
    lemma_zero_run(d, 1, z);
    assert(lzo::op_at(d, 0, 0) == Op::Literals {
        next: (at + 1) as usize,
        count: x.len() as usize,
    });
    assert forall|i: int| 0 <= i < rest.len() implies #[trigger] d[pos + i] == rest[i] by {}
    pos
}

/// A copy of any kind, with up to three literal bytes behind it: where the copy reaches back no
/// farther than what was produced, the stream goes on behind those bytes, and nowhere else.
proof fn lemma_copy_then_end(d: Seq<u8>, pos: int, out: int, state: int, op: Op, tail: int)
    requires
        lzo::op_at(d, pos, state) == op,
        op matches Op::Copy { next, distance, count, tail: t } && pos < next && next + t + 3
            == d.len() && t == tail && 0 <= tail <= 3 && count <= 600,
        0 <= pos,
        0 <= out <= isize::MAX - 700,
        d[d.len() - 3] == 0x11 && d[d.len() - 2] == 0 && d[d.len() - 1] == 0,
    ensures
        lzo::in_bounds_from(d, pos, out, state) <==> op->Copy_distance <= out,
{
    let end = d.len() - 3;
    lemma_end_mark(d, end, out + op->Copy_count + tail, tail);
}

/// A near copy with literal bytes behind it.
pub proof fn near_copy_with_literals(x: Seq<u8>, z: nat, m: u8, inst: u8, b: u8, y: Seq<u8>)
    requires
        is_long_run(x, z, m),
        inst >= 64,
        y.len() == inst % 4,
    ensures
        lzo::in_bounds(long_literals_then(x, z, m, seq![inst, b] + y + end_mark())) <==> 8 * b + (
        inst as int / 4) % 8 + 1 <= x.len(),
{
    let rest = seq![inst, b] + y + end_mark();
    let d = long_literals_then(x, z, m, rest);
    let pos = lemma_prefix(x, z, m, rest);
    let t = y.len() as int;
    assert(d[pos + 0] == inst && d[pos + 1] == b);
    assert(d[pos + (2 + t)] == rest[2 + t] && d[pos + (3 + t)] == rest[3 + t] && d[pos + (4 + t)]
        == rest[4 + t]);
    let op = Op::Copy {
        next: (pos + 2) as usize,
        distance: (b * 8 + inst as int / 4 % 8 + 1) as usize,
        count: (inst as int / 32 + 1) as usize,
        tail: t as usize,
    };
    assert(lzo::op_at(d, pos, 4) == op);
    lemma_copy_then_end(d, pos, x.len() as int, 4, op, t);
}

/// A short copy right behind literal bytes is of three bytes, from more than 2048 bytes back.
pub proof fn short_copy_behind_literals(x: Seq<u8>, z: nat, m: u8, inst: u8, b: u8, y: Seq<u8>)
    requires
        is_long_run(x, z, m),
        inst < 16,
        y.len() == inst % 4,
    ensures
        lzo::in_bounds(long_literals_then(x, z, m, seq![inst, b] + y + end_mark())) <==> inst as int
            / 4 + 4 * b + 2049 <= x.len(),
{
    let rest = seq![inst, b] + y + end_mark();
    let d = long_literals_then(x, z, m, rest);
    let pos = lemma_prefix(x, z, m, rest);
    let t = y.len() as int;
    assert(d[pos + 0] == inst && d[pos + 1] == b);
    assert(d[pos + (2 + t)] == rest[2 + t] && d[pos + (3 + t)] == rest[3 + t] && d[pos + (4 + t)]
        == rest[4 + t]);
    let op = Op::Copy {
        next: (pos + 2) as usize,
        distance: (inst as int / 4 + b * 4 + 2049) as usize,
        count: 3,
        tail: t as usize,
    };
    assert(lzo::op_at(d, pos, 4) == op);
    lemma_copy_then_end(d, pos, x.len() as int, 4, op, t);
}

/// A copy from more than 16384 bytes back, by up to nine bytes.
pub proof fn farthest_copy_stays_in_bounds(
    x: Seq<u8>,
    z: nat,
    m: u8,
    inst: u8,
    lo: u8,
    hi: u8,
    y: Seq<u8>,
)
    requires
        is_long_run(x, z, m),
        16 <= inst < 32 && inst % 8 != 0,
        y.len() == lo % 4,
        inst >= 24 || lo >= 4 || hi > 0,
    ensures
        lzo::in_bounds(long_literals_then(x, z, m, seq![inst, lo, hi] + y + end_mark())) <==> (
        if inst >= 24 {
            16384int
        } else {
            0
        }) + (lo + 256 * hi) / 4 + 16384 <= x.len(),
{
    let rest = seq![inst, lo, hi] + y + end_mark();
    let d = long_literals_then(x, z, m, rest);
    let pos = lemma_prefix(x, z, m, rest);
    let t = y.len() as int;
    assert(d[pos + 0] == inst && d[pos + 1] == lo && d[pos + 2] == hi);
    assert(d[pos + (3 + t)] == rest[3 + t] && d[pos + (4 + t)] == rest[4 + t] && d[pos + (5 + t)]
        == rest[5 + t]);
    let far = if inst >= 24 {
        16384int
    } else {
        0
    };
    let op = Op::Copy {
        next: (pos + 3) as usize,
        distance: (far + (lo + 256 * hi) / 4 + 16384) as usize,
        count: (inst % 8 + 2) as usize,
        tail: t as usize,
    };
    assert(lzo::op_at(d, pos, 4) == op);
    lemma_copy_then_end(d, pos, x.len() as int, 4, op, t);
}

/// Behind a copy with one to three literal bytes a short copy is of two bytes, from at most 1024
/// bytes back, counted with what the copy and those bytes produced.
pub proof fn short_copy_behind_copy(
    x: Seq<u8>,
    z: nat,
    m: u8,
    inst: u8,
    b: u8,
    y: Seq<u8>,
    short: u8,
    c: u8,
)
    requires
        is_long_run(x, z, m),
        inst >= 64,
        1 <= y.len() == inst % 4,
        short < 16 && short % 4 == 0,
        8 * b + (inst as int / 4) % 8 + 1 <= x.len(),
    ensures
        lzo::in_bounds(
            long_literals_then(x, z, m, seq![inst, b] + y + (seq![short, c] + end_mark())),
        ) <==> short as int / 4 + 4 * c + 1 <= x.len() + inst as int / 32 + 1 + y.len(),
{
    let rest = seq![inst, b] + y + (seq![short, c] + end_mark());
    let d = long_literals_then(x, z, m, rest);
    let pos = lemma_prefix(x, z, m, rest);
    let t = y.len() as int;
    assert(d[pos + 0] == inst && d[pos + 1] == b);
    assert(d[pos + (2 + t)] == rest[2 + t] && d[pos + (3 + t)] == rest[3 + t]);
    assert(d[pos + (4 + t)] == rest[4 + t] && d[pos + (5 + t)] == rest[5 + t] && d[pos + (6 + t)]
        == rest[6 + t]);
    let count = inst as int / 32 + 1;
    assert(lzo::op_at(d, pos, 4) == Op::Copy {
        next: (pos + 2) as usize,
        distance: (b * 8 + inst as int / 4 % 8 + 1) as usize,
        count: count as usize,
        tail: t as usize,
    });
    let after = pos + 2 + t;
    let out = x.len() + count + t;
    assert(lzo::in_bounds_from(d, pos, x.len() as int, 4) == lzo::in_bounds_from(d, after, out, t));
    let op = Op::Copy {
        next: (after + 2) as usize,
        distance: (short as int / 4 + c * 4 + 1) as usize,
        count: 2,
        tail: 0,
    };
    assert(lzo::op_at(d, after, t) == op);
    lemma_copy_then_end(d, after, out, t, op, 0);
}

} // verus!
