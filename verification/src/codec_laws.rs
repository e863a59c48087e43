//! What unpacking gives: RTIME streams undo their encoding, and each method names its own decoder.

use vstd::prelude::*;

use crate::codec;
use crate::lzo;

verus! {

/// Where the output of pair number `t` of an RTIME stream begins: each pair before it stands for
/// one byte and a run.
pub open spec fn pair_place(d: Seq<u8>, t: int) -> int
    decreases t,
{
    if t <= 0 {
        0
    } else {
        pair_place(d, t - 1) + 1 + d[2 * t - 1]
    }
}

/// Pair number `u` is the last before pair number `t` that begins with the same byte.
pub open spec fn is_previous(d: Seq<u8>, u: int, t: int) -> bool {
    &&& 0 <= u < t
    &&& d[2 * u] == d[2 * t]
    &&& forall|v: int| u < v < t ==> #[trigger] d[2 * v] != d[2 * t]
}

/// No pair before pair number `t` begins with the same byte.
pub open spec fn is_first(d: Seq<u8>, t: int) -> bool {
    forall|v: int| 0 <= v < t ==> #[trigger] d[2 * v] != d[2 * t]
}

/// In `x`, the run of pair number `t` repeats what begins at `q`.
pub open spec fn run_repeats(d: Seq<u8>, t: int, x: Seq<u8>, q: int) -> bool {
    forall|j: int|
        0 <= j < d[2 * t + 1] ==> #[trigger] x[pair_place(d, t) + 1 + j] == x[q + j]
}

/// Pair number `t` stands for its place in `x`: the byte itself, and behind it a run of what
/// stands behind the byte of the last pair that began with the same byte, or of what `x` begins
/// with where there is none.
pub open spec fn pair_stands(d: Seq<u8>, t: int, x: Seq<u8>) -> bool {
    &&& x[pair_place(d, t)] == d[2 * t]
    &&& forall|u: int| #[trigger] is_previous(d, u, t) ==> run_repeats(d, t, x, pair_place(d, u) + 1)
    &&& is_first(d, t) ==> run_repeats(d, t, x, 0)
}

/// The first `m` pairs of the RTIME stream `d` are an encoding of `x`: they stand for all of `x`,
/// in order.
pub open spec fn encodes(d: Seq<u8>, m: int, x: Seq<u8>) -> bool {
    &&& 0 <= m && 2 * m <= d.len()
    &&& pair_place(d, m) == x.len()
    &&& forall|t: int| 0 <= t < m ==> #[trigger] pair_stands(d, t, x)
}

/// The position behind the last of the first `t` pairs that begins with `b`, 0 if there is none.
spec fn behind(d: Seq<u8>, t: int, b: u8) -> int
    decreases t,
{
    if t <= 0 {
        0
    } else if d[2 * (t - 1)] == b {
        pair_place(d, t - 1) + 1
    } else {
        behind(d, t - 1, b)
    }
}

spec fn last_places(d: Seq<u8>, t: int) -> Seq<int> {
    Seq::new(256, |b: int| behind(d, t, b as u8))
}

proof fn lemma_places_grow(d: Seq<u8>, t: int, u: int)
    requires
        0 <= t <= u,
    ensures
        t <= pair_place(d, t),
        pair_place(d, t) + (u - t) <= pair_place(d, u),
    decreases u,
{
    if t < u {
        lemma_places_grow(d, t, u - 1);
    } else if t > 0 {
        lemma_places_grow(d, t - 1, t - 1);
    }
}

proof fn lemma_behind(d: Seq<u8>, t: int, s: int)
    requires
        0 <= s <= t,
        forall|v: int| s <= v < t ==> #[trigger] d[2 * v] != d[2 * t],
    ensures
        0 <= behind(d, s, d[2 * t]) <= pair_place(d, s),
        behind(d, s, d[2 * t]) == 0 && is_first(d, t) || exists|u: int|
            #[trigger] is_previous(d, u, t) && behind(d, s, d[2 * t]) == pair_place(d, u) + 1,
    decreases s,
{
    if s > 0 {
        lemma_places_grow(d, s - 1, s);
        if d[2 * (s - 1)] == d[2 * t] {
            assert(is_previous(d, s - 1, t));
            lemma_places_grow(d, 0, s - 1);
        } else {
            lemma_behind(d, t, s - 1);
        }
    }
}

proof fn lemma_run(d: Seq<u8>, t: int, x: Seq<u8>)
    requires
        0 <= t,
        pair_stands(d, t, x),
    ensures
        0 <= behind(d, t, d[2 * t]) <= pair_place(d, t),
        run_repeats(d, t, x, behind(d, t, d[2 * t])),
{
    lemma_behind(d, t, t);
}

/// A pair has its run from one place alone.
proof fn lemma_stands(d: Seq<u8>, t: int, x: Seq<u8>)
    requires
        0 <= t,
        x[pair_place(d, t)] == d[2 * t],
        run_repeats(d, t, x, behind(d, t, d[2 * t])),
    ensures
        pair_stands(d, t, x),
{
    assert forall|u: int| #[trigger] is_previous(d, u, t) implies behind(d, t, d[2 * t])
        == pair_place(d, u) + 1 by {
        lemma_from_previous(d, u, t, t);
    }
    if is_first(d, t) {
        lemma_from_none(d, t, t);
    }
}

proof fn lemma_from_previous(d: Seq<u8>, u: int, t: int, s: int)
    requires
        is_previous(d, u, t),
        u < s <= t,
    ensures
        behind(d, s, d[2 * t]) == pair_place(d, u) + 1,
    decreases s,
{
    if s - 1 > u {
        assert(d[2 * (s - 1)] != d[2 * t]);
        lemma_from_previous(d, u, t, s - 1);
    }
}

proof fn lemma_from_none(d: Seq<u8>, t: int, s: int)
    requires
        is_first(d, t),
        0 <= s <= t,
    ensures
        behind(d, s, d[2 * t]) == 0,
    decreases s,
{
    if s > 0 {
        assert(d[2 * (s - 1)] != d[2 * t]);
        lemma_from_none(d, t, s - 1);
    }
}

proof fn lemma_copy_gives(x: Seq<u8>, m: int, start: int, count: nat)
    requires
        0 <= start < m,
        m + count <= x.len(),
        forall|j: int| 0 <= j < count ==> #[trigger] x[m + j] == x[start + j],
    ensures
        codec::back_copy(x.take(m), start, count) == x.take(m + count),
    decreases count,
{
    if count > 0 {
        assert(x[m + 0] == x[start + 0]);
        assert(x.take(m).push(x.take(m)[start]) =~= x.take(m + 1));
        assert forall|j: int| 0 <= j < count - 1 implies #[trigger] x[m + 1 + j] == x[start + 1
            + j] by {
            assert(x[m + (j + 1)] == x[start + (j + 1)]);
        }
        lemma_copy_gives(x, m + 1, start + 1, (count - 1) as nat);
    }
}

proof fn lemma_places_updated(d: Seq<u8>, t: int)
    requires
        0 <= t,
        2 * t + 2 <= d.len(),
    ensures
        last_places(d, t).update(d[2 * t] as int, pair_place(d, t) + 1) == last_places(d, t + 1),
{
    assert(last_places(d, t).update(d[2 * t] as int, pair_place(d, t) + 1) =~= last_places(
        d,
        t + 1,
    ));
}

proof fn lemma_decodes(d: Seq<u8>, m: int, x: Seq<u8>, t: int)
    requires
        encodes(d, m, x),
        0 <= t <= m,
    ensures
        codec::rtime_from(
            d,
            x.len() as int,
            2 * t,
            x.take(pair_place(d, t)),
            last_places(d, t),
        ) == Ok::<Seq<u8>, Seq<char>>(x),
    decreases m - t,
{
    lemma_places_grow(d, t, m);
    if t == m {
        assert(x.take(x.len() as int) =~= x);
    } else {
        lemma_places_grow(d, t + 1, m);
        assert(pair_stands(d, t, x));
        lemma_run(d, t, x);
        let p = pair_place(d, t);
        let start = behind(d, t, d[2 * t]);
        assert(last_places(d, t)[d[2 * t] as int] == start);
        assert(x.take(p).push(d[2 * t]) =~= x.take(p + 1));
        assert forall|j: int| 0 <= j < d[2 * t + 1] implies #[trigger] x[p + 1 + j] == x[start
            + j] by {}
        lemma_copy_gives(x, p + 1, start, d[2 * t + 1] as nat);
        lemma_places_updated(d, t);
        lemma_decodes(d, m, x, t + 1);
    }
}

/// Decoding undoes encoding: an RTIME stream whose first pairs encode some data decodes to that
/// data, whatever follows them. Each pair is a byte and the length of a run, which repeats what
/// stands behind the last byte that began a pair and is the same.
pub proof fn rtime_undoes_encoding(d: Seq<u8>, m: int, x: Seq<u8>)
    requires
        encodes(d, m, x),
        x.len() <= 0x100_0000,
    ensures
        codec::rtime_decoded(d, x.len() as int) == Ok::<Seq<u8>, Seq<char>>(x),
{
    lemma_decodes(d, m, x, 0);
    assert(x.take(0) =~= Seq::<u8>::empty());
    assert(last_places(d, 0) =~= Seq::new(256, |i: int| 0));
}

proof fn lemma_copied(out: Seq<u8>, start: int, count: nat)
    requires
        0 <= start < out.len(),
    ensures
        ({
            let x = codec::back_copy(out, start, count);
            &&& x.len() == out.len() + count
            &&& x.take(out.len() as int) == out
            &&& forall|j: int| 0 <= j < count ==> #[trigger] x[out.len() + j] == x[start + j]
        }),
    decreases count,
{
    let x = codec::back_copy(out, start, count);
    if count > 0 {
        let next = out.push(out[start]);
        lemma_copied(next, start + 1, (count - 1) as nat);
        assert(x.take(out.len() as int) =~= x.take(next.len() as int).take(out.len() as int));
        assert(next.take(out.len() as int) =~= out);
        assert forall|j: int| 0 <= j < count implies #[trigger] x[out.len() + j] == x[start + j] by {
            if j == 0 {
                assert(x.take(next.len() as int)[out.len() as int] == out[start]);
                assert(x.take(next.len() as int)[start] == out[start]);
            } else {
                assert(x[next.len() + (j - 1)] == x[start + 1 + (j - 1)]);
            }
        }
    } else {
        assert(x.take(out.len() as int) =~= out);
    }
}

proof fn lemma_decoded(d: Seq<u8>, size: int, t: int, out: Seq<u8>) -> (m: int)
    requires
        0 <= t,
        2 * t <= d.len(),
        out.len() == pair_place(d, t),
        codec::rtime_from(d, size, 2 * t, out, last_places(d, t)) is Ok,
    ensures
        ({
            let x = codec::rtime_from(d, size, 2 * t, out, last_places(d, t))->Ok_0;
            &&& t <= m && 2 * m <= d.len()
            &&& x.len() == size
            &&& pair_place(d, m) == x.len()
            &&& x.len() >= out.len() && x.take(out.len() as int) == out
            &&& forall|u: int| t <= u < m ==> #[trigger] pair_stands(d, u, x)
        }),
    decreases d.len() - 2 * t,
{
    let x = codec::rtime_from(d, size, 2 * t, out, last_places(d, t))->Ok_0;
    if 2 * t + 2 > d.len() || out.len() >= size {
        assert(x.take(out.len() as int) =~= out);
        t
    } else {
        let b = d[2 * t];
        let start = behind(d, t, b);
        lemma_behind(d, t, t);
        assert(last_places(d, t)[b as int] == start);
        let next = codec::back_copy(out.push(b), start, d[2 * t + 1] as nat);
        lemma_copied(out.push(b), start, d[2 * t + 1] as nat);
        lemma_places_updated(d, t);
        let m = lemma_decoded(d, size, t + 1, next);
        assert(x.take(out.len() as int) =~= x.take(next.len() as int).take(out.len() as int));
        assert(next.take(out.len() as int) =~= next.take(out.len() as int + 1).take(out.len() as int));
        assert(out.push(b).take(out.len() as int) =~= out);
        let p = pair_place(d, t);
        assert(x[p] == x.take(next.len() as int)[p]);
        assert(next[p] == next.take(out.len() as int + 1)[p]);
        assert forall|j: int| 0 <= j < d[2 * t + 1] implies #[trigger] x[p + 1 + j] == x[start
            + j] by {
            assert(next[out.push(b).len() + j] == next[start + j]);
            assert(x.take(next.len() as int)[p + 1 + j] == next[p + 1 + j]);
            assert(x.take(next.len() as int)[start + j] == next[start + j]);
        }
        lemma_stands(d, t, x);
        m
    }
}

/// What an RTIME stream decodes to is what its first pairs encode; nothing else is accepted.
pub proof fn rtime_output_is_encoded(d: Seq<u8>, size: int)
    ensures
        codec::rtime_decoded(d, size) matches Ok(x) ==> x.len() == size && size <= 0x100_0000
            && exists|m: int| #[trigger] encodes(d, m, x),
{
    if let Ok(x) = codec::rtime_decoded(d, size) {
        assert(last_places(d, 0) =~= Seq::new(256, |i: int| 0));
        let m = lemma_decoded(d, size, 0, Seq::empty());
        assert(encodes(d, m, x));
    }
}

/// Stored data is kept as it is, and any length but its own is refused.
pub proof fn stored_data_is_kept(d: Seq<u8>, size: int)
    ensures
        codec::decompressed(d, size, 0) is Ok == (size == d.len() && size <= 0x100_0000),
        codec::decompressed(d, size, 0) matches Ok(x) ==> x == d,
{
}

/// Each method has its own decoder: 1 is LZO, 2 is zlib and 4 raw DEFLATE. What the decoder gives
/// is the data, if it has the declared length; no other method is known.
pub proof fn methods_name_decoders(d: Seq<u8>, x: Seq<u8>, kind: u16)
    requires
        x.len() <= 0x100_0000,
    ensures
        lzo::in_bounds(d) && lzo::lzo_decoded(d) == Ok::<Seq<u8>, Seq<char>>(x)
            ==> codec::decompressed(d, x.len() as int, 1) == Ok::<Seq<u8>, Seq<char>>(x),
        codec::zlib_decoded(d, (x.len() + 1) as u64) == Ok::<Seq<u8>, Seq<char>>(x)
            ==> codec::decompressed(d, x.len() as int, 2) == Ok::<Seq<u8>, Seq<char>>(x),
        codec::deflate_decoded(d, (x.len() + 1) as u64) == Ok::<Seq<u8>, Seq<char>>(x)
            ==> codec::decompressed(d, x.len() as int, 4) == Ok::<Seq<u8>, Seq<char>>(x),
        codec::decompressed(d, x.len() as int, kind) == Ok::<Seq<u8>, Seq<char>>(x) ==> {
            ||| kind == 0 && d == x
            ||| kind == 1 && lzo::lzo_decoded(d) == Ok::<Seq<u8>, Seq<char>>(x)
            ||| kind == 2 && codec::zlib_decoded(d, (x.len() + 1) as u64) == Ok::<
                Seq<u8>,
                Seq<char>,
            >(x)
            ||| kind == 4 && codec::deflate_decoded(d, (x.len() + 1) as u64) == Ok::<
                Seq<u8>,
                Seq<char>,
            >(x)
        },
{
}

} // verus!
