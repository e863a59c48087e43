//! What a JFFS2 image is read as: which of its bytes count, and what the nodes that count give.

use vstd::prelude::*;
use vstd::utf8::*;

use crate::bytes;
use crate::codec;
use crate::crc;
use crate::jffs2;
use crate::jffs2::ScanModel;
use crate::order;
use crate::paths;
use crate::paths::InodeModel;
use crate::tree;
use crate::tree::DentModel;
use crate::tree_laws;

verus! {

/// The 32-bit little-endian value at offset `o`.
pub open spec fn le(n: Seq<u8>, o: int) -> int {
    bytes::le_value(n.subrange(o, o + 4)) as int
}

/// Four bytes that begin no node.
pub open spec fn is_gap(e: Seq<u8>) -> bool {
    e.len() == 4 && !(e[0] == 0x85 && e[1] == 0x19)
}

/// A node with the bytes that fill it up to a multiple of four.
pub open spec fn is_whole_node(e: Seq<u8>) -> bool {
    &&& e.len() >= 12 && e.len() % 4 == 0
    &&& e[0] == 0x85 && e[1] == 0x19
    &&& 12 <= le(e, 4) <= e.len() < le(e, 4) + 4
}

/// The node itself, without what fills it up.
pub open spec fn node_of(e: Seq<u8>) -> Seq<u8> {
    e.take(le(e, 4))
}

/// The image consists of nodes, and of gaps between them.
pub open spec fn are_pieces(pieces: Seq<Seq<u8>>) -> bool {
    forall|i: int|
        0 <= i < pieces.len() ==> is_gap(#[trigger] pieces[i]) || is_whole_node(pieces[i])
}

/// What a piece adds to what was scanned before it.
pub open spec fn step(e: Seq<u8>, st: ScanModel) -> Result<ScanModel, Seq<char>> {
    if is_gap(e) {
        Ok(st)
    } else {
        jffs2::take_node(node_of(e), bytes::le_value(e.subrange(2, 4)) as u16, st)
    }
}

/// What the pieces add, one after the other.
pub open spec fn scanned(pieces: Seq<Seq<u8>>, st: ScanModel) -> Result<ScanModel, Seq<char>>
    decreases pieces.len(),
{
    if pieces.len() == 0 {
        Ok(st)
    } else {
        match step(pieces[0], st) {
            Err(e) => Err(e),
            Ok(next) => scanned(pieces.skip(1), next),
        }
    }
}

proof fn lemma_short_image(pieces: Seq<Seq<u8>>, st: ScanModel)
    requires
        are_pieces(pieces),
        order::image_of(pieces).len() < 12,
    ensures
        scanned(pieces, st) == Ok::<ScanModel, Seq<char>>(st),
    decreases pieces.len(),
{
    if pieces.len() > 0 {
        assert(is_gap(pieces[0]) || is_whole_node(pieces[0]));
        let rest = pieces.skip(1);
        assert forall|i: int| 0 <= i < rest.len() implies is_gap(#[trigger] rest[i])
            || is_whole_node(rest[i]) by {
            assert(rest[i] == pieces[i + 1]);
        }
        lemma_short_image(rest, st);
    }
}

proof fn lemma_scan_pieces(front: Seq<u8>, pieces: Seq<Seq<u8>>, st: ScanModel)
    requires
        are_pieces(pieces),
        front.len() + order::image_of(pieces).len() <= usize::MAX,
    ensures
        jffs2::scan_from(front + order::image_of(pieces), front.len() as int, st) == scanned(
            pieces,
            st,
        ),
    decreases pieces.len(),
{
    let d = front + order::image_of(pieces);
    let off = front.len() as int;
    if off + 12 > d.len() {
        lemma_short_image(pieces, st);
    } else {
        let e = pieces[0];
        let rest = pieces.skip(1);
        assert(is_gap(e) || is_whole_node(e));
        assert forall|i: int| 0 <= i < rest.len() implies is_gap(#[trigger] rest[i])
            || is_whole_node(rest[i]) by {
            assert(rest[i] == pieces[i + 1]);
        }
        assert(d =~= (front + e) + order::image_of(rest));
        let two = d.subrange(off, off + 2);
        assert(two[0] == e[0] && two[1] == e[1]);
        bytes::lemma_le2(two);
        if is_gap(e) {
            lemma_scan_pieces(front + e, rest, st);
        } else {
            let len = le(e, 4);
            bytes::lemma_le4(e.subrange(4, 8));
            assert(d.subrange(off + 2, off + 4) =~= e.subrange(2, 4));
            assert(d.subrange(off + 4, off + 8) =~= e.subrange(4, 8));
            assert(d.subrange(off, off + len) =~= e.take(len));
            assert(jffs2::padded(len) == e.len());
            if let Ok(next) = step(e, st) {
                lemma_scan_pieces(front + e, rest, next);
            }
        }
    }
}

proof fn lemma_scan_image(pieces: Seq<Seq<u8>>)
    requires
        are_pieces(pieces),
        order::image_of(pieces).len() <= usize::MAX,
    ensures
        jffs2::scan_from(order::image_of(pieces), 0, jffs2::empty_scan()) == scanned(
            pieces,
            jffs2::empty_scan(),
        ),
{
    lemma_scan_pieces(Seq::empty(), pieces, jffs2::empty_scan());
    assert(Seq::<u8>::empty() + order::image_of(pieces) =~= order::image_of(pieces));
}

/// A node that was marked obsolete: the bit that tells an accurate node is cleared.
pub open spec fn is_obsolete(e: Seq<u8>) -> bool {
    is_whole_node(e) && (e[3] as int / 32) % 2 == 0
}

/// The pieces that count: gaps and obsolete nodes are left out.
pub open spec fn that_count(pieces: Seq<Seq<u8>>) -> Seq<Seq<u8>>
    decreases pieces.len(),
{
    if pieces.len() == 0 {
        Seq::empty()
    } else if is_gap(pieces[0]) || is_obsolete(pieces[0]) {
        that_count(pieces.skip(1))
    } else {
        seq![pieces[0]] + that_count(pieces.skip(1))
    }
}

proof fn lemma_obsolete(e: Seq<u8>, st: ScanModel)
    requires
        is_obsolete(e),
    ensures
        step(e, st) == Ok::<ScanModel, Seq<char>>(st),
{
    let two = e.subrange(2, 4);
    bytes::lemma_le2(two);
    let kind = bytes::le_value(two) as u16;
    assert(two[1] == e[3]);
    assert(kind / 256 == e[3]);
    assert((kind / 256 / 32) % 2 == 0 ==> kind & 0x2000 == 0) by (bit_vector);
}

proof fn lemma_that_count(pieces: Seq<Seq<u8>>, st: ScanModel)
    requires
        are_pieces(pieces),
    ensures
        scanned(that_count(pieces), st) == scanned(pieces, st),
        are_pieces(that_count(pieces)),
        order::image_of(that_count(pieces)).len() <= order::image_of(pieces).len(),
    decreases pieces.len(),
{
    if pieces.len() > 0 {
        let rest = pieces.skip(1);
        assert forall|i: int| 0 <= i < rest.len() implies is_gap(#[trigger] rest[i])
            || is_whole_node(rest[i]) by {
            assert(rest[i] == pieces[i + 1]);
        }
        let kept = that_count(rest);
        assert(is_gap(pieces[0]) || is_whole_node(pieces[0]));
        if is_gap(pieces[0]) || is_obsolete(pieces[0]) {
            if !is_gap(pieces[0]) {
                lemma_obsolete(pieces[0], st);
            }
            lemma_that_count(rest, st);
        } else {
            lemma_that_count(rest, st);
            let all = seq![pieces[0]] + kept;
            assert(all.skip(1) =~= kept);
            assert forall|i: int| 0 <= i < all.len() implies is_gap(#[trigger] all[i])
                || is_whole_node(all[i]) by {
                if i > 0 {
                    assert(all[i] == kept[i - 1]);
                }
            }
            if let Ok(next) = step(pieces[0], st) {
                lemma_that_count(rest, next);
            }
        }
    }
}

/// Gaps and obsolete nodes change nothing: an image gives what it gives without them.
pub proof fn gaps_change_nothing(pieces: Seq<Seq<u8>>)
    requires
        are_pieces(pieces),
        order::image_of(pieces).len() <= usize::MAX,
    ensures
        jffs2::scan_from(order::image_of(pieces), 0, jffs2::empty_scan()) == jffs2::scan_from(
            order::image_of(that_count(pieces)),
            0,
            jffs2::empty_scan(),
        ),
        jffs2::image_files(order::image_of(pieces)) == jffs2::image_files(
            order::image_of(that_count(pieces)),
        ),
{
    lemma_that_count(pieces, jffs2::empty_scan());
    lemma_scan_image(pieces);
    lemma_scan_image(that_count(pieces));
}

/// Where no node begins, the scan goes on four bytes later.
pub proof fn scan_passes_gaps(d: Seq<u8>, off: int, st: ScanModel)
    requires
        0 <= off,
        off + 12 <= d.len(),
        !(d[off] == 0x85 && d[off + 1] == 0x19),
    ensures
        jffs2::scan_from(d, off, st) == jffs2::scan_from(d, off + 4, st),
{
    bytes::lemma_le2(d.subrange(off, off + 2));
}

proof fn lemma_image_concat(a: Seq<Seq<u8>>, b: Seq<Seq<u8>>)
    ensures
        order::image_of(a + b) == order::image_of(a) + order::image_of(b),
    decreases a.len(),
{
    if a.len() == 0 {
        assert(a + b =~= b);
        assert(order::image_of(a) + order::image_of(b) =~= order::image_of(b));
    } else {
        assert((a + b).skip(1) =~= a.skip(1) + b);
        lemma_image_concat(a.skip(1), b);
        assert(order::image_of(a + b) =~= order::image_of(a) + order::image_of(b));
    }
}

proof fn lemma_erased_pieces(k: nat)
    ensures
        order::image_of(erased_words(k)) == bytes::repeated(4 * k, 0xff),
    decreases k,
{
    if k > 0 {
        assert(erased_words(k).skip(1) =~= erased_words((k - 1) as nat));
        lemma_erased_pieces((k - 1) as nat);
    }
    assert(order::image_of(erased_words(k)) =~= bytes::repeated(4 * k, 0xff));
}

/// Erased space, four bytes at a time.
pub open spec fn erased_words(k: nat) -> Seq<Seq<u8>> {
    Seq::new(k, |i: int| bytes::repeated(4, 0xff))
}

proof fn lemma_count_concat(a: Seq<Seq<u8>>, b: Seq<Seq<u8>>)
    ensures
        that_count(a + b) == that_count(a) + that_count(b),
    decreases a.len(),
{
    if a.len() == 0 {
        assert(a + b =~= b);
        assert(that_count(a) + that_count(b) =~= that_count(b));
    } else {
        assert((a + b).skip(1) =~= a.skip(1) + b);
        lemma_count_concat(a.skip(1), b);
        assert(that_count(a + b) =~= that_count(a) + that_count(b));
    }
}

proof fn lemma_no_erased_counts(k: nat)
    ensures
        that_count(erased_words(k)) == Seq::<Seq<u8>>::empty(),
    decreases k,
{
    if k > 0 {
        assert(erased_words(k).skip(1) =~= erased_words((k - 1) as nat));
        lemma_no_erased_counts((k - 1) as nat);
    }
}

/// Erased space between nodes changes nothing: with any number of erased words between them, the
/// nodes in front and those behind give what they give side by side.
pub proof fn erased_space_changes_nothing(a: Seq<Seq<u8>>, k: nat, b: Seq<Seq<u8>>)
    requires
        are_pieces(a),
        are_pieces(b),
        (order::image_of(a) + bytes::repeated(4 * k, 0xff) + order::image_of(b)).len()
            <= usize::MAX,
    ensures
        jffs2::image_files(
            order::image_of(a) + bytes::repeated(4 * k, 0xff) + order::image_of(b),
        ) == jffs2::image_files(order::image_of(a) + order::image_of(b)),
{
    let gap = erased_words(k);
    let with = a + gap + b;
    let without = a + b;
    lemma_erased_pieces(k);
    lemma_image_concat(a, gap);
    lemma_image_concat(a + gap, b);
    lemma_image_concat(a, b);
    lemma_count_concat(a, gap);
    lemma_count_concat(a + gap, b);
    lemma_count_concat(a, b);
    lemma_no_erased_counts(k);
    assert(that_count(a) + Seq::<Seq<u8>>::empty() =~= that_count(a));
    assert forall|i: int| 0 <= i < with.len() implies is_gap(#[trigger] with[i]) || is_whole_node(
        with[i],
    ) by {
        if i < a.len() {
            assert(with[i] == a[i]);
        } else if i < a.len() + k {
            assert(with[i] == gap[i - a.len()]);
        } else {
            assert(with[i] == b[i - a.len() - k]);
        }
    }
    assert forall|i: int| 0 <= i < without.len() implies is_gap(#[trigger] without[i])
        || is_whole_node(without[i]) by {
        if i < a.len() {
            assert(without[i] == a[i]);
        } else {
            assert(without[i] == b[i - a.len()]);
        }
    }
    gaps_change_nothing(with);
    gaps_change_nothing(without);
}

/// An accurate node of the given kind, whose header has its checksum.
pub open spec fn is_accurate(e: Seq<u8>, kind: u8) -> bool {
    &&& is_whole_node(e)
    &&& e[2] == kind && e[3] == 0xe0
    &&& crc::register(e.take(8), 0) == le(e, 8)
}

/// An intact directory entry node that gives the entry `d`: the parent at offset 12, the version
/// at 16, the inode at 20, the length of the name at 28, and the name at 40.
pub open spec fn is_entry_node(e: Seq<u8>, d: DentModel) -> bool {
    let raw = encode_utf8(d.name);
    &&& is_accurate(e, 1)
    &&& tree_laws::is_entry_name(d.name)
    &&& raw.len() <= 255
    &&& 40 + raw.len() <= le(e, 4)
    &&& d.parent == le(e, 12) && d.version == le(e, 16) && d.ino == le(e, 20)
    &&& e[28] == raw.len()
    &&& e.subrange(40, 40 + raw.len() as int) == raw
    &&& crc::register(e.take(32), 0) == le(e, 32)
    &&& crc::register(raw, 0) == le(e, 36)
}

/// An intact inode node of the inode `ino`: its data begins at offset 68 and has the length that
/// stands at 48.
pub open spec fn is_data_node(e: Seq<u8>, ino: u64) -> bool {
    &&& is_accurate(e, 2)
    &&& 68 + le(e, 48) <= le(e, 4)
    &&& ino == le(e, 12)
    &&& crc::register(e.take(60), 0) == le(e, 64)
    &&& crc::register(e.subrange(68, 68 + le(e, 48)), 0) == le(e, 60)
}

/// An intact node of a kind that holds neither an entry nor data.
pub open spec fn is_other_node(e: Seq<u8>) -> bool {
    &&& is_whole_node(e)
    &&& !(e[3] == 0xe0 && (e[2] == 1 || e[2] == 2))
    &&& crc::register(e.take(8), 0) == le(e, 8)
}

proof fn lemma_kind(e: Seq<u8>)
    requires
        is_whole_node(e),
    ensures
        bytes::le_value(e.subrange(2, 4)) as u16 == e[2] + 256 * e[3],
        bytes::le_value(e.subrange(2, 4)) as u16 & 0x2000 == 0 <==> (e[3] as int / 32) % 2 == 0,
{
    let two = e.subrange(2, 4);
    bytes::lemma_le2(two);
    let kind = bytes::le_value(two) as u16;
    assert(kind / 256 == e[3]);
    assert((kind / 256 / 32) % 2 == 0 <==> kind & 0x2000 == 0) by (bit_vector);
}

proof fn lemma_word(e: Seq<u8>, o: int)
    requires
        is_whole_node(e),
        0 <= o,
        o + 4 <= le(e, 4),
    ensures
        jffs2::word(node_of(e), o) == le(e, o),
{
    bytes::lemma_le4(e.subrange(o, o + 4));
    assert(node_of(e).subrange(o, o + 4) =~= e.subrange(o, o + 4));
}

proof fn lemma_entry_step(e: Seq<u8>, d: DentModel, st: ScanModel)
    requires
        is_entry_node(e, d),
        le(e, 4) <= usize::MAX,
    ensures
        step(e, st) == Ok::<ScanModel, Seq<char>>(
            ScanModel { dents: tree::with_newer(st.dents, d), ..st },
        ),
{
    let n = node_of(e);
    let raw = encode_utf8(d.name);
    lemma_kind(e);
    lemma_word(e, 8);
    lemma_word(e, 12);
    lemma_word(e, 16);
    lemma_word(e, 20);
    lemma_word(e, 32);
    lemma_word(e, 36);
    assert(n.take(8) =~= e.take(8));
    assert(n.take(32) =~= e.take(32));
    assert(n.subrange(40, 40 + raw.len() as int) =~= e.subrange(40, 40 + raw.len() as int));
    encode_utf8_valid_utf8(d.name);
    encode_utf8_decode_utf8(d.name);
    assert(tree::entry_name(raw) == Ok::<Seq<char>, Seq<char>>(d.name));
}

proof fn lemma_data_step(e: Seq<u8>, ino: u64, st: ScanModel)
    requires
        is_data_node(e, ino),
        le(e, 4) <= usize::MAX,
    ensures
        step(e, st) == Ok::<ScanModel, Seq<char>>(
            ScanModel {
                inodes: st.inodes.insert(
                    ino,
                    jffs2::with_version(jffs2::nodes_of(st.inodes, ino), node_of(e)),
                ),
                ..st
            },
        ),
{
    let n = node_of(e);
    lemma_kind(e);
    lemma_word(e, 8);
    lemma_word(e, 12);
    lemma_word(e, 48);
    lemma_word(e, 60);
    lemma_word(e, 64);
    assert(n.take(8) =~= e.take(8));
    assert(n.take(60) =~= e.take(60));
    assert(n.subrange(68, 68 + le(e, 48)) =~= e.subrange(68, 68 + le(e, 48)));
}

proof fn lemma_other_step(e: Seq<u8>, st: ScanModel)
    requires
        is_other_node(e),
    ensures
        step(e, st) == Ok::<ScanModel, Seq<char>>(st),
{
    lemma_kind(e);
    lemma_word(e, 8);
    assert(node_of(e).take(8) =~= e.take(8));
}

/// All pieces are intact: gaps, obsolete nodes, directory entries, inode nodes and other nodes.
pub open spec fn is_intact(e: Seq<u8>) -> bool {
    ||| is_gap(e)
    ||| is_obsolete(e)
    ||| is_other_node(e)
    ||| exists|d: DentModel| is_entry_node(e, d)
    ||| exists|ino: u64| is_data_node(e, ino)
}

/// What an intact piece adds.
proof fn lemma_intact_step(e: Seq<u8>, st: ScanModel)
    requires
        is_intact(e),
        e.len() <= usize::MAX,
        order::in_order(st),
    ensures
        step(e, st) is Ok,
        order::in_order(step(e, st)->Ok_0),
        step(e, st)->Ok_0.damaged == st.damaged,
{
    if is_gap(e) {
    } else if is_obsolete(e) {
        lemma_obsolete(e, st);
    } else if is_other_node(e) {
        lemma_other_step(e, st);
    } else if exists|d: DentModel| is_entry_node(e, d) {
        let d = choose|d: DentModel| is_entry_node(e, d);
        lemma_entry_step(e, d, st);
        tree::newest_entry_stands(st.dents, d, d);
    } else {
        let ino = choose|ino: u64| is_data_node(e, ino);
        lemma_data_step(e, ino, st);
        jffs2::with_version_keeps_order(jffs2::nodes_of(st.inodes, ino), node_of(e));
    }
}

/// A node whose header, or whose contents, fail their checksum.
pub open spec fn is_damaged(e: Seq<u8>) -> bool {
    &&& is_whole_node(e)
    &&& (e[3] as int / 32) % 2 == 1
    &&& {
        ||| crc::register(e.take(8), 0) != le(e, 8)
        ||| e[2] == 1 && e[3] == 0xe0 && le(e, 4) >= 36 && crc::register(e.take(32), 0) != le(
            e,
            32,
        )
        ||| e[2] == 1 && e[3] == 0xe0 && le(e, 4) >= 40 + e[28] && crc::register(
            e.subrange(40, 40 + e[28]),
            0,
        ) != le(e, 36)
        ||| e[2] == 2 && e[3] == 0xe0 && le(e, 4) >= 68 && crc::register(e.take(60), 0) != le(
            e,
            64,
        )
        ||| e[2] == 2 && e[3] == 0xe0 && le(e, 4) >= 68 + le(e, 48) && crc::register(
            e.subrange(68, 68 + le(e, 48)),
            0,
        ) != le(e, 60)
    }
}

proof fn lemma_damaged_step(e: Seq<u8>, st: ScanModel)
    requires
        is_damaged(e),
        e.len() <= usize::MAX,
    ensures
        step(e, st) == Ok::<ScanModel, Seq<char>>(ScanModel { damaged: true, ..st }),
{
    let n = node_of(e);
    lemma_kind(e);
    lemma_word(e, 8);
    assert(n.take(8) =~= e.take(8));
    if crc::register(e.take(8), 0) == le(e, 8) {
        if e[2] == 1 {
            lemma_word(e, 32);
            assert(n.take(32) =~= e.take(32));
            if le(e, 4) >= 40 + e[28] {
                lemma_word(e, 36);
                assert(n.subrange(40, 40 + e[28]) =~= e.subrange(40, 40 + e[28]));
            }
        } else {
            bytes::lemma_le4(e.subrange(48, 52));
            lemma_word(e, 64);
            lemma_word(e, 48);
            lemma_word(e, 60);
            assert(n.take(60) =~= e.take(60));
            if le(e, 4) >= 68 + le(e, 48) {
                assert(n.subrange(68, 68 + le(e, 48)) =~= e.subrange(68, 68 + le(e, 48)));
            }
        }
    }
}

/// Every piece is intact or damaged; there is nothing else that could refuse the image.
pub open spec fn are_sound(pieces: Seq<Seq<u8>>) -> bool {
    forall|i: int|
        0 <= i < pieces.len() ==> is_intact(#[trigger] pieces[i]) || is_damaged(pieces[i])
}

proof fn lemma_piece(e: Seq<u8>)
    requires
        is_intact(e) || is_damaged(e),
    ensures
        is_gap(e) || is_whole_node(e),
{
}

proof fn lemma_rest(pieces: Seq<Seq<u8>>)
    requires
        are_sound(pieces),
    ensures
        are_pieces(pieces),
        pieces.len() > 0 ==> are_sound(pieces.skip(1)),
        pieces.len() > 0 ==> is_intact(pieces[0]) || is_damaged(pieces[0]),
        pieces.len() > 0 ==> pieces[0].len() <= order::image_of(pieces).len(),
        pieces.len() > 0 ==> order::image_of(pieces.skip(1)).len() <= order::image_of(pieces).len(),
{
    assert forall|i: int| 0 <= i < pieces.len() implies is_gap(#[trigger] pieces[i])
        || is_whole_node(pieces[i]) by {
        lemma_piece(pieces[i]);
    }
    if pieces.len() > 0 {
        let rest = pieces.skip(1);
        assert forall|i: int| 0 <= i < rest.len() implies is_intact(#[trigger] rest[i])
            || is_damaged(rest[i]) by {
            assert(rest[i] == pieces[i + 1]);
        }
        assert(is_intact(pieces[0]) || is_damaged(pieces[0]));
    }
}

proof fn lemma_sound_step(e: Seq<u8>, st: ScanModel)
    requires
        is_intact(e) || is_damaged(e),
        e.len() <= usize::MAX,
        order::in_order(st),
    ensures
        step(e, st) is Ok,
        order::in_order(step(e, st)->Ok_0),
        step(e, st)->Ok_0.damaged == (st.damaged || is_damaged(e)),
{
    if is_damaged(e) {
        lemma_damaged_step(e, st);
    } else {
        lemma_intact_step(e, st);
    }
}

proof fn lemma_sound_scan(pieces: Seq<Seq<u8>>, st: ScanModel)
    requires
        are_sound(pieces),
        order::image_of(pieces).len() <= usize::MAX,
        order::in_order(st),
    ensures
        scanned(pieces, st) is Ok,
        order::in_order(scanned(pieces, st)->Ok_0),
        scanned(pieces, st)->Ok_0.damaged == (st.damaged || exists|i: int|
            0 <= i < pieces.len() && is_damaged(#[trigger] pieces[i])),
    decreases pieces.len(),
{
    if pieces.len() > 0 {
        lemma_rest(pieces);
        lemma_sound_step(pieces[0], st);
        let next = step(pieces[0], st)->Ok_0;
        let rest = pieces.skip(1);
        lemma_sound_scan(rest, next);
        if exists|i: int| 0 <= i < rest.len() && is_damaged(#[trigger] rest[i]) {
            let i = choose|i: int| 0 <= i < rest.len() && is_damaged(#[trigger] rest[i]);
            assert(is_damaged(pieces[i + 1]));
        }
        if exists|i: int| 0 <= i < pieces.len() && is_damaged(#[trigger] pieces[i]) {
            let i = choose|i: int| 0 <= i < pieces.len() && is_damaged(#[trigger] pieces[i]);
            if i > 0 {
                assert(rest[i - 1] == pieces[i]);
            }
        }
    }
}

/// An image of sound pieces is scanned to its end, and the warning says whether one of them is
/// damaged.
pub proof fn damage_alone_warns(pieces: Seq<Seq<u8>>)
    requires
        are_sound(pieces),
        order::image_of(pieces).len() <= usize::MAX,
    ensures
        ({
            let r = jffs2::scan_from(order::image_of(pieces), 0, jffs2::empty_scan());
            &&& r matches Ok(st) && st.damaged == exists|i: int|
                0 <= i < pieces.len() && is_damaged(#[trigger] pieces[i])
            &&& jffs2::image_files(order::image_of(pieces)) matches Ok((_, warning)) ==> warning
                == exists|i: int| 0 <= i < pieces.len() && is_damaged(#[trigger] pieces[i])
        }),
{
    lemma_rest(pieces);
    lemma_scan_image(pieces);
    lemma_sound_scan(pieces, jffs2::empty_scan());
}

/// What an entry that was there before becomes: it stays, or one of a later version of the same
/// place takes it over.
proof fn lemma_entry_after(e: Seq<u8>, st: ScanModel, q: DentModel)
    requires
        is_intact(e) || is_damaged(e),
        e.len() <= usize::MAX,
        order::in_order(st),
    ensures
        ({
            let next = step(e, st)->Ok_0;
            &&& is_entry_node(e, q) ==> tree::entry_at(next.dents, q) is Some && tree::entry_at(
                next.dents,
                q,
            )->0.version >= q.version
            &&& tree::entry_at(st.dents, q) is Some ==> tree::entry_at(next.dents, q) is Some
                && tree::entry_at(next.dents, q)->0.version >= tree::entry_at(
                st.dents,
                q,
            )->0.version
            &&& tree::entry_at(next.dents, q) == tree::entry_at(st.dents, q) || (tree::entry_at(
                next.dents,
                q,
            ) is Some && is_entry_node(e, tree::entry_at(next.dents, q)->0))
        }),
{
    if is_damaged(e) {
        lemma_damaged_step(e, st);
        if is_entry_node(e, q) {
            lemma_entry_step(e, q, st);
        }
    } else if exists|d: DentModel| is_entry_node(e, d) {
        let d = choose|d: DentModel| is_entry_node(e, d);
        lemma_entry_step(e, d, st);
        if is_entry_node(e, q) {
            encode_utf8_decode_utf8(d.name);
            encode_utf8_decode_utf8(q.name);
            assert(d == q);
        }
        tree::newest_entry_stands(st.dents, d, q);
        if tree::same_place(q, d) {
            tree::lemma_entry_by_place(st.dents, q, d);
            tree::lemma_entry_by_place(tree::with_newer(st.dents, d), q, d);
        }
    } else {
        lemma_intact_step(e, st);
        if is_gap(e) {
        } else if is_obsolete(e) {
            lemma_obsolete(e, st);
        } else if is_other_node(e) {
            lemma_other_step(e, st);
        } else {
            let ino = choose|ino: u64| is_data_node(e, ino);
            lemma_data_step(e, ino, st);
        }
    }
}

proof fn lemma_entries(pieces: Seq<Seq<u8>>, st: ScanModel, q: DentModel)
    requires
        are_sound(pieces),
        order::image_of(pieces).len() <= usize::MAX,
        order::in_order(st),
    ensures
        ({
            let found = tree::entry_at(scanned(pieces, st)->Ok_0.dents, q);
            &&& tree::entry_at(st.dents, q) is Some ==> found is Some && found->0.version
                >= tree::entry_at(st.dents, q)->0.version
            &&& forall|i: int|
                0 <= i < pieces.len() && #[trigger] is_entry_node(pieces[i], q) ==> found is Some
                    && found->0.version >= q.version
            &&& found == tree::entry_at(st.dents, q) || (found is Some && exists|i: int|
                0 <= i < pieces.len() && #[trigger] is_entry_node(pieces[i], found->0))
        }),
    decreases pieces.len(),
{
    if pieces.len() > 0 {
        lemma_rest(pieces);
        lemma_sound_step(pieces[0], st);
        lemma_entry_after(pieces[0], st, q);
        let next = step(pieces[0], st)->Ok_0;
        let rest = pieces.skip(1);
        lemma_entries(rest, next, q);
        let found = tree::entry_at(scanned(rest, next)->Ok_0.dents, q);
        assert forall|i: int|
            0 <= i < pieces.len() && #[trigger] is_entry_node(pieces[i], q) implies found is Some
            && found->0.version >= q.version by {
            if i > 0 {
                assert(is_entry_node(rest[i - 1], q));
            }
        }
        if found != tree::entry_at(st.dents, q) {
            if found == tree::entry_at(next.dents, q) {
                assert(is_entry_node(pieces[0], found->0));
            } else {
                let i = choose|i: int|
                    0 <= i < rest.len() && #[trigger] is_entry_node(rest[i], found->0);
                assert(is_entry_node(pieces[i + 1], found->0));
            }
        }
    }
}

/// Of the intact nodes that give an entry, the newest counts: where a node gives `q`, the image
/// has an entry of that name in that directory, of no earlier version, and one that a node gives.
/// What no node gives the image does not have.
pub proof fn newest_entry_node_counts(pieces: Seq<Seq<u8>>, q: DentModel)
    requires
        are_sound(pieces),
        order::image_of(pieces).len() <= usize::MAX,
    ensures
        jffs2::scan_from(order::image_of(pieces), 0, jffs2::empty_scan()) matches Ok(st) && {
            let found = tree::entry_at(st.dents, q);
            &&& forall|i: int|
                0 <= i < pieces.len() && #[trigger] is_entry_node(pieces[i], q) ==> found is Some
                    && found->0.version >= q.version
            &&& found is Some ==> tree::same_place(found->0, q) && exists|i: int|
                0 <= i < pieces.len() && #[trigger] is_entry_node(pieces[i], found->0)
        },
{
    lemma_rest(pieces);
    lemma_scan_image(pieces);
    lemma_sound_scan(pieces, jffs2::empty_scan());
    lemma_entries(pieces, jffs2::empty_scan(), q);
    assert(tree::entry_at(jffs2::empty_scan().dents, q) is None);
}

proof fn lemma_added(s: Seq<Seq<u8>>, n: Seq<u8>, x: Seq<u8>)
    ensures
        jffs2::with_version(s, n).contains(x) == (s.contains(x) || x == n),
{
    let t = jffs2::with_version(s, n);
    let k = jffs2::version_rank(s, 0, n);
    jffs2::lemma_version_rank(s, 0, n);
    assert(t[k] == n);
    if s.contains(x) {
        let i = choose|i: int| 0 <= i < s.len() && s[i] == x;
        assert(t[if i < k { i } else { i + 1 }] == x);
    }
    if t.contains(x) {
        let j = choose|j: int| 0 <= j < t.len() && t[j] == x;
        if j != k {
            assert(s[if j < k { j } else { j - 1 }] == x);
        }
    }
}

proof fn lemma_data_after(e: Seq<u8>, st: ScanModel, ino: u64, x: Seq<u8>)
    requires
        is_intact(e) || is_damaged(e),
        e.len() <= usize::MAX,
        order::in_order(st),
    ensures
        jffs2::nodes_of(step(e, st)->Ok_0.inodes, ino).contains(x) == (jffs2::nodes_of(
            st.inodes,
            ino,
        ).contains(x) || (is_data_node(e, ino) && node_of(e) == x)),
{
    if is_damaged(e) {
        lemma_damaged_step(e, st);
        if is_data_node(e, ino) {
            lemma_data_step(e, ino, st);
        }
    } else if exists|i: u64| is_data_node(e, i) {
        let i = choose|i: u64| is_data_node(e, i);
        lemma_data_step(e, i, st);
        lemma_added(jffs2::nodes_of(st.inodes, i), node_of(e), x);
    } else {
        lemma_intact_step(e, st);
        if is_gap(e) {
        } else if is_obsolete(e) {
            lemma_obsolete(e, st);
        } else if is_other_node(e) {
            lemma_other_step(e, st);
        } else {
            let d = choose|d: DentModel| is_entry_node(e, d);
            lemma_entry_step(e, d, st);
        }
    }
}

proof fn lemma_data(pieces: Seq<Seq<u8>>, st: ScanModel, ino: u64, x: Seq<u8>)
    requires
        are_sound(pieces),
        order::image_of(pieces).len() <= usize::MAX,
        order::in_order(st),
    ensures
        jffs2::nodes_of(scanned(pieces, st)->Ok_0.inodes, ino).contains(x) == (jffs2::nodes_of(
            st.inodes,
            ino,
        ).contains(x) || exists|i: int|
            0 <= i < pieces.len() && #[trigger] is_data_node(pieces[i], ino) && node_of(pieces[i])
                == x),
    decreases pieces.len(),
{
    if pieces.len() > 0 {
        lemma_rest(pieces);
        lemma_sound_step(pieces[0], st);
        lemma_data_after(pieces[0], st, ino, x);
        let next = step(pieces[0], st)->Ok_0;
        let rest = pieces.skip(1);
        lemma_data(rest, next, ino, x);
        if exists|i: int|
            0 <= i < rest.len() && #[trigger] is_data_node(rest[i], ino) && node_of(rest[i]) == x {
            let i = choose|i: int|
                0 <= i < rest.len() && #[trigger] is_data_node(rest[i], ino) && node_of(rest[i])
                    == x;
            assert(is_data_node(pieces[i + 1], ino));
        }
        if exists|i: int|
            0 <= i < pieces.len() && #[trigger] is_data_node(pieces[i], ino) && node_of(pieces[i])
                == x {
            let i = choose|i: int|
                0 <= i < pieces.len() && #[trigger] is_data_node(pieces[i], ino) && node_of(
                    pieces[i],
                ) == x;
            if i > 0 {
                assert(is_data_node(rest[i - 1], ino));
            }
        }
    }
}

/// The nodes of an inode are exactly its intact inode nodes in the image, in the order of their
/// versions.
pub proof fn intact_data_nodes_count(pieces: Seq<Seq<u8>>, ino: u64, x: Seq<u8>)
    requires
        are_sound(pieces),
        order::image_of(pieces).len() <= usize::MAX,
    ensures
        jffs2::scan_from(order::image_of(pieces), 0, jffs2::empty_scan()) matches Ok(st) && {
            let nodes = jffs2::nodes_of(st.inodes, ino);
            &&& nodes.contains(x) <==> exists|i: int|
                0 <= i < pieces.len() && #[trigger] is_data_node(pieces[i], ino) && node_of(
                    pieces[i],
                ) == x
            &&& forall|a: int, b: int|
                0 <= a < b < nodes.len() ==> le(#[trigger] nodes[a], 16) <= le(
                    #[trigger] nodes[b],
                    16,
                )
        },
{
    let st = scanned(pieces, jffs2::empty_scan())->Ok_0;
    lemma_rest(pieces);
    lemma_scan_image(pieces);
    lemma_sound_scan(pieces, jffs2::empty_scan());
    lemma_data(pieces, jffs2::empty_scan(), ino, x);
    assert(jffs2::nodes_of(jffs2::empty_scan().inodes, ino) =~= Seq::<Seq<u8>>::empty());
    let nodes = jffs2::nodes_of(st.inodes, ino);
    assert forall|a: int, b: int| 0 <= a < b < nodes.len() implies le(#[trigger] nodes[a], 16)
        <= le(#[trigger] nodes[b], 16) by {
        lemma_data(pieces, jffs2::empty_scan(), ino, nodes[a]);
        lemma_data(pieces, jffs2::empty_scan(), ino, nodes[b]);
        assert(nodes.contains(nodes[a]));
        assert(nodes.contains(nodes[b]));
        lemma_version_word(nodes[a]);
        lemma_version_word(nodes[b]);
        assert(jffs2::version(nodes[a]) <= jffs2::version(nodes[b]));
    }
}

proof fn lemma_version_word(n: Seq<u8>)
    requires
        exists|e: Seq<u8>, ino: u64| #[trigger] is_data_node(e, ino) && node_of(e) == n,
    ensures
        jffs2::version(n) == le(n, 16),
{
    let (e, ino) = choose|e: Seq<u8>, ino: u64| #[trigger]
        is_data_node(e, ino) && node_of(e) == n;
    lemma_whole_word(e);
    bytes::lemma_le4(n.subrange(16, 20));
}

proof fn lemma_whole_word(e: Seq<u8>)
    requires
        is_accurate(e, 2),
        68 + le(e, 48) <= le(e, 4),
    ensures
        node_of(e).len() >= 68,
{
    bytes::lemma_le4(e.subrange(48, 52));
}

/// The node writes the byte at `pos` of its file: its data begins at the offset that stands at 44.
pub open spec fn writes(n: Seq<u8>, pos: int) -> bool {
    jffs2::node_data(n) matches Ok(data) && le(n, 44) <= pos < le(n, 44) + data.len()
}

/// The node is one that a file can be made of.
pub open spec fn has_header(n: Seq<u8>) -> bool {
    68 <= n.len()
}

proof fn lemma_header(n: Seq<u8>)
    requires
        has_header(n),
    ensures
        jffs2::word(n, 28) == le(n, 28),
        jffs2::word(n, 44) == le(n, 44),
        jffs2::word(n, 48) == le(n, 48),
        jffs2::word(n, 52) == le(n, 52),
        jffs2::word(n, 20) == le(n, 20),
{
    bytes::lemma_le4(n.subrange(20, 24));
    bytes::lemma_le4(n.subrange(28, 32));
    bytes::lemma_le4(n.subrange(44, 48));
    bytes::lemma_le4(n.subrange(48, 52));
    bytes::lemma_le4(n.subrange(52, 56));
}

proof fn lemma_one_node(out: Seq<u8>, n: Seq<u8>, pos: int)
    requires
        has_header(n),
        0 <= pos,
        jffs2::node_applied(out, n) is Ok,
    ensures
        ({
            let after = jffs2::node_applied(out, n)->Ok_0;
            &&& after.len() == le(n, 28)
            &&& writes(n, pos) ==> pos < after.len() && after[pos] == jffs2::node_data(
                n,
            )->Ok_0[pos - le(n, 44)]
            &&& pos < after.len() && !writes(n, pos) ==> after[pos] == if pos < out.len() {
                out[pos]
            } else {
                0
            }
        }),
{
    lemma_header(n);
}

proof fn lemma_nodes_behind(s: Seq<Seq<u8>>, i: int, out: Seq<u8>, pos: int)
    requires
        0 <= i <= s.len(),
        forall|j: int| 0 <= j < s.len() ==> has_header(#[trigger] s[j]),
        jffs2::nodes_applied(s, i, out) is Ok,
        0 <= pos,
        i == s.len() ==> pos < out.len(),
        forall|j: int| i <= j < s.len() ==> pos < le(#[trigger] s[j], 28) && !writes(s[j], pos),
    ensures
        ({
            let after = jffs2::nodes_applied(s, i, out)->Ok_0;
            &&& pos < after.len()
            &&& after[pos] == if pos < out.len() {
                out[pos]
            } else {
                0
            }
        }),
    decreases s.len() - i,
{
    if i < s.len() {
        assert(has_header(s[i]));
        lemma_one_node(out, s[i], pos);
        assert(pos < le(s[i], 28) && !writes(s[i], pos));
        lemma_nodes_behind(s, i + 1, jffs2::node_applied(out, s[i])->Ok_0, pos);
    }
}

proof fn lemma_nodes_before(s: Seq<Seq<u8>>, i: int, out: Seq<u8>, k: int) -> (between: Seq<u8>)
    requires
        0 <= i <= k <= s.len(),
        jffs2::nodes_applied(s, i, out) is Ok,
    ensures
        jffs2::nodes_applied(s, i, out) == jffs2::nodes_applied(s, k, between),
        i == k ==> between == out,
    decreases k - i,
{
    if i < k {
        lemma_nodes_before(s, i + 1, jffs2::node_applied(out, s[i])->Ok_0, k)
    } else {
        out
    }
}

/// A file holds what was last written: at each place the data of the last node that writes there,
/// unless a later node cut the file off before that place. What no node wrote, or was cut off
/// since, is zero. The last node gives the size.
pub proof fn file_holds_last_writes(s: Seq<Seq<u8>>, k: int, pos: int)
    requires
        forall|j: int| 0 <= j < s.len() ==> has_header(#[trigger] s[j]),
        0 <= k < s.len(),
        forall|j: int| k < j < s.len() ==> pos < le(#[trigger] s[j], 28) && !writes(s[j], pos),
        0 <= pos < le(s.last(), 28),
    ensures
        jffs2::nodes_applied(s, 0, Seq::empty()) matches Ok(out) ==> {
            &&& out.len() == le(s.last(), 28)
            &&& writes(s[k], pos) ==> out[pos] == jffs2::node_data(s[k])->Ok_0[pos - le(s[k], 44)]
            &&& le(s[k], 28) <= pos ==> out[pos] == 0
            &&& k == 0 && !writes(s[k], pos) ==> out[pos] == 0
        },
{
    if jffs2::nodes_applied(s, 0, Seq::empty()) is Ok {
        let last = lemma_nodes_before(s, 0, Seq::empty(), s.len() - 1);
        assert(has_header(s.last()));
        lemma_one_node(last, s.last(), pos);
        assert(jffs2::nodes_applied(s, s.len() as int, jffs2::node_applied(last, s.last())->Ok_0)
            == Ok::<Seq<u8>, Seq<char>>(jffs2::node_applied(last, s.last())->Ok_0));
        let before = lemma_nodes_before(s, 0, Seq::empty(), k);
        assert(has_header(s[k]));
        lemma_one_node(before, s[k], pos);
        let after = jffs2::node_applied(before, s[k])->Ok_0;
        lemma_nodes_behind(s, k + 1, after, pos);
    }
}

/// A file whose one node stores its data holds that data.
pub proof fn stored_file_is_read(n: Seq<u8>, data: Seq<u8>)
    requires
        data.len() <= 0x100_0000,
        n.len() == 68 + data.len(),
        le(n, 28) == data.len(),
        le(n, 44) == 0,
        le(n, 48) == data.len(),
        le(n, 52) == data.len(),
        n[56] == 0,
        n.skip(68) == data,
    ensures
        jffs2::nodes_applied(seq![n], 0, Seq::empty()) == Ok::<Seq<u8>, Seq<char>>(data),
{
    lemma_header(n);
    assert(n.subrange(68, 68 + data.len() as int) =~= data);
    let s = seq![n];
    let out = jffs2::node_applied(Seq::empty(), n)->Ok_0;
    assert(out =~= data);
    assert(jffs2::nodes_applied(s, 1, out) == Ok::<Seq<u8>, Seq<char>>(out));
    assert(s[0] == n);
}

/// The method at offset 56 of an inode node says how its data is packed: 0 stored, 1 zeros alone,
/// 2 RTIME, 6 zlib and 7 LZO. The packed data stands at 68 and has the length at 48; the length at
/// 52 is the unpacked one.
pub proof fn method_unpacks_data(n: Seq<u8>, x: Seq<u8>)
    requires
        has_header(n),
        68 + le(n, 48) <= n.len(),
        x.len() == le(n, 52),
        x.len() <= 0x100_0000,
    ensures
        ({
            let packed = n.subrange(68, 68 + le(n, 48));
            let r = jffs2::node_data(n);
            let ok = Ok::<Seq<u8>, Seq<char>>(x);
            &&& n[56] == 0 ==> (r == ok <==> packed == x)
            &&& n[56] == 1 ==> (r == ok <==> bytes::all_are(x, 0))
            &&& n[56] == 2 ==> r == codec::rtime_decoded(packed, x.len() as int)
            &&& n[56] == 6 ==> r == codec::decompressed(packed, x.len() as int, 2)
            &&& n[56] == 7 ==> r == codec::decompressed(packed, x.len() as int, 1)
            &&& n[56] != 0 && n[56] != 1 && n[56] != 2 && n[56] != 6 && n[56] != 7 ==> r is Err
        }),
{
    lemma_header(n);
    if bytes::all_are(x, 0) {
        assert(x =~= bytes::repeated(x.len(), 0));
    }
}

/// An inode is a regular file where the mode at offset 20 of its newest node says so, and its size
/// is the one at 28; every other inode is none. A file is read from all of its nodes, and must
/// have that size.
pub proof fn newest_node_tells_files(
    st: ScanModel,
    ino: u64,
    n: Seq<u8>,
    size: usize,
    out: Seq<u8>,
)
    requires
        st.inodes.contains_key(ino),
        st.inodes[ino].len() > 0,
        n == st.inodes[ino].last(),
        has_header(n),
    ensures
        st.file_size(ino) is Some == ((le(n, 20) / 0x1000) % 16 == 8),
        st.file_size(ino) matches Some(size) ==> size == le(n, 28),
        st.content(ino, size) == Ok::<Seq<u8>, Seq<char>>(out) <==> jffs2::nodes_applied(
            st.inodes[ino],
            0,
            Seq::empty(),
        ) == Ok::<Seq<u8>, Seq<char>>(out) && out.len() == size,
{
    lemma_header(n);
    bytes::lemma_le4(n.subrange(28, 32));
    let mode = jffs2::word(n, 20);
    assert(mode & 0xf000 == 0x8000 <==> (mode / 0x1000) % 16 == 8) by (bit_vector);
}

/// The node can be applied to a file: its size is at most 16 MiB, its data unpacks, and lies inside
/// that size.
pub open spec fn is_applicable(n: Seq<u8>) -> bool {
    &&& le(n, 28) <= 0x100_0000
    &&& jffs2::node_data(n) matches Ok(data) && le(n, 44) + data.len() <= le(n, 28)
}

proof fn lemma_nodes_apply(s: Seq<Seq<u8>>, i: int, out: Seq<u8>)
    requires
        0 <= i <= s.len(),
        forall|j: int| 0 <= j < s.len() ==> has_header(#[trigger] s[j]),
    ensures
        jffs2::nodes_applied(s, i, out) is Ok <==> forall|j: int|
            i <= j < s.len() ==> is_applicable(#[trigger] s[j]),
    decreases s.len() - i,
{
    if i < s.len() {
        assert(has_header(s[i]));
        lemma_header(s[i]);
        if is_applicable(s[i]) {
            lemma_nodes_apply(s, i + 1, jffs2::node_applied(out, s[i])->Ok_0);
        } else {
            assert(jffs2::node_applied(out, s[i]) is Err);
        }
    }
}

/// A file is read wherever each of its nodes can be applied.
pub proof fn files_with_good_nodes_are_read(s: Seq<Seq<u8>>)
    requires
        forall|j: int| 0 <= j < s.len() ==> has_header(#[trigger] s[j]),
    ensures
        jffs2::nodes_applied(s, 0, Seq::empty()) is Ok <==> forall|j: int|
            0 <= j < s.len() ==> is_applicable(#[trigger] s[j]),
{
    lemma_nodes_apply(s, 0, Seq::empty());
}

/// A node that is shorter than its header, or that the image cuts off, makes the image be refused.
pub proof fn cut_nodes_are_refused(d: Seq<u8>, off: int, st: ScanModel)
    requires
        0 <= off,
        off + 12 <= d.len(),
        d[off] == 0x85 && d[off + 1] == 0x19,
        le(d, off + 4) < 12 || off + le(d, off + 4) > d.len(),
    ensures
        jffs2::scan_from(d, off, st) is Err,
{
    bytes::lemma_le2(d.subrange(off, off + 2));
    bytes::lemma_le4(d.subrange(off + 4, off + 8));
}

/// An intact entry node whose name is none makes the image be refused.
pub proof fn bad_names_are_refused(e: Seq<u8>, st: ScanModel)
    requires
        is_accurate(e, 1),
        e.len() <= usize::MAX,
        40 + e[28] <= le(e, 4),
        crc::register(e.take(32), 0) == le(e, 32),
        crc::register(e.subrange(40, 40 + e[28]), 0) == le(e, 36),
        forall|name: Seq<char>| #[trigger]
            encode_utf8(name) == e.subrange(40, 40 + e[28]) ==> !tree_laws::is_entry_name(name),
    ensures
        step(e, st) is Err,
{
    let n = node_of(e);
    let raw = e.subrange(40, 40 + e[28]);
    lemma_kind(e);
    lemma_word(e, 8);
    lemma_word(e, 32);
    lemma_word(e, 36);
    assert(n.take(8) =~= e.take(8));
    assert(n.take(32) =~= e.take(32));
    assert(n.subrange(40, 40 + e[28]) =~= raw);
    if let Ok(name) = tree::entry_name(raw) {
        tree_laws::entry_names_are_accepted(raw, name);
    }
}

/// An image reads as the tree that its entries and inodes make, with the warning of its scan.
pub proof fn image_reads_as_tree(d: Seq<u8>, st: ScanModel)
    requires
        jffs2::scan_from(d, 0, jffs2::empty_scan()) == Ok::<ScanModel, Seq<char>>(st),
    ensures
        jffs2::image_files(d) == match paths::all_files(st, st.dents) {
            Ok(files) => Ok((files, st.damaged)),
            Err(e) => Err(e),
        },
{
}

/// An image of one file reads as that file: an entry of the root directory, and an inode node that
/// stores the data of a regular file.
pub proof fn one_file_is_read(a: Seq<u8>, b: Seq<u8>, d: DentModel, data: Seq<u8>)
    requires
        is_entry_node(a, d),
        d.parent == 1 && d.ino != 0,
        is_data_node(b, d.ino),
        (le(b, 20) / 0x1000) % 16 == 8,
        data.len() <= 0x100_0000,
        le(b, 4) == 68 + data.len(),
        le(b, 28) == data.len() && le(b, 44) == 0,
        le(b, 48) == data.len() && le(b, 52) == data.len(),
        b[56] == 0,
        b.subrange(68, 68 + data.len() as int) == data,
        a.len() + b.len() <= usize::MAX,
    ensures
        jffs2::image_files(a + b) == Ok::<(Map<Seq<char>, Seq<u8>>, bool), Seq<char>>(
            (Map::empty().insert(d.name, data), false),
        ),
{
    let pieces = seq![a, b];
    let start = jffs2::empty_scan();
    lemma_two_pieces(a, b);
    lemma_scan_image(pieces);
    lemma_entry_step(a, d, start);
    let one = ScanModel { dents: tree::with_newer(start.dents, d), ..start };
    assert(one.dents =~= seq![d]);
    lemma_data_step(b, d.ino, one);
    let n = node_of(b);
    let none = Seq::<Seq<u8>>::empty();
    assert(jffs2::nodes_of(one.inodes, d.ino) =~= none);
    assert(jffs2::with_version(none, n) =~= seq![n]);
    let st = ScanModel { inodes: one.inodes.insert(d.ino, seq![n]), ..one };
    assert(pieces.skip(1) =~= seq![b]);
    assert(seq![b].skip(1) =~= none);
    assert(scanned(none, st) == Ok::<ScanModel, Seq<char>>(st));
    assert(scanned(seq![b], one) == Ok::<ScanModel, Seq<char>>(st));
    assert(scanned(pieces, start) == Ok::<ScanModel, Seq<char>>(st));
    lemma_stored_node(b, data);
    newest_node_tells_files(st, d.ino, n, data.len() as usize, data);
    assert(st.inodes[d.ino].last() == n);
    lemma_one_entry(st, d, data);
}

proof fn lemma_two_pieces(a: Seq<u8>, b: Seq<u8>)
    requires
        is_whole_node(a),
        is_whole_node(b),
    ensures
        are_pieces(seq![a, b]),
        order::image_of(seq![a, b]) == a + b,
{
    let p = seq![a, b];
    assert(p.skip(1) =~= seq![b]);
    assert(seq![b].skip(1) =~= Seq::<Seq<u8>>::empty());
    assert(order::image_of(Seq::<Seq<u8>>::empty()) =~= Seq::<u8>::empty());
    assert(order::image_of(seq![b]) =~= b);
    assert(order::image_of(p) =~= a + b);
}

proof fn lemma_stored_node(b: Seq<u8>, data: Seq<u8>)
    requires
        is_whole_node(b),
        data.len() <= 0x100_0000,
        le(b, 4) == 68 + data.len(),
        le(b, 28) == data.len() && le(b, 44) == 0,
        le(b, 48) == data.len() && le(b, 52) == data.len(),
        b[56] == 0,
        b.subrange(68, 68 + data.len() as int) == data,
    ensures
        has_header(node_of(b)),
        le(node_of(b), 20) == le(b, 20),
        le(node_of(b), 28) == data.len(),
        jffs2::nodes_applied(seq![node_of(b)], 0, Seq::empty()) == Ok::<Seq<u8>, Seq<char>>(data),
{
    let n = node_of(b);
    assert(n.subrange(20, 24) =~= b.subrange(20, 24));
    assert(n.subrange(28, 32) =~= b.subrange(28, 32));
    assert(n.subrange(44, 48) =~= b.subrange(44, 48));
    assert(n.subrange(48, 52) =~= b.subrange(48, 52));
    assert(n.subrange(52, 56) =~= b.subrange(52, 56));
    assert(n.skip(68) =~= data);
    stored_file_is_read(n, data);
}

proof fn lemma_one_entry(st: ScanModel, d: DentModel, data: Seq<u8>)
    requires
        st.dents == seq![d],
        d.parent == 1 && d.ino != 0,
        st.file_size(d.ino) == Some(data.len() as usize),
        data.len() <= 0x100_0000,
        st.content(d.ino, data.len() as usize) == Ok::<Seq<u8>, Seq<char>>(data),
    ensures
        paths::all_files(st, st.dents) == Ok::<Map<Seq<char>, Seq<u8>>, Seq<char>>(
            Map::empty().insert(d.name, data),
        ),
{
    let dents = st.dents;
    let root = seq![(1u64, Seq::<char>::empty())];
    let none = Map::<Seq<char>, Seq<u8>>::empty();
    let files = none.insert(d.name, data);
    let rest = root.drop_last();
    assert(rest =~= Seq::<(u64, Seq<char>)>::empty());
    assert(paths::path_in(Seq::empty(), d.name) == d.name);
    assert(paths::enter(st, dents, 1, 1, Seq::empty(), rest, files) == Ok::<
        (paths::Todo, Map<Seq<char>, Seq<u8>>),
        Seq<char>,
    >((rest, files)));
    assert(dents[0] == d);
    assert(paths::enter(st, dents, 0, 1, Seq::empty(), rest, none) == Ok::<
        (paths::Todo, Map<Seq<char>, Seq<u8>>),
        Seq<char>,
    >((rest, files)));
    paths::lemma_inode_set(Set::empty());
    paths::lemma_inode_set(Set::empty().insert(1u64));
    assert(paths::walk(st, dents, rest, Set::empty().insert(1u64), files) == Ok::<
        Map<Seq<char>, Seq<u8>>,
        Seq<char>,
    >(files));
    assert(root.last() == (1u64, Seq::<char>::empty()));
}

} // verus!
