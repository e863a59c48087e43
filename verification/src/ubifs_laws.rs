//! What a UBIFS volume is read as: which nodes its index leads to, and what they give.

use vstd::prelude::*;
use vstd::utf8::*;

use crate::bytes;
use crate::codec;
use crate::crc;
use crate::paths;
use crate::paths::InodeModel;
use crate::tree;
use crate::tree::DentModel;
use crate::tree_laws;
use crate::ubifs;
use crate::ubifs::{Branches, ChunkModel, IndexModel, Lebs};

verus! {

/// The 32-bit little-endian value at offset `o`.
pub open spec fn le(n: Seq<u8>, o: int) -> int {
    bytes::le_value(n.subrange(o, o + 4)) as int
}

/// The 16-bit little-endian value at offset `o`.
pub open spec fn le_half(n: Seq<u8>, o: int) -> int {
    bytes::le_value(n.subrange(o, o + 2)) as int
}

/// The 64-bit little-endian value at offset `o`.
pub open spec fn le_long(n: Seq<u8>, o: int) -> int {
    bytes::le_value(n.subrange(o, o + 8)) as int
}

/// The intact node `n` stands at offset `off`: it begins with its magic number, says its own
/// length at 16, and has at 4 the checksum of what follows from 8 on.
pub open spec fn stands_at(d: Seq<u8>, off: int, n: Seq<u8>) -> bool {
    &&& 24 <= n.len()
    &&& 0 <= off && off + n.len() <= d.len()
    &&& off + n.len() <= usize::MAX
    &&& n == d.subrange(off, off + n.len() as int)
    &&& n[0] == 0x31 && n[1] == 0x18 && n[2] == 0x10 && n[3] == 0x06
    &&& le(n, 16) == n.len()
    &&& crc::register(n.skip(8), 0xffff_ffff) == le(n, 4)
}

/// Intact nodes, and they alone, are read.
pub proof fn intact_node_is_read(d: Seq<u8>, off: int, n: Seq<u8>)
    requires
        0 <= off,
    ensures
        ubifs::node_at(d, off) == Ok::<Seq<u8>, Seq<char>>(n) <==> stands_at(d, off, n),
{
    if off + 24 <= d.len() && off + 24 <= usize::MAX {
        let h = d.subrange(off, off + 24);
        bytes::lemma_le4(h.take(4));
        bytes::lemma_le4(h.subrange(16, 20));
        let len = bytes::le_value(h.subrange(16, 20)) as int;
        if stands_at(d, off, n) {
            assert(h.subrange(16, 20) =~= n.subrange(16, 20));
            assert(h.take(4)[0] == n[0] && h.take(4)[1] == n[1] && h.take(4)[2] == n[2] && h.take(
                4,
            )[3] == n[3]);
            bytes::lemma_le4(n.subrange(4, 8));
        }
        if ubifs::node_at(d, off) == Ok::<Seq<u8>, Seq<char>>(n) {
            assert(n =~= d.subrange(off, off + len));
            assert(h.subrange(16, 20) =~= n.subrange(16, 20));
            assert(h.take(4)[0] == n[0] && h.take(4)[1] == n[1] && h.take(4)[2] == n[2] && h.take(
                4,
            )[3] == n[3]);
            bytes::lemma_le4(n.subrange(4, 8));
        }
    }
}

/// The reference leads to the node: eraseblock, offset and length.
pub open spec fn refers(lebs: Lebs, r: (u32, u32, u32), n: Seq<u8>) -> bool {
    lebs.contains_key(r.0) && stands_at(lebs[r.0], r.1 as int, n) && n.len() == r.2
}

/// An index node, whose branches fill it from offset 28 on with 20 bytes each.
pub open spec fn is_index(n: Seq<u8>) -> bool {
    n[20] == 9 && n.len() >= 28 && n.len() == 28 + 20 * le_half(n, 24)
}

/// The reference in branch number `k` of an index node.
pub open spec fn child(n: Seq<u8>, k: int) -> (u32, u32, u32) {
    (le(n, 28 + 20 * k) as u32, le(n, 32 + 20 * k) as u32, le(n, 36 + 20 * k) as u32)
}

/// The reference is one of the branches of an index node.
pub open spec fn is_child(n: Seq<u8>, r: (u32, u32, u32)) -> bool {
    is_index(n) && exists|k: int| 0 <= k < le_half(n, 24) && r == #[trigger] child(n, k)
}

/// The references lead from `root` to the last of the nodes, through index nodes.
pub open spec fn is_chain(
    lebs: Lebs,
    root: (u32, u32, u32),
    refs: Branches,
    nodes: Seq<Seq<u8>>,
) -> bool {
    &&& refs.len() == nodes.len() && refs.len() > 0
    &&& refs[0] == root
    &&& forall|i: int| 0 <= i < refs.len() ==> #[trigger] refers(lebs, refs[i], nodes[i])
    &&& forall|i: int| 0 < i < refs.len() ==> is_child(nodes[i - 1], #[trigger] refs[i])
}

/// The index leads to the node.
pub open spec fn leads_to(lebs: Lebs, root: (u32, u32, u32), n: Seq<u8>) -> bool {
    exists|refs: Branches, nodes: Seq<Seq<u8>>| #[trigger]
        is_chain(lebs, root, refs, nodes) && nodes.last() == n
}

/// The node gives the directory entry `d`: the parent at offset 24, the inode at 40, the length of
/// the name at 50 and the name at 56.
pub open spec fn gives_entry(n: Seq<u8>, d: DentModel) -> bool {
    let raw = encode_utf8(d.name);
    &&& n[20] == 2
    &&& 56 + raw.len() <= n.len()
    &&& le_half(n, 50) == raw.len()
    &&& n.subrange(56, 56 + raw.len() as int) == raw
    &&& d.parent == le(n, 24) && d.ino == le_long(n, 40) && d.version == 0
}

/// The node gives the size of a regular file: the inode at offset 24, the size at 48, the mode at
/// 104.
pub open spec fn gives_size(n: Seq<u8>, ino: u64, size: usize) -> bool {
    &&& n[20] == 0
    &&& n.len() >= 108
    &&& (le(n, 104) / 0x1000) % 16 == 8
    &&& ino == le(n, 24) && size == le_long(n, 48)
}

/// The node gives a block of a file: the inode at offset 24, the number of the block in the low 29
/// bits at 28.
pub open spec fn gives_block(n: Seq<u8>, c: ChunkModel) -> bool {
    &&& n[20] == 1
    &&& n.len() >= 48
    &&& c.ino == le(n, 24) && c.block == le(n, 28) % 0x2000_0000 && c.node == n
}

/// What the node gives has its place in the index.
pub open spec fn has_place(ix: IndexModel, n: Seq<u8>) -> bool {
    &&& forall|d: DentModel| #[trigger] gives_entry(n, d) ==> tree::entry_at(ix.dents, d) is Some
    &&& forall|ino: u64, size: usize| #[trigger]
        gives_size(n, ino, size) ==> ix.sizes.contains_key(ino)
    &&& forall|c: ChunkModel| #[trigger] gives_block(n, c) ==> has_block(ix, c.ino, c.block)
}

/// The index has a block of a file.
pub open spec fn has_block(ix: IndexModel, ino: u64, block: u32) -> bool {
    exists|j: int|
        0 <= j < ix.chunks.len() && (#[trigger] ix.chunks[j]).ino == ino && ix.chunks[j].block
            == block
}

proof fn lemma_low_bits(x: u32)
    ensures
        x & 0x1fff_ffff == x % 0x2000_0000,
{
    assert(x & 0x1fff_ffff == x % 0x2000_0000) by (bit_vector);
}

proof fn lemma_mode(mode: u32)
    ensures
        mode & 0xf000 == 0x8000 <==> (mode / 0x1000) % 16 == 8,
{
    assert(mode & 0xf000 == 0x8000 <==> (mode / 0x1000) % 16 == 8) by (bit_vector);
}

proof fn lemma_index_node(n: Seq<u8>, todo: Branches)
    requires
        n[20] == 9,
        24 <= n.len() <= usize::MAX,
    ensures
        ubifs::visit_index(n, todo) is Ok == is_index(n),
        is_index(n) ==> ubifs::visit_index(n, todo)->Ok_0 == todo + Seq::new(
            le_half(n, 24) as nat,
            |k: int| child(n, k),
        ),
{
    if n.len() >= 26 {
        bytes::lemma_le2(n.subrange(24, 26));
        if is_index(n) {
            assert(ubifs::branches_of(n, le_half(n, 24) as nat) =~= Seq::new(
                le_half(n, 24) as nat,
                |k: int| child(n, k),
            ));
        }
    }
}

proof fn lemma_inode_node(n: Seq<u8>, sizes: Map<u64, usize>)
    requires
        n[20] == 0,
        24 <= n.len() <= usize::MAX,
        ubifs::visit_inode(n, sizes) is Ok,
    ensures
        ({
            let after = ubifs::visit_inode(n, sizes)->Ok_0;
            let ino = le(n, 24) as u64;
            let size = le_long(n, 48) as usize;
            &&& after == sizes || (gives_size(n, ino, size) && after == sizes.insert(ino, size))
            &&& forall|i: u64, s: usize| #[trigger]
                gives_size(n, i, s) ==> after == sizes.insert(i, s)
        }),
{
    bytes::lemma_le4(n.subrange(104, 108));
    bytes::lemma_le4(n.subrange(24, 28));
    bytes::lemma_le8(n.subrange(48, 56));
    lemma_mode(bytes::le_value(n.subrange(104, 108)) as u32);
}

proof fn lemma_dent_node(n: Seq<u8>, dents: Seq<DentModel>)
    requires
        n[20] == 2,
        24 <= n.len() <= usize::MAX,
        ubifs::visit_dent(n, dents) is Ok,
    ensures
        exists|d: DentModel| #[trigger]
            gives_entry(n, d) && ubifs::visit_dent(n, dents)->Ok_0 == tree::with_entry(dents, d),
{
    bytes::lemma_le2(n.subrange(50, 52));
    bytes::lemma_le4(n.subrange(24, 28));
    bytes::lemma_le8(n.subrange(40, 48));
    let raw = n.subrange(56, 56 + le_half(n, 50));
    let name = tree::entry_name(raw)->Ok_0;
    decode_utf8_encode_utf8(raw);
    let d = DentModel {
        parent: le(n, 24) as u64,
        name,
        version: 0,
        ino: le_long(n, 40) as u64,
    };
    assert(gives_entry(n, d));
}

proof fn lemma_same_entry(n: Seq<u8>, a: DentModel, b: DentModel)
    requires
        gives_entry(n, a),
        gives_entry(n, b),
    ensures
        a == b,
{
    encode_utf8_decode_utf8(a.name);
    encode_utf8_decode_utf8(b.name);
}

proof fn lemma_data_node(n: Seq<u8>, chunks: Seq<ChunkModel>)
    requires
        n[20] == 1,
        24 <= n.len() <= usize::MAX,
        ubifs::visit_data(n, chunks) is Ok,
    ensures
        ({
            let c = ChunkModel {
                ino: le(n, 24) as u64,
                block: (le(n, 28) % 0x2000_0000) as u32,
                node: n,
            };
            &&& gives_block(n, c)
            &&& ubifs::visit_data(n, chunks)->Ok_0 == ubifs::with_chunk(chunks, c)
        }),
{
    bytes::lemma_le4(n.subrange(24, 28));
    bytes::lemma_le4(n.subrange(28, 32));
    lemma_low_bits(bytes::le_value(n.subrange(28, 32)) as u32);
}

proof fn lemma_with_chunk(s: Seq<ChunkModel>, c: ChunkModel)
    ensures
        ({
            let t = ubifs::with_chunk(s, c);
            &&& t.contains(c)
            &&& forall|j: int|
                0 <= j < s.len() ==> exists|i: int|
                    0 <= i < t.len() && (#[trigger] t[i]).ino == (#[trigger] s[j]).ino && t[i].block
                        == s[j].block
            &&& forall|i: int| 0 <= i < t.len() ==> s.contains(#[trigger] t[i]) || t[i] == c
        }),
{
    let t = ubifs::with_chunk(s, c);
    let k = ubifs::chunk_rank(s, 0, c);
    ubifs::lemma_chunk_rank(s, 0, c);
    assert(t[k] == c);
    let replaced = k < s.len() && s[k].ino == c.ino && s[k].block == c.block;
    assert forall|j: int| 0 <= j < s.len() implies exists|i: int|
        0 <= i < t.len() && (#[trigger] t[i]).ino == (#[trigger] s[j]).ino && t[i].block
            == s[j].block by {
        let i = if replaced || j < k {
            j
        } else {
            j + 1
        };
        assert(t[i].ino == s[j].ino && t[i].block == s[j].block);
    }
    assert forall|i: int| 0 <= i < t.len() implies s.contains(#[trigger] t[i]) || t[i] == c by {
        if i != k {
            let j = if replaced || i < k {
                i
            } else {
                i - 1
            };
            assert(s[j] == t[i]);
        }
    }
}

/// All that has a place in `a` has one in `b`.
pub open spec fn keeps_places(a: IndexModel, b: IndexModel) -> bool {
    &&& forall|d: DentModel|
        tree::entry_at(a.dents, d) is Some ==> #[trigger] tree::entry_at(b.dents, d) is Some
    &&& forall|ino: u64| a.sizes.contains_key(ino) ==> #[trigger] b.sizes.contains_key(ino)
    &&& forall|ino: u64, block: u32| has_block(a, ino, block) ==> #[trigger] has_block(b, ino, block)
}

proof fn lemma_visit(n: Seq<u8>, todo: Branches, ix: IndexModel)
    requires
        24 <= n.len() <= usize::MAX,
        tree::sorted(ix.dents),
        ubifs::visit(n, todo, ix) is Ok,
    ensures
        ({
            let (todo2, ix2) = ubifs::visit(n, todo, ix)->Ok_0;
            &&& tree::sorted(ix2.dents)
            &&& has_place(ix2, n)
            &&& keeps_places(ix, ix2)
            &&& n[20] == 9 ==> is_index(n) && todo2 == todo + Seq::new(
                le_half(n, 24) as nat,
                |k: int| child(n, k),
            )
            &&& n[20] != 9 ==> todo2 == todo
        }),
{
    let (todo2, ix2) = ubifs::visit(n, todo, ix)->Ok_0;
    if n[20] == 9 {
        lemma_index_node(n, todo);
        assert(ix2 == ix);
        assert(has_place(ix2, n));
        assert(keeps_places(ix, ix2));
    } else if n[20] == 0 {
        lemma_inode_node(n, ix.sizes);
        assert(ix2.dents == ix.dents && ix2.chunks == ix.chunks);
        assert(keeps_places(ix, ix2));
        assert(has_place(ix2, n));
    } else if n[20] == 2 {
        lemma_dent_node(n, ix.dents);
        let d = choose|d: DentModel| #[trigger]
            gives_entry(n, d) && ubifs::visit_dent(n, ix.dents)->Ok_0 == tree::with_entry(
                ix.dents,
                d,
            );
        tree::with_entry_keeps_order(ix.dents, d);
        tree::with_entry_sets_one_place(ix.dents, d, d);
        assert forall|e: DentModel| #[trigger] gives_entry(n, e) implies tree::entry_at(
            ix2.dents,
            e,
        ) is Some by {
            lemma_same_entry(n, d, e);
        }
        assert forall|e: DentModel| tree::entry_at(ix.dents, e) is Some implies #[trigger]
        tree::entry_at(ix2.dents, e) is Some by {
            tree::with_entry_sets_one_place(ix.dents, d, e);
            if tree::same_place(e, d) {
                tree::lemma_entry_by_place(ix2.dents, e, d);
            }
        }
        assert(ix2.sizes == ix.sizes && ix2.chunks == ix.chunks);
        assert(keeps_places(ix, ix2));
        assert(has_place(ix2, n));
    } else if n[20] == 1 {
        lemma_data_node(n, ix.chunks);
        let c = ChunkModel {
            ino: le(n, 24) as u64,
            block: (le(n, 28) % 0x2000_0000) as u32,
            node: n,
        };
        lemma_with_chunk(ix.chunks, c);
        assert(ix2.chunks == ubifs::with_chunk(ix.chunks, c));
        let j = choose|j: int| 0 <= j < ix2.chunks.len() && ix2.chunks[j] == c;
        assert(ix2.chunks[j].ino == c.ino);
        assert(has_block(ix2, c.ino, c.block));
        assert forall|ino: u64, block: u32| has_block(ix, ino, block) implies #[trigger] has_block(
            ix2,
            ino,
            block,
        ) by {
            let j = choose|j: int|
                0 <= j < ix.chunks.len() && (#[trigger] ix.chunks[j]).ino == ino
                    && ix.chunks[j].block == block;
            let i = choose|i: int|
                0 <= i < ix2.chunks.len() && (#[trigger] ix2.chunks[i]).ino == ix.chunks[j].ino
                    && ix2.chunks[i].block == ix.chunks[j].block;
            assert(ix2.chunks[i].ino == ino);
        }
        assert forall|other: ChunkModel| #[trigger] gives_block(n, other) implies has_block(
            ix2,
            other.ino,
            other.block,
        ) by {
            assert(other.ino == c.ino && other.block == c.block);
        }
        assert(has_place(ix2, n));
        assert(keeps_places(ix, ix2));
    } else {
        assert(ix2 == ix);
        assert(has_place(ix2, n));
        assert(keeps_places(ix, ix2));
    }
}

proof fn lemma_places_kept(lebs: Lebs, todo: Branches, seen: Set<(u32, u32)>, ix: IndexModel)
    requires
        tree::sorted(ix.dents),
        ubifs::index_from(lebs, todo, seen, ix) is Ok,
    ensures
        keeps_places(ix, ubifs::index_from(lebs, todo, seen, ix)->Ok_0),
    decreases 0x1_0000_0000_0000_0000 - seen.len(),
{
    if todo.len() > 0 {
        let (l, o, len) = todo.last();
        let n = ubifs::node_at(lebs[l], o as int)->Ok_0;
        let (todo2, ix2) = ubifs::visit(n, todo.drop_last(), ix)->Ok_0;
        ubifs::lemma_offset_set(seen);
        ubifs::lemma_offset_set(seen.insert((l, o)));
        intact_node_is_read(lebs[l], o as int, n);
        lemma_visit(n, todo.drop_last(), ix);
        lemma_places_kept(lebs, todo2, seen.insert((l, o)), ix2);
        let last = ubifs::index_from(lebs, todo, seen, ix)->Ok_0;
        lemma_keeps_transitive(ix, ix2, last);
    }
}

proof fn lemma_keeps_transitive(a: IndexModel, b: IndexModel, c: IndexModel)
    requires
        keeps_places(a, b),
        keeps_places(b, c),
    ensures
        keeps_places(a, c),
{
    assert forall|d: DentModel| tree::entry_at(a.dents, d) is Some implies #[trigger] tree::entry_at(
        c.dents,
        d,
    ) is Some by {
        assert(tree::entry_at(b.dents, d) is Some);
    }
    assert forall|ino: u64| a.sizes.contains_key(ino) implies #[trigger] c.sizes.contains_key(
        ino,
    ) by {
        assert(b.sizes.contains_key(ino));
    }
    assert forall|ino: u64, block: u32| has_block(a, ino, block) implies #[trigger] has_block(
        c,
        ino,
        block,
    ) by {
        assert(has_block(b, ino, block));
    }
}

proof fn lemma_place_kept(a: IndexModel, b: IndexModel, n: Seq<u8>)
    requires
        has_place(a, n),
        keeps_places(a, b),
    ensures
        has_place(b, n),
{
    assert forall|d: DentModel| #[trigger] gives_entry(n, d) implies tree::entry_at(
        b.dents,
        d,
    ) is Some by {
        assert(tree::entry_at(a.dents, d) is Some);
    }
    assert forall|ino: u64, size: usize| #[trigger] gives_size(
        n,
        ino,
        size,
    ) implies b.sizes.contains_key(ino) by {
        assert(a.sizes.contains_key(ino));
    }
    assert forall|c: ChunkModel| #[trigger] gives_block(n, c) implies has_block(
        b,
        c.ino,
        c.block,
    ) by {
        assert(has_block(a, c.ino, c.block));
    }
}

proof fn lemma_chain(
    lebs: Lebs,
    todo: Branches,
    seen: Set<(u32, u32)>,
    ix: IndexModel,
    p: int,
    refs: Branches,
    nodes: Seq<Seq<u8>>,
)
    requires
        tree::sorted(ix.dents),
        ubifs::index_from(lebs, todo, seen, ix) is Ok,
        0 <= p < todo.len(),
        is_chain(lebs, todo[p], refs, nodes),
    ensures
        has_place(ubifs::index_from(lebs, todo, seen, ix)->Ok_0, nodes.last()),
    decreases 0x1_0000_0000_0000_0000 - seen.len(),
{
    let (l, o, len) = todo.last();
    let n = ubifs::node_at(lebs[l], o as int)->Ok_0;
    let front = todo.drop_last();
    let (todo2, ix2) = ubifs::visit(n, front, ix)->Ok_0;
    let seen2 = seen.insert((l, o));
    let last = ubifs::index_from(lebs, todo, seen, ix)->Ok_0;
    ubifs::lemma_offset_set(seen);
    ubifs::lemma_offset_set(seen2);
    intact_node_is_read(lebs[l], o as int, n);
    lemma_visit(n, front, ix);
    if p < todo.len() - 1 {
        assert(todo2[p] == todo[p]);
        lemma_chain(lebs, todo2, seen2, ix2, p, refs, nodes);
    } else {
        assert(refers(lebs, refs[0], nodes[0]));
        intact_node_is_read(lebs[l], o as int, nodes[0]);
        assert(nodes[0] == n);
        if refs.len() == 1 {
            lemma_places_kept(lebs, todo2, seen2, ix2);
            lemma_place_kept(ix2, last, n);
        } else {
            assert(is_child(nodes[1 - 1], refs[1]));
            let k = choose|k: int| 0 <= k < le_half(n, 24) && refs[1] == #[trigger] child(n, k);
            let q = front.len() + k;
            assert(todo2[q] == refs[1]);
            let refs2 = refs.skip(1);
            let nodes2 = nodes.skip(1);
            assert forall|i: int| 0 <= i < refs2.len() implies #[trigger] refers(
                lebs,
                refs2[i],
                nodes2[i],
            ) by {
                assert(refers(lebs, refs[i + 1], nodes[i + 1]));
            }
            assert forall|i: int| 0 < i < refs2.len() implies is_child(
                nodes2[i - 1],
                #[trigger] refs2[i],
            ) by {
                assert(is_child(nodes[i + 1 - 1], refs[i + 1]));
            }
            lemma_chain(lebs, todo2, seen2, ix2, q, refs2, nodes2);
            assert(nodes2.last() == nodes.last());
        }
    }
}

/// Every node that the index leads to counts: along whatever chain of branches from the root it is
/// reached, and whatever other index nodes there are, the entry, the size or the block that it
/// gives has its place.
pub proof fn reached_nodes_count(lebs: Lebs, root: (u32, u32, u32), n: Seq<u8>)
    requires
        leads_to(lebs, root, n),
    ensures
        ubifs::index_from(lebs, seq![root], Set::empty(), ubifs::empty_index()) matches Ok(ix)
            ==> has_place(ix, n),
{
    if ubifs::index_from(lebs, seq![root], Set::empty(), ubifs::empty_index()) is Ok {
        let (refs, nodes) = choose|refs: Branches, nodes: Seq<Seq<u8>>| #[trigger]
            is_chain(lebs, root, refs, nodes) && nodes.last() == n;
        lemma_chain(
            lebs,
            seq![root],
            Set::empty(),
            ubifs::empty_index(),
            0,
            refs,
            nodes,
        );
    }
}

/// The index leads to the reference itself.
pub open spec fn leads_to_ref(lebs: Lebs, root: (u32, u32, u32), r: (u32, u32, u32)) -> bool {
    r == root || exists|m: Seq<u8>| #[trigger] leads_to(lebs, root, m) && is_child(m, r)
}

proof fn lemma_followed(lebs: Lebs, root: (u32, u32, u32), r: (u32, u32, u32), n: Seq<u8>)
    requires
        leads_to_ref(lebs, root, r),
        refers(lebs, r, n),
    ensures
        leads_to(lebs, root, n),
{
    if r == root {
        assert(is_chain(lebs, root, seq![r], seq![n]));
        assert(seq![n].last() == n);
    } else {
        let m = choose|m: Seq<u8>| #[trigger] leads_to(lebs, root, m) && is_child(m, r);
        let (refs, nodes) = choose|refs: Branches, nodes: Seq<Seq<u8>>| #[trigger]
            is_chain(lebs, root, refs, nodes) && nodes.last() == m;
        let refs2 = refs.push(r);
        let nodes2 = nodes.push(n);
        assert forall|i: int| 0 <= i < refs2.len() implies #[trigger] refers(
            lebs,
            refs2[i],
            nodes2[i],
        ) by {
            if i < refs.len() {
                assert(refers(lebs, refs[i], nodes[i]));
            }
        }
        assert forall|i: int| 0 < i < refs2.len() implies is_child(
            nodes2[i - 1],
            #[trigger] refs2[i],
        ) by {
            if i < refs.len() {
                assert(is_child(nodes[i - 1], refs[i]));
            }
        }
        assert(is_chain(lebs, root, refs2, nodes2));
        assert(nodes2.last() == n);
    }
}

/// Some node that the index leads to gives this entry.
pub open spec fn entry_is_reached(lebs: Lebs, root: (u32, u32, u32), d: DentModel) -> bool {
    exists|n: Seq<u8>| #[trigger] leads_to(lebs, root, n) && gives_entry(n, d)
}

/// Some node that the index leads to gives this size.
pub open spec fn size_is_reached(lebs: Lebs, root: (u32, u32, u32), ino: u64, size: usize) -> bool {
    exists|n: Seq<u8>| #[trigger] leads_to(lebs, root, n) && gives_size(n, ino, size)
}

/// Some node that the index leads to gives this block.
pub open spec fn block_is_reached(lebs: Lebs, root: (u32, u32, u32), c: ChunkModel) -> bool {
    exists|n: Seq<u8>| #[trigger] leads_to(lebs, root, n) && gives_block(n, c)
}

/// All that the index holds comes from nodes that it leads to.
pub open spec fn all_reached(lebs: Lebs, root: (u32, u32, u32), ix: IndexModel) -> bool {
    &&& forall|j: int|
        0 <= j < ix.dents.len() ==> #[trigger] entry_is_reached(lebs, root, ix.dents[j])
    &&& forall|ino: u64| #[trigger]
        ix.sizes.contains_key(ino) ==> size_is_reached(lebs, root, ino, ix.sizes[ino])
    &&& forall|j: int|
        0 <= j < ix.chunks.len() ==> #[trigger] block_is_reached(lebs, root, ix.chunks[j])
}

proof fn lemma_visit_reached(
    lebs: Lebs,
    root: (u32, u32, u32),
    n: Seq<u8>,
    todo: Branches,
    ix: IndexModel,
)
    requires
        24 <= n.len() <= usize::MAX,
        leads_to(lebs, root, n),
        all_reached(lebs, root, ix),
        ubifs::visit(n, todo, ix) is Ok,
    ensures
        all_reached(lebs, root, ubifs::visit(n, todo, ix)->Ok_0.1),
{
    let ix2 = ubifs::visit(n, todo, ix)->Ok_0.1;
    if n[20] == 9 {
    } else if n[20] == 0 {
        lemma_inode_node(n, ix.sizes);
        assert forall|ino: u64| #[trigger] ix2.sizes.contains_key(ino) implies size_is_reached(
            lebs,
            root,
            ino,
            ix2.sizes[ino],
        ) by {
            if ix2.sizes == ix.sizes {
                assert(ix.sizes.contains_key(ino));
            } else if ino != le(n, 24) as u64 {
                assert(ix.sizes.contains_key(ino));
            } else {
                assert(gives_size(n, ino, ix2.sizes[ino]));
            }
        }
        assert(ix2.dents == ix.dents && ix2.chunks == ix.chunks);
    } else if n[20] == 2 {
        lemma_dent_node(n, ix.dents);
        let d = choose|d: DentModel| #[trigger]
            gives_entry(n, d) && ubifs::visit_dent(n, ix.dents)->Ok_0 == tree::with_entry(
                ix.dents,
                d,
            );
        assert(entry_is_reached(lebs, root, d));
        assert forall|j: int| 0 <= j < ix2.dents.len() implies #[trigger] entry_is_reached(
            lebs,
            root,
            ix2.dents[j],
        ) by {
            let i = tree::entry_comes_from(ix.dents, d, j);
            if i >= 0 {
                assert(entry_is_reached(lebs, root, ix.dents[i]));
            }
        }
        assert(ix2.sizes == ix.sizes && ix2.chunks == ix.chunks);
    } else if n[20] == 1 {
        lemma_data_node(n, ix.chunks);
        let c = ChunkModel {
            ino: le(n, 24) as u64,
            block: (le(n, 28) % 0x2000_0000) as u32,
            node: n,
        };
        lemma_with_chunk(ix.chunks, c);
        assert(block_is_reached(lebs, root, c));
        assert forall|j: int| 0 <= j < ix2.chunks.len() implies #[trigger] block_is_reached(
            lebs,
            root,
            ix2.chunks[j],
        ) by {
            if ix2.chunks[j] != c {
                assert(ix.chunks.contains(ix2.chunks[j]));
                let i = choose|i: int| 0 <= i < ix.chunks.len() && ix.chunks[i] == ix2.chunks[j];
                assert(block_is_reached(lebs, root, ix.chunks[i]));
            }
        }
        assert(ix2.sizes == ix.sizes && ix2.dents == ix.dents);
    }
}

proof fn lemma_reached(
    lebs: Lebs,
    root: (u32, u32, u32),
    todo: Branches,
    seen: Set<(u32, u32)>,
    ix: IndexModel,
)
    requires
        tree::sorted(ix.dents),
        all_reached(lebs, root, ix),
        forall|i: int| 0 <= i < todo.len() ==> #[trigger] leads_to_ref(lebs, root, todo[i]),
        ubifs::index_from(lebs, todo, seen, ix) is Ok,
    ensures
        all_reached(lebs, root, ubifs::index_from(lebs, todo, seen, ix)->Ok_0),
    decreases 0x1_0000_0000_0000_0000 - seen.len(),
{
    if todo.len() > 0 {
        let r = todo.last();
        let (l, o, len) = r;
        let n = ubifs::node_at(lebs[l], o as int)->Ok_0;
        let front = todo.drop_last();
        let (todo2, ix2) = ubifs::visit(n, front, ix)->Ok_0;
        ubifs::lemma_offset_set(seen);
        ubifs::lemma_offset_set(seen.insert((l, o)));
        intact_node_is_read(lebs[l], o as int, n);
        assert(leads_to_ref(lebs, root, todo[todo.len() - 1]));
        assert(refers(lebs, r, n));
        lemma_followed(lebs, root, r, n);
        lemma_visit(n, front, ix);
        lemma_visit_reached(lebs, root, n, front, ix);
        assert forall|i: int| 0 <= i < todo2.len() implies #[trigger] leads_to_ref(
            lebs,
            root,
            todo2[i],
        ) by {
            if i < front.len() {
                assert(leads_to_ref(lebs, root, todo[i]));
                assert(todo2[i] == todo[i]);
            } else {
                let k = i - front.len();
                assert(todo2[i] == child(n, k));
                assert(is_child(n, todo2[i]));
                assert(leads_to(lebs, root, n) && is_child(n, todo2[i]));
            }
        }
        lemma_reached(lebs, root, todo2, seen.insert((l, o)), ix2);
    }
}

/// Nothing else counts: every entry, size and block of the index is given by a node that it leads
/// to.
pub proof fn only_reached_nodes_count(lebs: Lebs, root: (u32, u32, u32))
    ensures
        ubifs::index_from(lebs, seq![root], Set::empty(), ubifs::empty_index()) matches Ok(ix)
            ==> all_reached(lebs, root, ix),
{
    if ubifs::index_from(lebs, seq![root], Set::empty(), ubifs::empty_index()) is Ok {
        assert(leads_to_ref(lebs, root, seq![root][0]));
        lemma_reached(lebs, root, seq![root], Set::empty(), ubifs::empty_index());
    }
}

/// The node is one that an index can lead to: an index node, a directory entry, a regular file
/// whose size fits, another inode, a block of at most 4096 bytes, or an extended attribute.
pub open spec fn is_indexed(n: Seq<u8>) -> bool {
    ||| is_index(n)
    ||| exists|d: DentModel| #[trigger] gives_entry(n, d) && tree_laws::is_entry_name(d.name)
    ||| exists|ino: u64, size: usize| #[trigger] gives_size(n, ino, size)
    ||| n[20] == 0 && n.len() >= 108 && (le(n, 104) / 0x1000) % 16 != 8
    ||| n[20] == 1 && n.len() >= 48 && le(n, 40) <= 4096
    ||| n[20] == 3
}

/// What a node adds: an index node the references to its branches, and every other node what it
/// gives.
pub proof fn node_adds_what_it_gives(n: Seq<u8>, todo: Branches, ix: IndexModel, d: DentModel)
    requires
        24 <= n.len() <= usize::MAX,
    ensures
        is_indexed(n) ==> ubifs::visit(n, todo, ix) is Ok,
        is_index(n) ==> ubifs::visit(n, todo, ix) == Ok::<(Branches, IndexModel), Seq<char>>(
            (todo + Seq::new(le_half(n, 24) as nat, |k: int| child(n, k)), ix),
        ),
        gives_entry(n, d) && tree_laws::is_entry_name(d.name) ==> ubifs::visit(n, todo, ix) == Ok::<
            (Branches, IndexModel),
            Seq<char>,
        >((todo, IndexModel { dents: tree::with_entry(ix.dents, d), ..ix })),
        forall|ino: u64, size: usize| #[trigger]
            gives_size(n, ino, size) ==> ubifs::visit(n, todo, ix) == Ok::<
                (Branches, IndexModel),
                Seq<char>,
            >((todo, IndexModel { sizes: ix.sizes.insert(ino, size), ..ix })),
        forall|c: ChunkModel| #[trigger]
            gives_block(n, c) && le(n, 40) <= 4096 ==> ubifs::visit(n, todo, ix) == Ok::<
                (Branches, IndexModel),
                Seq<char>,
            >((todo, IndexModel { chunks: ubifs::with_chunk(ix.chunks, c), ..ix })),
        n[20] == 3 || (n[20] == 0 && n.len() >= 108 && (le(n, 104) / 0x1000) % 16 != 8)
            ==> ubifs::visit(n, todo, ix) == Ok::<(Branches, IndexModel), Seq<char>>((todo, ix)),
{
    if n[20] == 9 {
        lemma_index_node(n, todo);
    } else if n[20] == 0 {
        if n.len() >= 108 {
            bytes::lemma_le4(n.subrange(104, 108));
            bytes::lemma_le4(n.subrange(24, 28));
            bytes::lemma_le8(n.subrange(48, 56));
            lemma_mode(bytes::le_value(n.subrange(104, 108)) as u32);
        }
    } else if n[20] == 2 {
        assert forall|e: DentModel| #[trigger] gives_entry(n, e) && tree_laws::is_entry_name(
            e.name,
        ) implies ubifs::visit(n, todo, ix) == Ok::<(Branches, IndexModel), Seq<char>>(
            (todo, IndexModel { dents: tree::with_entry(ix.dents, e), ..ix }),
        ) by {
            lemma_entry_read(n, e, ix.dents);
        }
    } else if n[20] == 1 {
        if n.len() >= 48 {
            bytes::lemma_le4(n.subrange(40, 44));
            bytes::lemma_le4(n.subrange(24, 28));
            bytes::lemma_le4(n.subrange(28, 32));
            lemma_low_bits(bytes::le_value(n.subrange(28, 32)) as u32);
        }
    }
}

proof fn lemma_entry_read(n: Seq<u8>, d: DentModel, dents: Seq<DentModel>)
    requires
        24 <= n.len() <= usize::MAX,
        gives_entry(n, d),
        tree_laws::is_entry_name(d.name),
    ensures
        ubifs::visit_dent(n, dents) == Ok::<Seq<DentModel>, Seq<char>>(tree::with_entry(dents, d)),
{
    let raw = encode_utf8(d.name);
    bytes::lemma_le2(n.subrange(50, 52));
    bytes::lemma_le4(n.subrange(24, 28));
    bytes::lemma_le8(n.subrange(40, 48));
    encode_utf8_valid_utf8(d.name);
    encode_utf8_decode_utf8(d.name);
    assert(tree::entry_name(raw) == Ok::<Seq<char>, Seq<char>>(d.name));
}

/// Following a reference takes up the node that it leads to, and goes on with the references that
/// are left and those that the node adds. A reference that was followed before is refused.
pub proof fn reference_is_followed(
    lebs: Lebs,
    todo: Branches,
    r: (u32, u32, u32),
    seen: Set<(u32, u32)>,
    ix: IndexModel,
    n: Seq<u8>,
)
    requires
        refers(lebs, r, n),
    ensures
        seen.contains((r.0, r.1)) ==> ubifs::index_from(lebs, todo.push(r), seen, ix) is Err,
        !seen.contains((r.0, r.1)) ==> (ubifs::visit(n, todo, ix) matches Ok((todo2, ix2))
            ==> ubifs::index_from(lebs, todo.push(r), seen, ix) == ubifs::index_from(
            lebs,
            todo2,
            seen.insert((r.0, r.1)),
            ix2,
        )),
        ubifs::index_from(lebs, Seq::empty(), seen, ix) == Ok::<IndexModel, Seq<char>>(ix),
{
    intact_node_is_read(lebs[r.0], r.1 as int, n);
    assert(todo.push(r).drop_last() =~= todo);
    ubifs::lemma_offset_set(seen);
    ubifs::lemma_offset_set(seen.insert((r.0, r.1)));
}

/// The reference leads to an intact node that an index can lead to.
pub open spec fn is_good(lebs: Lebs, r: (u32, u32, u32)) -> bool {
    exists|n: Seq<u8>| #[trigger] refers(lebs, r, n) && is_indexed(n)
}

/// Where a reference leads: eraseblock and offset.
pub open spec fn place(r: (u32, u32, u32)) -> (u32, u32) {
    (r.0, r.1)
}

/// Branch number `k` of an index node at `from` leads to `to`.
#[verifier::opaque]
pub open spec fn branches_to(
    lebs: Lebs,
    root: (u32, u32, u32),
    from: (u32, u32),
    k: int,
    to: (u32, u32),
) -> bool {
    exists|r: (u32, u32, u32), n: Seq<u8>|
        leads_to_ref(lebs, root, r) && #[trigger] refers(lebs, r, n) && is_index(n) && place(r)
            == from && 0 <= k < le_half(n, 24) && place(child(n, k)) == to
}

/// The index is a tree: no two branches lead to the same place, and none back to the root.
pub open spec fn is_index_tree(lebs: Lebs, root: (u32, u32, u32)) -> bool {
    &&& forall|a: (u32, u32), i: int, b: (u32, u32), j: int, to: (u32, u32)| #[trigger]
        branches_to(lebs, root, a, i, to) && #[trigger] branches_to(lebs, root, b, j, to) ==> a == b
            && i == j
    &&& forall|a: (u32, u32), i: int, to: (u32, u32)| #[trigger]
        branches_to(lebs, root, a, i, to) ==> to != place(root)
}

/// A place is the root, or some branch from a place that was seen leads to it.
spec fn comes_from(
    lebs: Lebs,
    root: (u32, u32, u32),
    to: (u32, u32),
    seen: Set<(u32, u32)>,
) -> bool {
    to == place(root) || exists|from: (u32, u32), k: int|
        seen.contains(from) && #[trigger] branches_to(lebs, root, from, k, to)
}

/// What is still to be followed was not followed, is listed once, and is led to from what was.
spec fn unfollowed(
    lebs: Lebs,
    root: (u32, u32, u32),
    todo: Branches,
    seen: Set<(u32, u32)>,
) -> bool {
    &&& forall|i: int| 0 <= i < todo.len() ==> !seen.contains(place(#[trigger] todo[i]))
    &&& forall|i: int, j: int|
        0 <= i < j < todo.len() ==> place(#[trigger] todo[i]) != place(#[trigger] todo[j])
    &&& forall|i: int| 0 <= i < todo.len() ==> comes_from(lebs, root, place(#[trigger] todo[i]), seen)
    &&& forall|x: (u32, u32)| #[trigger] seen.contains(x) ==> comes_from(lebs, root, x, seen)
}

proof fn lemma_comes_from_grows(
    lebs: Lebs,
    root: (u32, u32, u32),
    to: (u32, u32),
    seen: Set<(u32, u32)>,
    more: Set<(u32, u32)>,
)
    requires
        seen.subset_of(more),
        comes_from(lebs, root, to, seen),
    ensures
        comes_from(lebs, root, to, more),
{
    if to != place(root) {
        let (from, k) = choose|from: (u32, u32), k: int|
            seen.contains(from) && #[trigger] branches_to(lebs, root, from, k, to);
        assert(more.contains(from) && branches_to(lebs, root, from, k, to));
    }
}

proof fn lemma_branches(lebs: Lebs, root: (u32, u32, u32), r: (u32, u32, u32), n: Seq<u8>, k: int)
    requires
        leads_to_ref(lebs, root, r),
        refers(lebs, r, n),
        is_index(n),
        0 <= k < le_half(n, 24),
    ensures
        branches_to(lebs, root, place(r), k, place(child(n, k))),
{
    reveal(branches_to);
}

/// The references that are left, and those that the last one branches to.
proof fn lemma_unfollowed(
    lebs: Lebs,
    root: (u32, u32, u32),
    todo: Branches,
    seen: Set<(u32, u32)>,
    kids: Branches,
)
    requires
        is_index_tree(lebs, root),
        todo.len() > 0,
        unfollowed(lebs, root, todo, seen),
        forall|k: int|
            0 <= k < kids.len() ==> branches_to(
                lebs,
                root,
                place(todo.last()),
                k,
                place(#[trigger] kids[k]),
            ),
    ensures
        unfollowed(lebs, root, todo.drop_last() + kids, seen.insert(place(todo.last()))),
{
    let r = todo.last();
    let front = todo.drop_last();
    let todo2 = front + kids;
    let seen2 = seen.insert(place(r));
    assert(r == todo[todo.len() - 1]);
    assert(comes_from(lebs, root, place(todo[todo.len() - 1]), seen));
    assert(!seen.contains(place(todo[todo.len() - 1])));
    assert forall|x: (u32, u32)| #[trigger] seen2.contains(x) implies comes_from(
        lebs,
        root,
        x,
        seen2,
    ) by {
        lemma_comes_from_grows(lebs, root, x, seen, seen2);
    }
    assert forall|i: int| 0 <= i < todo2.len() implies !seen2.contains(place(#[trigger] todo2[i])) by {
        if i < front.len() {
            assert(todo2[i] == todo[i]);
            assert(place(todo[i]) != place(todo[todo.len() - 1]));
        } else {
            let k = i - front.len();
            assert(todo2[i] == kids[k]);
            lemma_branch_is_new(lebs, root, place(r), k, place(kids[k]), seen);
        }
    }
    assert forall|i: int| 0 <= i < todo2.len() implies comes_from(
        lebs,
        root,
        place(#[trigger] todo2[i]),
        seen2,
    ) by {
        if i < front.len() {
            assert(todo2[i] == todo[i]);
            lemma_comes_from_grows(lebs, root, place(todo[i]), seen, seen2);
        } else {
            let k = i - front.len();
            assert(todo2[i] == kids[k]);
            assert(seen2.contains(place(r)) && branches_to(
                lebs,
                root,
                place(r),
                k,
                place(kids[k]),
            ));
        }
    }
    assert forall|i: int, j: int| 0 <= i < j < todo2.len() implies place(#[trigger] todo2[i])
        != place(#[trigger] todo2[j]) by {
        if j < front.len() {
            assert(todo2[i] == todo[i] && todo2[j] == todo[j]);
        } else {
            let k = j - front.len();
            assert(todo2[j] == kids[k]);
            if i < front.len() {
                assert(todo2[i] == todo[i]);
                assert(comes_from(lebs, root, place(todo[i]), seen));
                lemma_branch_is_new(lebs, root, place(r), k, place(kids[k]), seen);
            } else {
                let h = i - front.len();
                assert(todo2[i] == kids[h]);
                assert(branches_to(lebs, root, place(r), h, place(kids[h])));
                assert(branches_to(lebs, root, place(r), k, place(kids[k])));
            }
        }
    }
}

/// A branch from a place that was not seen leads to none that comes from one that was.
proof fn lemma_branch_is_new(
    lebs: Lebs,
    root: (u32, u32, u32),
    from: (u32, u32),
    k: int,
    to: (u32, u32),
    seen: Set<(u32, u32)>,
)
    requires
        is_index_tree(lebs, root),
        branches_to(lebs, root, from, k, to),
        !seen.contains(from),
    ensures
        !comes_from(lebs, root, to, seen),
{
    if comes_from(lebs, root, to, seen) {
        let (other, j) = choose|other: (u32, u32), j: int|
            seen.contains(other) && #[trigger] branches_to(lebs, root, other, j, to);
        assert(branches_to(lebs, root, other, j, to) && branches_to(lebs, root, from, k, to));
    }
}

proof fn lemma_tree_read(
    lebs: Lebs,
    root: (u32, u32, u32),
    todo: Branches,
    seen: Set<(u32, u32)>,
    ix: IndexModel,
)
    requires
        forall|r: (u32, u32, u32)| #[trigger] leads_to_ref(lebs, root, r) ==> is_good(lebs, r),
        is_index_tree(lebs, root),
        forall|i: int| 0 <= i < todo.len() ==> #[trigger] leads_to_ref(lebs, root, todo[i]),
        unfollowed(lebs, root, todo, seen),
        tree::sorted(ix.dents),
    ensures
        ubifs::index_from(lebs, todo, seen, ix) is Ok,
    decreases 0x1_0000_0000_0000_0000 - seen.len(),
{
    if todo.len() > 0 {
        let r = todo.last();
        let front = todo.drop_last();
        assert(leads_to_ref(lebs, root, todo[todo.len() - 1]));
        assert(is_good(lebs, r));
        let n = choose|n: Seq<u8>| #[trigger] refers(lebs, r, n) && is_indexed(n);
        intact_node_is_read(lebs[r.0], r.1 as int, n);
        lemma_followed(lebs, root, r, n);
        let none = DentModel { parent: 0, name: Seq::empty(), version: 0, ino: 0 };
        node_adds_what_it_gives(n, front, ix, none);
        let (todo2, ix2) = ubifs::visit(n, front, ix)->Ok_0;
        lemma_visit(n, front, ix);
        assert(!seen.contains(place(todo[todo.len() - 1])));
        ubifs::lemma_offset_set(seen);
        ubifs::lemma_offset_set(seen.insert((r.0, r.1)));
        lemma_refs_lead(lebs, root, todo, n, todo2);
        let kids = if n[20] == 9 {
            Seq::new(le_half(n, 24) as nat, |k: int| child(n, k))
        } else {
            Seq::empty()
        };
        assert(todo2 =~= front + kids);
        assert forall|k: int| 0 <= k < kids.len() implies branches_to(
            lebs,
            root,
            place(r),
            k,
            place(#[trigger] kids[k]),
        ) by {
            lemma_branches(lebs, root, r, n, k);
        }
        lemma_unfollowed(lebs, root, todo, seen, kids);
        lemma_tree_read(lebs, root, todo2, seen.insert((r.0, r.1)), ix2);
    }
}

proof fn lemma_refs_lead(
    lebs: Lebs,
    root: (u32, u32, u32),
    todo: Branches,
    n: Seq<u8>,
    todo2: Branches,
)
    requires
        todo.len() > 0,
        forall|i: int| 0 <= i < todo.len() ==> #[trigger] leads_to_ref(lebs, root, todo[i]),
        leads_to(lebs, root, n),
        n[20] != 9 ==> todo2 == todo.drop_last(),
        n[20] == 9 ==> is_index(n) && todo2 == todo.drop_last() + Seq::new(
            le_half(n, 24) as nat,
            |k: int| child(n, k),
        ),
    ensures
        forall|i: int| 0 <= i < todo2.len() ==> #[trigger] leads_to_ref(lebs, root, todo2[i]),
{
    let front = todo.drop_last();
    assert forall|i: int| 0 <= i < todo2.len() implies #[trigger] leads_to_ref(
        lebs,
        root,
        todo2[i],
    ) by {
        if i < front.len() {
            assert(leads_to_ref(lebs, root, todo[i]));
            assert(todo2[i] == todo[i]);
        } else {
            let k = i - front.len();
            assert(todo2[i] == child(n, k));
            assert(is_child(n, todo2[i]));
            assert(leads_to(lebs, root, n) && is_child(n, todo2[i]));
        }
    }
}

/// An index that is a tree of intact nodes of known kinds is read.
pub proof fn intact_index_tree_is_read(lebs: Lebs, root: (u32, u32, u32))
    requires
        forall|r: (u32, u32, u32)| #[trigger] leads_to_ref(lebs, root, r) ==> is_good(lebs, r),
        is_index_tree(lebs, root),
    ensures
        ubifs::index_from(lebs, seq![root], Set::empty(), ubifs::empty_index()) is Ok,
{
    let todo = seq![root];
    assert(leads_to_ref(lebs, root, todo[0]));
    assert(unfollowed(lebs, root, todo, Set::empty()));
    lemma_tree_read(lebs, root, todo, Set::empty(), ubifs::empty_index());
}

/// The master node says where the root of the index is, at 48, and at 40 whether the journal holds
/// later changes. A volume with a superblock of the simple key format and a newest master node
/// reads as the files of that index.
pub proof fn master_leads_to_files(lebs: Lebs, sb: Seq<u8>, l: u32, off: int, m: Seq<u8>)
    requires
        lebs.contains_key(0) && stands_at(lebs[0], 0, sb),
        sb[20] == 6 && sb.len() >= 28 && sb[27] == 0,
        ubifs::is_newest_master(lebs, l, off),
        stands_at(lebs[l], off, m) && m.len() >= 60,
    ensures
        ({
            let root = (le(m, 48) as u32, le(m, 52) as u32, le(m, 56) as u32);
            ubifs::volume_files(lebs) == match ubifs::index_from(
                lebs,
                seq![root],
                Set::empty(),
                ubifs::empty_index(),
            ) {
                Err(e) => Err(e),
                Ok(ix) => match paths::all_files(ix, ix.dents) {
                    Err(e) => Err(e),
                    Ok(files) => Ok((files, le(m, 40) % 2 == 1)),
                },
            }
        }),
{
    intact_node_is_read(lebs[0], 0, sb);
    intact_node_is_read(lebs[l], off, m);
    reveal(ubifs::master_at);
    ubifs::newest_master_is_used(lebs, l, off);
    bytes::lemma_le4(m.subrange(40, 44));
    let flags = ubifs::word(m, 40);
    assert(flags & 1 != 0 <==> flags % 2 == 1) by (bit_vector);
}

/// A master node is found wherever an intact node of that kind stands at a multiple of eight bytes
/// in eraseblock 1 or 2, and nowhere else; the last 24 bytes are not searched.
pub proof fn master_nodes_are_found(lebs: Lebs, l: u32, off: int)
    requires
        0 <= off,
    ensures
        ubifs::holds_master(lebs, l, off) <==> {
            &&& l == 1 || l == 2
            &&& lebs.contains_key(l)
            &&& off % 8 == 0 && off + 24 < lebs[l].len()
            &&& exists|n: Seq<u8>| #[trigger] stands_at(lebs[l], off, n) && n[20] == 7
        },
{
    reveal(ubifs::master_at);
    if let Ok(n) = ubifs::node_at(lebs[l], off) {
        intact_node_is_read(lebs[l], off, n);
    }
    if exists|n: Seq<u8>| #[trigger] stands_at(lebs[l], off, n) && n[20] == 7 {
        let n = choose|n: Seq<u8>| #[trigger] stands_at(lebs[l], off, n) && n[20] == 7;
        intact_node_is_read(lebs[l], off, n);
    }
}

/// The data of a data node stands at offset 48, packed by the method at 44: 0 stored, 1 LZO and 2
/// raw DEFLATE. The length at 40 is the unpacked one.
pub proof fn block_is_unpacked(n: Seq<u8>, x: Seq<u8>)
    requires
        48 <= n.len(),
        x.len() == le(n, 40),
        x.len() <= 0x100_0000,
    ensures
        ({
            let r = ubifs::chunk_data(n);
            &&& le_half(n, 44) == 0 ==> (r == Ok::<Seq<u8>, Seq<char>>(x) <==> n.skip(48) == x)
            &&& le_half(n, 44) == 1 ==> r == codec::decompressed(n.skip(48), x.len() as int, 1)
            &&& le_half(n, 44) == 2 ==> r == codec::decompressed(n.skip(48), x.len() as int, 4)
            &&& le_half(n, 44) == 3 || le_half(n, 44) > 4 ==> r is Err
        }),
{
    bytes::lemma_le2(n.subrange(44, 46));
    bytes::lemma_le4(n.subrange(40, 44));
}

/// A regular file has the size that its inode gives; what is no regular file has none.
pub proof fn sizes_tell_files(ix: IndexModel, ino: u64)
    ensures
        ix.file_size(ino) is Some == ix.sizes.contains_key(ino),
        ix.file_size(ino) matches Some(size) ==> size == ix.sizes[ino],
{
}

/// The block can be written into a file of `size` bytes: it unpacks, and begins inside the file.
pub open spec fn is_writable(c: ChunkModel, size: int) -> bool {
    ubifs::chunk_data(c.node) is Ok && c.block * 4096 < size
}

proof fn lemma_blocks_written(chunks: Seq<ChunkModel>, i: int, ino: u64, out: Seq<u8>)
    requires
        0 <= i <= chunks.len(),
        out.len() <= usize::MAX,
    ensures
        ubifs::blocks_written(chunks, i, ino, out) is Ok <==> forall|j: int|
            i <= j < chunks.len() && (#[trigger] chunks[j]).ino == ino ==> is_writable(
                chunks[j],
                out.len() as int,
            ),
    decreases chunks.len() - i,
{
    if i < chunks.len() {
        if chunks[i].ino != ino {
            lemma_blocks_written(chunks, i + 1, ino, out);
        } else {
            assert(chunks[i].ino == ino);
            if is_writable(chunks[i], out.len() as int) {
                let data = ubifs::chunk_data(chunks[i].node)->Ok_0;
                let next = ubifs::block_written(out, chunks[i].block, data)->Ok_0;
                lemma_blocks_written(chunks, i + 1, ino, next);
            }
        }
    }
}

/// A file is read wherever all of its blocks can be written into it.
pub proof fn files_with_good_blocks_are_read(ix: IndexModel, ino: u64, size: usize)
    ensures
        ix.content(ino, size) is Ok <==> forall|j: int|
            0 <= j < ix.chunks.len() && (#[trigger] ix.chunks[j]).ino == ino ==> is_writable(
                ix.chunks[j],
                size as int,
            ),
{
    lemma_blocks_written(ix.chunks, 0, ino, bytes::repeated(size as nat, 0));
}

/// A volume without a superblock of the simple key format is refused, and so is one without a
/// master node.
pub proof fn other_volumes_are_refused(lebs: Lebs)
    ensures
        ubifs::volume_files(lebs) is Ok ==> {
            &&& lebs.contains_key(0)
            &&& exists|sb: Seq<u8>| #[trigger]
                stands_at(lebs[0], 0, sb) && sb[20] == 6 && sb.len() >= 28 && sb[27] == 0
            &&& ubifs::master_of(lebs) is Some
        },
{
    if ubifs::volume_files(lebs) is Ok {
        let sb = ubifs::node_at(lebs[0], 0)->Ok_0;
        intact_node_is_read(lebs[0], 0, sb);
    }
}

/// Every file of the root directory that the index leads to is read, under its name and with its
/// size, through however many index nodes its entry and its inode are reached.
pub proof fn reached_files_are_read(
    lebs: Lebs,
    root: (u32, u32, u32),
    ix: IndexModel,
    entry: Seq<u8>,
    inode: Seq<u8>,
    d: DentModel,
    size: usize,
)
    requires
        ubifs::index_from(lebs, seq![root], Set::empty(), ubifs::empty_index()) == Ok::<
            IndexModel,
            Seq<char>,
        >(ix),
        leads_to(lebs, root, entry) && gives_entry(entry, d),
        d.parent == 1 && d.ino != 0,
        leads_to(lebs, root, inode) && gives_size(inode, d.ino, size),
        forall|n: Seq<u8>, other: DentModel| #[trigger]
            leads_to(lebs, root, n) && #[trigger] gives_entry(n, other) && tree::same_place(other, d)
                ==> other == d,
        forall|n: Seq<u8>, other: usize| #[trigger]
            leads_to(lebs, root, n) && #[trigger] gives_size(n, d.ino, other) ==> other == size,
    ensures
        paths::all_files(ix, ix.dents) matches Ok(files) ==> {
            &&& files.contains_key(d.name)
            &&& ix.file_size(d.ino) == Some(size)
        },
{
    reached_nodes_count(lebs, root, entry);
    reached_nodes_count(lebs, root, inode);
    only_reached_nodes_count(lebs, root);
    assert(tree::entry_at(ix.dents, d) is Some);
    assert(ix.sizes.contains_key(d.ino));
    assert(size_is_reached(lebs, root, d.ino, ix.sizes[d.ino]));
    let j = tree::rank(ix.dents, 0, d);
    tree::lemma_rank(ix.dents, 0, d);
    assert(entry_is_reached(lebs, root, ix.dents[j]));
    let n = choose|n: Seq<u8>| #[trigger] leads_to(lebs, root, n) && gives_entry(n, ix.dents[j]);
    assert(ix.dents[j] == d);
    let steps = seq![j];
    assert(paths::is_route(ix, ix.dents, steps, 1));
    paths::reachable_files_are_found(ix, ix.dents, steps);
    assert(steps.skip(1) =~= Seq::<int>::empty());
    assert(paths::route_path(ix.dents, steps.skip(1), d.name) == d.name);
    assert(paths::path_in(Seq::empty(), d.name) == d.name);
    assert(paths::route_path(ix.dents, steps, Seq::empty()) == d.name);
}

} // verus!
