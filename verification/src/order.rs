//! The order in which the nodes of a JFFS2 image stand.

use vstd::prelude::*;

use crate::bytes;
use crate::crc;
use crate::jffs2;
use crate::jffs2::ScanModel;
use crate::tree;
use crate::tree::DentModel;

verus! {

/// What a node adds to what was scanned before it.
pub enum Effect {
    Nothing,
    Damage,
    Entry(DentModel),
    Data(u64, Seq<u8>),
}

/// What a directory entry node adds.
pub open spec fn dent_effect(n: Seq<u8>) -> Result<Effect, Seq<char>> {
    match bytes::slice_at(n, 0, 36) {
        Err(e) => Err(e),
        Ok(_) => if crc::register(n.take(32), 0) != jffs2::word(n, 32) {
            Ok(Effect::Damage)
        } else {
            match bytes::slice_at(n, 40, n[28] as int) {
                Err(e) => Err(e),
                Ok(raw) => if crc::register(raw, 0) != jffs2::word(n, 36) {
                    Ok(Effect::Damage)
                } else {
                    match tree::entry_name(raw) {
                        Err(e) => Err(e),
                        Ok(name) => Ok(
                            Effect::Entry(
                                DentModel {
                                    parent: jffs2::word(n, 12) as u64,
                                    name,
                                    version: jffs2::version(n),
                                    ino: jffs2::word(n, 20) as u64,
                                },
                            ),
                        ),
                    }
                },
            }
        },
    }
}

/// What an inode node adds.
pub open spec fn inode_effect(n: Seq<u8>) -> Result<Effect, Seq<char>> {
    match bytes::slice_at(n, 0, 68) {
        Err(e) => Err(e),
        Ok(_) => if crc::register(n.take(60), 0) != jffs2::word(n, 64) {
            Ok(Effect::Damage)
        } else {
            match bytes::slice_at(n, 68, jffs2::word(n, 48) as int) {
                Err(e) => Err(e),
                Ok(data) => if crc::register(data, 0) != jffs2::word(n, 60) {
                    Ok(Effect::Damage)
                } else {
                    Ok(Effect::Data(jffs2::word(n, 12) as u64, n))
                },
            }
        },
    }
}

/// What a node of a kind adds, whatever was scanned before it, or why the image is refused.
pub open spec fn node_effect(n: Seq<u8>, kind: u16) -> Result<Effect, Seq<char>> {
    if kind & 0x2000 == 0 {
        Ok(Effect::Nothing)
    } else if crc::register(n.take(8), 0) != jffs2::word(n, 8) {
        Ok(Effect::Damage)
    } else if kind == 0xe001 {
        dent_effect(n)
    } else if kind == 0xe002 {
        inode_effect(n)
    } else {
        Ok(Effect::Nothing)
    }
}

/// What was scanned, with what one more node adds.
pub open spec fn applied(st: ScanModel, f: Effect) -> ScanModel {
    match f {
        Effect::Nothing => st,
        Effect::Damage => jffs2::with_damage(st),
        Effect::Entry(d) => ScanModel { dents: tree::with_newer(st.dents, d), ..st },
        Effect::Data(ino, n) => ScanModel {
            inodes: st.inodes.insert(
                ino,
                jffs2::with_version(jffs2::nodes_of(st.inodes, ino), n),
            ),
            ..st
        },
    }
}

/// What a node adds does not depend on what was scanned before it.
pub proof fn effect_is_its_own(n: Seq<u8>, kind: u16, st: ScanModel)
    ensures
        jffs2::take_node(n, kind, st) == match node_effect(n, kind) {
            Ok(f) => Ok::<ScanModel, Seq<char>>(applied(st, f)),
            Err(e) => Err(e),
        },
{
}

/// One node, with the bytes that fill it up to a multiple of four.
pub open spec fn is_node(e: Seq<u8>) -> bool {
    &&& e.len() >= 12
    &&& bytes::le_value(e.subrange(0, 2)) == 0x1985
    &&& 12 <= jffs2::word(e, 4)
    &&& jffs2::padded(jffs2::word(e, 4) as int) == e.len()
}

/// What a node adds, read from its own header.
pub open spec fn effect(e: Seq<u8>) -> Result<Effect, Seq<char>> {
    node_effect(
        e.take(jffs2::word(e, 4) as int),
        bytes::le_value(e.subrange(2, 4)) as u16,
    )
}

/// The image that the nodes make, one behind the other.
pub open spec fn image_of(nodes: Seq<Seq<u8>>) -> Seq<u8>
    decreases nodes.len(),
{
    if nodes.len() == 0 {
        Seq::empty()
    } else {
        nodes[0] + image_of(nodes.skip(1))
    }
}

/// All of the nodes can be read.
pub open spec fn readable(nodes: Seq<Seq<u8>>) -> bool {
    forall|i: int| 0 <= i < nodes.len() ==> effect(#[trigger] nodes[i]) is Ok
}

/// What was scanned, with what all of the nodes add.
pub open spec fn gathered(nodes: Seq<Seq<u8>>, st: ScanModel) -> ScanModel
    decreases nodes.len(),
{
    if nodes.len() == 0 {
        st
    } else {
        gathered(nodes.skip(1), applied(st, effect(nodes[0])->Ok_0))
    }
}

/// The image is made of the nodes, behind what stands in front.
proof fn lemma_scan(front: Seq<u8>, nodes: Seq<Seq<u8>>, st: ScanModel)
    requires
        forall|i: int| 0 <= i < nodes.len() ==> is_node(#[trigger] nodes[i]),
        front.len() + image_of(nodes).len() <= usize::MAX,
    ensures
        readable(nodes) ==> jffs2::scan_from(
            front + image_of(nodes),
            front.len() as int,
            st,
        ) == Ok::<ScanModel, Seq<char>>(gathered(nodes, st)),
        !readable(nodes) ==> jffs2::scan_from(
            front + image_of(nodes),
            front.len() as int,
            st,
        ) is Err,
    decreases nodes.len(),
{
    let d = front + image_of(nodes);
    let off = front.len() as int;
    if nodes.len() > 0 {
        let e = nodes[0];
        let rest = nodes.skip(1);
        assert(is_node(e));
        let len = jffs2::word(e, 4) as int;
        assert(d =~= (front + e) + image_of(rest));
        assert(d.subrange(off, off + 2) =~= e.subrange(0, 2));
        assert(d.subrange(off + 2, off + 4) =~= e.subrange(2, 4));
        assert(d.subrange(off + 4, off + 8) =~= e.subrange(4, 8));
        assert(d.subrange(off, off + len) =~= e.take(len));
        let kind = bytes::le_value(e.subrange(2, 4)) as u16;
        effect_is_its_own(e.take(len), kind, st);
        assert forall|i: int| 0 <= i < rest.len() implies is_node(#[trigger] rest[i]) by {
            assert(rest[i] == nodes[i + 1]);
        }
        if let Ok(f) = effect(e) {
            lemma_scan(front + e, rest, applied(st, f));
            assert(readable(nodes) == readable(rest)) by {
                if readable(rest) {
                    assert forall|i: int| 0 <= i < nodes.len() implies effect(
                        #[trigger] nodes[i],
                    ) is Ok by {
                        if i > 0 {
                            assert(rest[i - 1] == nodes[i]);
                        }
                    }
                }
                if readable(nodes) {
                    assert forall|i: int| 0 <= i < rest.len() implies effect(
                        #[trigger] rest[i],
                    ) is Ok by {
                        assert(rest[i] == nodes[i + 1]);
                    }
                }
            }
        }
    }
}

/// Two nodes stand for different things of one version: different entries of one name in one
/// directory, or different nodes of one inode.
pub open spec fn rivals(a: Seq<u8>, b: Seq<u8>) -> bool {
    match (effect(a), effect(b)) {
        (Ok(Effect::Entry(c)), Ok(Effect::Entry(d))) => c != d && tree::same_place(c, d)
            && c.version == d.version,
        (Ok(Effect::Data(i, m)), Ok(Effect::Data(j, n))) => m != n && i == j && jffs2::version(m)
            == jffs2::version(n),
        _ => false,
    }
}

/// No two of the nodes are rivals: versions are distinct for each inode, and for each name in a
/// directory.
pub open spec fn versions_distinct(nodes: Seq<Seq<u8>>) -> bool {
    forall|i: int, j: int|
        0 <= i < nodes.len() && 0 <= j < nodes.len() ==> !rivals(nodes[i], nodes[j])
}

/// Entries stand in order, and the nodes of every inode by version.
pub open spec fn in_order(st: ScanModel) -> bool {
    &&& tree::sorted(st.dents)
    &&& forall|ino: u64| #[trigger]
        st.inodes.contains_key(ino) ==> jffs2::versions_sorted(st.inodes[ino])
}

proof fn lemma_applied_in_order(st: ScanModel, f: Effect)
    requires
        in_order(st),
    ensures
        in_order(applied(st, f)),
{
    match f {
        Effect::Entry(d) => {
            tree::newest_entry_stands(st.dents, d, d);
        },
        Effect::Data(ino, n) => {
            jffs2::with_version_keeps_order(jffs2::nodes_of(st.inodes, ino), n);
        },
        _ => {},
    }
}

/// The order in which what two nodes add is taken does not matter, unless they are rivals.
proof fn lemma_swap(st: ScanModel, a: Seq<u8>, b: Seq<u8>)
    requires
        in_order(st),
        effect(a) is Ok,
        effect(b) is Ok,
        !rivals(a, b),
    ensures
        applied(applied(st, effect(a)->Ok_0), effect(b)->Ok_0) == applied(
            applied(st, effect(b)->Ok_0),
            effect(a)->Ok_0,
        ),
{
    match (effect(a)->Ok_0, effect(b)->Ok_0) {
        (Effect::Entry(c), Effect::Entry(d)) => {
            if c != d {
                tree::offers_commute(st.dents, c, d);
            }
        },
        (Effect::Data(i, m), Effect::Data(j, n)) => {
            let x = st.inodes;
            let xm = x.insert(i, jffs2::with_version(jffs2::nodes_of(x, i), m));
            let xn = x.insert(j, jffs2::with_version(jffs2::nodes_of(x, j), n));
            if i == j && m != n {
                jffs2::versions_commute(jffs2::nodes_of(x, i), m, n);
            }
            assert(xm.insert(j, jffs2::with_version(jffs2::nodes_of(xm, j), n)) =~= xn.insert(
                i,
                jffs2::with_version(jffs2::nodes_of(xn, i), m),
            ));
        },
        _ => {},
    }
}

/// A node may as well be taken first.
proof fn lemma_taken_first(nodes: Seq<Seq<u8>>, k: int, st: ScanModel)
    requires
        0 <= k < nodes.len(),
        readable(nodes),
        versions_distinct(nodes),
        in_order(st),
    ensures
        gathered(nodes, st) == gathered(nodes.remove(k), applied(st, effect(nodes[k])->Ok_0)),
    decreases k,
{
    let rest = nodes.skip(1);
    if k == 0 {
        assert(nodes.remove(0) =~= rest);
    } else {
        let first = effect(nodes[0])->Ok_0;
        let taken = effect(nodes[k])->Ok_0;
        assert(rest[k - 1] == nodes[k]);
        assert forall|i: int| 0 <= i < rest.len() implies effect(#[trigger] rest[i]) is Ok by {
            assert(rest[i] == nodes[i + 1]);
        }
        assert forall|i: int, j: int|
            0 <= i < rest.len() && 0 <= j < rest.len() implies !rivals(rest[i], rest[j]) by {
            assert(rest[i] == nodes[i + 1]);
            assert(rest[j] == nodes[j + 1]);
        }
        lemma_applied_in_order(st, first);
        lemma_taken_first(rest, k - 1, applied(st, first));
        assert(effect(nodes[0]) is Ok);
        assert(effect(nodes[k]) is Ok);
        assert(!rivals(nodes[0], nodes[k]));
        lemma_swap(st, nodes[0], nodes[k]);
        let without = nodes.remove(k);
        assert(without[0] == nodes[0]);
        assert(without.skip(1) =~= rest.remove(k - 1));
        assert(gathered(without, applied(st, taken)) == gathered(
            without.skip(1),
            applied(applied(st, taken), first),
        ));
    }
}

/// Where the first of some nodes stands among the same nodes in another order.
proof fn lemma_shared(a: Seq<Seq<u8>>, b: Seq<Seq<u8>>) -> (k: int)
    requires
        a.to_multiset() == b.to_multiset(),
        a.len() > 0,
    ensures
        0 <= k < b.len(),
        b[k] == a[0],
        a.remove(0).to_multiset() == b.remove(k).to_multiset(),
{
    broadcast use vstd::seq_lib::group_to_multiset_ensures;

    assert(a.contains(a[0]));
    assert(a.to_multiset().count(a[0]) > 0);
    assert(b.contains(a[0]));
    let k = choose|k: int| 0 <= k < b.len() && b[k] == a[0];
    a.to_multiset_ensures();
    b.to_multiset_ensures();
    assert(a.remove(0).to_multiset() =~= a.to_multiset().remove(a[0]));
    assert(b.remove(k).to_multiset() =~= b.to_multiset().remove(b[k]));
    k
}

proof fn lemma_reordered(a: Seq<Seq<u8>>, b: Seq<Seq<u8>>, st: ScanModel)
    requires
        a.to_multiset() == b.to_multiset(),
        readable(b),
        versions_distinct(b),
        in_order(st),
    ensures
        gathered(a, st) == gathered(b, st),
    decreases a.len(),
{
    a.to_multiset_ensures();
    b.to_multiset_ensures();
    assert(a.len() == b.len());
    if a.len() > 0 {
        let k = lemma_shared(a, b);
        let rest = b.remove(k);
        assert(a.remove(0) =~= a.skip(1));
        assert(effect(b[k]) is Ok);
        assert forall|i: int| 0 <= i < rest.len() implies effect(#[trigger] rest[i]) is Ok by {
            assert(rest[i] == b[if i < k { i } else { i + 1 }]);
        }
        assert forall|i: int, j: int|
            0 <= i < rest.len() && 0 <= j < rest.len() implies !rivals(rest[i], rest[j]) by {
            assert(rest[i] == b[if i < k { i } else { i + 1 }]);
            assert(rest[j] == b[if j < k { j } else { j + 1 }]);
        }
        lemma_taken_first(b, k, st);
        lemma_applied_in_order(st, effect(b[k])->Ok_0);
        lemma_reordered(a.skip(1), rest, applied(st, effect(b[k])->Ok_0));
    }
}

proof fn lemma_readable(a: Seq<Seq<u8>>, b: Seq<Seq<u8>>)
    requires
        a.to_multiset() == b.to_multiset(),
        readable(b),
    ensures
        readable(a),
{
    broadcast use vstd::seq_lib::group_to_multiset_ensures;

    assert forall|i: int| 0 <= i < a.len() implies effect(#[trigger] a[i]) is Ok by {
        assert(a.contains(a[i]));
        assert(a.to_multiset().count(a[i]) > 0);
        assert(b.contains(a[i]));
        let k = choose|k: int| 0 <= k < b.len() && b[k] == a[i];
        assert(effect(b[k]) is Ok);
    }
}

proof fn lemma_length_without(nodes: Seq<Seq<u8>>, k: int)
    requires
        0 <= k < nodes.len(),
    ensures
        image_of(nodes).len() == nodes[k].len() + image_of(nodes.remove(k)).len(),
    decreases k,
{
    let rest = nodes.skip(1);
    if k == 0 {
        assert(nodes.remove(0) =~= rest);
    } else {
        lemma_length_without(rest, k - 1);
        assert(rest[k - 1] == nodes[k]);
        assert(nodes.remove(k).skip(1) =~= rest.remove(k - 1));
    }
}

proof fn lemma_same_length(a: Seq<Seq<u8>>, b: Seq<Seq<u8>>)
    requires
        a.to_multiset() == b.to_multiset(),
    ensures
        image_of(a).len() == image_of(b).len(),
    decreases a.len(),
{
    a.to_multiset_ensures();
    b.to_multiset_ensures();
    if a.len() > 0 {
        let k = lemma_shared(a, b);
        assert(a.remove(0) =~= a.skip(1));
        lemma_length_without(b, k);
        lemma_same_length(a.skip(1), b.remove(k));
    }
}

/// The order in which nodes stand in an image does not matter, where their versions are distinct
/// for each inode and for each name in a directory: the same nodes in another order are accepted
/// as well, and give the same files and the same warning.
pub proof fn node_order_does_not_matter(nodes: Seq<Seq<u8>>, other: Seq<Seq<u8>>)
    requires
        forall|i: int| 0 <= i < nodes.len() ==> is_node(#[trigger] nodes[i]),
        nodes.to_multiset() == other.to_multiset(),
        versions_distinct(nodes),
        image_of(nodes).len() <= usize::MAX,
    ensures
        jffs2::image_files(image_of(nodes)) is Ok == jffs2::image_files(image_of(other)) is Ok,
        jffs2::image_files(image_of(nodes)) is Ok ==> jffs2::image_files(image_of(nodes))
            == jffs2::image_files(image_of(other)),
{
    broadcast use vstd::seq_lib::group_to_multiset_ensures;

    let st = jffs2::empty_scan();
    assert forall|i: int| 0 <= i < other.len() implies is_node(#[trigger] other[i]) by {
        assert(other.contains(other[i]));
        assert(other.to_multiset().count(other[i]) > 0);
        assert(nodes.contains(other[i]));
        let k = choose|k: int| 0 <= k < nodes.len() && nodes[k] == other[i];
        assert(is_node(nodes[k]));
    }
    lemma_same_length(nodes, other);
    lemma_scan(Seq::empty(), nodes, st);
    lemma_scan(Seq::empty(), other, st);
    assert(Seq::<u8>::empty() + image_of(nodes) =~= image_of(nodes));
    assert(Seq::<u8>::empty() + image_of(other) =~= image_of(other));
    if readable(nodes) {
        lemma_readable(other, nodes);
        lemma_reordered(other, nodes, st);
    } else if readable(other) {
        lemma_readable(nodes, other);
    }
}

} // verus!
