//! JFFS2 images: the scan for intact nodes, and the files that they reconstruct.

use std::collections::BTreeMap;

use vstd::prelude::*;

use crate::bytes;
use crate::codec;
use crate::codec::MAX_FILE;
use crate::crc;
use crate::keys;
use crate::names::Files;
use crate::paths;
use crate::paths::{InodeModel, Inodes};
use crate::text;
use crate::tree;
use crate::tree::{Dent, DentModel, Dents};

verus! {

/// What the nodes of an image give: directory entries, the nodes of each inode ordered by
/// version, and whether a checksum failed.
pub struct ScanModel {
    pub dents: Seq<DentModel>,
    pub inodes: Map<u64, Seq<Seq<u8>>>,
    pub damaged: bool,
}

/// What no nodes give.
pub open spec fn empty_scan() -> ScanModel {
    ScanModel { dents: Seq::empty(), inodes: Map::empty(), damaged: false }
}

/// The same, with a checksum that failed.
pub open spec fn with_damage(st: ScanModel) -> ScanModel {
    ScanModel { damaged: true, ..st }
}

/// The 32-bit little-endian value of four bytes inside `n`.
pub open spec fn word(n: Seq<u8>, o: int) -> u32 {
    bytes::le_value(n.subrange(o, o + 4)) as u32
}

/// The version of an inode node.
pub open spec fn version(n: Seq<u8>) -> u32 {
    word(n, 16)
}

/// From `i` on, the first node of a later version than `n`.
pub open spec fn version_rank(s: Seq<Seq<u8>>, i: int, n: Seq<u8>) -> int
    decreases s.len() - i,
{
    if 0 <= i < s.len() && version(s[i]) <= version(n) {
        version_rank(s, i + 1, n)
    } else {
        i
    }
}

/// The nodes with `n` behind those of its version and before those of later ones.
pub open spec fn with_version(s: Seq<Seq<u8>>, n: Seq<u8>) -> Seq<Seq<u8>> {
    s.insert(version_rank(s, 0, n), n)
}

/// Nodes stand in the order of their versions.
pub open spec fn versions_sorted(s: Seq<Seq<u8>>) -> bool {
    forall|i: int, j: int| 0 <= i < j < s.len() ==> version(s[i]) <= version(s[j])
}

pub proof fn lemma_version_rank(s: Seq<Seq<u8>>, i: int, n: Seq<u8>)
    requires
        0 <= i <= s.len(),
    ensures
        i <= version_rank(s, i, n) <= s.len(),
        forall|j: int| i <= j < version_rank(s, i, n) ==> version(s[j]) <= version(n),
        version_rank(s, i, n) < s.len() ==> version(s[version_rank(s, i, n)]) > version(n),
    decreases s.len() - i,
{
    if i < s.len() && version(s[i]) <= version(n) {
        lemma_version_rank(s, i + 1, n);
    }
}

/// Adding a node keeps the nodes of an inode in the order of their versions, and the newest
/// of them, the last scanned among equal ones, stands last.
pub proof fn with_version_keeps_order(s: Seq<Seq<u8>>, n: Seq<u8>)
    requires
        versions_sorted(s),
    ensures
        versions_sorted(with_version(s, n)),
        with_version(s, n).last() == if s.len() > 0 && version(s.last()) > version(n) {
            s.last()
        } else {
            n
        },
{
    lemma_version_rank(s, 0, n);
    let k = version_rank(s, 0, n);
    let t = with_version(s, n);
    assert forall|i: int, j: int| 0 <= i < j < t.len() implies version(t[i]) <= version(t[j]) by {
        let a = if i < k { i } else { i - 1 };
        let b = if j < k { j } else { j - 1 };
        if i != k && j != k {
            assert(version(s[a]) <= version(s[b]));
        } else if j == k {
            assert(version(s[i]) <= version(n));
        } else if b > k {
            assert(version(s[k]) <= version(s[b]));
        }
    }
    if s.len() > 0 && k < s.len() {
        if k < s.len() - 1 {
            assert(version(s[k]) <= version(s[s.len() - 1]));
        }
        assert(t.last() == s.last());
    } else {
        assert(t.last() == n);
    }
}

proof fn lemma_version_rank_is(s: Seq<Seq<u8>>, i: int, n: Seq<u8>, k: int)
    requires
        0 <= i <= k <= s.len(),
        forall|j: int| i <= j < k ==> version(s[j]) <= version(n),
        k < s.len() ==> version(s[k]) > version(n),
    ensures
        version_rank(s, i, n) == k,
    decreases k - i,
{
    if i < k {
        lemma_version_rank_is(s, i + 1, n, k);
    }
}

proof fn lemma_older_first(s: Seq<Seq<u8>>, a: Seq<u8>, b: Seq<u8>)
    requires
        versions_sorted(s),
        version(a) < version(b),
    ensures
        with_version(with_version(s, a), b) == with_version(with_version(s, b), a),
{
    let i = version_rank(s, 0, a);
    let j = version_rank(s, 0, b);
    lemma_version_rank(s, 0, a);
    lemma_version_rank(s, 0, b);
    if j < i {
        assert(version(s[j]) <= version(a));
    }
    let sa = with_version(s, a);
    let sb = with_version(s, b);
    assert forall|x: int| 0 <= x < j + 1 implies version(sa[x]) <= version(b) by {
        if x < i {
            assert(version(s[x]) <= version(a));
        } else if x > i {
            assert(version(s[x - 1]) <= version(b));
        }
    }
    lemma_version_rank_is(sa, 0, b, j + 1);
    assert forall|x: int| 0 <= x < i implies version(sb[x]) <= version(a) by {
        assert(sb[x] == s[x]);
    }
    lemma_version_rank_is(sb, 0, a, i);
    assert(sa.insert(j + 1, b) =~= sb.insert(i, a));
}

/// The order in which two nodes of an inode are added does not matter, where their versions
/// differ.
pub proof fn versions_commute(s: Seq<Seq<u8>>, a: Seq<u8>, b: Seq<u8>)
    requires
        versions_sorted(s),
        version(a) != version(b),
    ensures
        with_version(with_version(s, a), b) == with_version(with_version(s, b), a),
{
    if version(a) < version(b) {
        lemma_older_first(s, a, b);
    } else {
        lemma_older_first(s, b, a);
    }
}

/// The nodes of an inode, none if it has none.
pub open spec fn nodes_of(inodes: Map<u64, Seq<Seq<u8>>>, ino: u64) -> Seq<Seq<u8>> {
    if inodes.contains_key(ino) {
        inodes[ino]
    } else {
        Seq::empty()
    }
}

/// A directory entry node sets its entry, unless a checksum fails.
pub open spec fn take_dent(n: Seq<u8>, st: ScanModel) -> Result<ScanModel, Seq<char>> {
    match bytes::slice_at(n, 0, 36) {
        Err(e) => Err(e),
        Ok(_) => if crc::register(n.take(32), 0) != word(n, 32) {
            Ok(with_damage(st))
        } else {
            match bytes::slice_at(n, 40, n[28] as int) {
                Err(e) => Err(e),
                Ok(raw) => if crc::register(raw, 0) != word(n, 36) {
                    Ok(with_damage(st))
                } else {
                    match tree::entry_name(raw) {
                        Err(e) => Err(e),
                        Ok(name) => Ok(
                            ScanModel {
                                dents: tree::with_newer(
                                    st.dents,
                                    DentModel {
                                        parent: word(n, 12) as u64,
                                        name,
                                        version: version(n),
                                        ino: word(n, 20) as u64,
                                    },
                                ),
                                ..st
                            },
                        ),
                    }
                },
            }
        },
    }
}

/// An inode node joins the nodes of its inode, unless a checksum fails.
pub open spec fn take_inode(n: Seq<u8>, st: ScanModel) -> Result<ScanModel, Seq<char>> {
    match bytes::slice_at(n, 0, 68) {
        Err(e) => Err(e),
        Ok(_) => if crc::register(n.take(60), 0) != word(n, 64) {
            Ok(with_damage(st))
        } else {
            match bytes::slice_at(n, 68, word(n, 48) as int) {
                Err(e) => Err(e),
                Ok(data) => if crc::register(data, 0) != word(n, 60) {
                    Ok(with_damage(st))
                } else {
                    let ino = word(n, 12) as u64;
                    Ok(
                        ScanModel {
                            inodes: st.inodes.insert(
                                ino,
                                with_version(nodes_of(st.inodes, ino), n),
                            ),
                            ..st
                        },
                    )
                },
            }
        },
    }
}

/// What a node adds. One that was marked obsolete adds nothing, and neither does one whose
/// checksum fails.
pub open spec fn take_node(n: Seq<u8>, kind: u16, st: ScanModel) -> Result<ScanModel, Seq<char>> {
    if kind & 0x2000 == 0 {
        Ok(st)
    } else if crc::register(n.take(8), 0) != word(n, 8) {
        Ok(with_damage(st))
    } else if kind == 0xe001 {
        take_dent(n, st)
    } else if kind == 0xe002 {
        take_inode(n, st)
    } else {
        Ok(st)
    }
}

/// The next multiple of four.
pub open spec fn padded(len: int) -> int {
    (len + 3) / 4 * 4
}

/// What the nodes from offset `off` on give.
pub open spec fn scan_from(d: Seq<u8>, off: int, st: ScanModel) -> Result<ScanModel, Seq<char>>
    decreases d.len() + 4 - off,
{
    if off + 12 > d.len() {
        Ok(st)
    } else if bytes::le_value(d.subrange(off, off + 2)) != 0x1985 {
        scan_from(d, off + 4, st)
    } else {
        let kind = bytes::le_value(d.subrange(off + 2, off + 4)) as u16;
        let len = word(d, off + 4) as int;
        if len < 12 {
            Err("Invalid JFFS2 node length"@)
        } else {
            match bytes::slice_at(d, off, len) {
                Err(e) => Err(e),
                Ok(n) => if off + padded(len) > usize::MAX {
                    Err("JFFS2 offset overflow"@)
                } else {
                    match take_node(n, kind, st) {
                        Err(e) => Err(e),
                        Ok(st2) => scan_from(d, off + padded(len), st2),
                    }
                },
            }
        }
    }
}

/// The data that an inode node holds, by its compression method.
pub open spec fn node_data(n: Seq<u8>) -> Result<Seq<u8>, Seq<char>> {
    let input = n.subrange(68, 68 + word(n, 48));
    let expected = word(n, 52) as int;
    if n[56] == 0 {
        codec::decompressed(input, expected, 0)
    } else if n[56] == 1 {
        Ok(bytes::repeated(expected as nat, 0))
    } else if n[56] == 2 {
        codec::rtime_decoded(input, expected)
    } else if n[56] == 6 {
        codec::decompressed(input, expected, 2)
    } else if n[56] == 7 {
        codec::decompressed(input, expected, 1)
    } else {
        Err("Unsupported JFFS2 compression type "@ + text::decimal(n[56] as nat))
    }
}

/// A file cut or extended with zeros to `size` bytes.
pub open spec fn resized(out: Seq<u8>, size: int) -> Seq<u8> {
    Seq::new(size as nat, |i: int| if i < out.len() { out[i] } else { 0 })
}

/// A file with data written at an offset.
pub open spec fn data_written(out: Seq<u8>, offset: int, data: Seq<u8>) -> Result<
    Seq<u8>,
    Seq<char>,
> {
    if offset + data.len() > usize::MAX {
        Err("JFFS2 data offset overflow"@)
    } else if offset + data.len() > out.len() {
        Err("JFFS2 data exceeds the inode size"@)
    } else {
        Ok(bytes::splice(out, offset, data))
    }
}

/// A file after one more inode node: the node sets its size and writes its data.
pub open spec fn node_applied(out: Seq<u8>, n: Seq<u8>) -> Result<Seq<u8>, Seq<char>> {
    if word(n, 28) > MAX_FILE {
        Err("JFFS2 file is too large"@)
    } else {
        match node_data(n) {
            Err(e) => Err(e),
            Ok(data) => data_written(resized(out, word(n, 28) as int), word(n, 44) as int, data),
        }
    }
}

/// A file after the nodes from `i` on.
pub open spec fn nodes_applied(s: Seq<Seq<u8>>, i: int, out: Seq<u8>) -> Result<Seq<u8>, Seq<char>>
    decreases s.len() - i,
{
    if i >= s.len() {
        Ok(out)
    } else {
        match node_applied(out, s[i]) {
            Err(e) => Err(e),
            Ok(out2) => nodes_applied(s, i + 1, out2),
        }
    }
}

impl InodeModel for ScanModel {
    open spec fn file_size(self, ino: u64) -> Option<usize> {
        if self.inodes.contains_key(ino) && word(self.inodes[ino].last(), 20) & 0xf000 == 0x8000 {
            Some(word(self.inodes[ino].last(), 28) as usize)
        } else {
            None
        }
    }

    open spec fn content(self, ino: u64, size: usize) -> Result<Seq<u8>, Seq<char>> {
        if !self.inodes.contains_key(ino) {
            Err("JFFS2 inode is missing"@)
        } else {
            match nodes_applied(self.inodes[ino], 0, Seq::empty()) {
                Err(e) => Err(e),
                Ok(out) => if out.len() != size {
                    Err("JFFS2 file length mismatch"@)
                } else {
                    Ok(out)
                },
            }
        }
    }
}

/// The files of an image, and whether a checksum failed.
pub open spec fn image_files(d: Seq<u8>) -> Result<(Map<Seq<char>, Seq<u8>>, bool), Seq<char>> {
    match scan_from(d, 0, empty_scan()) {
        Err(e) => Err(e),
        Ok(st) => match paths::all_files(st, st.dents) {
            Err(e) => Err(e),
            Ok(files) => Ok((files, st.damaged)),
        },
    }
}

/// A node whose header checksum fails changes nothing but the warning: the other copies of
/// what it held are used as if it were not there.
pub proof fn damaged_header_is_skipped(n: Seq<u8>, kind: u16, st: ScanModel)
    requires
        kind & 0x2000 != 0,
        crc::register(n.take(8), 0) != word(n, 8),
    ensures
        take_node(n, kind, st) == Ok::<ScanModel, Seq<char>>(with_damage(st)),
{
}

/// An inode node whose header or data checksum fails changes nothing but the warning.
pub proof fn damaged_inode_is_skipped(n: Seq<u8>, st: ScanModel)
    requires
        68 <= n.len() <= usize::MAX,
        crc::register(n.take(60), 0) != word(n, 64) || (68 + word(n, 48) <= n.len()
            && crc::register(n.subrange(68, 68 + word(n, 48)), 0) != word(n, 60)),
    ensures
        take_inode(n, st) == Ok::<ScanModel, Seq<char>>(with_damage(st)),
{
}

/// Nodes, seen as their bytes.
pub open spec fn nodes_model(v: Seq<&[u8]>) -> Seq<Seq<u8>> {
    Seq::new(v.len(), |i: int| v[i]@)
}

/// The nodes of every inode, seen as their bytes.
pub open spec fn inodes_model(m: Map<u64, Vec<&[u8]>>) -> Map<u64, Seq<Seq<u8>>> {
    Map::new(|k: u64| m.contains_key(k), |k: u64| nodes_model(m[k]@))
}

/// An inode node holds its header and its data.
pub open spec fn complete(n: Seq<u8>) -> bool {
    68 <= n.len() && 68 + word(n, 48) <= n.len()
}

/// What the nodes of an image give.
pub struct Scan<'a> {
    dents: Dents,
    inodes: BTreeMap<u64, Vec<&'a [u8]>>,
    damaged: bool,
}

impl<'a> View for Scan<'a> {
    type V = ScanModel;

    closed spec fn view(&self) -> ScanModel {
        ScanModel {
            dents: self.dents@,
            inodes: inodes_model(self.inodes@),
            damaged: self.damaged,
        }
    }
}

fn word_of(n: &[u8], o: usize) -> (r: u32)
    requires
        o + 4 <= n@.len(),
    ensures
        r == word(n@, o as int),
{
    proof {
        bytes::lemma_le4(n@.subrange(o as int, o + 4));
    }
    assert(o + 4 <= n.len());
    match bytes::le32(n, o) {
        Ok(v) => v,
        Err(_) => 0,
    }
}

/// Adds a node behind those of its version.
fn insert_by_version<'a>(nodes: &mut Vec<&'a [u8]>, n: &'a [u8])
    requires
        complete(n@),
        forall|i: int| 0 <= i < old(nodes)@.len() ==> complete(#[trigger] old(nodes)@[i]@),
        versions_sorted(nodes_model(old(nodes)@)),
    ensures
        nodes_model(final(nodes)@) == with_version(nodes_model(old(nodes)@), n@),
        forall|i: int| 0 <= i < final(nodes)@.len() ==> complete(#[trigger] final(nodes)@[i]@),
        versions_sorted(nodes_model(final(nodes)@)),
        final(nodes)@.len() > 0,
{
    let ghost start = nodes_model(nodes@);
    let ghost before = nodes@;
    proof {
        with_version_keeps_order(start, n@);
    }
    let ver = word_of(n, 16);
    let mut i: usize = 0;
    while i < nodes.len() && word_of(nodes[i], 16) <= ver
        invariant
            i <= nodes.len(),
            nodes@ == before,
            start == nodes_model(before),
            ver == version(n@),
            forall|j: int| 0 <= j < before.len() ==> complete(#[trigger] before[j]@),
            version_rank(start, 0, n@) == version_rank(start, i as int, n@),
        decreases nodes.len() - i,
    {
        assert(start[i as int] == nodes@[i as int]@);
        i += 1;
    }
    if i < nodes.len() {
        assert(start[i as int] == nodes@[i as int]@);
    }
    nodes.insert(i, n);
    assert(nodes_model(nodes@) =~= start.insert(i as int, n@));
}

impl<'a> Scan<'a> {
    /// The directory entries stand in order; every inode has nodes, all complete and ordered by
    /// version.
    pub closed spec fn ordered(self) -> bool {
        &&& self.dents.wf()
        &&& forall|k: u64| #[trigger]
            self.inodes@.contains_key(k) ==> {
                &&& self.inodes@[k]@.len() > 0
                &&& versions_sorted(nodes_model(self.inodes@[k]@))
                &&& forall|i: int|
                    0 <= i < self.inodes@[k]@.len() ==> complete(#[trigger] self.inodes@[k]@[i]@)
            }
    }

    /// What no nodes give.
    fn new() -> (r: Self)
        ensures
            r.ordered(),
            r@ == empty_scan(),
    {
        let r = Scan { dents: Dents::new(), inodes: BTreeMap::new(), damaged: false };
        assert(r@.inodes =~= Map::empty());
        r
    }

    /// The directory entries.
    fn entries(&self) -> (r: &Dents)
        ensures
            r@ == self@.dents,
    {
        &self.dents
    }

    /// Whether a checksum failed.
    fn is_damaged(&self) -> (r: bool)
        ensures
            r == self@.damaged,
    {
        self.damaged
    }

    /// Takes a directory entry node.
    fn add_dent(&mut self, n: &[u8]) -> (r: Result<(), String>)
        requires
            old(self).ordered(),
        ensures
            final(self).ordered(),
            match (r, take_dent(n@, old(self)@)) {
                (Ok(_), Ok(st)) => final(self)@ == st,
                (Err(e), Err(m)) => e@ == m,
                _ => false,
            },
    {
        bytes::bytes(n, 0, 36)?;
        assert(n@.subrange(0, 32) =~= n@.take(32));
        if crc::crc32_register(&n[0..32], 0) != word_of(n, 32) {
            self.damaged = true;
            return Ok(());
        }
        let raw = bytes::bytes(n, 40, n[28] as usize)?;
        if crc::crc32_register(raw, 0) != word_of(n, 36) {
            self.damaged = true;
            return Ok(());
        }
        let name = tree::name(raw)?;
        self.dents.put_newer(
            Dent {
                parent: word_of(n, 12) as u64,
                name,
                version: word_of(n, 16),
                ino: word_of(n, 20) as u64,
            },
        );
        Ok(())
    }

    /// Takes an inode node.
    fn add_inode(&mut self, n: &'a [u8]) -> (r: Result<(), String>)
        requires
            old(self).ordered(),
        ensures
            final(self).ordered(),
            match (r, take_inode(n@, old(self)@)) {
                (Ok(_), Ok(st)) => final(self)@ == st,
                (Err(e), Err(m)) => e@ == m,
                _ => false,
            },
    {
        bytes::bytes(n, 0, 68)?;
        assert(n@.subrange(0, 60) =~= n@.take(60));
        if crc::crc32_register(&n[0..60], 0) != word_of(n, 64) {
            self.damaged = true;
            return Ok(());
        }
        let data = bytes::bytes(n, 68, word_of(n, 48) as usize)?;
        if crc::crc32_register(data, 0) != word_of(n, 60) {
            self.damaged = true;
            return Ok(());
        }
        proof {
            keys::lemma_ordered_keys();
        }
        let ino: u64 = word_of(n, 12) as u64;
        let ghost before = *self;
        let mut nodes: Vec<&'a [u8]> = match self.inodes.remove(&ino) {
            Some(nodes) => nodes,
            None => Vec::new(),
        };
        assert(nodes_model(nodes@) =~= nodes_of(before@.inodes, ino));
        insert_by_version(&mut nodes, n);
        let ghost added = nodes;
        self.inodes.insert(ino, nodes);
        assert(self.inodes@ =~= before.inodes@.insert(ino, added));
        assert(self@.inodes =~= before@.inodes.insert(
            ino,
            with_version(nodes_of(before@.inodes, ino), n@),
        ));
        Ok(())
    }

    /// Takes a node of any kind.
    fn add_node(&mut self, n: &'a [u8], kind: u16) -> (r: Result<(), String>)
        requires
            old(self).ordered(),
            n@.len() >= 12,
        ensures
            final(self).ordered(),
            match (r, take_node(n@, kind, old(self)@)) {
                (Ok(_), Ok(st)) => final(self)@ == st,
                (Err(e), Err(m)) => e@ == m,
                _ => false,
            },
    {
        // ACCURATE is part of the header CRC; GC clears the bit to mark obsolete nodes.
        if kind & 0x2000 == 0 {
            return Ok(());
        }
        // CRC-valid copies can reconstruct an inode when an older copy is damaged.
        assert(n@.subrange(0, 8) =~= n@.take(8));
        if crc::crc32_register(&n[0..8], 0) != word_of(n, 8) {
            self.damaged = true;
            return Ok(());
        }
        if kind == 0xe001 {
            self.add_dent(n)
        } else if kind == 0xe002 {
            self.add_inode(n)
        } else {
            Ok(())
        }
    }
}

/// Writes the data of an inode node into a file.
pub fn write_data(out: &mut Vec<u8>, offset: usize, data: &[u8]) -> (r: Result<(), String>)
    ensures
        match (r, data_written(old(out)@, offset as int, data@)) {
            (Ok(_), Ok(o)) => final(out)@ == o,
            (Err(e), Err(m)) => e@ == m && final(out)@ == old(out)@,
            _ => false,
        },
{
    match offset.checked_add(data.len()) {
        None => Err("JFFS2 data offset overflow".to_owned()),
        Some(end) => if end > out.len() {
            Err("JFFS2 data exceeds the inode size".to_owned())
        } else {
            bytes::overwrite(out, offset, data);
            Ok(())
        },
    }
}

/// Unpacks the data of an inode node.
fn unpack_node(n: &[u8]) -> (r: Result<Vec<u8>, String>)
    requires
        complete(n@),
    ensures
        text::says(r, node_data(n@)),
{
    let expected: usize = word_of(n, 52) as usize;
    let size: usize = word_of(n, 48) as usize;
    assert(68 + size <= n.len());
    let input = &n[68..68 + size];
    let method = n[56];
    if method == 0 {
        codec::decompress(input, expected, 0)
    } else if method == 1 {
        Ok(bytes::repeat(expected, 0))
    } else if method == 2 {
        codec::rtime(input, expected)
    } else if method == 6 {
        codec::decompress(input, expected, 2)
    } else if method == 7 {
        codec::decompress(input, expected, 1)
    } else {
        let mut message = "Unsupported JFFS2 compression type ".to_owned();
        text::push_decimal(&mut message, method as u64);
        Err(message)
    }
}

/// Applies one inode node to a file.
fn apply_node(out: &mut Vec<u8>, n: &[u8]) -> (r: Result<(), String>)
    requires
        complete(n@),
    ensures
        match (r, node_applied(old(out)@, n@)) {
            (Ok(_), Ok(o)) => final(out)@ == o,
            (Err(e), Err(m)) => e@ == m,
            _ => false,
        },
{
    let size: usize = word_of(n, 28) as usize;
    if size > MAX_FILE {
        return Err("JFFS2 file is too large".to_owned());
    }
    let ghost start = out@;
    out.resize(size, 0);
    assert(out@ =~= resized(start, size as int)) by {
        if size > start.len() {
            assert forall|i: int| 0 <= i < start.len() implies out@[i] == start[i] by {
                assert(out@.subrange(0, start.len() as int)[i] == start[i]);
            }
        }
    }
    let data = unpack_node(n)?;
    write_data(out, word_of(n, 44) as usize, data.as_slice())
}

impl<'a> Inodes for Scan<'a> {
    type Model = ScanModel;

    open spec fn model(&self) -> ScanModel {
        self@
    }

    open spec fn wf(&self) -> bool {
        self.ordered()
    }

    fn size_of(&self, ino: u64) -> (r: Option<usize>) {
        proof {
            keys::lemma_ordered_keys();
        }
        match self.inodes.get(&ino) {
            Some(nodes) => {
                let last = nodes[nodes.len() - 1];
                assert(self@.inodes[ino].last() == last@);
                assert(complete(nodes@[nodes@.len() - 1]@));
                if word_of(last, 20) & 0xf000 == 0x8000 {
                    Some(word_of(last, 28) as usize)
                } else {
                    None
                }
            },
            None => None,
        }
    }

    fn read(&self, ino: u64, size: usize) -> (r: Result<Vec<u8>, String>) {
        proof {
            keys::lemma_ordered_keys();
        }
        let nodes = match self.inodes.get(&ino) {
            Some(nodes) => nodes,
            None => {
                return Err("JFFS2 inode is missing".to_owned());
            },
        };
        let ghost model = nodes_model(nodes@);
        assert(self@.inodes[ino] == model);
        let mut out: Vec<u8> = Vec::new();
        let mut i: usize = 0;
        while i < nodes.len()
            invariant
                i <= nodes@.len(),
                model == nodes_model(nodes@),
                forall|j: int| 0 <= j < nodes@.len() ==> complete(#[trigger] nodes@[j]@),
                self.model().inodes.contains_key(ino),
                self.model().inodes[ino] == model,
                nodes_applied(model, 0, Seq::empty()) == nodes_applied(model, i as int, out@),
            decreases nodes@.len() - i,
        {
            assert(model[i as int] == nodes@[i as int]@);
            apply_node(&mut out, nodes[i])?;
            i += 1;
        }
        if out.len() != size {
            return Err("JFFS2 file length mismatch".to_owned());
        }
        Ok(out)
    }
}

/// The offset behind a node and its padding.
fn next_offset(off: usize, len: usize) -> (r: Option<usize>)
    requires
        off + len <= usize::MAX,
    ensures
        match r {
            Some(next) => next == off + padded(len as int),
            None => off + padded(len as int) > usize::MAX,
        },
        len <= padded(len as int) < len + 4,
{
    let padding: usize = (4 - len % 4) % 4;
    assert(len + padding == padded(len as int));
    (off + len).checked_add(padding)
}

/// Scans an image for nodes.
fn scan<'a>(d: &'a [u8]) -> (r: Result<Scan<'a>, String>)
    ensures
        text::says(r, scan_from(d@, 0, empty_scan())),
        r matches Ok(st) ==> st.ordered(),
{
    let mut st = Scan::new();
    let mut off: usize = 0;
    while d.len() >= 12 && off <= d.len() - 12
        invariant
            st.ordered(),
            scan_from(d@, 0, empty_scan()) == scan_from(d@, off as int, st@),
        decreases d.len() + 4 - off,
    {
        proof {
            bytes::lemma_le2(d@.subrange(off as int, off + 2));
            bytes::lemma_le2(d@.subrange(off + 2, off + 4));
        }
        if bytes::le16(d, off)? != 0x1985 {
            off += 4;
            continue;
        }
        let kind = bytes::le16(d, off + 2)?;
        let len: usize = word_of(d, off + 4) as usize;
        if len < 12 {
            return Err("Invalid JFFS2 node length".to_owned());
        }
        let n = bytes::bytes(d, off, len)?;
        let next = match next_offset(off, len) {
            Some(next) => next,
            None => {
                return Err("JFFS2 offset overflow".to_owned());
            },
        };
        st.add_node(n, kind)?;
        off = next;
    }
    Ok(st)
}

/// Extracts the files of a JFFS2 image. The flag says that a checksum failed, and that intact
/// copies were used.
pub fn jffs2(d: &[u8]) -> (r: Result<(Files, bool), String>)
    ensures
        text::says(r, image_files(d@)),
        r matches Ok((files, _)) ==> files.wf(),
{
    let st = scan(d)?;
    let files = paths::paths(st.entries(), &st)?;
    Ok((files, st.is_damaged()))
}

/// A directory entry node whose header or name checksum fails changes nothing but the warning.
pub proof fn damaged_dent_is_skipped(n: Seq<u8>, st: ScanModel)
    requires
        36 <= n.len() <= usize::MAX,
        crc::register(n.take(32), 0) != word(n, 32) || (40 + n[28] <= n.len() && crc::register(
            n.subrange(40, 40 + n[28]),
            0,
        ) != word(n, 36)),
    ensures
        take_dent(n, st) == Ok::<ScanModel, Seq<char>>(with_damage(st)),
{
}

/// The outcome of a scan, with a checksum that failed.
pub open spec fn damage_noted(r: Result<ScanModel, Seq<char>>) -> Result<ScanModel, Seq<char>> {
    match r {
        Ok(st) => Ok(with_damage(st)),
        Err(e) => Err(e),
    }
}

/// Damage that was met costs nothing but the warning: the scan goes on to the same outcome, and
/// the same files are reconstructed.
pub proof fn damage_only_warns(d: Seq<u8>, off: int, st: ScanModel)
    ensures
        scan_from(d, off, with_damage(st)) == damage_noted(scan_from(d, off, st)),
        paths::all_files(with_damage(st), st.dents) == paths::all_files(st, st.dents),
    decreases d.len() + 4 - off,
{
    paths::files_follow_from_inodes(with_damage(st), st, st.dents);
    if off + 12 > d.len() {
    } else if bytes::le_value(d.subrange(off, off + 2)) != 0x1985 {
        damage_only_warns(d, off + 4, st);
    } else {
        let kind = bytes::le_value(d.subrange(off + 2, off + 4)) as u16;
        let len = word(d, off + 4) as int;
        if len >= 12 {
            if let Ok(n) = bytes::slice_at(d, off, len) {
                assert(take_node(n, kind, with_damage(st)) == damage_noted(
                    take_node(n, kind, st),
                ));
                if let Ok(st2) = take_node(n, kind, st) {
                    damage_only_warns(d, off + padded(len), st2);
                }
            }
        }
    }
}

/// The contents of a file have the size that its newest node gives.
pub proof fn scan_keeps_sizes(st: ScanModel)
    ensures
        paths::keeps_sizes(st),
{
}

/// An image with a node whose checksum fails reads as if that node were passed over, but for the
/// warning.
pub proof fn damaged_node_is_passed_over(d: Seq<u8>, off: int, st: ScanModel)
    requires
        0 <= off,
        off + 12 <= d.len() <= usize::MAX,
        bytes::le_value(d.subrange(off, off + 2)) == 0x1985,
        12 <= word(d, off + 4),
        off + word(d, off + 4) <= d.len(),
        off + padded(word(d, off + 4) as int) <= usize::MAX,
        take_node(
            d.subrange(off, off + word(d, off + 4)),
            bytes::le_value(d.subrange(off + 2, off + 4)) as u16,
            st,
        ) == Ok::<ScanModel, Seq<char>>(with_damage(st)),
    ensures
        scan_from(d, off, st) == damage_noted(
            scan_from(d, off + padded(word(d, off + 4) as int), st),
        ),
{
    damage_only_warns(d, off + padded(word(d, off + 4) as int), st);
}

} // verus!
