//! UBIFS volumes: nodes, the newest master node, the committed index and the files it leads to.

use std::collections::{BTreeMap, BTreeSet};

use vstd::prelude::*;
use vstd::set_lib::*;

use crate::bytes;
use crate::codec;
use crate::crc;
use crate::keys;
use crate::names::Files;
use crate::paths;
use crate::paths::{InodeModel, Inodes};
use crate::text;
use crate::tree;
use crate::tree::{Dent, DentModel, Dents};

verus! {

/// The logical eraseblocks of a volume, by number.
pub type Lebs = Map<u32, Seq<u8>>;

/// The node at an offset of an eraseblock, or why there is none.
pub open spec fn node_at(d: Seq<u8>, offset: int) -> Result<Seq<u8>, Seq<char>> {
    match bytes::slice_at(d, offset, 24) {
        Err(e) => Err(e),
        Ok(h) => if bytes::le_value(h.take(4)) != 0x06101831 {
            Err("Invalid UBIFS node header"@)
        } else {
            match bytes::slice_at(d, offset, bytes::le_value(h.subrange(16, 20)) as int) {
                Err(e) => Err(e),
                Ok(n) => if n.len() < 24 {
                    Err("Invalid UBIFS node length"@)
                } else {
                    match crc::checked(
                        n.skip(8),
                        u32::MAX,
                        bytes::le_value(n.subrange(4, 8)) as u32,
                    ) {
                        Err(e) => Err(e),
                        Ok(_) => Ok(n),
                    }
                },
            }
        },
    }
}

/// The node at an offset of an eraseblock.
pub fn node<'a>(d: &'a [u8], offset: usize) -> (r: Result<&'a [u8], String>)
    ensures
        text::says(r, node_at(d@, offset as int)),
        r matches Ok(n) ==> n@.len() >= 24,
{
    let h = bytes::bytes(d, offset, 24)?;
    let magic = bytes::le32(h, 0)?;
    assert(h@.subrange(0, 4) =~= h@.take(4));
    proof {
        bytes::lemma_le4(h@.take(4));
        bytes::lemma_le4(h@.subrange(16, 20));
    }
    if magic != 0x06101831 {
        return Err("Invalid UBIFS node header".to_owned());
    }
    let n = bytes::bytes(d, offset, bytes::le32(h, 16)? as usize)?;
    if n.len() < 24 {
        return Err("Invalid UBIFS node length".to_owned());
    }
    assert(n@.subrange(8, n@.len() as int) =~= n@.skip(8));
    crc::check_crc(&n[8..n.len()], u32::MAX, bytes::le32(n, 4)?)?;
    Ok(n)
}

/// A node is a superblock with the simple key format.
pub open spec fn superblock_supported(sb: Seq<u8>) -> Result<(), Seq<char>> {
    if sb[20] != 6 {
        Err("Unsupported UBIFS key format"@)
    } else if sb.len() <= 27 {
        Err("UBIFS superblock is truncated"@)
    } else if sb[27] != 0 {
        Err("Unsupported UBIFS key format"@)
    } else {
        Ok(())
    }
}

/// The sequence number of a node.
pub open spec fn sequence_number(n: Seq<u8>) -> nat {
    bytes::le_value(n.subrange(8, 16))
}

/// The master node at an offset of an eraseblock, if there is one.
#[verifier::opaque]
pub open spec fn master_at(d: Seq<u8>, off: int) -> Option<Seq<u8>> {
    match node_at(d, off) {
        Ok(n) => if n[20] == 7 {
            Some(n)
        } else {
            None
        },
        Err(_) => None,
    }
}

/// The newer of the best master node so far and what stands at `off`. A node of the same
/// sequence number does not replace an earlier one.
pub open spec fn newer_master(best: Option<Seq<u8>>, d: Seq<u8>, off: int) -> Option<Seq<u8>> {
    match master_at(d, off) {
        Some(n) => if best is None || sequence_number(n) > sequence_number(best->0) {
            Some(n)
        } else {
            best
        },
        None => best,
    }
}

/// The newest master node of an eraseblock, searched at every eighth byte from `off` on.
pub open spec fn newest_master(best: Option<Seq<u8>>, d: Seq<u8>, off: int) -> Option<Seq<u8>>
    decreases d.len() - off,
{
    if off + 24 >= d.len() {
        best
    } else {
        newest_master(newer_master(best, d, off), d, off + 8)
    }
}

/// The newest master node of the two eraseblocks that hold one.
pub open spec fn master_of(lebs: Lebs) -> Option<Seq<u8>> {
    let first = if lebs.contains_key(1) {
        newest_master(None, lebs[1], 0)
    } else {
        None
    };
    if lebs.contains_key(2) {
        newest_master(first, lebs[2], 0)
    } else {
        first
    }
}

proof fn lemma_sequence_number(n: Seq<u8>)
    requires
        n.len() >= 24,
    ensures
        bytes::le64_at(n, 8) == Ok::<u64, Seq<char>>(sequence_number(n) as u64),
        sequence_number(n) <= u64::MAX,
{
    bytes::lemma_le8(n.subrange(8, 16));
}

fn sequence_of(n: &[u8]) -> (r: u64)
    requires
        n@.len() >= 24,
    ensures
        r == sequence_number(n@),
{
    proof {
        lemma_sequence_number(n@);
    }
    match bytes::le64(n, 8) {
        Ok(v) => v,
        Err(_) => 0,
    }
}

/// An optional node, seen as its bytes.
pub open spec fn option_model(n: Option<&[u8]>) -> Option<Seq<u8>> {
    match n {
        Some(n) => Some(n@),
        None => None,
    }
}

/// Searches one eraseblock for a master node newer than `best`.
fn scan_master<'a>(best: Option<&'a [u8]>, d: &'a [u8]) -> (r: Option<&'a [u8]>)
    requires
        best matches Some(n) ==> n@.len() >= 24,
    ensures
        option_model(r) == newest_master(option_model(best), d@, 0),
        r matches Some(n) ==> n@.len() >= 24,
{
    let mut master: Option<&'a [u8]> = best;
    let mut off: usize = 0;
    while d.len() >= 24 && off < d.len() - 24
        invariant
            master matches Some(n) ==> n@.len() >= 24,
            newest_master(option_model(best), d@, 0) == newest_master(
                option_model(master),
                d@,
                off as int,
            ),
        decreases d.len() - off,
    {
        proof {
            reveal(master_at);
        }
        if let Ok(n) = node(d, off) {
            if n[20] == 7 {
                let newer = match master {
                    Some(old) => sequence_of(n) > sequence_of(old),
                    None => true,
                };
                if newer {
                    master = Some(n);
                }
            }
        }
        off += 8;
    }
    master
}

/// A data node of a file: the block of `ino` that `node` holds.
pub struct ChunkModel {
    pub ino: u64,
    pub block: u32,
    pub node: Seq<u8>,
}

/// Data nodes are ordered by file, then by block.
pub open spec fn chunk_before(a: ChunkModel, b: ChunkModel) -> bool {
    a.ino < b.ino || (a.ino == b.ino && a.block < b.block)
}

/// Data nodes stand in order, each block of a file once.
pub open spec fn chunks_sorted(s: Seq<ChunkModel>) -> bool {
    forall|i: int, j: int| 0 <= i < j < s.len() ==> chunk_before(s[i], s[j])
}

/// From `i` on, the first data node that does not stand before `c`.
pub open spec fn chunk_rank(s: Seq<ChunkModel>, i: int, c: ChunkModel) -> int
    decreases s.len() - i,
{
    if 0 <= i < s.len() && chunk_before(s[i], c) {
        chunk_rank(s, i + 1, c)
    } else {
        i
    }
}

/// The data nodes with `c` at its place; it replaces one that held the same block.
pub open spec fn with_chunk(s: Seq<ChunkModel>, c: ChunkModel) -> Seq<ChunkModel> {
    let i = chunk_rank(s, 0, c);
    if i < s.len() && s[i].ino == c.ino && s[i].block == c.block {
        s.update(i, c)
    } else {
        s.insert(i, c)
    }
}

pub proof fn lemma_chunk_rank(s: Seq<ChunkModel>, i: int, c: ChunkModel)
    requires
        0 <= i <= s.len(),
    ensures
        i <= chunk_rank(s, i, c) <= s.len(),
        forall|j: int| i <= j < chunk_rank(s, i, c) ==> chunk_before(s[j], c),
        chunk_rank(s, i, c) < s.len() ==> !chunk_before(s[chunk_rank(s, i, c)], c),
    decreases s.len() - i,
{
    if i < s.len() && chunk_before(s[i], c) {
        lemma_chunk_rank(s, i + 1, c);
    }
}

/// Putting a data node at its place keeps the order.
pub proof fn with_chunk_keeps_order(s: Seq<ChunkModel>, c: ChunkModel)
    requires
        chunks_sorted(s),
    ensures
        chunks_sorted(with_chunk(s, c)),
{
    let k = chunk_rank(s, 0, c);
    lemma_chunk_rank(s, 0, c);
    let t = with_chunk(s, c);
    assert forall|i: int, j: int| 0 <= i < j < t.len() implies chunk_before(t[i], t[j]) by {
        if t.len() == s.len() {
            assert(chunk_before(s[i], s[j]));
        } else {
            let a = if i < k { i } else { i - 1 };
            let b = if j < k { j } else { j - 1 };
            if i != k && j != k {
                assert(chunk_before(s[a], s[b]));
            } else if j == k {
                assert(chunk_before(s[i], c));
            } else if b > k {
                assert(chunk_before(s[k], s[b]));
            }
        }
    }
}

/// What the index of a volume leads to: directory entries, the sizes of regular files, and
/// their data nodes.
pub struct IndexModel {
    pub dents: Seq<DentModel>,
    pub sizes: Map<u64, usize>,
    pub chunks: Seq<ChunkModel>,
}

/// An index that leads to nothing.
pub open spec fn empty_index() -> IndexModel {
    IndexModel { dents: Seq::empty(), sizes: Map::empty(), chunks: Seq::empty() }
}

/// References still to follow: eraseblock, offset and length. The last is followed first.
pub type Branches = Seq<(u32, u32, u32)>;

/// The 32-bit little-endian value of four bytes inside `n`.
pub open spec fn word(n: Seq<u8>, o: int) -> u32 {
    bytes::le_value(n.subrange(o, o + 4)) as u32
}

/// The branch at offset `o` of an index node.
pub open spec fn branch_at(n: Seq<u8>, o: int) -> (u32, u32, u32) {
    (word(n, o), word(n, o + 4), word(n, o + 8))
}

/// The branches of an index node with the given count.
pub open spec fn branches_of(n: Seq<u8>, count: nat) -> Branches {
    Seq::new(count, |i: int| branch_at(n, 28 + 20 * i))
}

/// An index node adds its branches.
pub open spec fn visit_index(n: Seq<u8>, todo: Branches) -> Result<Branches, Seq<char>> {
    match bytes::le16_at(n, 24) {
        Err(e) => Err(e),
        Ok(count) => if n.len() != 28 + count * 20 {
            Err("Unsupported UBIFS index branch format"@)
        } else {
            Ok(todo + branches_of(n, count as nat))
        },
    }
}

/// An inode node of a regular file sets its size.
pub open spec fn visit_inode(n: Seq<u8>, sizes: Map<u64, usize>) -> Result<
    Map<u64, usize>,
    Seq<char>,
> {
    match bytes::le32_at(n, 104) {
        Err(e) => Err(e),
        Ok(mode) => if mode & 0xf000 != 0x8000 {
            Ok(sizes)
        } else {
            let size = bytes::le_value(n.subrange(48, 56));
            if size > usize::MAX {
                Err("out of range integral type conversion attempted"@)
            } else {
                Ok(sizes.insert(word(n, 24) as u64, size as usize))
            }
        },
    }
}

/// A directory entry node sets its entry.
pub open spec fn visit_dent(n: Seq<u8>, dents: Seq<DentModel>) -> Result<
    Seq<DentModel>,
    Seq<char>,
> {
    match bytes::le16_at(n, 50) {
        Err(e) => Err(e),
        Ok(len) => match bytes::slice_at(n, 56, len as int) {
            Err(e) => Err(e),
            Ok(raw) => match tree::entry_name(raw) {
                Err(e) => Err(e),
                Ok(name) => Ok(
                    tree::with_entry(
                        dents,
                        DentModel {
                            parent: word(n, 24) as u64,
                            name,
                            version: 0,
                            ino: bytes::le_value(n.subrange(40, 48)) as u64,
                        },
                    ),
                ),
            },
        },
    }
}

/// A data node sets its block.
pub open spec fn visit_data(n: Seq<u8>, chunks: Seq<ChunkModel>) -> Result<
    Seq<ChunkModel>,
    Seq<char>,
> {
    match bytes::slice_at(n, 0, 48) {
        Err(e) => Err(e),
        Ok(_) => if word(n, 40) > 4096 {
            Err("UBIFS data block exceeds 4096 bytes"@)
        } else {
            Ok(
                with_chunk(
                    chunks,
                    ChunkModel {
                        ino: word(n, 24) as u64,
                        block: word(n, 28) & 0x1fff_ffff,
                        node: n,
                    },
                ),
            )
        },
    }
}

/// What a node of the index adds, by its type.
pub open spec fn visit(n: Seq<u8>, todo: Branches, ix: IndexModel) -> Result<
    (Branches, IndexModel),
    Seq<char>,
> {
    if n[20] == 9 {
        match visit_index(n, todo) {
            Ok(t) => Ok((t, ix)),
            Err(e) => Err(e),
        }
    } else if n[20] == 0 {
        match visit_inode(n, ix.sizes) {
            Ok(sizes) => Ok((todo, IndexModel { sizes, ..ix })),
            Err(e) => Err(e),
        }
    } else if n[20] == 2 {
        match visit_dent(n, ix.dents) {
            Ok(dents) => Ok((todo, IndexModel { dents, ..ix })),
            Err(e) => Err(e),
        }
    } else if n[20] == 1 {
        match visit_data(n, ix.chunks) {
            Ok(chunks) => Ok((todo, IndexModel { chunks, ..ix })),
            Err(e) => Err(e),
        }
    } else if n[20] == 3 {
        Ok((todo, ix))
    } else {
        Err("UBIFS index contains unknown node type "@ + text::decimal(n[20] as nat))
    }
}

/// No set of eraseblock offsets is larger than their number.
pub proof fn lemma_offset_set(seen: Set<(u32, u32)>)
    ensures
        seen.finite(),
        seen.len() <= 0x1_0000_0000_0000_0000,
{
    let size: int = 0x1_0000_0000_0000_0000;
    let half: int = 0x1_0000_0000;
    let range = set_int_range(0, size);
    lemma_int_range(0, size);
    let f = |p: (u32, u32)| p.0 * half + p.1;
    let image = seen.map(f);
    assert(image.subset_of(range));
    lemma_len_subset(image, range);
    let back = |x: int| ((x / half) as u32, (x % half) as u32);
    assert(image.map(back) =~= seen) by {
        assert forall|p: (u32, u32)| #[trigger] seen.contains(p) implies image.map(back).contains(
            p,
        ) by {
            assert(image.contains(f(p)));
            assert(back(f(p)) == p);
        }
        assert forall|p: (u32, u32)| #[trigger] image.map(back).contains(p) implies seen.contains(
            p,
        ) by {
            let y = choose|y: int| image.contains(y) && back(y) == p;
            let z = choose|z: (u32, u32)| seen.contains(z) && f(z) == y;
            assert(back(f(z)) == z);
        }
    }
    lemma_map_size_bound(image, seen, back);
}

/// The index found from the references `todo` on, where `seen` were followed already.
pub open spec fn index_from(
    lebs: Lebs,
    todo: Branches,
    seen: Set<(u32, u32)>,
    ix: IndexModel,
) -> Result<IndexModel, Seq<char>>
    decreases 0x1_0000_0000_0000_0000 - seen.len(),
{
    if todo.len() == 0 {
        Ok(ix)
    } else {
        let (l, o, len) = todo.last();
        if seen.contains((l, o)) {
            Err("UBIFS index contains a duplicate reference"@)
        } else if !lebs.contains_key(l) {
            Err("UBIFS index references a missing LEB"@)
        } else {
            match node_at(lebs[l], o as int) {
                Err(e) => Err(e),
                Ok(n) => if n.len() != len {
                    Err("UBIFS index node length mismatch"@)
                } else {
                    match visit(n, todo.drop_last(), ix) {
                        Err(e) => Err(e),
                        Ok((todo2, ix2)) => {
                            proof {
                                lemma_offset_set(seen);
                                lemma_offset_set(seen.insert((l, o)));
                            }
                            index_from(lebs, todo2, seen.insert((l, o)), ix2)
                        },
                    }
                },
            }
        }
    }
}

/// The data that a data node holds.
pub open spec fn chunk_data(n: Seq<u8>) -> Result<Seq<u8>, Seq<char>> {
    let method = bytes::le_value(n.subrange(44, 46)) as u16;
    codec::decompressed(n.skip(48), word(n, 40) as int, if method == 2 { 4 } else { method })
}

/// A file with one block written: what the block holds beyond the end of the file is left out.
pub open spec fn block_written(out: Seq<u8>, block: u32, data: Seq<u8>) -> Result<
    Seq<u8>,
    Seq<char>,
> {
    let start = block * 4096;
    if start > usize::MAX {
        Err("Data block offset overflow"@)
    } else if start >= out.len() {
        Err("UBIFS data block exceeds the file size"@)
    } else if start + data.len() <= out.len() {
        Ok(bytes::splice(out, start, data))
    } else {
        Ok(bytes::splice(out, start, data.take(out.len() - start)))
    }
}

/// A file with the blocks of `ino` written, from data node `i` on.
pub open spec fn blocks_written(chunks: Seq<ChunkModel>, i: int, ino: u64, out: Seq<u8>) -> Result<
    Seq<u8>,
    Seq<char>,
>
    decreases chunks.len() - i,
{
    if i >= chunks.len() {
        Ok(out)
    } else if chunks[i].ino != ino {
        blocks_written(chunks, i + 1, ino, out)
    } else {
        match chunk_data(chunks[i].node) {
            Err(e) => Err(e),
            Ok(data) => match block_written(out, chunks[i].block, data) {
                Err(e) => Err(e),
                Ok(out2) => blocks_written(chunks, i + 1, ino, out2),
            },
        }
    }
}

impl InodeModel for IndexModel {
    open spec fn file_size(self, ino: u64) -> Option<usize> {
        if self.sizes.contains_key(ino) {
            Some(self.sizes[ino])
        } else {
            None
        }
    }

    open spec fn content(self, ino: u64, size: usize) -> Result<Seq<u8>, Seq<char>> {
        blocks_written(self.chunks, 0, ino, bytes::repeated(size as nat, 0))
    }
}

/// The files that the committed index of a master node leads to.
pub open spec fn committed_files(lebs: Lebs, master: Seq<u8>) -> Result<
    Map<Seq<char>, Seq<u8>>,
    Seq<char>,
> {
    match bytes::slice_at(master, 56, 4) {
        Err(e) => Err(e),
        Ok(_) => match index_from(
            lebs,
            seq![branch_at(master, 48)],
            Set::empty(),
            empty_index(),
        ) {
            Err(e) => Err(e),
            Ok(ix) => paths::all_files(ix, ix.dents),
        },
    }
}

/// A master node says that the journal holds changes after the last commit.
pub open spec fn dirty(master: Seq<u8>) -> bool {
    word(master, 40) & 1 != 0
}

/// The files of a volume, and whether its journal holds later changes.
pub open spec fn volume_files(lebs: Lebs) -> Result<(Map<Seq<char>, Seq<u8>>, bool), Seq<char>> {
    if !lebs.contains_key(0) {
        Err("UBIFS superblock is missing"@)
    } else {
        match node_at(lebs[0], 0) {
            Err(e) => Err(e),
            Ok(sb) => match superblock_supported(sb) {
                Err(e) => Err(e),
                Ok(_) => match master_of(lebs) {
                    None => Err("UBIFS master node is missing"@),
                    Some(master) => match committed_files(lebs, master) {
                        Err(e) => Err(e),
                        Ok(files) => Ok((files, dirty(master))),
                    },
                },
            },
        }
    }
}

/// The eraseblocks of a volume, seen as their bytes.
pub open spec fn lebs_model(lebs: Map<u32, &[u8]>) -> Lebs {
    Map::new(|l: u32| lebs.contains_key(l), |l: u32| lebs[l]@)
}

/// A data node of a file.
pub struct Chunk<'a> {
    pub ino: u64,
    pub block: u32,
    pub node: &'a [u8],
}

impl<'a> View for Chunk<'a> {
    type V = ChunkModel;

    open spec fn view(&self) -> ChunkModel {
        ChunkModel { ino: self.ino, block: self.block, node: self.node@ }
    }
}

/// What the index of a volume leads to.
pub struct Index<'a> {
    dents: Dents,
    sizes: BTreeMap<u64, usize>,
    chunks: Vec<Chunk<'a>>,
}

impl<'a> View for Index<'a> {
    type V = IndexModel;

    closed spec fn view(&self) -> IndexModel {
        IndexModel {
            dents: self.dents@,
            sizes: self.sizes@,
            chunks: Seq::new(self.chunks@.len(), |i: int| self.chunks@[i]@),
        }
    }
}

/// The word at offset `o` of a node that holds it.
fn word_of(n: &[u8], o: usize) -> (r: u32)
    requires
        o + 4 <= n@.len(),
    ensures
        r == word(n@, o as int),
{
    proof {
        bytes::lemma_le4(n@.subrange(o as int, o + 4));
    }
    assert(o + 4 <= n.len());
    match bytes::le32(n, o) {
        Ok(v) => v,
        Err(_) => 0,
    }
}

/// Adds the branches of an index node.
fn follow_branches(n: &[u8], todo: &mut Vec<(u32, u32, u32)>) -> (r: Result<(), String>)
    ensures
        match (r, visit_index(n@, old(todo)@)) {
            (Ok(_), Ok(t)) => final(todo)@ == t,
            (Err(e), Err(m)) => e@ == m,
            _ => false,
        },
{
    let ghost start = todo@;
    let count: usize = bytes::le16(n, 24)? as usize;
    if n.len() != 28 + count * 20 {
        return Err("Unsupported UBIFS index branch format".to_owned());
    }
    let mut i: usize = 0;
    assert(todo@ =~= start + branches_of(n@, count as nat).take(0));
    while i < count
        invariant
            i <= count,
            count <= 0xffff,
            n@.len() == 28 + count * 20,
            todo@ == start + branches_of(n@, count as nat).take(i as int),
        decreases count - i,
    {
        let o: usize = 28 + 20 * i;
        todo.push((word_of(n, o), word_of(n, o + 4), word_of(n, o + 8)));
        assert(branches_of(n@, count as nat).take(i + 1) =~= branches_of(n@, count as nat).take(
            i as int,
        ).push(branch_at(n@, 28 + 20 * i)));
        i += 1;
        assert(todo@ =~= start + branches_of(n@, count as nat).take(i as int));
    }
    assert(branches_of(n@, count as nat).take(count as int) =~= branches_of(n@, count as nat));
    Ok(())
}

/// Writes one block into a file; `out` has the size of the file.
pub fn write_block(out: &mut Vec<u8>, block: u32, data: &[u8]) -> (r: Result<(), String>)
    ensures
        match (r, block_written(old(out)@, block, data@)) {
            (Ok(_), Ok(o)) => final(out)@ == o,
            (Err(e), Err(m)) => e@ == m && final(out)@ == old(out)@,
            _ => false,
        },
{
    let start: usize = match (block as usize).checked_mul(4096) {
        Some(start) => start,
        None => {
            return Err("Data block offset overflow".to_owned());
        },
    };
    if start >= out.len() {
        return Err("UBIFS data block exceeds the file size".to_owned());
    }
    let room: usize = out.len() - start;
    if data.len() <= room {
        bytes::overwrite(out, start, data);
    } else {
        assert(data@.subrange(0, room as int) =~= data@.take(room as int));
        bytes::overwrite(out, start, &data[0..room]);
    }
    Ok(())
}

impl<'a> Index<'a> {
    /// The directory entries and data nodes stand in order, and every data node has its header.
    pub closed spec fn ordered(self) -> bool {
        &&& self.dents.wf()
        &&& chunks_sorted(self@.chunks)
        &&& forall|i: int| 0 <= i < self.chunks@.len() ==> #[trigger] self.chunks@[i].node@.len()
            >= 48
    }

    /// An index that leads to nothing.
    fn new() -> (r: Self)
        ensures
            r.ordered(),
            r@ == empty_index(),
    {
        let r = Index { dents: Dents::new(), sizes: BTreeMap::new(), chunks: Vec::new() };
        assert(r@.chunks =~= Seq::<ChunkModel>::empty());
        r
    }

    /// The directory entries.
    fn entries(&self) -> (r: &Dents)
        ensures
            r@ == self@.dents,
    {
        &self.dents
    }

    /// Sets the size that an inode node gives.
    fn add_inode(&mut self, n: &[u8]) -> (r: Result<(), String>)
        requires
            old(self).ordered(),
        ensures
            final(self).ordered(),
            match (r, visit_inode(n@, old(self)@.sizes)) {
                (Ok(_), Ok(sizes)) => final(self)@ == (IndexModel { sizes, ..old(self)@ }),
                (Err(e), Err(m)) => e@ == m,
                _ => false,
            },
    {
        proof {
            keys::lemma_ordered_keys();
        }
        let mode = bytes::le32(n, 104)?;
        if mode & 0xf000 == 0x8000 {
            proof {
                bytes::lemma_le8(n@.subrange(48, 56));
            }
            let size = bytes::le64(n, 48)?;
            if size > usize::MAX as u64 {
                return Err("out of range integral type conversion attempted".to_owned());
            }
            let ghost start = self@;
            self.sizes.insert(word_of(n, 24) as u64, size as usize);
            assert(self@.chunks =~= start.chunks);
        }
        Ok(())
    }

    /// Sets the entry that a directory entry node gives.
    fn add_dent(&mut self, n: &[u8]) -> (r: Result<(), String>)
        requires
            old(self).ordered(),
            n@.len() >= 24,
        ensures
            final(self).ordered(),
            match (r, visit_dent(n@, old(self)@.dents)) {
                (Ok(_), Ok(dents)) => final(self)@ == (IndexModel { dents, ..old(self)@ }),
                (Err(e), Err(m)) => e@ == m,
                _ => false,
            },
    {
        let len: usize = bytes::le16(n, 50)? as usize;
        let raw = bytes::bytes(n, 56, len)?;
        let name = tree::name(raw)?;
        proof {
            bytes::lemma_le8(n@.subrange(40, 48));
        }
        let ino = bytes::le64(n, 40)?;
        let ghost start = self@;
        self.dents.put(Dent { parent: word_of(n, 24) as u64, name, version: 0, ino });
        assert(self@.chunks =~= start.chunks);
        Ok(())
    }

    /// Sets the block that a data node holds.
    fn add_data(&mut self, n: &'a [u8]) -> (r: Result<(), String>)
        requires
            old(self).ordered(),
        ensures
            final(self).ordered(),
            match (r, visit_data(n@, old(self)@.chunks)) {
                (Ok(_), Ok(chunks)) => final(self)@ == (IndexModel { chunks, ..old(self)@ }),
                (Err(e), Err(m)) => e@ == m,
                _ => false,
            },
    {
        bytes::bytes(n, 0, 48)?;
        if word_of(n, 40) > 4096 {
            return Err("UBIFS data block exceeds 4096 bytes".to_owned());
        }
        let c = Chunk { ino: word_of(n, 24) as u64, block: word_of(n, 28) & 0x1fff_ffff, node: n };
        let ghost start = self@.chunks;
        let ghost new = c@;
        proof {
            with_chunk_keeps_order(start, new);
        }
        let mut i: usize = 0;
        while i < self.chunks.len() && (self.chunks[i].ino < c.ino || (self.chunks[i].ino == c.ino
            && self.chunks[i].block < c.block))
            invariant
                i <= self.chunks.len(),
                self@.chunks == start,
                new == c@,
                chunk_rank(start, 0, new) == chunk_rank(start, i as int, new),
            decreases self.chunks.len() - i,
        {
            assert(start[i as int] == self.chunks@[i as int]@);
            i += 1;
        }
        if i < self.chunks.len() {
            assert(start[i as int] == self.chunks@[i as int]@);
        }
        if i < self.chunks.len() && self.chunks[i].ino == c.ino && self.chunks[i].block == c.block {
            self.chunks[i] = c;
            assert(self@.chunks =~= start.update(i as int, new));
        } else {
            self.chunks.insert(i, c);
            assert(self@.chunks =~= start.insert(i as int, new));
        }
        Ok(())
    }
}

impl<'a> Inodes for Index<'a> {
    type Model = IndexModel;

    open spec fn model(&self) -> IndexModel {
        self@
    }

    open spec fn wf(&self) -> bool {
        self.ordered()
    }

    fn size_of(&self, ino: u64) -> (r: Option<usize>) {
        proof {
            keys::lemma_ordered_keys();
        }
        match self.sizes.get(&ino) {
            Some(size) => Some(*size),
            None => None,
        }
    }

    fn read(&self, ino: u64, size: usize) -> (r: Result<Vec<u8>, String>) {
        let mut out = bytes::repeat(size, 0);
        let ghost want = self.model().content(ino, size);
        let ghost chunks = self@.chunks;
        let mut i: usize = 0;
        while i < self.chunks.len()
            invariant
                i <= self.chunks@.len(),
                self.ordered(),
                chunks == self@.chunks,
                want == self.model().content(ino, size),
                want == blocks_written(chunks, i as int, ino, out@),
            decreases self.chunks@.len() - i,
        {
            assert(chunks[i as int] == self.chunks@[i as int]@);
            if self.chunks[i].ino == ino {
                let n = self.chunks[i].node;
                assert(n@.subrange(48, n@.len() as int) =~= n@.skip(48));
                proof {
                    bytes::lemma_le2(n@.subrange(44, 46));
                }
                let method = bytes::le16(n, 44)?;
                let data = codec::decompress(
                    &n[48..n.len()],
                    word_of(n, 40) as usize,
                    if method == 2 { 4 } else { method },
                )?;
                write_block(&mut out, self.chunks[i].block, data.as_slice())?;
            }
            i += 1;
        }
        Ok(out)
    }
}

/// Adds what one node of the index gives.
fn visit_node<'a>(n: &'a [u8], todo: &mut Vec<(u32, u32, u32)>, ix: &mut Index<'a>) -> (r: Result<
    (),
    String,
>)
    requires
        n@.len() >= 24,
        old(ix).ordered(),
    ensures
        final(ix).ordered(),
        match (r, visit(n@, old(todo)@, old(ix)@)) {
            (Ok(_), Ok((t, i))) => final(todo)@ == t && final(ix)@ == i,
            (Err(e), Err(m)) => e@ == m,
            _ => false,
        },
{
    let kind = n[20];
    if kind == 9 {
        follow_branches(n, todo)
    } else if kind == 0 {
        ix.add_inode(n)
    } else if kind == 2 {
        ix.add_dent(n)
    } else if kind == 1 {
        ix.add_data(n)
    } else if kind == 3 {
        Ok(())
    } else {
        let mut message = "UBIFS index contains unknown node type ".to_owned();
        text::push_decimal(&mut message, kind as u64);
        Err(message)
    }
}

/// Follows the index from its root.
fn read_index<'a>(lebs: &BTreeMap<u32, &'a [u8]>, root: (u32, u32, u32)) -> (r: Result<
    Index<'a>,
    String,
>)
    ensures
        text::says(
            r,
            index_from(lebs_model(lebs@), seq![root], Set::empty(), empty_index()),
        ),
        r matches Ok(ix) ==> ix.ordered(),
{
    let ghost model = lebs_model(lebs@);
    let mut todo: Vec<(u32, u32, u32)> = Vec::new();
    todo.push(root);
    let mut seen: BTreeSet<(u32, u32)> = BTreeSet::new();
    let mut ix = Index::new();
    assert(todo@ =~= seq![root]);
    loop
        invariant
            model == lebs_model(lebs@),
            ix.ordered(),
            index_from(model, seq![root], Set::empty(), empty_index()) == index_from(
                model,
                todo@,
                seen@,
                ix@,
            ),
        decreases 0x1_0000_0000_0000_0000 - seen@.len(),
    {
        let ghost stack = todo@;
        let (l, o, len) = match todo.pop() {
            Some(next) => next,
            None => {
                return Ok(ix);
            },
        };
        assert(stack.last() == (l, o, len));
        assert(stack.drop_last() =~= todo@);
        proof {
            keys::lemma_ordered_keys();
            lemma_offset_set(seen@);
            lemma_offset_set(seen@.insert((l, o)));
        }
        if !seen.insert((l, o)) {
            return Err("UBIFS index contains a duplicate reference".to_owned());
        }
        let d: &'a [u8] = match lebs.get(&l) {
            Some(d) => *d,
            None => {
                return Err("UBIFS index references a missing LEB".to_owned());
            },
        };
        let n = node(d, o as usize)?;
        if n.len() != len as usize {
            return Err("UBIFS index node length mismatch".to_owned());
        }
        visit_node(n, &mut todo, &mut ix)?;
    }
}

/// Extracts the files of a UBIFS volume from its logical eraseblocks. The flag says that the
/// journal holds changes after the last commit, which the files do not reflect.
pub fn ubifs(lebs: &BTreeMap<u32, &[u8]>) -> (r: Result<(Files, bool), String>)
    ensures
        text::says(r, volume_files(lebs_model(lebs@))),
        r matches Ok((files, _)) ==> files.wf(),
{
    proof {
        keys::lemma_ordered_keys();
    }
    let sb = match lebs.get(&0) {
        Some(d) => node(d, 0)?,
        None => {
            return Err("UBIFS superblock is missing".to_owned());
        },
    };
    if sb[20] != 6 {
        return Err("Unsupported UBIFS key format".to_owned());
    }
    if sb.len() <= 27 {
        return Err("UBIFS superblock is truncated".to_owned());
    }
    if sb[27] != 0 {
        return Err("Unsupported UBIFS key format".to_owned());
    }
    // The newest valid master node identifies the committed index root.
    let mut master: Option<&[u8]> = None;
    if let Some(d) = lebs.get(&1) {
        master = scan_master(master, d);
    }
    if let Some(d) = lebs.get(&2) {
        master = scan_master(master, d);
    }
    let mst = match master {
        Some(n) => n,
        None => {
            return Err("UBIFS master node is missing".to_owned());
        },
    };
    bytes::bytes(mst, 56, 4)?;
    // The dirty flag is surfaced because the master node still points to the last commit.
    let uncommitted = word_of(mst, 40) & 1 != 0;
    let root = (word_of(mst, 48), word_of(mst, 52), word_of(mst, 56));
    let index = read_index(lebs, root)?;
    let files = paths::paths(index.entries(), &index)?;
    Ok((files, uncommitted))
}

proof fn lemma_blocks_keep_length(chunks: Seq<ChunkModel>, i: int, ino: u64, out: Seq<u8>)
    ensures
        blocks_written(chunks, i, ino, out) matches Ok(after) ==> after.len() == out.len(),
    decreases chunks.len() - i,
{
    if i < chunks.len() {
        if chunks[i].ino != ino {
            lemma_blocks_keep_length(chunks, i + 1, ino, out);
        } else if let Ok(data) = chunk_data(chunks[i].node) {
            if let Ok(out2) = block_written(out, chunks[i].block, data) {
                lemma_blocks_keep_length(chunks, i + 1, ino, out2);
            }
        }
    }
}

/// The contents of a file have the size that its inode gives, whichever blocks it has.
pub proof fn index_keeps_sizes(ix: IndexModel)
    ensures
        paths::keeps_sizes(ix),
{
    assert forall|ino: u64, size: usize| (#[trigger] ix.content(ino, size)) matches Ok(
        d,
    ) implies ix.content(ino, size)->Ok_0.len() == size by {
        lemma_blocks_keep_length(ix.chunks, 0, ino, bytes::repeated(size as nat, 0));
    }
}

proof fn lemma_newest_master(best: Option<Seq<u8>>, d: Seq<u8>, from: int)
    ensures
        best matches Some(n) ==> newest_master(best, d, from) is Some && sequence_number(n)
            <= sequence_number(newest_master(best, d, from)->0),
    decreases d.len() - from,
{
    if from + 24 < d.len() {
        lemma_newest_master(newer_master(best, d, from), d, from + 8);
    }
}

proof fn lemma_master_found(best: Option<Seq<u8>>, d: Seq<u8>, from: int, off: int)
    requires
        0 <= from <= off,
        (off - from) % 8 == 0,
        off + 24 < d.len(),
        master_at(d, off) is Some,
    ensures
        newest_master(best, d, from) is Some,
        sequence_number(master_at(d, off)->0) <= sequence_number(
            newest_master(best, d, from)->0,
        ),
    decreases off - from,
{
    if from < off {
        lemma_master_found(newer_master(best, d, from), d, from + 8, off);
    } else {
        lemma_newest_master(newer_master(best, d, from), d, from + 8);
    }
}

/// A master node is found at offset `off` of the eraseblock `l`, at one of the places searched.
pub open spec fn holds_master(lebs: Lebs, l: u32, off: int) -> bool {
    &&& l == 1 || l == 2
    &&& lebs.contains_key(l)
    &&& 0 <= off && off % 8 == 0 && off + 24 < lebs[l].len()
    &&& master_at(lebs[l], off) is Some
}

/// The master node that is used is the newest intact one: no intact master node of either
/// eraseblock has a later sequence number.
pub proof fn master_is_the_newest(lebs: Lebs, l: u32, off: int)
    requires
        holds_master(lebs, l, off),
    ensures
        master_of(lebs) is Some,
        sequence_number(master_at(lebs[l], off)->0) <= sequence_number(master_of(lebs)->0),
{
    let first = if lebs.contains_key(1) {
        newest_master(None, lebs[1], 0)
    } else {
        None
    };
    if l == 1 {
        lemma_master_found(None, lebs[1], 0, off);
        if lebs.contains_key(2) {
            lemma_newest_master(first, lebs[2], 0);
        }
    } else {
        lemma_master_found(first, lebs[2], 0, off);
    }
}

/// The sequence number of what is found at offset `off` of the eraseblock `l`.
pub open spec fn sequence_at(lebs: Lebs, l: u32, off: int) -> nat {
    sequence_number(master_at(lebs[l], off)->0)
}

/// The master node at this place is the newest: those before it are older, and those behind it
/// are not newer.
pub open spec fn is_newest_master(lebs: Lebs, l: u32, off: int) -> bool {
    &&& holds_master(lebs, l, off)
    &&& forall|l2: u32, off2: int| #[trigger]
        holds_master(lebs, l2, off2) && (l2 < l || (l2 == l && off2 < off)) ==> sequence_at(
            lebs,
            l2,
            off2,
        ) < sequence_at(lebs, l, off)
    &&& forall|l2: u32, off2: int| #[trigger]
        holds_master(lebs, l2, off2) ==> sequence_at(lebs, l2, off2) <= sequence_at(lebs, l, off)
}

proof fn lemma_no_newer(lebs: Lebs, l: u32, from: int, n: Seq<u8>)
    requires
        l == 1 || l == 2,
        lebs.contains_key(l),
        0 <= from,
        from % 8 == 0,
        forall|off2: int| #[trigger]
            holds_master(lebs, l, off2) && from <= off2 ==> sequence_at(lebs, l, off2)
                <= sequence_number(n),
    ensures
        newest_master(Some(n), lebs[l], from) == Some(n),
    decreases lebs[l].len() - from,
{
    if from + 24 < lebs[l].len() {
        if master_at(lebs[l], from) is Some {
            assert(holds_master(lebs, l, from));
        }
        lemma_no_newer(lebs, l, from + 8, n);
    }
}

proof fn lemma_older_before(lebs: Lebs, l: u32, best: Option<Seq<u8>>, from: int, off: int)
    requires
        holds_master(lebs, l, off),
        0 <= from <= off,
        from % 8 == 0,
        best matches Some(n) ==> sequence_number(n) < sequence_at(lebs, l, off),
        forall|off2: int| #[trigger]
            holds_master(lebs, l, off2) && from <= off2 < off ==> sequence_at(lebs, l, off2)
                < sequence_at(lebs, l, off),
    ensures
        newest_master(best, lebs[l], from) == newest_master(
            Some(master_at(lebs[l], off)->0),
            lebs[l],
            off + 8,
        ),
    decreases off - from,
{
    if from < off {
        let next = newer_master(best, lebs[l], from);
        if master_at(lebs[l], from) is Some {
            assert(holds_master(lebs, l, from));
        }
        lemma_older_before(lebs, l, next, from + 8, off);
    }
}

/// What a search of one whole eraseblock gives stood there, unless it was the best before.
proof fn lemma_found_is_held(lebs: Lebs, l: u32, best: Option<Seq<u8>>, from: int)
    requires
        l == 1 || l == 2,
        lebs.contains_key(l),
        0 <= from,
        from % 8 == 0,
    ensures
        newest_master(best, lebs[l], from) == best || exists|off: int|
            from <= off && #[trigger] holds_master(lebs, l, off) && newest_master(
                best,
                lebs[l],
                from,
            ) == Some(master_at(lebs[l], off)->0),
    decreases lebs[l].len() - from,
{
    if from + 24 < lebs[l].len() {
        let next = newer_master(best, lebs[l], from);
        lemma_found_is_held(lebs, l, next, from + 8);
        if next != best {
            assert(holds_master(lebs, l, from));
        }
    }
}

proof fn lemma_newest_in_first(lebs: Lebs, off: int)
    requires
        is_newest_master(lebs, 1, off),
    ensures
        master_of(lebs) == Some(master_at(lebs[1], off)->0),
{
    let n = master_at(lebs[1], off)->0;
    lemma_older_before(lebs, 1, None, 0, off);
    lemma_no_newer(lebs, 1, off + 8, n);
    if lebs.contains_key(2) {
        lemma_no_newer(lebs, 2, 0, n);
    }
}

proof fn lemma_newest_in_second(lebs: Lebs, off: int)
    requires
        is_newest_master(lebs, 2, off),
    ensures
        master_of(lebs) == Some(master_at(lebs[2], off)->0),
{
    let n = master_at(lebs[2], off)->0;
    let first = if lebs.contains_key(1) {
        newest_master(None, lebs[1], 0)
    } else {
        None
    };
    if lebs.contains_key(1) {
        lemma_found_is_held(lebs, 1, None, 0);
    }
    lemma_older_before(lebs, 2, first, 0, off);
    lemma_no_newer(lebs, 2, off + 8, n);
}

/// The newest master node is the one that is used.
pub proof fn newest_master_is_used(lebs: Lebs, l: u32, off: int)
    requires
        is_newest_master(lebs, l, off),
    ensures
        master_of(lebs) == Some(master_at(lebs[l], off)->0),
{
    if l == 1 {
        lemma_newest_in_first(lebs, off);
    } else {
        lemma_newest_in_second(lebs, off);
    }
}

proof fn lemma_same_root(a: Seq<u8>, b: Seq<u8>)
    requires
        60 <= a.len(),
        60 <= b.len(),
        a.subrange(48, 60) == b.subrange(48, 60),
    ensures
        branch_at(a, 48) == branch_at(b, 48),
{
    let root = a.subrange(48, 60);
    assert(a.subrange(48, 52) =~= root.subrange(0, 4));
    assert(a.subrange(52, 56) =~= root.subrange(4, 8));
    assert(a.subrange(56, 60) =~= root.subrange(8, 12));
    assert(b.subrange(48, 52) =~= root.subrange(0, 4));
    assert(b.subrange(52, 56) =~= root.subrange(4, 8));
    assert(b.subrange(56, 60) =~= root.subrange(8, 12));
}

/// What is read through a master node depends on it only through the reference to the root of
/// the committed index, its bytes 48 to 59.
pub proof fn index_root_decides(lebs: Lebs, a: Seq<u8>, b: Seq<u8>)
    requires
        60 <= a.len(),
        60 <= b.len(),
        a.subrange(48, 60) == b.subrange(48, 60),
    ensures
        committed_files(lebs, a) == committed_files(lebs, b),
{
    lemma_same_root(a, b);
}

/// The eraseblocks of a volume without the two that hold its master nodes.
pub open spec fn without_masters(lebs: Lebs) -> Lebs {
    lebs.remove(1).remove(2)
}

proof fn lemma_index_without_masters(
    a: Lebs,
    b: Lebs,
    todo: Branches,
    seen: Set<(u32, u32)>,
    ix: IndexModel,
)
    requires
        without_masters(a) == without_masters(b),
        index_from(without_masters(a), todo, seen, ix) is Ok,
    ensures
        index_from(a, todo, seen, ix) == index_from(without_masters(a), todo, seen, ix),
        index_from(b, todo, seen, ix) == index_from(without_masters(a), todo, seen, ix),
    decreases 0x1_0000_0000_0000_0000 - seen.len(),
{
    if todo.len() > 0 {
        let (l, o, len) = todo.last();
        let rest = without_masters(a);
        assert(rest.contains_key(l));
        assert(a.contains_key(l) && a[l] == rest[l]);
        assert(without_masters(b).contains_key(l));
        assert(b.contains_key(l) && b[l] == rest[l]);
        let n = node_at(rest[l], o as int)->Ok_0;
        let (todo2, ix2) = visit(n, todo.drop_last(), ix)->Ok_0;
        lemma_offset_set(seen);
        lemma_offset_set(seen.insert((l, o)));
        lemma_index_without_masters(a, b, todo2, seen.insert((l, o)), ix2);
    }
}

/// No reference of the committed index leads into the eraseblocks of the master nodes: the index
/// can be followed without them.
pub open spec fn index_avoids_masters(lebs: Lebs, master: Seq<u8>) -> bool {
    index_from(
        without_masters(lebs),
        seq![branch_at(master, 48)],
        Set::empty(),
        empty_index(),
    ) is Ok
}

/// A node with another lowest byte of its flags, and with the checksum that belongs to it.
pub open spec fn reflagged(n: Seq<u8>, flags: u8) -> Seq<u8> {
    let changed = n.update(40, flags);
    bytes::splice(changed, 4, bytes::le_bytes4(crc::register(changed.skip(8), u32::MAX)))
}

/// The volume with other flags in the master node at this place.
pub open spec fn with_flags(lebs: Lebs, l: u32, off: int, flags: u8) -> Lebs {
    lebs.insert(
        l,
        bytes::splice(lebs[l], off, reflagged(master_at(lebs[l], off)->0, flags)),
    )
}

proof fn lemma_reflagged(d: Seq<u8>, off: int, flags: u8)
    requires
        0 <= off,
        master_at(d, off) matches Some(n) && n.len() >= 60,
    ensures
        ({
            let n = master_at(d, off)->0;
            let m = reflagged(n, flags);
            &&& master_at(bytes::splice(d, off, m), off) == Some(m)
            &&& m.len() == n.len()
            &&& m.subrange(8, 16) == n.subrange(8, 16)
            &&& m.subrange(48, 60) == n.subrange(48, 60)
            &&& m.subrange(41, 44) == n.subrange(41, 44)
            &&& m[40] == flags
        }),
{
    reveal(master_at);
    let n = master_at(d, off)->0;
    let changed = n.update(40, flags);
    let sum = crc::register(changed.skip(8), u32::MAX);
    let m = reflagged(n, flags);
    let e = bytes::splice(d, off, m);
    let len = n.len() as int;
    assert(n =~= d.subrange(off, off + len));
    assert(m.skip(8) =~= changed.skip(8));
    bytes::le_bytes_read_back(0, sum);
    assert(m.subrange(4, 8) =~= bytes::le_bytes4(sum));
    assert(e.subrange(off, off + len) =~= m);
    let h = d.subrange(off, off + 24);
    let h2 = e.subrange(off, off + 24);
    assert(h2.take(4) =~= h.take(4));
    assert(h2.subrange(16, 20) =~= h.subrange(16, 20));
    assert(m.subrange(8, 16) =~= n.subrange(8, 16));
    assert(m.subrange(48, 60) =~= n.subrange(48, 60));
    assert(m.subrange(41, 44) =~= n.subrange(41, 44));
}

proof fn lemma_dirty(n: Seq<u8>)
    requires
        n.len() >= 60,
    ensures
        dirty(n) == (n[40] % 2 == 1),
{
    let b = n.subrange(40, 44);
    bytes::lemma_le4(b);
    let w = word(n, 40);
    let low = n[40];
    assert(w % 256 == low);
    assert(w & 1 != 0 <==> w % 2 == 1) by (bit_vector);
}

proof fn lemma_files_without_masters(a: Lebs, b: Lebs, master: Seq<u8>)
    requires
        without_masters(a) == without_masters(b),
        index_avoids_masters(a, master),
    ensures
        committed_files(a, master) == committed_files(b, master),
{
    lemma_index_without_masters(a, b, seq![branch_at(master, 48)], Set::empty(), empty_index());
}

proof fn lemma_volume(lebs: Lebs, master: Seq<u8>)
    requires
        master_of(lebs) == Some(master),
        volume_files(lebs) is Ok,
    ensures
        volume_files(lebs)->Ok_0.1 == dirty(master),
        committed_files(lebs, master) == Ok::<Map<Seq<char>, Seq<u8>>, Seq<char>>(
            volume_files(lebs)->Ok_0.0,
        ),
        60 <= master.len(),
{
}

proof fn lemma_other_master(a: Lebs, b: Lebs, master: Seq<u8>)
    requires
        volume_files(a) is Ok,
        a.contains_key(0) == b.contains_key(0),
        a[0] == b[0],
        master_of(b) == Some(master),
        committed_files(b, master) is Ok,
    ensures
        volume_files(b) == Ok::<(Map<Seq<char>, Seq<u8>>, bool), Seq<char>>(
            (committed_files(b, master)->Ok_0, dirty(master)),
        ),
{
}

/// Changes that were not committed do not show: the dirty flag of the newest master node changes
/// the warning alone. Of two volumes that differ only in the low byte of its flags, and so in its
/// checksum, the files are the same, and the warning follows the flag. The index does not lead
/// into the eraseblocks of the master nodes, and the changed node is the newest in both volumes.
pub proof fn journal_only_warns(lebs: Lebs, l: u32, off: int, flags: u8)
    requires
        is_newest_master(lebs, l, off),
        is_newest_master(with_flags(lebs, l, off, flags), l, off),
        index_avoids_masters(lebs, master_at(lebs[l], off)->0),
    ensures
        volume_files(lebs) matches Ok((files, warning)) ==> {
            &&& warning == (master_at(lebs[l], off)->0[40] % 2 == 1)
            &&& volume_files(with_flags(lebs, l, off, flags)) == Ok::<
                (Map<Seq<char>, Seq<u8>>, bool),
                Seq<char>,
            >((files, flags % 2 == 1))
        },
{
    if let Ok((files, warning)) = volume_files(lebs) {
        let n = master_at(lebs[l], off)->0;
        let m = reflagged(n, flags);
        let other = with_flags(lebs, l, off, flags);
        newest_master_is_used(lebs, l, off);
        newest_master_is_used(other, l, off);
        lemma_volume(lebs, n);
        lemma_reflagged(lebs[l], off, flags);
        assert(master_of(other) == Some(m));
        lemma_dirty(n);
        lemma_dirty(m);
        index_root_decides(other, n, m);
        assert(without_masters(lebs) =~= without_masters(other));
        lemma_files_without_masters(lebs, other, n);
        lemma_other_master(lebs, other, m);
    }
}

/// A data node covers the byte at `pos` of the file `ino`.
pub open spec fn covers(c: ChunkModel, ino: u64, pos: int) -> bool {
    let start = c.block * 4096;
    c.ino == ino && chunk_data(c.node) is Ok && start <= pos < start + chunk_data(
        c.node,
    )->Ok_0.len()
}

/// No data node holds more than a block.
pub open spec fn chunks_are_blocks(chunks: Seq<ChunkModel>) -> bool {
    forall|i: int| 0 <= i < chunks.len() ==> word((#[trigger] chunks[i]).node, 40) <= 4096
}

proof fn lemma_block_length(c: ChunkModel)
    requires
        word(c.node, 40) <= 4096,
    ensures
        chunk_data(c.node) matches Ok(data) ==> data.len() <= 4096,
{
}

proof fn lemma_blocks_written(
    chunks: Seq<ChunkModel>,
    i: int,
    ino: u64,
    out: Seq<u8>,
    pos: int,
    after: Seq<u8>,
)
    requires
        0 <= i,
        chunks_sorted(chunks),
        chunks_are_blocks(chunks),
        blocks_written(chunks, i, ino, out) == Ok::<Seq<u8>, Seq<char>>(after),
        0 <= pos < out.len(),
    ensures
        after.len() == out.len(),
        forall|j: int|
            i <= j < chunks.len() && #[trigger] covers(chunks[j], ino, pos) ==> after[pos]
                == chunk_data(chunks[j].node)->Ok_0[pos - chunks[j].block * 4096],
        (forall|j: int| i <= j < chunks.len() ==> !#[trigger] covers(chunks[j], ino, pos))
            ==> after[pos] == out[pos],
    decreases chunks.len() - i,
{
    lemma_blocks_keep_length(chunks, i, ino, out);
    if i < chunks.len() {
        if chunks[i].ino != ino {
            lemma_blocks_written(chunks, i + 1, ino, out, pos, after);
        } else {
            let data = chunk_data(chunks[i].node)->Ok_0;
            let out2 = block_written(out, chunks[i].block, data)->Ok_0;
            lemma_block_length(chunks[i]);
            assert(out2.len() == out.len());
            lemma_blocks_written(chunks, i + 1, ino, out2, pos, after);
            if covers(chunks[i], ino, pos) {
                assert forall|j: int| i < j < chunks.len() implies !#[trigger] covers(
                    chunks[j],
                    ino,
                    pos,
                ) by {
                    assert(chunk_before(chunks[i], chunks[j]));
                }
                assert(out2[pos] == data[pos - chunks[i].block * 4096]);
            } else {
                assert(out2[pos] == out[pos]);
            }
        }
    }
}

/// What a file holds: each data node its block, cut at the end of the file, and zeros where there
/// is no data node.
pub proof fn file_holds_its_blocks(ix: IndexModel, ino: u64, size: usize, pos: int)
    requires
        chunks_sorted(ix.chunks),
        chunks_are_blocks(ix.chunks),
        0 <= pos < size,
    ensures
        ix.content(ino, size) matches Ok(out) ==> {
            &&& out.len() == size
            &&& forall|j: int|
                0 <= j < ix.chunks.len() && #[trigger] covers(ix.chunks[j], ino, pos) ==> out[pos]
                    == chunk_data(ix.chunks[j].node)->Ok_0[pos - ix.chunks[j].block * 4096]
            &&& (forall|j: int|
                0 <= j < ix.chunks.len() ==> !#[trigger] covers(ix.chunks[j], ino, pos))
                ==> out[pos] == 0
        },
{
    if let Ok(out) = ix.content(ino, size) {
        lemma_blocks_written(ix.chunks, 0, ino, bytes::repeated(size as nat, 0), pos, out);
    }
}

proof fn lemma_index_keeps_order(
    lebs: Lebs,
    todo: Branches,
    seen: Set<(u32, u32)>,
    ix: IndexModel,
)
    requires
        chunks_sorted(ix.chunks),
        chunks_are_blocks(ix.chunks),
        tree::sorted(ix.dents),
    ensures
        index_from(lebs, todo, seen, ix) matches Ok(found) ==> chunks_sorted(found.chunks)
            && chunks_are_blocks(found.chunks) && tree::sorted(found.dents),
    decreases 0x1_0000_0000_0000_0000 - seen.len(),
{
    if todo.len() > 0 {
        let (l, o, len) = todo.last();
        if !seen.contains((l, o)) && lebs.contains_key(l) {
            if let Ok(n) = node_at(lebs[l], o as int) {
                if let Ok((todo2, ix2)) = visit(n, todo.drop_last(), ix) {
                    lemma_offset_set(seen);
                    lemma_offset_set(seen.insert((l, o)));
                    if n[20] == 1 {
                        let c = ChunkModel {
                            ino: word(n, 24) as u64,
                            block: word(n, 28) & 0x1fff_ffff,
                            node: n,
                        };
                        with_chunk_keeps_order(ix.chunks, c);
                        lemma_chunk_rank(ix.chunks, 0, c);
                    } else if n[20] == 2 {
                        let raw = bytes::slice_at(n, 56, bytes::le16_at(n, 50)->Ok_0 as int)->Ok_0;
                        tree::with_entry_keeps_order(
                            ix.dents,
                            DentModel {
                                parent: word(n, 24) as u64,
                                name: tree::entry_name(raw)->Ok_0,
                                version: 0,
                                ino: bytes::le_value(n.subrange(40, 48)) as u64,
                            },
                        );
                    }
                    lemma_index_keeps_order(lebs, todo2, seen.insert((l, o)), ix2);
                }
            }
        }
    }
}

/// Every index that is read holds its data nodes and directory entries in order, each block of a
/// file and each name of a directory once, and no data node holds more than a block.
pub proof fn index_is_in_order(lebs: Lebs, root: (u32, u32, u32))
    ensures
        index_from(lebs, seq![root], Set::empty(), empty_index()) matches Ok(ix)
            ==> chunks_sorted(ix.chunks) && chunks_are_blocks(ix.chunks) && tree::sorted(ix.dents),
{
    lemma_index_keeps_order(lebs, seq![root], Set::empty(), empty_index());
}

} // verus!
