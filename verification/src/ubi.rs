//! UBI images: physical eraseblocks, the newest copy of each logical one, and the volume that
//! holds the production data.

use std::collections::BTreeMap;

use vstd::prelude::*;

use crate::bytes;
use crate::crc;
use crate::keys;
use crate::names::Files;
use crate::text;
use crate::ubifs;

verus! {

/// The letters `UBI#` that begin a physical eraseblock.
pub open spec fn ec_magic() -> Seq<u8> {
    seq![0x55, 0x42, 0x49, 0x23]
}

/// The letters `UBI!` that begin the header of a used eraseblock.
pub open spec fn vid_magic() -> Seq<u8> {
    seq![0x55, 0x42, 0x49, 0x21]
}

/// The volume that holds the volume table.
pub const LAYOUT_VOLUME: u32 = 0x7fff_efff;

/// `d` consists of eraseblocks of `size` bytes, and the second one begins as one.
pub open spec fn has_block_size(d: Seq<u8>, size: int) -> bool {
    &&& d.len() % size as nat == 0
    &&& size + 4 <= d.len()
    &&& d.subrange(size, size + 4) == ec_magic()
}

/// The smallest of the possible eraseblock sizes that fits the image.
pub open spec fn block_size(d: Seq<u8>) -> Option<int> {
    if has_block_size(d, 0x1_0000) {
        Some(0x1_0000)
    } else if has_block_size(d, 0x2_0000) {
        Some(0x2_0000)
    } else if has_block_size(d, 0x4_0000) {
        Some(0x4_0000)
    } else if has_block_size(d, 0x8_0000) {
        Some(0x8_0000)
    } else if has_block_size(d, 0x10_0000) {
        Some(0x10_0000)
    } else {
        None
    }
}

/// A logical eraseblock as one physical one holds it.
pub struct BlockModel {
    /// The volume, and the number of the eraseblock in it.
    pub key: (u32, u32),
    pub sequence: u64,
    pub payload: Seq<u8>,
}

/// The 32-bit big-endian value of four bytes inside `n`.
pub open spec fn word(n: Seq<u8>, o: int) -> u32 {
    bytes::be_value(n.subrange(o, o + 4)) as u32
}

/// The block that a header describes, if its data may be used. The data of a copied block
/// counts only if its checksum confirms the copy; the data of a static volume must pass.
pub open spec fn block_data(vid: Seq<u8>, payload: Seq<u8>) -> Result<
    Option<BlockModel>,
    Seq<char>,
> {
    let block = BlockModel {
        key: (word(vid, 8), word(vid, 12)),
        sequence: bytes::be_value(vid.subrange(40, 48)) as u64,
        payload,
    };
    if vid[6] == 0 && vid[5] != 2 {
        Ok(Some(block))
    } else {
        match bytes::slice_at(payload, 0, word(vid, 20) as int) {
            Err(e) => Err(e),
            Ok(data) => match crc::checked(data, u32::MAX, word(vid, 32)) {
                Ok(_) => Ok(Some(block)),
                Err(e) => if vid[6] != 0 {
                    Ok(None)
                } else {
                    Err(e)
                },
            },
        }
    }
}

/// The block in the physical eraseblock `p`, `None` where it holds none, or why the image is
/// refused.
pub open spec fn block_in(p: Seq<u8>) -> Result<Option<BlockModel>, Seq<char>> {
    if bytes::all_are(p, 255) {
        Ok(None)
    } else if !bytes::begins(p, ec_magic()) {
        Err("Invalid UBI erase counter header"@)
    } else {
        match crc::checked(p.take(60), u32::MAX, word(p, 60)) {
            Err(e) => Err(e),
            Ok(_) => match bytes::slice_at(p, word(p, 16) as int, 64) {
                Err(e) => Err(e),
                Ok(vid) => if bytes::all_are(vid, 255) {
                    Ok(None)
                } else if !bytes::begins(vid, vid_magic()) {
                    Err("Invalid UBI VID header"@)
                } else {
                    match crc::checked(vid.take(60), u32::MAX, word(vid, 60)) {
                        Err(e) => Err(e),
                        Ok(_) => if word(p, 20) > p.len() {
                            Err("Invalid UBI data offset"@)
                        } else {
                            block_data(vid, p.skip(word(p, 20) as int))
                        },
                    }
                },
            },
        }
    }
}

/// The blocks found so far, each with its sequence number.
pub type Blocks = Map<(u32, u32), (u64, Seq<u8>)>;

/// The blocks with `b`, unless a copy of its sequence number or a later one is there.
pub open spec fn with_block(m: Blocks, b: BlockModel) -> Blocks {
    if m.contains_key(b.key) && b.sequence <= m[b.key].0 {
        m
    } else {
        m.insert(b.key, (b.sequence, b.payload))
    }
}

/// The blocks in the first `n` physical eraseblocks of `size` bytes.
pub open spec fn blocks_in(d: Seq<u8>, size: int, n: nat) -> Result<Blocks, Seq<char>>
    decreases n,
{
    if n == 0 {
        Ok(Map::empty())
    } else {
        match blocks_in(d, size, (n - 1) as nat) {
            Err(e) => Err(e),
            Ok(m) => match block_in(d.subrange((n - 1) * size, n * size)) {
                Err(e) => Err(e),
                Ok(None) => Ok(m),
                Ok(Some(b)) => Ok(with_block(m, b)),
            },
        }
    }
}

/// The letters `fhdata`, the name of the volume with the production data.
pub open spec fn volume_name() -> Seq<u8> {
    seq![0x66, 0x68, 0x64, 0x61, 0x74, 0x61]
}

/// The number of the production data volume, searched in the volume table from record `i` on.
pub open spec fn volume_from(table: Seq<u8>, i: int) -> Result<u32, Seq<char>>
    decreases 128 - i,
{
    if i >= 128 || (i + 1) * 172 > table.len() {
        Err("UBI image has no fhdata volume"@)
    } else {
        let rec = table.subrange(i * 172, (i + 1) * 172);
        let len = bytes::be_value(rec.subrange(14, 16)) as int;
        if len > 127 {
            Err("Invalid UBI volume name length"@)
        } else if rec.subrange(16, 16 + len) != volume_name() {
            volume_from(table, i + 1)
        } else {
            match crc::checked(rec.take(168), u32::MAX, word(rec, 168)) {
                Err(e) => Err(e),
                Ok(_) => if rec[13] != 0 {
                    Err("fhdata volume update is incomplete"@)
                } else {
                    Ok(i as u32)
                },
            }
        }
    }
}

/// The volume table, in the first copy that is there.
pub open spec fn table_in(m: Blocks) -> Option<Seq<u8>> {
    if m.contains_key((LAYOUT_VOLUME, 0)) {
        Some(m[(LAYOUT_VOLUME, 0)].1)
    } else if m.contains_key((LAYOUT_VOLUME, 1)) {
        Some(m[(LAYOUT_VOLUME, 1)].1)
    } else {
        None
    }
}

/// The eraseblocks of one volume.
pub open spec fn volume_blocks(m: Blocks, id: u32) -> ubifs::Lebs {
    Map::new(|l: u32| m.contains_key((id, l)), |l: u32| m[(id, l)].1)
}

/// The files of the production data volume, and whether its journal holds later changes.
pub open spec fn image_files(d: Seq<u8>) -> Result<(Map<Seq<char>, Seq<u8>>, bool), Seq<char>> {
    match block_size(d) {
        None => Err("Unable to determine the UBI eraseblock size"@),
        Some(size) => match blocks_in(d, size, (d.len() / size as nat) as nat) {
            Err(e) => Err(e),
            Ok(m) => match table_in(m) {
                None => Err("UBI volume table is missing"@),
                Some(table) => match volume_from(table, 0) {
                    Err(e) => Err(e),
                    Ok(id) => ubifs::volume_files(volume_blocks(m, id)),
                },
            },
        },
    }
}

/// A logical eraseblock as one physical one holds it.
struct Block<'a> {
    key: (u32, u32),
    sequence: u64,
    payload: &'a [u8],
}

impl<'a> View for Block<'a> {
    type V = BlockModel;

    closed spec fn view(&self) -> BlockModel {
        BlockModel { key: self.key, sequence: self.sequence, payload: self.payload@ }
    }
}

spec fn block_option(b: Option<Block>) -> Option<BlockModel> {
    match b {
        Some(b) => Some(b@),
        None => None,
    }
}

spec fn finds(r: Result<Option<Block>, String>, want: Result<Option<BlockModel>, Seq<char>>) -> bool {
    match (r, want) {
        (Ok(a), Ok(b)) => block_option(a) == b,
        (Err(e), Err(m)) => e@ == m,
        _ => false,
    }
}

fn word_of(n: &[u8], o: usize) -> (r: u32)
    requires
        o + 4 <= n@.len(),
    ensures
        r == word(n@, o as int),
{
    proof {
        bytes::lemma_be4(n@.subrange(o as int, o + 4));
    }
    assert(o + 4 <= n.len());
    match bytes::be32(n, o) {
        Ok(v) => v,
        Err(_) => 0,
    }
}

fn fits_block_size(d: &[u8], size: usize) -> (r: bool)
    requires
        0 < size <= 0x10_0000,
    ensures
        r == has_block_size(d@, size as int),
{
    if d.len() % size != 0 || d.len() < size || d.len() - size < 4 {
        return false;
    }
    let magic: [u8; 4] = [0x55, 0x42, 0x49, 0x23];
    assert(magic@ =~= ec_magic());
    text::same_bytes(&d[size..size + 4], &magic)
}

fn find_block_size(d: &[u8]) -> (r: Option<usize>)
    ensures
        match (r, block_size(d@)) {
            (Some(a), Some(b)) => a == b && has_block_size(d@, b) && 0x1_0000 <= b <= 0x10_0000,
            (None, None) => true,
            _ => false,
        },
{
    if fits_block_size(d, 0x1_0000) {
        Some(0x1_0000)
    } else if fits_block_size(d, 0x2_0000) {
        Some(0x2_0000)
    } else if fits_block_size(d, 0x4_0000) {
        Some(0x4_0000)
    } else if fits_block_size(d, 0x8_0000) {
        Some(0x8_0000)
    } else if fits_block_size(d, 0x10_0000) {
        Some(0x10_0000)
    } else {
        None
    }
}

fn read_block_data<'a>(vid: &[u8], payload: &'a [u8]) -> (r: Result<Option<Block<'a>>, String>)
    requires
        vid@.len() == 64,
    ensures
        finds(r, block_data(vid@, payload@)),
{
    proof {
        bytes::lemma_be8(vid@.subrange(40, 48));
    }
    let block = Block {
        key: (word_of(vid, 8), word_of(vid, 12)),
        sequence: bytes::be64(vid, 40)?,
        payload,
    };
    // A copy-flagged eraseblock becomes eligible after its data CRC confirms the relocation.
    if vid[6] != 0 || vid[5] == 2 {
        let data = bytes::bytes(payload, 0, word_of(vid, 20) as usize)?;
        let valid = crc::check_crc(data, u32::MAX, word_of(vid, 32));
        if valid.is_err() && vid[6] != 0 {
            return Ok(None);
        }
        valid?;
    }
    Ok(Some(block))
}

fn read_block<'a>(p: &'a [u8]) -> (r: Result<Option<Block<'a>>, String>)
    requires
        p@.len() >= 0x1_0000,
    ensures
        finds(r, block_in(p@)),
{
    if bytes::filled_with(p, 255) {
        return Ok(None);
    }
    let ec: [u8; 4] = [0x55, 0x42, 0x49, 0x23];
    assert(ec@ =~= ec_magic());
    if !bytes::starts_with(p, &ec) {
        return Err("Invalid UBI erase counter header".to_owned());
    }
    assert(p@.subrange(0, 60) =~= p@.take(60));
    crc::check_crc(&p[0..60], u32::MAX, word_of(p, 60))?;
    let vo: usize = word_of(p, 16) as usize;
    let data: usize = word_of(p, 20) as usize;
    let vid = bytes::bytes(p, vo, 64)?;
    if bytes::filled_with(vid, 255) {
        return Ok(None);
    }
    let magic: [u8; 4] = [0x55, 0x42, 0x49, 0x21];
    assert(magic@ =~= vid_magic());
    if !bytes::starts_with(vid, &magic) {
        return Err("Invalid UBI VID header".to_owned());
    }
    assert(vid@.subrange(0, 60) =~= vid@.take(60));
    crc::check_crc(&vid[0..60], u32::MAX, word_of(vid, 60))?;
    if data > p.len() {
        return Err("Invalid UBI data offset".to_owned());
    }
    assert(p@.subrange(data as int, p@.len() as int) =~= p@.skip(data as int));
    read_block_data(vid, &p[data..p.len()])
}

/// The blocks found so far, seen as their bytes.
spec fn blocks_model(m: Map<(u32, u32), (u64, &[u8])>) -> Blocks {
    Map::new(|k: (u32, u32)| m.contains_key(k), |k: (u32, u32)| (m[k].0, m[k].1@))
}

/// Adds a block, unless a copy of its sequence number or a later one is there.
fn keep_newer<'a>(blocks: &mut BTreeMap<(u32, u32), (u64, &'a [u8])>, b: Block<'a>)
    ensures
        blocks_model(final(blocks)@) == with_block(blocks_model(old(blocks)@), b@),
{
    proof {
        keys::lemma_ordered_keys();
    }
    let newer = match blocks.get(&b.key) {
        Some(old) => b.sequence > old.0,
        None => true,
    };
    if newer {
        blocks.insert(b.key, (b.sequence, b.payload));
    }
    assert(blocks_model(blocks@) =~= with_block(blocks_model(old(blocks)@), b@));
}

/// Collects the newest copy of every block.
fn read_blocks<'a>(d: &'a [u8], size: usize) -> (r: Result<
    BTreeMap<(u32, u32), (u64, &'a [u8])>,
    String,
>)
    requires
        0x1_0000 <= size,
        d@.len() % size as nat == 0,
    ensures
        match (r, blocks_in(d@, size as int, (d@.len() / size as nat) as nat)) {
            (Ok(m), Ok(want)) => blocks_model(m@) == want,
            (Err(e), Err(m)) => e@ == m,
            _ => false,
        },
{
    let mut blocks: BTreeMap<(u32, u32), (u64, &'a [u8])> = BTreeMap::new();
    assert(blocks_model(blocks@) =~= Map::empty());
    let count: usize = d.len() / size;
    let mut i: usize = 0;
    while i < count
        invariant
            i <= count,
            count == d.len() / size,
            0x1_0000 <= size,
            blocks_in(d@, size as int, i as nat) matches Ok(m) && m == blocks_model(blocks@),
        decreases count - i,
    {
        assert((i + 1) * size <= d.len()) by (nonlinear_arith)
            requires
                i + 1 <= count,
                count == d.len() / size,
                0 < size,
        ;
        assert(i * size <= (i + 1) * size) by (nonlinear_arith)
            requires
                0 <= i,
                0 < size,
        ;
        assert((i + 1) * size == i * size + size) by (nonlinear_arith);
        let p = &d[i * size..(i + 1) * size];
        proof {
            lemma_blocks_error(d@, size as int, (i + 1) as nat, count as nat);
        }
        match read_block(p)? {
            Some(b) => {
                keep_newer(&mut blocks, b);
            },
            None => {},
        }
        i += 1;
    }
    Ok(blocks)
}

/// An error among the first eraseblocks is the error of the whole.
proof fn lemma_blocks_error(d: Seq<u8>, size: int, n: nat, total: nat)
    requires
        n <= total,
    ensures
        blocks_in(d, size, n) matches Err(e) ==> blocks_in(d, size, total) == Err::<
            Blocks,
            Seq<char>,
        >(e),
    decreases total,
{
    if n < total {
        lemma_blocks_error(d, size, n, (total - 1) as nat);
    }
}

/// Finds the production data volume in the volume table.
fn find_volume(table: &[u8]) -> (r: Result<u32, String>)
    ensures
        text::says(r, volume_from(table@, 0)),
{
    let name: [u8; 6] = [0x66, 0x68, 0x64, 0x61, 0x74, 0x61];
    assert(name@ =~= volume_name());
    let mut i: usize = 0;
    while i < 128 && (i + 1) * 172 <= table.len()
        invariant
            i <= 128,
            name@ == volume_name(),
            volume_from(table@, 0) == volume_from(table@, i as int),
        decreases 128 - i,
    {
        let rec = &table[i * 172..(i + 1) * 172];
        proof {
            bytes::lemma_be2(rec@.subrange(14, 16));
            assert(rec@.subrange(14, 16)[0] == rec@[14]);
            assert(rec@.subrange(14, 16)[1] == rec@[15]);
        }
        let len: usize = 256 * (rec[14] as usize) + rec[15] as usize;
        if len > 127 {
            return Err("Invalid UBI volume name length".to_owned());
        }
        if text::same_bytes(&rec[16..16 + len], &name) {
            assert(rec@.subrange(0, 168) =~= rec@.take(168));
            crc::check_crc(&rec[0..168], u32::MAX, word_of(rec, 168))?;
            if rec[13] != 0 {
                return Err("fhdata volume update is incomplete".to_owned());
            }
            return Ok(i as u32);
        }
        i += 1;
    }
    Err("UBI image has no fhdata volume".to_owned())
}

/// The eraseblocks of one volume.
fn pick_volume<'a>(blocks: &BTreeMap<(u32, u32), (u64, &'a [u8])>, id: u32) -> (r: BTreeMap<
    u32,
    &'a [u8],
>)
    ensures
        ubifs::lebs_model(r@) == volume_blocks(blocks_model(blocks@), id),
{
    proof {
        keys::lemma_ordered_keys();
    }
    let mut lebs: BTreeMap<u32, &'a [u8]> = BTreeMap::new();
    for kv in it: blocks.iter()
        invariant
            forall|l: u32| #[trigger]
                lebs@.contains_key(l) ==> blocks@.contains_key((id, l)) && lebs@[l] == blocks@[(
                    id,
                    l,
                )].1,
            forall|j: int, l: u32|
                0 <= j < it.index() && *(#[trigger] it.seq()[j]).0 == (id, l)
                    ==> #[trigger] lebs@.contains_key(l),
            forall|j: int|
                0 <= j < it.seq().len() ==> blocks@.contains_key(*(#[trigger] it.seq()[j]).0)
                    && blocks@[*it.seq()[j].0] == *it.seq()[j].1,
            forall|k: (u32, u32)| #[trigger]
                blocks@.contains_key(k) ==> it.seq().contains((&k, &blocks@[k])),
    {
        proof {
            keys::lemma_ordered_keys();
        }
        let (key, value) = kv;
        if key.0 == id {
            lebs.insert(key.1, value.1);
        }
    }
    proof {
        assert forall|l: u32| #[trigger] blocks@.contains_key((id, l)) implies lebs@.contains_key(
            l,
        ) by {
        }
        assert(ubifs::lebs_model(lebs@) =~= volume_blocks(blocks_model(blocks@), id));
    }
    lebs
}

/// Extracts the files of the production data volume of a UBI image.
pub fn ubi(d: &[u8]) -> (r: Result<(Files, bool), String>)
    ensures
        text::says(r, image_files(d@)),
        r matches Ok((files, _)) ==> files.wf(),
{
    proof {
        keys::lemma_ordered_keys();
    }
    let size = match find_block_size(d) {
        Some(size) => size,
        None => {
            return Err("Unable to determine the UBI eraseblock size".to_owned());
        },
    };
    let blocks = read_blocks(d, size)?;
    let table: &[u8] = match blocks.get(&(LAYOUT_VOLUME, 0)) {
        Some(b) => b.1,
        None => match blocks.get(&(LAYOUT_VOLUME, 1)) {
            Some(b) => b.1,
            None => {
                return Err("UBI volume table is missing".to_owned());
            },
        },
    };
    let id = find_volume(table)?;
    let lebs = pick_volume(&blocks, id);
    ubifs::ubifs(&lebs)
}

/// The block in physical eraseblock number `i` of `size` bytes.
pub open spec fn held_in(d: Seq<u8>, size: int, i: int) -> Result<Option<BlockModel>, Seq<char>> {
    block_in(d.subrange(i * size, (i + 1) * size))
}

/// Physical eraseblock number `i` holds the block `key` with this sequence number and payload.
pub open spec fn holds(d: Seq<u8>, size: int, i: int, key: (u32, u32), data: (u64, Seq<u8>)) -> bool {
    match held_in(d, size, i) {
        Ok(Some(b)) => b.key == key && data == (b.sequence, b.payload),
        _ => false,
    }
}

/// Of the copies of a logical eraseblock, the newest is used: no copy that counts has a later
/// sequence number.
pub proof fn newest_copy_is_used(d: Seq<u8>, size: int, n: nat, i: int)
    requires
        0 <= i < n,
        blocks_in(d, size, n) is Ok,
        held_in(d, size, i) matches Ok(Some(_)),
    ensures
        ({
            let m = blocks_in(d, size, n)->Ok_0;
            let b = held_in(d, size, i)->Ok_0->0;
            m.contains_key(b.key) && m[b.key].0 >= b.sequence
        }),
    decreases n,
{
    if i < n - 1 {
        newest_copy_is_used(d, size, (n - 1) as nat, i);
    }
}

/// Every block that is used comes from a physical eraseblock that holds it.
pub proof fn used_blocks_are_held(d: Seq<u8>, size: int, n: nat, key: (u32, u32))
    requires
        blocks_in(d, size, n) matches Ok(m) && m.contains_key(key),
    ensures
        exists|i: int|
            0 <= i < n && #[trigger] holds(d, size, i, key, blocks_in(d, size, n)->Ok_0[key]),
    decreases n,
{
    if n > 0 {
        let m = blocks_in(d, size, n)->Ok_0;
        if !holds(d, size, n - 1, key, m[key]) {
            used_blocks_are_held(d, size, (n - 1) as nat, key);
            let before = blocks_in(d, size, (n - 1) as nat)->Ok_0;
            let i = choose|i: int| 0 <= i < n - 1 && #[trigger] holds(d, size, i, key, before[key]);
            assert(holds(d, size, i, key, m[key]));
        }
    }
}

} // verus!
