//! What a UBI image is read as: the size of its eraseblocks, the newest copy of each block, and
//! the volume with the production data.

use vstd::arithmetic::power2::*;
use vstd::prelude::*;

use crate::bytes;
use crate::crc;
use crate::ubi;
use crate::ubi::BlockModel;
use crate::ubifs;

verus! {

/// The letters `UBI#` stand at offset `o`.
pub open spec fn begins_block(d: Seq<u8>, o: int) -> bool {
    &&& 0 <= o && o + 4 <= d.len()
    &&& d[o] == 0x55 && d[o + 1] == 0x42 && d[o + 2] == 0x49 && d[o + 3] == 0x23
}

/// The image consists of eraseblocks of `size` bytes, and the second begins as one.
pub open spec fn divides_into(d: Seq<u8>, size: int) -> bool {
    d.len() as int % size == 0 && begins_block(d, size)
}

proof fn lemma_divides(d: Seq<u8>, size: int)
    requires
        0 < size,
    ensures
        ubi::has_block_size(d, size) == divides_into(d, size),
{
    if size + 4 <= d.len() {
        let s = d.subrange(size, size + 4);
        if divides_into(d, size) {
            assert(s =~= seq![0x55u8, 0x42, 0x49, 0x23]);
        }
        if s == seq![0x55u8, 0x42, 0x49, 0x23] {
            assert(s[0] == d[size] && s[1] == d[size + 1] && s[2] == d[size + 2] && s[3] == d[size
                + 3]);
        }
    }
}

/// The size of the eraseblocks is the least power of two from 64 KiB to 1 MiB that the image
/// divides into; there is none only where it divides into none of them.
pub proof fn least_block_size_is_used(d: Seq<u8>, k: nat)
    requires
        16 <= k <= 20,
    ensures
        divides_into(d, pow2(k) as int) ==> ubi::block_size(d) is Some,
        ubi::block_size(d) matches Some(size) ==> {
            &&& divides_into(d, size)
            &&& divides_into(d, pow2(k) as int) ==> size <= pow2(k)
            &&& exists|j: nat| 16 <= j <= 20 && size == #[trigger] pow2(j)
        },
{
    lemma2_to64();
    assert(pow2(16) == 0x1_0000 && pow2(17) == 0x2_0000 && pow2(18) == 0x4_0000 && pow2(19)
        == 0x8_0000 && pow2(20) == 0x10_0000);
    lemma_divides(d, 0x1_0000);
    lemma_divides(d, 0x2_0000);
    lemma_divides(d, 0x4_0000);
    lemma_divides(d, 0x8_0000);
    lemma_divides(d, 0x10_0000);
}

/// The checksum of the first 60 bytes stands behind them.
pub open spec fn sealed_header(h: Seq<u8>) -> bool {
    crc::register(h.take(60), 0xffff_ffff) == bytes::be_value(h.subrange(60, 64))
}

/// The physical eraseblock `p` carries the block `leb` of the volume `vol`, written with the
/// sequence number `sequence`: the erase counter header, at its offset 16 the place of the volume
/// header, at 20 the place of the data, which is the payload.
pub open spec fn carries(
    p: Seq<u8>,
    vid: Seq<u8>,
    vol: u32,
    leb: u32,
    sequence: u64,
    payload: Seq<u8>,
) -> bool {
    let at = bytes::be_value(p.subrange(16, 20)) as int;
    let from = bytes::be_value(p.subrange(20, 24)) as int;
    &&& 64 <= p.len() <= usize::MAX
    &&& begins_block(p, 0)
    &&& sealed_header(p)
    &&& at + 64 <= p.len()
    &&& vid == p.subrange(at, at + 64)
    &&& vid[0] == 0x55 && vid[1] == 0x42 && vid[2] == 0x49 && vid[3] == 0x21
    &&& sealed_header(vid)
    &&& vol == bytes::be_value(vid.subrange(8, 12))
    &&& leb == bytes::be_value(vid.subrange(12, 16))
    &&& sequence == bytes::be_value(vid.subrange(40, 48))
    &&& from <= p.len()
    &&& payload == p.skip(from)
}

/// The data that the volume header counts has the checksum that it gives.
pub open spec fn data_confirmed(vid: Seq<u8>, payload: Seq<u8>) -> bool {
    let used = bytes::be_value(vid.subrange(20, 24)) as int;
    &&& used <= payload.len()
    &&& crc::register(payload.take(used), 0xffff_ffff) == bytes::be_value(vid.subrange(32, 36))
}

/// A block that an eraseblock carries is read from it, with the payload that it carries, unless
/// its data must be confirmed and is not. The data of a moved block and of a static volume must
/// be confirmed; a move that is not confirmed does not count.
pub proof fn carried_block_is_read(
    p: Seq<u8>,
    vid: Seq<u8>,
    vol: u32,
    leb: u32,
    sequence: u64,
    payload: Seq<u8>,
)
    requires
        carries(p, vid, vol, leb, sequence, payload),
    ensures
        (vid[6] == 0 && vid[5] != 2) || data_confirmed(vid, payload) ==> ubi::block_in(p) == Ok::<
            Option<BlockModel>,
            Seq<char>,
        >(Some(BlockModel { key: (vol, leb), sequence, payload })),
        vid[6] != 0 && bytes::be_value(vid.subrange(20, 24)) <= payload.len() && !data_confirmed(
            vid,
            payload,
        ) ==> ubi::block_in(p) == Ok::<Option<BlockModel>, Seq<char>>(None),
        vid[6] == 0 && vid[5] == 2 && !data_confirmed(vid, payload) ==> ubi::block_in(p) is Err,
{
    let at = bytes::be_value(p.subrange(16, 20)) as int;
    bytes::lemma_be4(p.subrange(16, 20));
    bytes::lemma_be4(p.subrange(20, 24));
    bytes::lemma_be4(p.subrange(60, 64));
    bytes::lemma_be4(vid.subrange(60, 64));
    bytes::lemma_be4(vid.subrange(8, 12));
    bytes::lemma_be4(vid.subrange(12, 16));
    bytes::lemma_be4(vid.subrange(20, 24));
    bytes::lemma_be4(vid.subrange(32, 36));
    bytes::lemma_be8(vid.subrange(40, 48));
    assert(p.take(4) =~= seq![0x55u8, 0x42, 0x49, 0x23]);
    assert(vid.take(4) =~= seq![0x55u8, 0x42, 0x49, 0x21]);
    assert(p[0] != 255);
    assert(vid[0] != 255);
    let used = bytes::be_value(vid.subrange(20, 24)) as int;
    if used <= payload.len() {
        assert(payload.subrange(0, used) =~= payload.take(used));
    }
}

/// An erased eraseblock holds nothing, and neither does one whose volume header is erased.
pub proof fn erased_block_holds_nothing(p: Seq<u8>)
    ensures
        (forall|i: int| 0 <= i < p.len() ==> p[i] == 0xff) ==> ubi::block_in(p) == Ok::<
            Option<BlockModel>,
            Seq<char>,
        >(None),
        ({
            let at = bytes::be_value(p.subrange(16, 20)) as int;
            &&& 64 <= p.len() <= usize::MAX
            &&& begins_block(p, 0)
            &&& sealed_header(p)
            &&& at + 64 <= p.len()
            &&& forall|i: int| at <= i < at + 64 ==> p[i] == 0xff
        }) ==> ubi::block_in(p) == Ok::<Option<BlockModel>, Seq<char>>(None),
{
    if 64 <= p.len() && begins_block(p, 0) {
        bytes::lemma_be4(p.subrange(16, 20));
        bytes::lemma_be4(p.subrange(60, 64));
        assert(p.take(4) =~= seq![0x55u8, 0x42, 0x49, 0x23]);
        assert(p[0] != 255);
    }
}

/// Physical eraseblock number `i` holds the copy of a block that counts: those before it are
/// older, and no other is newer.
pub open spec fn is_newest_copy(
    d: Seq<u8>,
    size: int,
    n: nat,
    key: (u32, u32),
    i: int,
    data: (u64, Seq<u8>),
) -> bool {
    &&& 0 <= i < n
    &&& ubi::holds(d, size, i, key, data)
    &&& forall|j: int, other: (u64, Seq<u8>)|
        0 <= j < n && #[trigger] ubi::holds(d, size, j, key, other) ==> other.0 <= data.0 && (j < i
            ==> other.0 < data.0)
}

/// Of the copies of a block, the newest is used, the first of equal ones.
pub proof fn newest_copy_counts(
    d: Seq<u8>,
    size: int,
    n: nat,
    key: (u32, u32),
    i: int,
    data: (u64, Seq<u8>),
)
    requires
        ubi::blocks_in(d, size, n) is Ok,
        is_newest_copy(d, size, n, key, i, data),
    ensures
        ubi::blocks_in(d, size, n)->Ok_0.contains_key(key),
        ubi::blocks_in(d, size, n)->Ok_0[key] == data,
    decreases n,
{
    let before = ubi::blocks_in(d, size, (n - 1) as nat)->Ok_0;
    if i < n - 1 {
        newest_copy_counts(d, size, (n - 1) as nat, key, i, data);
        if let Ok(Some(b)) = ubi::held_in(d, size, n - 1) {
            if b.key == key {
                assert(ubi::holds(d, size, n - 1, key, (b.sequence, b.payload)));
            }
        }
    } else {
        if before.contains_key(key) {
            ubi::used_blocks_are_held(d, size, (n - 1) as nat, key);
            let j = choose|j: int|
                0 <= j < n - 1 && #[trigger] ubi::holds(d, size, j, key, before[key]);
            assert(ubi::holds(d, size, j, key, before[key]));
        }
    }
}

/// Among the first `n` eraseblocks, the block `key` is used with this payload, or not at all.
pub open spec fn uses(d: Seq<u8>, size: int, n: nat, key: (u32, u32), payload: Option<Seq<u8>>) -> bool {
    match payload {
        Some(p) => exists|i: int, sequence: u64| #[trigger]
            is_newest_copy(d, size, n, key, i, (sequence, p)),
        None => forall|i: int, data: (u64, Seq<u8>)|
            0 <= i < n ==> !#[trigger] ubi::holds(d, size, i, key, data),
    }
}

proof fn lemma_uses(d: Seq<u8>, size: int, n: nat, key: (u32, u32), payload: Option<Seq<u8>>)
    requires
        ubi::blocks_in(d, size, n) is Ok,
        uses(d, size, n, key, payload),
    ensures
        ({
            let m = ubi::blocks_in(d, size, n)->Ok_0;
            &&& m.contains_key(key) == payload is Some
            &&& payload matches Some(p) ==> m[key].1 == p
        }),
{
    let m = ubi::blocks_in(d, size, n)->Ok_0;
    match payload {
        Some(p) => {
            let (i, sequence) = choose|i: int, sequence: u64| #[trigger]
                is_newest_copy(d, size, n, key, i, (sequence, p));
            newest_copy_counts(d, size, n, key, i, (sequence, p));
        },
        None => {
            if m.contains_key(key) {
                ubi::used_blocks_are_held(d, size, n, key);
                let i = choose|i: int| 0 <= i < n && #[trigger] ubi::holds(d, size, i, key, m[key]);
                assert(!ubi::holds(d, size, i, key, m[key]));
            }
        },
    }
}

/// Every eraseblock can be read: none of them makes the image be refused.
pub open spec fn all_readable(d: Seq<u8>, size: int, n: nat) -> bool {
    forall|i: int| 0 <= i < n ==> (#[trigger] ubi::held_in(d, size, i)) is Ok
}

proof fn lemma_readable(d: Seq<u8>, size: int, n: nat)
    requires
        all_readable(d, size, n),
    ensures
        ubi::blocks_in(d, size, n) is Ok,
    decreases n,
{
    if n > 0 {
        lemma_readable(d, size, (n - 1) as nat);
        assert(ubi::held_in(d, size, n - 1) is Ok);
    }
}

/// The name that record number `i` of a volume table gives to its volume.
pub open spec fn record_name(table: Seq<u8>, i: int) -> Seq<u8> {
    let len = bytes::be_value(table.subrange(172 * i + 14, 172 * i + 16)) as int;
    table.subrange(172 * i + 16, 172 * i + 16 + len)
}

/// The letters `fhdata`.
pub open spec fn production_name() -> Seq<u8> {
    seq![0x66, 0x68, 0x64, 0x61, 0x74, 0x61]
}

/// Record number `i` of a volume table names the production data volume.
pub open spec fn names_production(table: Seq<u8>, i: int) -> bool {
    &&& 0 <= i < 128 && 172 * i + 172 <= table.len()
    &&& bytes::be_value(table.subrange(172 * i + 14, 172 * i + 16)) <= 127
    &&& record_name(table, i) == production_name()
}

/// Record number `i` of a volume table names another volume.
pub open spec fn names_other(table: Seq<u8>, i: int) -> bool {
    &&& bytes::be_value(table.subrange(172 * i + 14, 172 * i + 16)) <= 127
    &&& record_name(table, i) != production_name()
}

/// Record number `i` of a volume table has its checksum, and no update of it was begun.
pub open spec fn is_settled(table: Seq<u8>, i: int) -> bool {
    &&& crc::register(table.subrange(172 * i, 172 * i + 168), 0xffff_ffff) == bytes::be_value(
        table.subrange(172 * i + 168, 172 * i + 172),
    )
    &&& table[172 * i + 13] == 0
}

proof fn lemma_record(table: Seq<u8>, i: int)
    requires
        0 <= i < 128,
        172 * i + 172 <= table.len(),
    ensures
        ({
            let rec = table.subrange(i * 172, (i + 1) * 172);
            let len = bytes::be_value(rec.subrange(14, 16)) as int;
            &&& len == bytes::be_value(table.subrange(172 * i + 14, 172 * i + 16))
            &&& len <= 127 ==> rec.subrange(16, 16 + len) == record_name(table, i)
            &&& rec.take(168) == table.subrange(172 * i, 172 * i + 168)
            &&& rec.subrange(168, 172) == table.subrange(172 * i + 168, 172 * i + 172)
            &&& rec[13] == table[172 * i + 13]
        }),
{
    let rec = table.subrange(i * 172, (i + 1) * 172);
    assert(rec.subrange(14, 16) =~= table.subrange(172 * i + 14, 172 * i + 16));
    let len = bytes::be_value(rec.subrange(14, 16)) as int;
    if len <= 127 {
        assert(rec.subrange(16, 16 + len) =~= record_name(table, i));
    }
    assert(rec.take(168) =~= table.subrange(172 * i, 172 * i + 168));
    assert(rec.subrange(168, 172) =~= table.subrange(172 * i + 168, 172 * i + 172));
}

proof fn lemma_volume_from(table: Seq<u8>, k: int, i: int)
    requires
        0 <= k <= i,
        names_production(table, i),
        forall|j: int| 0 <= j < i ==> #[trigger] names_other(table, j),
    ensures
        ubi::volume_from(table, k) is Ok == is_settled(table, i),
        ubi::volume_from(table, k) matches Ok(id) ==> id == i,
    decreases i - k,
{
    lemma_record(table, k);
    if k < i {
        assert(names_other(table, k));
        lemma_volume_from(table, k + 1, i);
    } else {
        bytes::lemma_be4(table.subrange(172 * i + 168, 172 * i + 172));
    }
}

/// The production data volume is the one that the first record of that name stands for, by the
/// number of the record, whatever volumes come before it. The record must be settled.
pub proof fn named_volume_is_found(table: Seq<u8>, i: int)
    requires
        names_production(table, i),
        forall|j: int| 0 <= j < i ==> #[trigger] names_other(table, j),
    ensures
        is_settled(table, i) ==> ubi::volume_from(table, 0) == Ok::<u32, Seq<char>>(i as u32),
        !is_settled(table, i) ==> ubi::volume_from(table, 0) is Err,
{
    lemma_volume_from(table, 0, i);
}

proof fn lemma_volume_found(table: Seq<u8>, k: int)
    requires
        0 <= k,
        ubi::volume_from(table, k) is Ok,
    ensures
        ({
            let id = ubi::volume_from(table, k)->Ok_0 as int;
            &&& k <= id
            &&& names_production(table, id)
            &&& is_settled(table, id)
            &&& forall|j: int| k <= j < id ==> #[trigger] names_other(table, j)
        }),
    decreases 128 - k,
{
    lemma_record(table, k);
    bytes::lemma_be4(table.subrange(172 * k + 168, 172 * k + 172));
    if !names_production(table, k) {
        lemma_volume_found(table, k + 1);
    }
}

/// No volume but a settled one of that name is taken for the production data.
pub proof fn found_volume_is_named(table: Seq<u8>)
    ensures
        ubi::volume_from(table, 0) matches Ok(id) ==> names_production(table, id as int)
            && is_settled(table, id as int),
{
    if ubi::volume_from(table, 0) is Ok {
        lemma_volume_found(table, 0);
    }
}

/// Block `l` of a volume is what the image uses for it.
pub open spec fn is_used_block(
    d: Seq<u8>,
    size: int,
    n: nat,
    id: u32,
    lebs: ubifs::Lebs,
    l: u32,
) -> bool {
    &&& lebs.contains_key(l) ==> uses(d, size, n, (id, l), Some(lebs[l]))
    &&& !lebs.contains_key(l) ==> uses(d, size, n, (id, l), None)
}

/// The volume consists of the blocks that the image uses for it.
pub open spec fn is_used_volume(d: Seq<u8>, size: int, n: nat, id: u32, lebs: ubifs::Lebs) -> bool {
    forall|l: u32| #[trigger] is_used_block(d, size, n, id, lebs, l)
}

proof fn lemma_used_volume(d: Seq<u8>, size: int, n: nat, id: u32, lebs: ubifs::Lebs)
    requires
        ubi::blocks_in(d, size, n) is Ok,
        is_used_volume(d, size, n, id, lebs),
    ensures
        ubi::volume_blocks(ubi::blocks_in(d, size, n)->Ok_0, id) == lebs,
{
    let m = ubi::blocks_in(d, size, n)->Ok_0;
    let v = ubi::volume_blocks(m, id);
    assert forall|l: u32| #[trigger] v.contains_key(l) == lebs.contains_key(l) && (
    lebs.contains_key(l) ==> v[l] == lebs[l]) by {
        assert(is_used_block(d, size, n, id, lebs, l));
        if lebs.contains_key(l) {
            lemma_uses(d, size, n, (id, l), Some(lebs[l]));
        } else {
            lemma_uses(d, size, n, (id, l), None);
        }
    }
    assert(v =~= lebs);
}

/// The volume table that the image uses: the first of the two blocks of the layout volume that is
/// there.
pub open spec fn is_used_table(d: Seq<u8>, size: int, n: nat, table: Seq<u8>) -> bool {
    ||| uses(d, size, n, (0x7fff_efff, 0), Some(table))
    ||| uses(d, size, n, (0x7fff_efff, 0), None) && uses(d, size, n, (0x7fff_efff, 1), Some(table))
}

proof fn lemma_used_table(d: Seq<u8>, size: int, n: nat, table: Seq<u8>)
    requires
        ubi::blocks_in(d, size, n) is Ok,
        is_used_table(d, size, n, table),
    ensures
        ubi::table_in(ubi::blocks_in(d, size, n)->Ok_0) == Some(table),
{
    if uses(d, size, n, (0x7fff_efff, 0), Some(table)) {
        lemma_uses(d, size, n, (0x7fff_efff, 0), Some(table));
    } else {
        lemma_uses(d, size, n, (0x7fff_efff, 0), None);
        lemma_uses(d, size, n, (0x7fff_efff, 1), Some(table));
    }
}

/// The files of a UBI image are those of the volume that is made of the newest copies of the
/// blocks of the production data volume, whose number the volume table gives.
pub proof fn production_volume_is_read(
    d: Seq<u8>,
    size: int,
    n: nat,
    table: Seq<u8>,
    i: int,
    lebs: ubifs::Lebs,
)
    requires
        ubi::block_size(d) == Some(size),
        n == d.len() / size as nat,
        all_readable(d, size, n),
        is_used_table(d, size, n, table),
        names_production(table, i),
        forall|j: int| 0 <= j < i ==> #[trigger] names_other(table, j),
        is_settled(table, i),
        is_used_volume(d, size, n, i as u32, lebs),
    ensures
        ubi::image_files(d) == ubifs::volume_files(lebs),
{
    lemma_readable(d, size, n);
    lemma_used_table(d, size, n, table);
    named_volume_is_found(table, i);
    lemma_used_volume(d, size, n, i as u32, lebs);
}

/// What is read from an eraseblock was carried by it, and was confirmed where it must be; an
/// eraseblock that holds something else is refused.
pub proof fn read_block_was_carried(p: Seq<u8>, b: BlockModel)
    requires
        64 <= p.len() <= usize::MAX,
    ensures
        ubi::block_in(p) == Ok::<Option<BlockModel>, Seq<char>>(Some(b)) ==> exists|vid: Seq<u8>|
            #[trigger] carries(p, vid, b.key.0, b.key.1, b.sequence, b.payload) && ((vid[6] == 0
                && vid[5] != 2) || data_confirmed(vid, b.payload)),
        !begins_block(p, 0) && !bytes::all_are(p, 0xff) ==> ubi::block_in(p) is Err,
        begins_block(p, 0) && !sealed_header(p) ==> ubi::block_in(p) is Err,
{
    let four = p.take(4);
    if four == seq![0x55u8, 0x42, 0x49, 0x23] {
        assert(four[0] == p[0] && four[1] == p[1] && four[2] == p[2] && four[3] == p[3]);
    }
    if begins_block(p, 0) {
        assert(four =~= seq![0x55u8, 0x42, 0x49, 0x23]);
        assert(p[0] != 255);
    }
    bytes::lemma_be4(p.subrange(16, 20));
    bytes::lemma_be4(p.subrange(20, 24));
    bytes::lemma_be4(p.subrange(60, 64));
    if ubi::block_in(p) == Ok::<Option<BlockModel>, Seq<char>>(Some(b)) {
        let at = bytes::be_value(p.subrange(16, 20)) as int;
        let vid = p.subrange(at, at + 64);
        bytes::lemma_be4(vid.subrange(60, 64));
        bytes::lemma_be4(vid.subrange(8, 12));
        bytes::lemma_be4(vid.subrange(12, 16));
        bytes::lemma_be4(vid.subrange(20, 24));
        bytes::lemma_be4(vid.subrange(32, 36));
        bytes::lemma_be8(vid.subrange(40, 48));
        let v = vid.take(4);
        assert(v[0] == vid[0] && v[1] == vid[1] && v[2] == vid[2] && v[3] == vid[3]);
        let used = bytes::be_value(vid.subrange(20, 24)) as int;
        if used <= b.payload.len() {
            assert(b.payload.subrange(0, used) =~= b.payload.take(used));
        }
        assert(carries(p, vid, b.key.0, b.key.1, b.sequence, b.payload));
    }
}

} // verus!
