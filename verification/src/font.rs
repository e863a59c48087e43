//! The choice of a font that can show Chinese text.

use vstd::prelude::*;

use crate::bytes;

verus! {

/// The fonts of a system.
#[verifier::external_type_specification]
#[verifier::external_body]
pub struct ExDatabase(fontdb::Database);

/// A face of a font database.
#[verifier::external_type_specification]
#[verifier::external_body]
pub struct ExId(fontdb::ID);

/// The faces that a font database holds, in the order of `fontdb::Database::faces`.
pub uninterp spec fn faces_in(database: fontdb::Database) -> Seq<fontdb::ID>;

/// The face that `fontdb::Database::query` finds for the name of a family, in a regular style.
pub uninterp spec fn families_in(database: fontdb::Database) -> Map<Seq<char>, fontdb::ID>;

/// Lists the faces with `fontdb::Database::faces`, all of them in the order of the database.
#[verifier::external_body]
fn list_faces(database: &fontdb::Database) -> (r: Vec<fontdb::ID>)
    ensures
        r@ == faces_in(*database),
{
    database.faces().map(|face| face.id).collect()
}

/// Asks `fontdb::Database::query` for a family in a regular style: which face answers depends on
/// the database and the name alone, and is one that the database holds.
#[verifier::external_body]
fn find_family(database: &fontdb::Database, family: &str) -> (r: Option<fontdb::ID>)
    ensures
        match r {
            Some(face) => families_in(*database).contains_key(family@) && families_in(
                *database,
            )[family@] == face && faces_in(*database).contains(face),
            None => !families_in(*database).contains_key(family@),
        },
{
    let families = [fontdb::Family::Name(family)];
    database.query(&fontdb::Query { families: &families, ..Default::default() })
}

/// The 16-bit big-endian value at offset `o`.
pub open spec fn half(d: Seq<u8>, o: int) -> int {
    bytes::be_value(d.subrange(o, o + 2)) as int
}

/// The 32-bit big-endian value at offset `o`.
pub open spec fn word(d: Seq<u8>, o: int) -> int {
    bytes::be_value(d.subrange(o, o + 4)) as int
}

/// The letters `ttcf`, which begin a collection of fonts.
pub open spec fn collection_magic() -> Seq<u8> {
    seq![0x74, 0x74, 0x63, 0x66]
}

/// The list of tables of the font at `at` ends at a 32-bit position, by the count that stands
/// there; so does that count itself where the data ends before it.
pub open spec fn tables_fit(data: Seq<u8>, at: int) -> bool {
    if at + 6 <= data.len() {
        at + 12 + 16 * half(data, at + 4) <= u32::MAX
    } else {
        at + 6 <= u32::MAX
    }
}

/// The positions that the directory of a collection leads to are 32-bit numbers: the end of its
/// list of fonts, and the end of the list of tables of font number `index`.
pub open spec fn directory_fits(data: Seq<u8>, index: u32) -> bool {
    bytes::begins(data, collection_magic()) && data.len() >= 12 ==> {
        &&& 12 + 4 * word(data, 8) <= u32::MAX
        &&& index < word(data, 8) && 16 + 4 * index <= data.len() ==> tables_fit(
            data,
            word(data, 12 + 4 * index),
        )
    }
}

/// The table records of font number `index` in `data`, each as tag, offset and length, in the
/// order of the font: what `ttf_parser::RawFace::parse` reads, `None` where it fails.
pub uninterp spec fn face_records(data: Seq<u8>, index: u32) -> Option<Seq<(u32, u32, u32)>>;

/// Reads the table records of a font with `ttf_parser::RawFace::parse`. The outcome depends on
/// the data and the number of the font alone. The reader asserts that each position it computes
/// is a 32-bit number, so data of which that does not hold is left out.
#[verifier::external_body]
fn read_records(data: &[u8], index: u32) -> (r: Option<Vec<(u32, u32, u32)>>)
    requires
        directory_fits(data@, index),
    ensures
        match (r, face_records(data@, index)) {
            (Some(v), Some(records)) => v@ == records,
            (None, None) => true,
            _ => false,
        },
{
    let records = ttf_parser::RawFace::parse(data, index).ok()?.table_records;
    (0..records.len()).map(|i| records.get(i).map(|r| (r.tag.0, r.offset, r.length))).collect()
}

/// The data of the table `tag`: what the last record of that tag gives, nothing where there is
/// none or where it lies outside of the data.
pub open spec fn table_in(data: Seq<u8>, records: Seq<(u32, u32, u32)>, tag: u32) -> Seq<u8>
    decreases records.len(),
{
    if records.len() == 0 {
        Seq::empty()
    } else {
        let (t, offset, length) = records.last();
        if t != tag || offset + length > usize::MAX {
            table_in(data, records.drop_last(), tag)
        } else if offset + length <= data.len() {
            data.subrange(offset as int, offset + length)
        } else {
            Seq::empty()
        }
    }
}

/// The three tables that every font must have are there and intact.
pub open spec fn is_face(head: Seq<u8>, hhea: Seq<u8>, maxp: Seq<u8>) -> bool {
    &&& head.len() >= 54 && 16 <= half(head, 18) <= 16384 && half(head, 50) <= 1
    &&& hhea.len() >= 36
    &&& maxp.len() >= 6 && (word(maxp, 0) == 0x5000 || word(maxp, 0) == 0x10000) && half(maxp, 4)
        != 0
}

/// Tries to make a face of three tables with `ttf_parser::Face::from_raw_tables`. It succeeds
/// where `head` has its length, a scale from 16 to 16384 units and a known format of locations,
/// `hhea` has its length, and `maxp` has a known version and counts at least one glyph.
#[verifier::external_body]
fn check_face(head: &[u8], hhea: &[u8], maxp: &[u8]) -> (r: bool)
    ensures
        r == is_face(head@, hhea@, maxp@),
{
    let tables = ttf_parser::RawFaceTables { head, hhea, maxp, ..Default::default() };
    ttf_parser::Face::from_raw_tables(tables).is_ok()
}

/// The number of subtables of a character map; none where their records are cut off.
pub open spec fn subtable_count(cmap: Seq<u8>) -> int {
    if cmap.len() < 4 || 4 + 8 * half(cmap, 2) > cmap.len() {
        0
    } else {
        half(cmap, 2)
    }
}

/// The end of the array that a subtable of format 10, 12, 13 or 14 announces is a 32-bit number.
pub open spec fn array_fits(s: Seq<u8>) -> bool {
    if s.len() < 2 {
        true
    } else if half(s, 0) == 10 {
        s.len() >= 20 ==> 20 + 2 * word(s, 16) <= u32::MAX
    } else if half(s, 0) == 12 || half(s, 0) == 13 {
        s.len() >= 16 ==> 16 + 12 * word(s, 12) <= u32::MAX
    } else if half(s, 0) == 14 {
        s.len() >= 10 ==> 10 + 11 * word(s, 6) <= u32::MAX
    } else {
        true
    }
}

/// Subtable number `i` of a character map announces no array beyond 32 bits.
pub open spec fn subtable_fits(cmap: Seq<u8>, i: int) -> bool {
    let at = word(cmap, 8 + 8 * i);
    at <= cmap.len() ==> array_fits(cmap.skip(at))
}

/// What subtable number `i` of a character map says of the character `c`: whether it maps
/// Unicode, and whether it gives `c` a glyph; `None` where the subtable cannot be read. These are
/// the answers of `ttf_parser::cmap`.
pub uninterp spec fn subtable_answer(cmap: Seq<u8>, i: u16, c: char) -> Option<(bool, bool)>;

/// Asks a subtable of a character map for a character, with `ttf_parser::cmap::Table::parse`,
/// `ttf_parser::cmap::Subtables::get`, and the subtable's `is_unicode` and `glyph_index`. The
/// outcome depends on the table, the number of the subtable and the character alone. The reader
/// asserts that an array ends at a 32-bit number, so a subtable with another is left out.
#[verifier::external_body]
fn ask_subtable(cmap: &[u8], i: u16, c: char) -> (r: Option<(bool, bool)>)
    requires
        i < subtable_count(cmap@),
        subtable_fits(cmap@, i as int),
    ensures
        r == subtable_answer(cmap@, i, c),
{
    let s = ttf_parser::cmap::Table::parse(cmap)?.subtables.get(i)?;
    Some((s.is_unicode(), s.glyph_index(u32::from(c)).is_some()))
}

/// From subtable `i` on, the first that maps Unicode and has a glyph for `c` settles that there
/// is one. A subtable that cannot be read ends the search.
pub open spec fn mapped_from(cmap: Seq<u8>, i: int, c: char) -> bool
    decreases subtable_count(cmap) - i,
{
    if i >= subtable_count(cmap) || !subtable_fits(cmap, i) {
        false
    } else {
        match subtable_answer(cmap, i as u16, c) {
            None => false,
            Some((unicode, glyph)) => (unicode && glyph) || mapped_from(cmap, i + 1, c),
        }
    }
}

/// Font number `index` in `data` is one that can be read, and has a glyph for `c`.
pub open spec fn has_glyph(data: Seq<u8>, index: u32, c: char) -> bool {
    directory_fits(data, index) && match face_records(data, index) {
        None => false,
        Some(records) => {
            &&& is_face(
                table_in(data, records, 0x6865_6164),
                table_in(data, records, 0x6868_6561),
                table_in(data, records, 0x6d61_7870),
            )
            &&& mapped_from(table_in(data, records, 0x636d_6170), 0, c)
        },
    }
}

fn half_of(d: &[u8], o: usize) -> (r: u16)
    requires
        o + 2 <= d@.len(),
    ensures
        r == half(d@, o as int),
{
    assert(o + 2 <= d.len());
    proof {
        bytes::lemma_be2(d@.subrange(o as int, o + 2));
    }
    256 * d[o] as u16 + d[o + 1] as u16
}

fn word_of(d: &[u8], o: usize) -> (r: u32)
    requires
        o + 4 <= d@.len(),
    ensures
        r == word(d@, o as int),
{
    assert(o + 4 <= d.len());
    proof {
        bytes::lemma_be4(d@.subrange(o as int, o + 4));
    }
    match bytes::be32(d, o) {
        Ok(v) => v,
        Err(_) => 0,
    }
}

/// Whether `first + size * count` is a 32-bit number.
fn ends_in_word(first: u64, size: u64, count: u32) -> (r: bool)
    requires
        first <= 20,
        size <= 12,
    ensures
        r == (first + size * count <= u32::MAX),
{
    assert(size * count <= 12 * 0xffff_ffff) by (nonlinear_arith)
        requires
            size <= 12,
            count <= 0xffff_ffff,
    ;
    first + size * count as u64 <= u32::MAX as u64
}

fn check_directory(data: &[u8], index: u32) -> (r: bool)
    ensures
        r == directory_fits(data@, index),
{
    let magic: [u8; 4] = [0x74, 0x74, 0x63, 0x66];
    assert(magic@ =~= collection_magic());
    if !bytes::starts_with(data, &magic) || data.len() < 12 {
        return true;
    }
    let count = word_of(data, 8);
    if !ends_in_word(12, 4, count) {
        return false;
    }
    if index >= count || (data.len() - 12) / 4 <= index as usize {
        return true;
    }
    let at = word_of(data, 12 + 4 * index as usize);
    if data.len() < 6 || data.len() - 6 < at as usize {
        return at <= u32::MAX - 6;
    }
    at as u64 + 12 + 16 * half_of(data, at as usize + 4) as u64 <= u32::MAX as u64
}

fn check_subtable(cmap: &[u8], i: u16) -> (r: bool)
    requires
        i < subtable_count(cmap@),
    ensures
        r == subtable_fits(cmap@, i as int),
{
    let at: usize = word_of(cmap, 8 + 8 * i as usize) as usize;
    if at > cmap.len() {
        return true;
    }
    let s = &cmap[at..cmap.len()];
    assert(s@ =~= cmap@.skip(at as int));
    if s.len() < 2 {
        return true;
    }
    let format = half_of(s, 0);
    if format == 10 {
        s.len() < 20 || ends_in_word(20, 2, word_of(s, 16))
    } else if format == 12 || format == 13 {
        s.len() < 16 || ends_in_word(16, 12, word_of(s, 12))
    } else if format == 14 {
        s.len() < 10 || ends_in_word(10, 11, word_of(s, 6))
    } else {
        true
    }
}

/// Finds the data of a table.
pub fn find_table<'a>(data: &'a [u8], records: &[(u32, u32, u32)], tag: u32) -> (r: &'a [u8])
    ensures
        r@ == table_in(data@, records@, tag),
{
    let mut found: &'a [u8] = &data[0..0];
    assert(found@ =~= Seq::<u8>::empty());
    let mut i: usize = 0;
    while i < records.len()
        invariant
            i <= records.len(),
            found@ == table_in(data@, records@.take(i as int), tag),
        decreases records.len() - i,
    {
        assert(records@.take(i + 1).drop_last() =~= records@.take(i as int));
        let (t, offset, length) = records[i];
        if t == tag {
            match (offset as usize).checked_add(length as usize) {
                Some(end) => {
                    if end <= data.len() {
                        found = &data[offset as usize..end];
                    } else {
                        found = &data[0..0];
                        assert(found@ =~= Seq::<u8>::empty());
                    }
                },
                None => {},
            }
        }
        i += 1;
    }
    assert(records@.take(records@.len() as int) =~= records@);
    found
}

/// Whether a character map has a glyph for a character.
fn maps(cmap: &[u8], c: char) -> (r: bool)
    ensures
        r == mapped_from(cmap@, 0, c),
{
    if cmap.len() < 4 {
        return false;
    }
    let count = half_of(cmap, 2);
    if (cmap.len() - 4) / 8 < count as usize {
        return false;
    }
    let mut i: u16 = 0;
    while i < count
        invariant
            i <= count,
            count == subtable_count(cmap@),
            mapped_from(cmap@, 0, c) == mapped_from(cmap@, i as int, c),
        decreases count - i,
    {
        if !check_subtable(cmap, i) {
            return false;
        }
        match ask_subtable(cmap, i, c) {
            None => {
                return false;
            },
            Some((unicode, glyph)) => {
                if unicode && glyph {
                    return true;
                }
            },
        }
        i += 1;
    }
    false
}

/// Whether a font can show Chinese text.
pub fn supports_chinese(data: &[u8], index: u32) -> (r: bool)
    ensures
        r == has_glyph(data@, index, '中'),
{
    if !check_directory(data, index) {
        return false;
    }
    let records = match read_records(data, index) {
        Some(records) => records,
        None => {
            return false;
        },
    };
    let head = find_table(data, records.as_slice(), 0x6865_6164);
    let hhea = find_table(data, records.as_slice(), 0x6868_6561);
    let maxp = find_table(data, records.as_slice(), 0x6d61_7870);
    let cmap = find_table(data, records.as_slice(), 0x636d_6170);
    check_face(head, hhea, maxp) && maps(cmap, '中')
}

/// The families that are preferred, the best first.
pub open spec fn preferred() -> Seq<Seq<char>> {
    seq![
        "Noto Sans CJK SC"@,
        "Noto Sans SC"@,
        "Source Han Sans SC"@,
        "Microsoft YaHei UI"@,
        "Microsoft YaHei"@,
        "PingFang SC"@,
        "WenQuanYi Micro Hei"@,
        "Droid Sans Fallback"@,
    ]
}

/// The faces that a database finds for the given families.
pub open spec fn named_faces(database: fontdb::Database, families: Seq<Seq<char>>) -> Seq<
    fontdb::ID,
>
    decreases families.len(),
{
    if families.len() == 0 {
        Seq::empty()
    } else {
        let before = named_faces(database, families.drop_last());
        if families_in(database).contains_key(families.last()) {
            before.push(families_in(database)[families.last()])
        } else {
            before
        }
    }
}

/// The order in which faces are tried: those of the preferred families, then all of them.
pub fn candidate_faces(database: &fontdb::Database) -> (r: Vec<fontdb::ID>)
    ensures
        r@ == named_faces(*database, preferred()) + faces_in(*database),
{
    let families = [
        "Noto Sans CJK SC",
        "Noto Sans SC",
        "Source Han Sans SC",
        "Microsoft YaHei UI",
        "Microsoft YaHei",
        "PingFang SC",
        "WenQuanYi Micro Hei",
        "Droid Sans Fallback",
    ];
    let mut out: Vec<fontdb::ID> = Vec::new();
    let mut i: usize = 0;
    assert(preferred().take(0) =~= Seq::empty());
    while i < 8
        invariant
            i <= 8,
            families@.len() == 8,
            preferred().len() == 8,
            forall|k: int| 0 <= k < 8 ==> (#[trigger] families@[k])@ == preferred()[k],
            out@ == named_faces(*database, preferred().take(i as int)),
        decreases 8 - i,
    {
        assert(preferred().take(i + 1).drop_last() =~= preferred().take(i as int));
        assert(families@[i as int]@ == preferred()[i as int]);
        if let Some(face) = find_family(database, families[i]) {
            out.push(face);
        }
        i += 1;
    }
    assert(preferred().take(8) =~= preferred());
    let mut all = list_faces(database);
    let ghost named = out@;
    out.append(&mut all);
    assert(out@ =~= named + faces_in(*database));
    out
}

} // verus!
