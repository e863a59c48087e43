//! How the tables and subtables of a font are searched, and in what order fonts are tried.

use vstd::prelude::*;

use crate::font;

verus! {

/// Record number `i` is the last of its tag.
pub open spec fn is_last(records: Seq<(u32, u32, u32)>, i: int, tag: u32) -> bool {
    &&& 0 <= i < records.len() && records[i].0 == tag
    &&& forall|j: int| i < j < records.len() ==> (#[trigger] records[j]).0 != tag
}

/// The last record of a tag says where its table is; where there is none, or it leads out of the
/// data, there is no table.
pub proof fn last_record_gives_table(
    data: Seq<u8>,
    records: Seq<(u32, u32, u32)>,
    tag: u32,
    i: int,
)
    requires
        data.len() <= usize::MAX,
    ensures
        is_last(records, i, tag) && records[i].1 + records[i].2 <= data.len() ==> font::table_in(
            data,
            records,
            tag,
        ) == data.subrange(records[i].1 as int, records[i].1 + records[i].2),
        is_last(records, i, tag) && data.len() < records[i].1 + records[i].2 <= usize::MAX
            ==> font::table_in(data, records, tag).len() == 0,
        (forall|j: int| 0 <= j < records.len() ==> (#[trigger] records[j]).0 != tag)
            ==> font::table_in(data, records, tag).len() == 0,
    decreases records.len(),
{
    if records.len() > 0 {
        let front = records.drop_last();
        if records.last().0 != tag {
            assert(records.last() == records[records.len() - 1]);
            if is_last(records, i, tag) {
                assert(front[i] == records[i]);
                assert forall|j: int| i < j < front.len() implies (#[trigger] front[j]).0 != tag by {
                    assert(front[j] == records[j]);
                }
                assert(is_last(front, i, tag));
            }
            if forall|j: int| 0 <= j < records.len() ==> (#[trigger] records[j]).0 != tag {
                assert forall|j: int| 0 <= j < front.len() implies (#[trigger] front[j]).0
                    != tag by {
                    assert(front[j] == records[j]);
                }
            }
            last_record_gives_table(data, front, tag, i);
        } else {
            assert(records[records.len() - 1].0 == tag);
            if is_last(records, i, tag) {
                assert(i == records.len() - 1);
            }
        }
    }
}

/// Subtable number `i` can be read.
pub open spec fn is_read(cmap: Seq<u8>, i: int, c: char) -> bool {
    font::subtable_fits(cmap, i) && font::subtable_answer(cmap, i as u16, c) is Some
}

/// Subtable number `i` maps Unicode, and has a glyph for the character.
pub open spec fn has_answer(cmap: Seq<u8>, i: int, c: char) -> bool {
    font::subtable_answer(cmap, i as u16, c) == Some((true, true))
}

proof fn lemma_mapped(cmap: Seq<u8>, k: int, c: char)
    requires
        0 <= k,
    ensures
        font::mapped_from(cmap, k, c) <==> exists|i: int|
            k <= i < font::subtable_count(cmap) && #[trigger] has_answer(cmap, i, c) && forall|j: int|
                k <= j <= i ==> #[trigger] is_read(cmap, j, c),
    decreases font::subtable_count(cmap) - k,
{
    if k < font::subtable_count(cmap) {
        lemma_mapped(cmap, k + 1, c);
        if font::mapped_from(cmap, k, c) {
            if has_answer(cmap, k, c) {
                assert forall|j: int| k <= j <= k implies #[trigger] is_read(cmap, j, c) by {}
            } else {
                let i = choose|i: int|
                    k + 1 <= i < font::subtable_count(cmap) && #[trigger] has_answer(cmap, i, c)
                        && forall|j: int| k + 1 <= j <= i ==> #[trigger] is_read(cmap, j, c);
                assert(has_answer(cmap, i, c));
                assert forall|j: int| k <= j <= i implies #[trigger] is_read(cmap, j, c) by {
                    if j == k {
                        assert(is_read(cmap, k, c));
                    }
                }
            }
        }
        if exists|i: int|
            k <= i < font::subtable_count(cmap) && #[trigger] has_answer(cmap, i, c) && forall|j: int|
                k <= j <= i ==> #[trigger] is_read(cmap, j, c) {
            let i = choose|i: int|
                k <= i < font::subtable_count(cmap) && #[trigger] has_answer(cmap, i, c) && forall|
                    j: int,
                |
                    k <= j <= i ==> #[trigger] is_read(cmap, j, c);
            assert(is_read(cmap, k, c));
            if i > k {
                assert forall|j: int| k + 1 <= j <= i implies #[trigger] is_read(cmap, j, c) by {}
                assert(has_answer(cmap, i, c));
            }
        }
    }
}

/// A character has a glyph where some subtable that maps Unicode gives it one and every subtable
/// up to that one can be read; what the subtables behind it are does not matter.
pub proof fn some_subtable_answers(cmap: Seq<u8>, c: char)
    ensures
        font::mapped_from(cmap, 0, c) <==> exists|i: int|
            0 <= i < font::subtable_count(cmap) && #[trigger] has_answer(cmap, i, c) && forall|j: int|
                0 <= j <= i ==> #[trigger] is_read(cmap, j, c),
{
    lemma_mapped(cmap, 0, c);
}

/// The faces of families are tried in the order of the families: those of the first come before
/// those of the second, and a family that there is none of is passed over.
pub proof fn families_keep_their_order(
    database: fontdb::Database,
    first: Seq<Seq<char>>,
    second: Seq<Seq<char>>,
    family: Seq<char>,
)
    ensures
        font::named_faces(database, first + second) == font::named_faces(database, first)
            + font::named_faces(database, second),
        font::named_faces(database, seq![family]) == if font::families_in(database).contains_key(
            family,
        ) {
            seq![font::families_in(database)[family]]
        } else {
            Seq::empty()
        },
    decreases second.len(),
{
    assert(seq![family].drop_last() =~= Seq::<Seq<char>>::empty());
    assert(font::named_faces(database, Seq::empty()) =~= Seq::<fontdb::ID>::empty());
    assert(font::named_faces(database, seq![family]) =~= if font::families_in(
        database,
    ).contains_key(family) {
        seq![font::families_in(database)[family]]
    } else {
        Seq::empty()
    });
    if second.len() == 0 {
        assert(first + second =~= first);
        assert(font::named_faces(database, second) =~= Seq::<fontdb::ID>::empty());
        assert(font::named_faces(database, first + second) =~= font::named_faces(database, first)
            + font::named_faces(database, second));
    } else {
        assert((first + second).drop_last() =~= first + second.drop_last());
        families_keep_their_order(database, first, second.drop_last(), family);
        assert(font::named_faces(database, first + second) =~= font::named_faces(database, first)
            + font::named_faces(database, second));
    }
}

} // verus!
