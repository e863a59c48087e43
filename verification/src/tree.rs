//! Directory entries, in the order of their directories and names.

use vstd::prelude::*;
use vstd::utf8::*;

use crate::text;

verus! {

/// `a` stands before `b` in the order of byte strings.
pub open spec fn lex_less(a: Seq<u8>, b: Seq<u8>) -> bool
    decreases b.len(),
{
    if b.len() == 0 {
        false
    } else if a.len() == 0 {
        true
    } else {
        a[0] < b[0] || (a[0] == b[0] && lex_less(a.skip(1), b.skip(1)))
    }
}

proof fn lemma_lex_total(a: Seq<u8>, b: Seq<u8>)
    ensures
        lex_less(a, b) || lex_less(b, a) || a == b,
        !(lex_less(a, b) && lex_less(b, a)),
        a == b ==> !lex_less(a, b),
    decreases b.len(),
{
    if b.len() > 0 && a.len() > 0 {
        lemma_lex_total(a.skip(1), b.skip(1));
        if a[0] == b[0] && a.skip(1) == b.skip(1) {
            assert(a =~= seq![a[0]] + a.skip(1));
            assert(b =~= seq![b[0]] + b.skip(1));
        }
    } else if a.len() == 0 && b.len() == 0 {
        assert(a =~= b);
    }
}

proof fn lemma_lex_transitive(a: Seq<u8>, b: Seq<u8>, c: Seq<u8>)
    requires
        lex_less(a, b),
        lex_less(b, c),
    ensures
        lex_less(a, c),
    decreases c.len(),
{
    if a.len() > 0 && a[0] == b[0] && b[0] == c[0] {
        lemma_lex_transitive(a.skip(1), b.skip(1), c.skip(1));
    }
}

/// A directory entry: under `parent`, `name` leads to the inode `ino`.
pub struct DentModel {
    pub parent: u64,
    pub name: Seq<char>,
    pub version: u32,
    pub ino: u64,
}

/// Entries are ordered by parent, then by name.
pub open spec fn before(a: DentModel, b: DentModel) -> bool {
    a.parent < b.parent || (a.parent == b.parent && lex_less(
        encode_utf8(a.name),
        encode_utf8(b.name),
    ))
}

/// Two entries give the same name under the same parent.
pub open spec fn same_place(a: DentModel, b: DentModel) -> bool {
    a.parent == b.parent && a.name == b.name
}

/// Entries stand in order, and no place occurs twice.
pub open spec fn sorted(s: Seq<DentModel>) -> bool {
    forall|i: int, j: int| 0 <= i < j < s.len() ==> before(s[i], s[j])
}

/// From `i` on, the first entry that does not stand before `d`.
pub open spec fn rank(s: Seq<DentModel>, i: int, d: DentModel) -> int
    decreases s.len() - i,
{
    if 0 <= i < s.len() && before(s[i], d) {
        rank(s, i + 1, d)
    } else {
        i
    }
}

/// The entry at the place of `d`.
pub open spec fn entry_at(s: Seq<DentModel>, d: DentModel) -> Option<DentModel> {
    let i = rank(s, 0, d);
    if i < s.len() && same_place(s[i], d) {
        Some(s[i])
    } else {
        None
    }
}

/// The entries with `d` at its place.
pub open spec fn with_entry(s: Seq<DentModel>, d: DentModel) -> Seq<DentModel> {
    let i = rank(s, 0, d);
    if i < s.len() && same_place(s[i], d) {
        s.update(i, d)
    } else {
        s.insert(i, d)
    }
}

/// The entries with `d` at its place, unless an entry of its version or a later one is there.
pub open spec fn with_newer(s: Seq<DentModel>, d: DentModel) -> Seq<DentModel> {
    match entry_at(s, d) {
        Some(e) => if d.version > e.version {
            with_entry(s, d)
        } else {
            s
        },
        None => with_entry(s, d),
    }
}

proof fn lemma_before_total(a: DentModel, b: DentModel)
    ensures
        before(a, b) || before(b, a) || same_place(a, b),
        !(before(a, b) && before(b, a)),
        same_place(a, b) ==> !before(a, b) && !before(b, a),
{
    lemma_lex_total(encode_utf8(a.name), encode_utf8(b.name));
    encode_utf8_decode_utf8(a.name);
    encode_utf8_decode_utf8(b.name);
}

proof fn lemma_before_transitive(a: DentModel, b: DentModel, c: DentModel)
    requires
        before(a, b),
        before(b, c),
    ensures
        before(a, c),
{
    if a.parent == b.parent && b.parent == c.parent {
        lemma_lex_transitive(encode_utf8(a.name), encode_utf8(b.name), encode_utf8(c.name));
    }
}

pub proof fn lemma_rank(s: Seq<DentModel>, i: int, d: DentModel)
    requires
        0 <= i <= s.len(),
    ensures
        i <= rank(s, i, d) <= s.len(),
        forall|j: int| i <= j < rank(s, i, d) ==> before(s[j], d),
        rank(s, i, d) < s.len() ==> !before(s[rank(s, i, d)], d),
    decreases s.len() - i,
{
    if i < s.len() && before(s[i], d) {
        lemma_rank(s, i + 1, d);
    }
}

/// Putting an entry at its place keeps the order.
pub proof fn with_entry_keeps_order(s: Seq<DentModel>, d: DentModel)
    requires
        sorted(s),
    ensures
        sorted(with_entry(s, d)),
{
    let k = rank(s, 0, d);
    lemma_rank(s, 0, d);
    let t = with_entry(s, d);
    let replaced = k < s.len() && same_place(s[k], d);
    assert forall|i: int, j: int| 0 <= i < j < t.len() implies before(t[i], t[j]) by {
        if replaced {
            assert(before(s[i], s[j]));
        } else {
            let a = if i < k { i } else { i - 1 };
            let b = if j < k { j } else { j - 1 };
            if i != k && j != k {
                assert(before(s[a], s[b]));
            } else if j == k {
                assert(before(s[i], d));
            } else {
                lemma_before_total(s[k], d);
                if b > k {
                    assert(before(s[k], s[b]));
                    lemma_before_transitive(d, s[k], s[b]);
                }
            }
        }
    }
}

/// Each entry was there before, or is the one that was put.
pub proof fn entry_comes_from(s: Seq<DentModel>, d: DentModel, j: int) -> (i: int)
    requires
        0 <= j < with_entry(s, d).len(),
    ensures
        i < s.len(),
        i >= 0 ==> with_entry(s, d)[j] == s[i],
        i < 0 ==> with_entry(s, d)[j] == d,
{
    let k = rank(s, 0, d);
    lemma_rank(s, 0, d);
    if j == k {
        -1
    } else if j < k || with_entry(s, d).len() == s.len() {
        j
    } else {
        j - 1
    }
}

/// In an ordered list, an entry is found exactly where one of its place stands.
pub proof fn entry_is_found(s: Seq<DentModel>, d: DentModel, i: int)
    requires
        sorted(s),
        0 <= i < s.len(),
        same_place(s[i], d),
    ensures
        entry_at(s, d) == Some(s[i]),
{
    let k = rank(s, 0, d);
    lemma_rank(s, 0, d);
    lemma_before_total(s[i], d);
    if i < k {
        assert(before(s[i], d));
    } else if k < i {
        assert(before(s[k], s[i]));
        assert(before(s[k], d));
    }
}

/// After an entry was put at its place, it is what stands there, and every other place holds
/// what it held.
pub proof fn with_entry_sets_one_place(s: Seq<DentModel>, d: DentModel, other: DentModel)
    requires
        sorted(s),
    ensures
        entry_at(with_entry(s, d), d) == Some(d),
        !same_place(other, d) ==> entry_at(with_entry(s, d), other) == entry_at(s, other),
{
    let t = with_entry(s, d);
    let k = rank(s, 0, d);
    lemma_rank(s, 0, d);
    with_entry_keeps_order(s, d);
    assert(t[k] == d);
    entry_is_found(t, d, k);
    if !same_place(other, d) {
        match entry_at(s, other) {
            Some(e) => {
                let i = rank(s, 0, other);
                lemma_rank(s, 0, other);
                let j = if t.len() == s.len() || i < k { i } else { i + 1 };
                assert(t[j] == e);
                entry_is_found(t, other, j);
            },
            None => {
                if entry_at(t, other) is Some {
                    let j = rank(t, 0, other);
                    lemma_rank(t, 0, other);
                    assert(same_place(t[j], other));
                    assert(j != k);
                    let i = if t.len() == s.len() || j < k { j } else { j - 1 };
                    assert(s[i] == t[j]);
                    entry_is_found(s, other, i);
                }
            },
        }
    }
}

/// Of the entries for one place the newest stands there, the first of equal versions, and every
/// other place holds what it held.
pub proof fn newest_entry_stands(s: Seq<DentModel>, d: DentModel, other: DentModel)
    requires
        sorted(s),
    ensures
        sorted(with_newer(s, d)),
        entry_at(with_newer(s, d), d) == match entry_at(s, d) {
            Some(e) => if d.version > e.version {
                Some(d)
            } else {
                Some(e)
            },
            None => Some(d),
        },
        !same_place(other, d) ==> entry_at(with_newer(s, d), other) == entry_at(s, other),
{
    with_entry_keeps_order(s, d);
    with_entry_sets_one_place(s, d, other);
}

proof fn lemma_without_last(s: Seq<DentModel>, d: DentModel)
    requires
        sorted(s),
        s.len() > 0,
    ensures
        sorted(s.drop_last()),
        entry_at(s.drop_last(), d) == if same_place(s.last(), d) {
            None
        } else {
            entry_at(s, d)
        },
{
    let t = s.drop_last();
    let k = rank(t, 0, d);
    lemma_rank(t, 0, d);
    lemma_rank(s, 0, d);
    if k < t.len() && same_place(t[k], d) {
        assert(before(s[k], s[s.len() - 1]));
        lemma_before_total(s[k], s.last());
        entry_is_found(s, d, k);
    } else if entry_at(s, d) is Some {
        let i = rank(s, 0, d);
        if i < t.len() {
            assert(t[i] == s[i]);
            entry_is_found(t, d, i);
        }
    }
}

/// Two ordered lists that hold the same at every place are the same.
pub proof fn entries_decide(a: Seq<DentModel>, b: Seq<DentModel>)
    requires
        sorted(a),
        sorted(b),
        forall|d: DentModel| #[trigger] entry_at(a, d) == entry_at(b, d),
    ensures
        a == b,
    decreases a.len(),
{
    if a.len() == 0 {
        if b.len() > 0 {
            entry_is_found(b, b[0], 0);
            assert(entry_at(a, b[0]) is None);
        }
        assert(a =~= b);
    } else {
        let x = a.last();
        entry_is_found(a, x, a.len() - 1);
        assert(entry_at(b, x) == Some(x));
        let i = rank(b, 0, x);
        lemma_rank(b, 0, x);
        let y = b.last();
        entry_is_found(b, y, b.len() - 1);
        assert(entry_at(a, y) == Some(y));
        let j = rank(a, 0, y);
        lemma_rank(a, 0, y);
        if i < b.len() - 1 && j < a.len() - 1 {
            assert(before(b[i], b[b.len() - 1]));
            assert(before(a[j], a[a.len() - 1]));
            lemma_before_total(x, y);
        }
        assert(x == y);
        let c = a.drop_last();
        let d = b.drop_last();
        lemma_without_last(a, x);
        lemma_without_last(b, x);
        assert forall|q: DentModel| #[trigger] entry_at(c, q) == entry_at(d, q) by {
            lemma_without_last(a, q);
            lemma_without_last(b, q);
            assert(entry_at(a, q) == entry_at(b, q));
        }
        entries_decide(c, d);
        assert(a =~= c.push(x));
        assert(b =~= d.push(x));
    }
}

/// What stands at a place depends on the place alone.
pub proof fn lemma_entry_by_place(s: Seq<DentModel>, a: DentModel, b: DentModel)
    requires
        sorted(s),
        same_place(a, b),
    ensures
        entry_at(s, a) == entry_at(s, b),
{
    lemma_rank(s, 0, a);
    lemma_rank(s, 0, b);
    if entry_at(s, a) is Some {
        entry_is_found(s, b, rank(s, 0, a));
    } else if entry_at(s, b) is Some {
        entry_is_found(s, a, rank(s, 0, b));
    }
}

/// What stands at the place of `q` after `a` and `b` were offered, in either order.
proof fn lemma_offered(s: Seq<DentModel>, a: DentModel, b: DentModel, q: DentModel)
    requires
        sorted(s),
        !(same_place(a, b) && a.version == b.version),
    ensures
        entry_at(with_newer(with_newer(s, a), b), q) == entry_at(
            with_newer(with_newer(s, b), a),
            q,
        ),
{
    let sa = with_newer(s, a);
    let sb = with_newer(s, b);
    newest_entry_stands(s, a, q);
    newest_entry_stands(s, a, b);
    newest_entry_stands(s, b, q);
    newest_entry_stands(s, b, a);
    newest_entry_stands(sa, b, q);
    newest_entry_stands(sb, a, q);
    newest_entry_stands(sa, b, a);
    newest_entry_stands(sb, a, b);
    if same_place(q, a) {
        lemma_entry_by_place(with_newer(sa, b), q, a);
        lemma_entry_by_place(with_newer(sb, a), q, a);
    }
    if same_place(q, b) {
        lemma_entry_by_place(with_newer(sa, b), q, b);
        lemma_entry_by_place(with_newer(sb, a), q, b);
    }
    if same_place(a, b) {
        lemma_entry_by_place(s, a, b);
        lemma_entry_by_place(sa, a, b);
        lemma_entry_by_place(sb, a, b);
        lemma_entry_by_place(with_newer(sa, b), a, b);
        lemma_entry_by_place(with_newer(sb, a), a, b);
    }
}

/// The order in which two entries are offered does not matter, unless they have one place and
/// one version.
pub proof fn offers_commute(s: Seq<DentModel>, a: DentModel, b: DentModel)
    requires
        sorted(s),
        !(same_place(a, b) && a.version == b.version),
    ensures
        with_newer(with_newer(s, a), b) == with_newer(with_newer(s, b), a),
{
    let x = with_newer(with_newer(s, a), b);
    let y = with_newer(with_newer(s, b), a);
    newest_entry_stands(s, a, a);
    newest_entry_stands(s, b, b);
    newest_entry_stands(with_newer(s, a), b, b);
    newest_entry_stands(with_newer(s, b), a, a);
    assert forall|q: DentModel| #[trigger] entry_at(x, q) == entry_at(y, q) by {
        lemma_offered(s, a, b, q);
    }
    entries_decide(x, y);
}

/// A directory entry.
pub struct Dent {
    pub parent: u64,
    pub name: String,
    pub version: u32,
    pub ino: u64,
}

impl View for Dent {
    type V = DentModel;

    open spec fn view(&self) -> DentModel {
        DentModel {
            parent: self.parent,
            name: self.name@,
            version: self.version,
            ino: self.ino,
        }
    }
}

/// The directory entries of an image, in order.
pub struct Dents {
    entries: Vec<Dent>,
}

impl View for Dents {
    type V = Seq<DentModel>;

    closed spec fn view(&self) -> Seq<DentModel> {
        Seq::new(self.entries@.len(), |i: int| self.entries@[i]@)
    }
}

enum Side {
    Before,
    Same,
    Behind,
}

/// On which side of `b` the byte string `a` stands.
fn side_of(a: &[u8], b: &[u8]) -> (r: Side)
    ensures
        r is Before == lex_less(a@, b@),
        r is Same == (a@ == b@),
{
    let mut i: usize = 0;
    assert(a@.skip(0) =~= a@);
    assert(b@.skip(0) =~= b@);
    while i < a.len() && i < b.len()
        invariant
            i <= a.len(),
            i <= b.len(),
            a@.take(i as int) =~= b@.take(i as int),
            lex_less(a@, b@) == lex_less(a@.skip(i as int), b@.skip(i as int)),
        decreases a.len() - i,
    {
        assert(a@.skip(i as int).skip(1) =~= a@.skip(i + 1));
        assert(b@.skip(i as int).skip(1) =~= b@.skip(i + 1));
        if a[i] < b[i] {
            return Side::Before;
        }
        if a[i] > b[i] {
            return Side::Behind;
        }
        assert(a@.take(i + 1) =~= a@.take(i as int).push(a@[i as int]));
        assert(b@.take(i + 1) =~= b@.take(i as int).push(b@[i as int]));
        i += 1;
    }
    if i < b.len() {
        Side::Before
    } else if i < a.len() {
        Side::Behind
    } else {
        assert(a@.take(i as int) =~= a@);
        assert(b@.take(i as int) =~= b@);
        proof {
            lemma_lex_total(a@, b@);
        }
        Side::Same
    }
}

impl Dents {
    /// The entries stand in order, each place once.
    pub closed spec fn wf(self) -> bool {
        sorted(self@)
    }

    /// No entries.
    pub fn new() -> (r: Self)
        ensures
            r.wf(),
            r@ == Seq::<DentModel>::empty(),
    {
        let r = Dents { entries: Vec::new() };
        assert(r@ =~= Seq::<DentModel>::empty());
        r
    }

    /// The number of entries.
    pub fn len(&self) -> (n: usize)
        ensures
            n == self@.len(),
    {
        self.entries.len()
    }

    /// The entry at index `i`.
    pub fn get(&self, i: usize) -> (d: &Dent)
        requires
            i < self@.len(),
        ensures
            d@ == self@[i as int],
    {
        &self.entries[i]
    }

    /// Where `d` belongs, and whether an entry of its place is there.
    fn place_of(&self, d: &Dent) -> (r: (usize, bool))
        ensures
            r.0 == rank(self@, 0, d@),
            r.0 <= self@.len(),
            r.1 == (r.0 < self@.len() && same_place(self@[r.0 as int], d@)),
    {
        let mut i: usize = 0;
        while i < self.entries.len()
            invariant
                i <= self.entries.len(),
                rank(self@, 0, d@) == rank(self@, i as int, d@),
            decreases self.entries.len() - i,
        {
            let e = &self.entries[i];
            assert(self@[i as int] == e@);
            if e.parent > d.parent {
                return (i, false);
            }
            if e.parent == d.parent {
                proof {
                    encode_utf8_decode_utf8(e.name@);
                    encode_utf8_decode_utf8(d.name@);
                }
                match side_of(e.name.as_str().as_bytes(), d.name.as_str().as_bytes()) {
                    Side::Before => {},
                    Side::Same => {
                        return (i, true);
                    },
                    Side::Behind => {
                        return (i, false);
                    },
                }
            }
            i += 1;
        }
        (i, false)
    }

    /// Puts `d` at its place.
    pub fn put(&mut self, d: Dent)
        requires
            old(self).wf(),
        ensures
            final(self).wf(),
            final(self)@ == with_entry(old(self)@, d@),
    {
        let ghost start = self@;
        let ghost new = d@;
        let (i, there) = self.place_of(&d);
        proof {
            with_entry_keeps_order(self@, d@);
        }
        if there {
            self.entries[i] = d;
            assert(self@ =~= start.update(i as int, new));
        } else {
            self.entries.insert(i, d);
            assert(self@ =~= start.insert(i as int, new));
        }
    }

    /// Puts `d` at its place, unless an entry of its version or a later one is there.
    pub fn put_newer(&mut self, d: Dent)
        requires
            old(self).wf(),
        ensures
            final(self).wf(),
            final(self)@ == with_newer(old(self)@, d@),
    {
        let (i, there) = self.place_of(&d);
        if there {
            assert(self@[i as int] == self.entries@[i as int]@);
            if d.version <= self.entries[i].version {
                return ;
            }
        }
        self.put(d);
    }
}

/// The name that the bytes of a directory entry give, or why they give none.
pub open spec fn entry_name(d: Seq<u8>) -> Result<Seq<char>, Seq<char>> {
    if !valid_utf8(d) {
        Err(text::utf8_error_text(d))
    } else {
        let s = decode_utf8(d);
        if s.len() == 0 || s.contains('/') || s.contains('\0') || s == seq!['.'] || s == seq![
            '.',
            '.',
        ] {
            Err("Invalid directory entry name"@)
        } else {
            Ok(s)
        }
    }
}

/// The name that the bytes of a directory entry give.
pub fn name(d: &[u8]) -> (r: Result<String, String>)
    ensures
        text::says(r, entry_name(d@)),
{
    let s = text::utf8_text(d)?;
    let chars = text::chars_of(s.as_str());
    let mut plain = chars.len() > 0;
    let mut i: usize = 0;
    while i < chars.len()
        invariant
            i <= chars.len(),
            plain == (chars.len() > 0 && forall|j: int|
                0 <= j < i ==> chars@[j] != '/' && chars@[j] != '\0'),
        decreases chars.len() - i,
    {
        if chars[i] == '/' || chars[i] == '\0' {
            plain = false;
        }
        i += 1;
    }
    let dots = (chars.len() == 1 && chars[0] == '.') || (chars.len() == 2 && chars[0] == '.'
        && chars[1] == '.');
    proof {
        let v = chars@;
        assert(v == s@);
        if v.len() == 1 && v[0] == '.' {
            assert(v =~= seq!['.']);
        }
        if v.len() == 2 && v[0] == '.' && v[1] == '.' {
            assert(v =~= seq!['.', '.']);
        }
    }
    if !plain || dots {
        return Err("Invalid directory entry name".to_owned());
    }
    Ok(s)
}

} // verus!
