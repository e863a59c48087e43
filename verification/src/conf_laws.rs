//! What a `factory_conf` file is read as: each key section gives its value, and all else is passed
//! over.

use vstd::prelude::*;
use vstd::utf8::*;

use crate::conf;
use crate::conf::ConfModel;

verus! {

/// Spaces and tabs alone.
pub open spec fn is_blank(s: Seq<char>) -> bool {
    forall|i: int| 0 <= i < s.len() ==> #[trigger] s[i] == ' ' || s[i] == '\t'
}

/// What separates two words.
pub open spec fn is_space(s: Seq<char>) -> bool {
    s.len() > 0 && is_blank(s)
}

/// A single or a double quote.
pub open spec fn is_quote(c: char) -> bool {
    c == '\'' || c == '"'
}

/// White space is what Unicode takes for it.
pub proof fn white_space_is_known(c: char)
    ensures
        conf::is_white(c) <==> {
            let n = c as int;
            ||| 9 <= n <= 13
            ||| n == 32 || n == 0x85 || n == 0xa0 || n == 0x1680
            ||| 0x2000 <= n <= 0x200a
            ||| n == 0x2028 || n == 0x2029 || n == 0x202f || n == 0x205f || n == 0x3000
        },
{
}

/// A word, without white space.
pub open spec fn is_word(s: Seq<char>) -> bool {
    s.len() > 0 && forall|i: int| 0 <= i < s.len() ==> !conf::is_white(#[trigger] s[i])
}

/// Three words in a line, with white space around them.
proof fn lemma_three_words(
    a: Seq<char>,
    w: Seq<char>,
    b: Seq<char>,
    x: Seq<char>,
    c: Seq<char>,
    y: Seq<char>,
    e: Seq<char>,
)
    requires
        is_blank(a),
        is_word(w),
        is_space(b),
        is_word(x),
        is_space(c),
        is_word(y),
        is_blank(e),
    ensures
        conf::words_from(a + w + b + x + c + y + e, 0) == seq![w, x, y],
{
    let s = a + w + b + x + c + y + e;
    let i = a.len() as int;
    let j = i + w.len();
    let k = j + b.len();
    let l = k + x.len();
    let m = l + c.len();
    let n = m + y.len();
    let end = s.len() as int;
    assert(forall|t: int| 0 <= t < i ==> #[trigger] s[t] == a[t]);
    assert(forall|t: int| i <= t < j ==> #[trigger] s[t] == w[t - i]);
    assert(forall|t: int| j <= t < k ==> #[trigger] s[t] == b[t - j]);
    assert(forall|t: int| k <= t < l ==> #[trigger] s[t] == x[t - k]);
    assert(forall|t: int| l <= t < m ==> #[trigger] s[t] == c[t - l]);
    assert(forall|t: int| m <= t < n ==> #[trigger] s[t] == y[t - m]);
    assert(forall|t: int| n <= t < end ==> #[trigger] s[t] == e[t - n]);
    conf::lemma_skip_to(s, 0, i);
    conf::lemma_word_to(s, i, j);
    conf::lemma_skip_to(s, j, k);
    conf::lemma_word_to(s, k, l);
    conf::lemma_skip_to(s, l, m);
    conf::lemma_word_to(s, m, n);
    conf::lemma_skip_to(s, n, end);
    assert(s.subrange(i, j) =~= w);
    assert(s.subrange(k, l) =~= x);
    assert(s.subrange(m, n) =~= y);
    assert(conf::words_from(s, n) =~= Seq::<Seq<char>>::empty());
    assert(conf::words_from(s, l) =~= seq![y]);
    assert(conf::words_from(s, j) =~= seq![x, y]);
    assert(conf::words_from(s, 0) =~= seq![w, x, y]);
}

/// A text between quotes.
pub open spec fn in_quotes(q: char, s: Seq<char>) -> Seq<char> {
    seq![q] + s + seq![q]
}

proof fn lemma_in_quotes(q: char, s: Seq<char>)
    requires
        is_quote(q),
    ensures
        conf::unquoted(in_quotes(q, s)) == Some(s),
{
    let t = in_quotes(q, s);
    assert(t[0] == q && t.last() == q);
    assert(t.subrange(1, t.len() - 1) =~= s);
}

/// A section begins with its quoted name, however the words of its line are spaced. A name that is
/// not quoted ends the section before it and begins none.
pub proof fn section_line_is_read(
    a: Seq<char>,
    b: Seq<char>,
    c: Seq<char>,
    e: Seq<char>,
    q: char,
    key: Seq<char>,
    st: ConfModel,
)
    requires
        is_blank(a) && is_space(b) && is_space(c) && is_blank(e),
        is_quote(q),
        key.len() > 0 ==> is_word(key),
    ensures
        conf::line_read(a + "config"@ + b + "key"@ + c + in_quotes(q, key) + e, st) == (ConfModel {
            key: Some(key),
            ..st
        }),
        is_word(key) && !is_quote(key[0]) ==> conf::line_read(
            a + "config"@ + b + "key"@ + c + key + e,
            st,
        ) == (ConfModel { key: None, ..st }),
{
    reveal_strlit("config");
    reveal_strlit("key");
    let quoted = in_quotes(q, key);
    assert forall|i: int| 0 <= i < quoted.len() implies !conf::is_white(#[trigger] quoted[i]) by {
        if 0 < i < quoted.len() - 1 {
            assert(quoted[i] == key[i - 1]);
        }
    }
    lemma_three_words(a, "config"@, b, "key"@, c, quoted, e);
    lemma_in_quotes(q, key);
    if is_word(key) && !is_quote(key[0]) {
        lemma_three_words(a, "config"@, b, "key"@, c, key, e);
    }
}

proof fn lemma_trimmed(c: Seq<char>, v: Seq<char>, e: Seq<char>)
    requires
        is_blank(c),
        is_blank(e),
        v.len() > 0,
        !conf::is_white(v[0]),
        !conf::is_white(v.last()),
    ensures
        conf::trimmed(c + v + e) == v,
{
    let s = c + v + e;
    let i = c.len() as int;
    let n = i + v.len();
    assert(forall|t: int| 0 <= t < i ==> #[trigger] s[t] == c[t]);
    assert(s[i] == v[0]);
    conf::lemma_skip_to(s, 0, i);
    lemma_trim_to(s, s.len() as int, n);
    assert(s.subrange(i, n) =~= v);
}

proof fn lemma_trim_to(s: Seq<char>, k: int, n: int)
    requires
        0 < n <= k <= s.len(),
        forall|t: int| n <= t < k ==> conf::is_white(#[trigger] s[t]),
        !conf::is_white(s[n - 1]),
    ensures
        conf::trim_end(s, k) == n,
    decreases k - n,
{
    if k > n {
        assert(conf::is_white(s[k - 1]));
        lemma_trim_to(s, k - 1, n);
    }
}

/// The words of a line that goes on behind its first two.
proof fn lemma_two_words(a: Seq<char>, w: Seq<char>, b: Seq<char>, x: Seq<char>, c: Seq<char>, rest: Seq<char>)
    requires
        is_blank(a),
        is_word(w),
        is_space(b),
        is_word(x),
        is_space(c),
        rest.len() > 0,
        !conf::is_white(rest[0]),
    ensures
        ({
            let words = conf::words_from(a + w + b + x + c + rest, 0);
            words.len() >= 3 && words[0] == w && words[1] == x
        }),
{
    let s = a + w + b + x + c + rest;
    let i = a.len() as int;
    let j = i + w.len();
    let k = j + b.len();
    let l = k + x.len();
    let m = l + c.len();
    assert(forall|t: int| 0 <= t < i ==> #[trigger] s[t] == a[t]);
    assert(forall|t: int| i <= t < j ==> #[trigger] s[t] == w[t - i]);
    assert(forall|t: int| j <= t < k ==> #[trigger] s[t] == b[t - j]);
    assert(forall|t: int| k <= t < l ==> #[trigger] s[t] == x[t - k]);
    assert(forall|t: int| l <= t < m ==> #[trigger] s[t] == c[t - l]);
    assert(s[m] == rest[0]);
    conf::lemma_skip_to(s, 0, i);
    conf::lemma_word_to(s, i, j);
    conf::lemma_skip_to(s, j, k);
    conf::lemma_word_to(s, k, l);
    conf::lemma_skip_to(s, l, m);
    conf::lemma_word_end(s, m);
    assert(s.subrange(i, j) =~= w);
    assert(s.subrange(k, l) =~= x);
    let tail = conf::words_from(s, l);
    assert(tail.len() >= 1);
    assert(conf::words_from(s, j) =~= seq![x] + tail);
    assert(conf::words_from(s, 0) =~= seq![w] + (seq![x] + tail));
}

/// A section gives its value in a quoted text, whatever is in it and however the line is spaced;
/// outside of a section a value counts for nothing.
pub proof fn option_line_is_read(
    a: Seq<char>,
    b: Seq<char>,
    c: Seq<char>,
    e: Seq<char>,
    q: char,
    value: Seq<char>,
    st: ConfModel,
)
    requires
        is_blank(a) && is_space(b) && is_space(c) && is_blank(e),
        is_quote(q),
    ensures
        conf::line_read(a + "option"@ + b + "value"@ + c + in_quotes(q, value) + e, st)
            == match st.key {
            Some(key) => ConfModel { fields: st.fields.insert(key, value), ..st },
            None => st,
        },
{
    reveal_strlit("option");
    reveal_strlit("value");
    reveal_strlit("config");
    let quoted = in_quotes(q, value);
    let rest = quoted + e;
    let s = a + "option"@ + b + "value"@ + c + quoted + e;
    assert(s =~= a + "option"@ + b + "value"@ + c + rest);
    lemma_two_words(a, "option"@, b, "value"@, c, rest);
    assert("option"@[0] != "config"@[0]);
    let n = (a.len() + 6 + b.len()) as int;
    assert forall|j: int| 0 <= j < n implies #[trigger] s[j] != 'v' by {
        if j < a.len() {
            assert(s[j] == a[j]);
        } else if j < a.len() + 6 {
            assert(s[j] == "option"@[j - a.len()]);
        } else {
            assert(s[j] == b[j - a.len() - 6]);
        }
    }
    assert(s.subrange(n, n + 5) =~= "value"@);
    conf::lemma_behind_value(s, 0, n);
    assert(s.skip(n + 5) =~= c + quoted + e);
    assert(quoted[0] == q && quoted.last() == q);
    lemma_trimmed(c, quoted, e);
    lemma_in_quotes(q, value);
}

/// A line that begins with anything but the letters of the two words that count, and a blank one,
/// is passed over.
pub proof fn other_line_is_passed_over(a: Seq<char>, rest: Seq<char>, st: ConfModel)
    requires
        is_blank(a),
        rest.len() == 0 || (!conf::is_white(rest[0]) && rest[0] != 'c' && rest[0] != 'o'),
    ensures
        conf::line_read(a + rest, st) == st,
{
    reveal_strlit("config");
    reveal_strlit("option");
    let s = a + rest;
    let i = a.len() as int;
    assert(forall|t: int| 0 <= t < i ==> #[trigger] s[t] == a[t]);
    conf::lemma_skip_to(s, 0, i);
    if rest.len() > 0 {
        let n = conf::word_end(s, i);
        conf::lemma_word_end(s, i);
        assert(s.subrange(i, n)[0] == rest[0]);
        assert(conf::words_from(s, 0)[0] == s.subrange(i, n));
    }
}

/// The file with a section for each entry, one after the other.
pub open spec fn conf_text(entries: Seq<(Seq<char>, Seq<char>)>) -> Seq<char>
    decreases entries.len(),
{
    if entries.len() == 0 {
        Seq::empty()
    } else {
        let (key, value) = entries[0];
        section_line(key) + seq!['\n'] + (option_line(value) + seq!['\n'] + (seq!['\n'] + conf_text(
            entries.skip(1),
        )))
    }
}

/// The line that begins a section.
pub open spec fn section_line(key: Seq<char>) -> Seq<char> {
    Seq::<char>::empty() + "config"@ + seq![' '] + "key"@ + seq![' '] + in_quotes('\'', key)
        + Seq::<char>::empty()
}

/// The line that gives the value of a section.
pub open spec fn option_line(value: Seq<char>) -> Seq<char> {
    seq!['\t'] + "option"@ + seq![' '] + "value"@ + seq![' '] + in_quotes('\'', value)
        + Seq::<char>::empty()
}

/// An entry that a section can hold: a name without white space, and a value in one line.
pub open spec fn is_entry(key: Seq<char>, value: Seq<char>) -> bool {
    is_word(key) && forall|i: int| 0 <= i < value.len() ==> #[trigger] value[i] != '\n'
}

proof fn lemma_one_section(key: Seq<char>, value: Seq<char>, rest: Seq<char>, st: ConfModel)
    requires
        is_entry(key, value),
    ensures
        conf::lines_read(
            section_line(key) + seq!['\n'] + (option_line(value) + seq!['\n'] + (seq!['\n']
                + rest)),
            0,
            st,
        ) == conf::lines_read(
            rest,
            0,
            ConfModel { key: Some(key), fields: st.fields.insert(key, value) },
        ),
{
    reveal_strlit("option");
    reveal_strlit("value");
    reveal_strlit("config");
    reveal_strlit("key");
    let none = Seq::<char>::empty();
    let first = section_line(key);
    let second = option_line(value);
    section_line_is_read(none, seq![' '], seq![' '], none, '\'', key, st);
    let after = ConfModel { key: Some(key), ..st };
    option_line_is_read(seq!['\t'], seq![' '], seq![' '], none, '\'', value, after);
    let done = ConfModel { key: Some(key), fields: st.fields.insert(key, value) };
    assert forall|i: int| 0 <= i < first.len() implies #[trigger] first[i] != '\n' by {
        if 12 <= i < first.len() - 1 {
            assert(first[i] == key[i - 12]);
            assert(!conf::is_white(key[i - 12]));
        }
    }
    assert(first.last() == '\'');
    assert forall|i: int| 0 <= i < second.len() implies #[trigger] second[i] != '\n' by {
        if 15 <= i < second.len() - 1 {
            assert(second[i] == value[i - 15]);
        }
    }
    assert(second.last() == '\'');
    let tail = seq!['\n'] + rest;
    conf::first_line_then_rest(first, second + seq!['\n'] + tail, st);
    conf::first_line_then_rest(second, tail, after);
    conf::first_line_then_rest(none, rest, done);
    assert(none + seq!['\n'] + rest =~= tail);
    other_line_is_passed_over(none, none, done);
    assert(none + none =~= none);
}

proof fn lemma_sections(entries: Seq<(Seq<char>, Seq<char>)>, st: ConfModel)
    requires
        forall|i: int| 0 <= i < entries.len() ==> is_entry((#[trigger] entries[i]).0, entries[i].1),
    ensures
        ({
            let got = conf::lines_read(conf_text(entries), 0, st).fields;
            &&& forall|i: int|
                0 <= i < entries.len() && (forall|j: int|
                    i < j < entries.len() ==> (#[trigger] entries[j]).0 != entries[i].0)
                    ==> got.contains_key((#[trigger] entries[i]).0) && got[entries[i].0]
                    == entries[i].1
            &&& forall|key: Seq<char>|
                (forall|i: int| 0 <= i < entries.len() ==> (#[trigger] entries[i]).0 != key)
                    ==> #[trigger] got.contains_key(key) == st.fields.contains_key(key) && (
                st.fields.contains_key(key) ==> got[key] == st.fields[key])
        }),
    decreases entries.len(),
{
    if entries.len() > 0 {
        let (key, value) = entries[0];
        assert(is_entry(entries[0].0, entries[0].1));
        let rest = entries.skip(1);
        let next = ConfModel { key: Some(key), fields: st.fields.insert(key, value) };
        lemma_one_section(key, value, conf_text(rest), st);
        assert forall|i: int| 0 <= i < rest.len() implies is_entry(
            (#[trigger] rest[i]).0,
            rest[i].1,
        ) by {
            assert(rest[i] == entries[i + 1]);
        }
        lemma_sections(rest, next);
        let got = conf::lines_read(conf_text(entries), 0, st).fields;
        assert(got == conf::lines_read(conf_text(rest), 0, next).fields);
        assert forall|i: int|
            0 <= i < entries.len() && (forall|j: int|
                i < j < entries.len() ==> (#[trigger] entries[j]).0
                    != entries[i].0) implies got.contains_key((#[trigger] entries[i]).0)
            && got[entries[i].0] == entries[i].1 by {
            if i > 0 {
                assert(rest[i - 1] == entries[i]);
                assert forall|j: int| i - 1 < j < rest.len() implies (#[trigger] rest[j]).0
                    != rest[i - 1].0 by {
                    assert(rest[j] == entries[j + 1]);
                }
            } else {
                assert forall|j: int| 0 <= j < rest.len() implies (#[trigger] rest[j]).0 != key by {
                    assert(rest[j] == entries[j + 1]);
                }
                assert(got.contains_key(key) == next.fields.contains_key(key));
            }
        }
        assert forall|other: Seq<char>|
            (forall|i: int| 0 <= i < entries.len() ==> (#[trigger] entries[i]).0
                != other) implies #[trigger] got.contains_key(other) == st.fields.contains_key(
            other,
        ) && (st.fields.contains_key(other) ==> got[other] == st.fields[other]) by {
            assert(entries[0].0 != other);
            assert forall|j: int| 0 <= j < rest.len() implies (#[trigger] rest[j]).0 != other by {
                assert(rest[j] == entries[j + 1]);
            }
            assert(got.contains_key(other) == next.fields.contains_key(other));
        }
    } else {
        assert(conf::lines_read(conf_text(entries), 0, st) == st);
    }
}

/// A file of key sections gives each key the value that stands in its section, the last where a key
/// has several, and no other key.
pub proof fn sections_give_values(source: Seq<char>, entries: Seq<(Seq<char>, Seq<char>)>)
    requires
        forall|i: int| 0 <= i < entries.len() ==> is_entry((#[trigger] entries[i]).0, entries[i].1),
    ensures
        conf::conf_fields(source, encode_utf8(conf_text(entries))) matches Ok(got) && {
            &&& forall|i: int|
                0 <= i < entries.len() && (forall|j: int|
                    i < j < entries.len() ==> (#[trigger] entries[j]).0 != entries[i].0)
                    ==> got.contains_key((#[trigger] entries[i]).0) && got[entries[i].0]
                    == entries[i].1
            &&& forall|key: Seq<char>|
                (forall|i: int| 0 <= i < entries.len() ==> (#[trigger] entries[i]).0 != key)
                    ==> !#[trigger] got.contains_key(key)
        },
{
    let text = conf_text(entries);
    encode_utf8_valid_utf8(text);
    encode_utf8_decode_utf8(text);
    let start = ConfModel { key: None, fields: Map::empty() };
    lemma_sections(entries, start);
    let got = conf::lines_read(text, 0, start).fields;
    assert forall|key: Seq<char>|
        (forall|i: int| 0 <= i < entries.len() ==> (#[trigger] entries[i]).0
            != key) implies !#[trigger] got.contains_key(key) by {
        assert(got.contains_key(key) == start.fields.contains_key(key));
    }
}

/// A last line counts as well where no newline ends it.
pub proof fn last_line_is_read(line: Seq<char>, st: ConfModel)
    requires
        line.len() > 0,
        forall|i: int| 0 <= i < line.len() ==> #[trigger] line[i] != '\n',
    ensures
        conf::lines_read(line, 0, st) == conf::line_read(line, st),
{
    lemma_no_newline(line, 0);
    assert(conf::line_at(line, 0, line.len() as int) =~= line);
    assert(conf::lines_read(line, line.len() as int + 1, conf::line_read(line, st))
        == conf::line_read(line, st));
}

proof fn lemma_no_newline(line: Seq<char>, i: int)
    requires
        0 <= i <= line.len(),
        forall|j: int| 0 <= j < line.len() ==> #[trigger] line[j] != '\n',
    ensures
        conf::line_end(line, i) == line.len(),
    decreases line.len() - i,
{
    if i < line.len() {
        lemma_no_newline(line, i + 1);
    }
}

/// A key must be there and must not be empty.
pub proof fn required_value_is_given(
    source: Seq<char>,
    fields: Map<Seq<char>, Seq<char>>,
    name: Seq<char>,
    value: Seq<char>,
)
    ensures
        conf::required(source, fields, name) == Ok::<Seq<char>, Seq<char>>(value) <==> {
            &&& fields.contains_key(name)
            &&& fields[name] == value
            &&& value.len() > 0
        },
{
}

} // verus!
