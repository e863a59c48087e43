//! The `factory_conf` file of a stock image: each production value in a UCI key section.

use vstd::prelude::*;
use vstd::string::StringExecFns;
use vstd::utf8::*;

use crate::names::NameMap;
use crate::text;

verus! {

/// The white space of Unicode.
pub open spec fn is_white(c: char) -> bool {
    ||| '\u{9}' <= c <= '\u{d}'
    ||| c == '\u{20}'
    ||| c == '\u{85}'
    ||| c == '\u{a0}'
    ||| c == '\u{1680}'
    ||| '\u{2000}' <= c <= '\u{200a}'
    ||| c == '\u{2028}'
    ||| c == '\u{2029}'
    ||| c == '\u{202f}'
    ||| c == '\u{205f}'
    ||| c == '\u{3000}'
}

/// The first character from `i` on that is not white space, or the end.
pub open spec fn skip_white(s: Seq<char>, i: int) -> int
    decreases s.len() - i,
{
    if 0 <= i < s.len() && is_white(s[i]) {
        skip_white(s, i + 1)
    } else {
        i
    }
}

/// The first white space from `i` on, or the end.
pub open spec fn word_end(s: Seq<char>, i: int) -> int
    decreases s.len() - i,
{
    if 0 <= i < s.len() && !is_white(s[i]) {
        word_end(s, i + 1)
    } else {
        i
    }
}

pub proof fn lemma_skip_white(s: Seq<char>, i: int)
    requires
        0 <= i <= s.len(),
    ensures
        i <= skip_white(s, i) <= s.len(),
        skip_white(s, i) < s.len() ==> !is_white(s[skip_white(s, i)]),
    decreases s.len() - i,
{
    if i < s.len() && is_white(s[i]) {
        lemma_skip_white(s, i + 1);
    }
}

pub proof fn lemma_word_end(s: Seq<char>, i: int)
    requires
        0 <= i <= s.len(),
    ensures
        i <= word_end(s, i) <= s.len(),
        i < s.len() && !is_white(s[i]) ==> i < word_end(s, i),
    decreases s.len() - i,
{
    if i < s.len() && !is_white(s[i]) {
        lemma_word_end(s, i + 1);
    }
}

/// The words from `i` on, separated by white space.
pub open spec fn words_from(s: Seq<char>, i: int) -> Seq<Seq<char>>
    decreases s.len() - i,
{
    let a = skip_white(s, i);
    if 0 <= i <= s.len() && a < s.len() {
        let b = word_end(s, a);
        proof {
            lemma_skip_white(s, i);
            lemma_word_end(s, a);
        }
        seq![s.subrange(a, b)] + words_from(s, b)
    } else {
        Seq::empty()
    }
}

/// The end of `s` before its trailing white space, looking back from `n`.
pub open spec fn trim_end(s: Seq<char>, n: int) -> int
    decreases n,
{
    if 0 < n <= s.len() && is_white(s[n - 1]) {
        trim_end(s, n - 1)
    } else {
        n
    }
}

/// `s` without white space at either end.
pub open spec fn trimmed(s: Seq<char>) -> Seq<char> {
    let a = skip_white(s, 0);
    let b = trim_end(s, s.len() as int);
    if a < b {
        s.subrange(a, b)
    } else {
        Seq::empty()
    }
}

/// What stands between a pair of single or double quotes.
pub open spec fn unquoted(s: Seq<char>) -> Option<Seq<char>> {
    if s.len() >= 2 && (s[0] == '\'' || s[0] == '"') && s.last() == s[0] {
        Some(s.subrange(1, s.len() - 1))
    } else {
        None
    }
}

/// What follows the first `value` at or after `i`, nothing if there is none.
pub open spec fn behind_value(s: Seq<char>, i: int) -> Seq<char>
    decreases s.len() - i,
{
    if i + 5 > s.len() {
        Seq::empty()
    } else if s.subrange(i, i + 5) == "value"@ {
        s.skip(i + 5)
    } else {
        behind_value(s, i + 1)
    }
}

/// The section that a line belongs to, and the values found so far.
pub struct ConfModel {
    pub key: Option<Seq<char>>,
    pub fields: Map<Seq<char>, Seq<char>>,
}

/// What a line adds: `config key` begins a section, whose name must be quoted; `option value`
/// gives its value, which must be quoted.
pub open spec fn line_read(line: Seq<char>, st: ConfModel) -> ConfModel {
    let w = words_from(line, 0);
    if w.len() == 3 && w[0] == "config"@ && w[1] == "key"@ {
        ConfModel { key: unquoted(w[2]), ..st }
    } else if w.len() >= 3 && w[0] == "option"@ && w[1] == "value"@ {
        match (st.key, unquoted(trimmed(behind_value(line, 0)))) {
            (Some(key), Some(value)) => ConfModel { fields: st.fields.insert(key, value), ..st },
            _ => st,
        }
    } else {
        st
    }
}

/// The end of the line at `i`: the next newline, or the end of the text.
pub open spec fn line_end(s: Seq<char>, i: int) -> int
    decreases s.len() - i,
{
    if 0 <= i < s.len() && s[i] != '\n' {
        line_end(s, i + 1)
    } else {
        i
    }
}

/// The line from `a` to its end `b`, without the carriage return that belongs to a newline.
pub open spec fn line_at(s: Seq<char>, a: int, b: int) -> Seq<char> {
    if b < s.len() && a < b && s[b - 1] == '\r' {
        s.subrange(a, b - 1)
    } else {
        s.subrange(a, b)
    }
}

pub proof fn lemma_line_end(s: Seq<char>, i: int)
    requires
        0 <= i <= s.len(),
    ensures
        i <= line_end(s, i) <= s.len(),
    decreases s.len() - i,
{
    if i < s.len() && s[i] != '\n' {
        lemma_line_end(s, i + 1);
    }
}

/// What the lines from `i` on add.
pub open spec fn lines_read(s: Seq<char>, i: int, st: ConfModel) -> ConfModel
    decreases s.len() + 1 - i,
{
    if 0 <= i < s.len() {
        let end = line_end(s, i);
        proof {
            lemma_line_end(s, i);
        }
        lines_read(s, end + 1, line_read(line_at(s, i, end), st))
    } else {
        st
    }
}

/// The values of a `factory_conf` file, by key.
pub open spec fn conf_fields(source: Seq<char>, d: Seq<u8>) -> Result<
    Map<Seq<char>, Seq<char>>,
    Seq<char>,
> {
    if !valid_utf8(d) {
        Err("Invalid text encoding in "@ + source + ": "@ + text::utf8_error_text(d))
    } else {
        Ok(lines_read(decode_utf8(d), 0, ConfModel { key: None, fields: Map::empty() }).fields)
    }
}

/// The value of a key, which must not be empty.
pub open spec fn required(
    source: Seq<char>,
    fields: Map<Seq<char>, Seq<char>>,
    name: Seq<char>,
) -> Result<Seq<char>, Seq<char>> {
    if fields.contains_key(name) && fields[name].len() > 0 {
        Ok(fields[name])
    } else {
        Err(source + " is missing "@ + name)
    }
}

fn is_white_space(c: char) -> (r: bool)
    ensures
        r == is_white(c),
{
    ('\u{9}' <= c && c <= '\u{d}') || c == '\u{20}' || c == '\u{85}' || c == '\u{a0}' || c
        == '\u{1680}' || ('\u{2000}' <= c && c <= '\u{200a}') || c == '\u{2028}' || c == '\u{2029}'
        || c == '\u{202f}' || c == '\u{205f}' || c == '\u{3000}'
}

fn same_chars(a: &[char], b: &str) -> (r: bool)
    ensures
        r == (a@ == b@),
{
    let other = text::chars_of(b);
    if a.len() != other.len() {
        return false;
    }
    let mut i: usize = 0;
    while i < a.len()
        invariant
            i <= a.len(),
            a.len() == other.len(),
            other@ == b@,
            forall|j: int| 0 <= j < i ==> a@[j] == b@[j],
        decreases a.len() - i,
    {
        if a[i] != other[i] {
            return false;
        }
        i += 1;
    }
    assert(a@ =~= b@);
    true
}

/// Words, seen as their characters.
spec fn words_model(v: Seq<&[char]>) -> Seq<Seq<char>> {
    Seq::new(v.len(), |i: int| v[i]@)
}

fn split_words<'a>(s: &'a [char]) -> (r: Vec<&'a [char]>)
    ensures
        words_model(r@) == words_from(s@, 0),
{
    let mut out: Vec<&'a [char]> = Vec::new();
    let mut i: usize = 0;
    assert(words_model(out@) + words_from(s@, 0) =~= words_from(s@, 0));
    while i < s.len()
        invariant
            i <= s.len(),
            words_model(out@) + words_from(s@, i as int) == words_from(s@, 0),
        decreases s.len() - i,
    {
        let mut a: usize = i;
        while a < s.len() && is_white_space(s[a])
            invariant
                i <= a <= s.len(),
                skip_white(s@, i as int) == skip_white(s@, a as int),
            decreases s.len() - a,
        {
            a += 1;
        }
        if a >= s.len() {
            assert(words_model(out@) + Seq::<Seq<char>>::empty() =~= words_model(out@));
            return out;
        }
        let mut b: usize = a;
        while b < s.len() && !is_white_space(s[b])
            invariant
                a <= b <= s.len(),
                word_end(s@, a as int) == word_end(s@, b as int),
            decreases s.len() - b,
        {
            b += 1;
        }
        let ghost before = words_model(out@);
        let ghost start = words_from(s@, i as int);
        proof {
            lemma_word_end(s@, a as int);
        }
        out.push(&s[a..b]);
        assert(start =~= seq![s@.subrange(a as int, b as int)] + words_from(s@, b as int));
        assert(words_model(out@) =~= before.push(s@.subrange(a as int, b as int)));
        assert(words_model(out@) + words_from(s@, b as int) =~= before + start);
        i = b;
    }
    assert(words_model(out@) + Seq::<Seq<char>>::empty() =~= words_model(out@));
    out
}

/// What stands between a pair of quotes.
pub fn unquote<'a>(value: &'a [char]) -> (r: Option<&'a [char]>)
    ensures
        match (r, unquoted(value@)) {
            (Some(a), Some(b)) => a@ == b,
            (None, None) => true,
            _ => false,
        },
{
    let n = value.len();
    if n >= 2 && (value[0] == '\'' || value[0] == '"') && value[n - 1] == value[0] {
        Some(&value[1..n - 1])
    } else {
        None
    }
}

fn trim<'a>(s: &'a [char]) -> (r: &'a [char])
    ensures
        r@ == trimmed(s@),
{
    let mut a: usize = 0;
    while a < s.len() && is_white_space(s[a])
        invariant
            a <= s.len(),
            skip_white(s@, 0) == skip_white(s@, a as int),
        decreases s.len() - a,
    {
        a += 1;
    }
    let mut b: usize = s.len();
    while b > 0 && is_white_space(s[b - 1])
        invariant
            b <= s.len(),
            trim_end(s@, s@.len() as int) == trim_end(s@, b as int),
        decreases b,
    {
        b -= 1;
    }
    if a < b {
        &s[a..b]
    } else {
        assert(s@.subrange(0, 0) =~= Seq::<char>::empty());
        &s[0..0]
    }
}

fn after_value<'a>(s: &'a [char]) -> (r: &'a [char])
    ensures
        r@ == behind_value(s@, 0),
{
    let mut i: usize = 0;
    while s.len() - i >= 5
        invariant
            i <= s.len(),
            behind_value(s@, 0) == behind_value(s@, i as int),
        decreases s.len() - i,
    {
        if same_chars(&s[i..i + 5], "value") {
            assert(s@.subrange(i + 5, s@.len() as int) =~= s@.skip(i + 5));
            return &s[i + 5..s.len()];
        }
        i += 1;
    }
    assert(s@.subrange(0, 0) =~= Seq::<char>::empty());
    &s[0..0]
}

/// The section that a line belongs to, and the values found so far.
struct Conf {
    key: Option<String>,
    fields: NameMap<String>,
}

impl Conf {
    spec fn model(self) -> ConfModel {
        ConfModel {
            key: match self.key {
                Some(k) => Some(k@),
                None => None,
            },
            fields: self.fields@,
        }
    }

    fn read_line(&mut self, line: &[char])
        requires
            old(self).fields.wf(),
        ensures
            final(self).fields.wf(),
            final(self).model() == line_read(line@, old(self).model()),
    {
        let words = split_words(line);
        let ghost w = words_model(words@);
        assert(forall|i: int| 0 <= i < w.len() ==> w[i] == words@[i]@);
        if words.len() == 3 && same_chars(words[0], "config") && same_chars(words[1], "key") {
            self.key = match unquote(words[2]) {
                Some(k) => Some(text::text_of(k)),
                None => None,
            };
            return ;
        }
        if words.len() >= 3 && same_chars(words[0], "option") && same_chars(words[1], "value") {
            if let Some(key) = &self.key {
                if let Some(value) = unquote(trim(after_value(line))) {
                    self.fields.insert(key.clone(), text::text_of(value));
                }
            }
        }
    }
}

/// Reads the values of a `factory_conf` file.
pub fn parse_factory_conf(source: &str, data: &[u8]) -> (r: Result<NameMap<String>, String>)
    ensures
        text::says(r, conf_fields(source@, data@)),
        r matches Ok(fields) ==> fields.wf(),
{
    let s = match text::utf8_text(data) {
        Ok(s) => s,
        Err(e) => {
            let mut message = text::joined("Invalid text encoding in ", source);
            message.append(": ");
            message.append(e.as_str());
            return Err(message);
        },
    };
    let chars = text::chars_of(s.as_str());
    let mut conf = Conf { key: None, fields: NameMap::new() };
    let ghost start = ConfModel { key: None, fields: Map::empty() };
    let mut i: usize = 0;
    while i < chars.len()
        invariant
            i <= chars.len(),
            conf.fields.wf(),
            valid_utf8(data@),
            chars@ == decode_utf8(data@),
            start == (ConfModel { key: None, fields: Map::empty() }),
            lines_read(chars@, 0, start) == lines_read(chars@, i as int, conf.model()),
        decreases chars.len() - i,
    {
        let mut end: usize = i;
        while end < chars.len() && chars[end] != '\n'
            invariant
                i <= end <= chars.len(),
                line_end(chars@, i as int) == line_end(chars@, end as int),
            decreases chars.len() - end,
        {
            end += 1;
        }
        let cut: usize = if end < chars.len() && i < end && chars[end - 1] == '\r' {
            end - 1
        } else {
            end
        };
        let all = chars.as_slice();
        conf.read_line(&all[i..cut]);
        if end >= chars.len() {
            assert(lines_read(chars@, end + 1, conf.model()) == conf.model());
            return Ok(conf.fields);
        }
        i = end + 1;
    }
    Ok(conf.fields)
}

/// The value of a key, which must not be empty.
pub fn required_field<'a>(source: &str, fields: &'a NameMap<String>, name: &str) -> (r: Result<
    &'a str,
    String,
>)
    requires
        fields.wf(),
    ensures
        text::says(r, required(source@, fields@, name@)),
{
    if let Some(value) = fields.get(name) {
        if !value.as_str().is_empty() {
            return Ok(value.as_str());
        }
    }
    let mut message = text::joined(source, " is missing ");
    message.append(name);
    Err(message)
}

pub proof fn lemma_skip_to(s: Seq<char>, i: int, n: int)
    requires
        0 <= i <= n <= s.len(),
        forall|j: int| i <= j < n ==> is_white(#[trigger] s[j]),
        n < s.len() ==> !is_white(s[n]),
    ensures
        skip_white(s, i) == n,
    decreases n - i,
{
    if i < n {
        lemma_skip_to(s, i + 1, n);
    }
}

pub proof fn lemma_word_to(s: Seq<char>, i: int, n: int)
    requires
        0 <= i <= n <= s.len(),
        forall|j: int| i <= j < n ==> !is_white(#[trigger] s[j]),
        n < s.len() ==> is_white(s[n]),
    ensures
        word_end(s, i) == n,
    decreases n - i,
{
    if i < n {
        lemma_word_to(s, i + 1, n);
    }
}

/// Only white space.
pub open spec fn all_white(s: Seq<char>) -> bool {
    forall|i: int| 0 <= i < s.len() ==> is_white(#[trigger] s[i])
}

/// A text between quotes.
pub open spec fn quoted(quote: char, s: Seq<char>) -> Seq<char> {
    seq![quote] + s + seq![quote]
}

/// A line `config key` with a quoted name, however indented, begins the section of that name.
/// The name has no white space in it.
pub proof fn key_line_is_read(indent: Seq<char>, quote: char, key: Seq<char>, st: ConfModel)
    requires
        all_white(indent),
        quote == '\'' || quote == '"',
        forall|i: int| 0 <= i < key.len() ==> !is_white(#[trigger] key[i]),
    ensures
        line_read(indent + "config key "@ + quoted(quote, key), st) == (ConfModel {
            key: Some(key),
            ..st
        }),
{
    reveal_strlit("config key ");
    reveal_strlit("config");
    reveal_strlit("key");
    reveal_strlit("option");
    let s = indent + "config key "@ + quoted(quote, key);
    let a = indent.len() as int;
    lemma_skip_to(s, 0, a);
    lemma_word_to(s, a, a + 6);
    lemma_skip_to(s, a + 6, a + 7);
    lemma_word_to(s, a + 7, a + 10);
    lemma_skip_to(s, a + 10, a + 11);
    lemma_word_to(s, a + 11, s.len() as int);
    assert(s.subrange(a, a + 6) =~= "config"@);
    assert(s.subrange(a + 7, a + 10) =~= "key"@);
    assert(s.subrange(a + 11, s.len() as int) =~= quoted(quote, key));
    assert(words_from(s, s.len() as int) =~= Seq::empty());
    assert(words_from(s, a + 10) =~= seq![quoted(quote, key)]);
    assert(words_from(s, a + 6) =~= seq!["key"@, quoted(quote, key)]);
    assert(words_from(s, 0) =~= seq!["config"@, "key"@, quoted(quote, key)]);
    assert(quoted(quote, key).subrange(1, key.len() as int + 1) =~= key);
}

pub proof fn lemma_behind_value(s: Seq<char>, i: int, n: int)
    requires
        0 <= i <= n,
        n + 5 <= s.len(),
        forall|j: int| i <= j < n ==> #[trigger] s[j] != 'v',
        s.subrange(n, n + 5) == "value"@,
    ensures
        behind_value(s, i) == s.skip(n + 5),
    decreases n - i,
{
    if i < n {
        reveal_strlit("value");
        assert(s.subrange(i, i + 5)[0] == s[i]);
        lemma_behind_value(s, i + 1, n);
    }
}

/// A line `option value` with a quoted value, however indented, gives the section's value.
pub proof fn value_line_is_read(indent: Seq<char>, quote: char, value: Seq<char>, st: ConfModel)
    requires
        all_white(indent),
        quote == '\'' || quote == '"',
        st.key is Some,
    ensures
        line_read(indent + "option value "@ + quoted(quote, value), st) == (ConfModel {
            fields: st.fields.insert(st.key->Some_0, value),
            ..st
        }),
{
    reveal_strlit("option value ");
    reveal_strlit("option");
    reveal_strlit("value");
    reveal_strlit("config");
    let s = indent + "option value "@ + quoted(quote, value);
    let a = indent.len() as int;
    lemma_skip_to(s, 0, a);
    lemma_word_to(s, a, a + 6);
    lemma_skip_to(s, a + 6, a + 7);
    lemma_word_to(s, a + 7, a + 12);
    lemma_skip_to(s, a + 12, a + 13);
    assert(s.subrange(a, a + 6) =~= "option"@);
    assert(s.subrange(a + 7, a + 12) =~= "value"@);
    assert(words_from(s, a + 12).len() >= 1);
    let w = words_from(s, 0);
    assert(words_from(s, a + 6) =~= seq!["value"@] + words_from(s, a + 12));
    assert(w =~= seq!["option"@] + (seq!["value"@] + words_from(s, a + 12)));
    assert(w[0] == "option"@ && w[1] == "value"@);
    assert("option"@ != "config"@) by {
        assert("option"@[0] != "config"@[0]);
    }
    assert forall|j: int| 0 <= j < a + 7 implies #[trigger] s[j] != 'v' by {
        if j < a {
            assert(s[j] == indent[j]);
            assert(is_white(indent[j]));
        } else {
            assert(s[j] == "option value "@[j - a]);
        }
    }
    lemma_behind_value(s, 0, a + 7);
    let rest = s.skip(a + 12);
    assert(rest[0] == ' ');
    assert(rest[1] == quote);
    assert(rest.last() == quote);
    lemma_skip_to(rest, 0, 1);
    assert(trimmed(rest) =~= quoted(quote, value));
    assert(quoted(quote, value).subrange(1, value.len() as int + 1) =~= value);
}

proof fn lemma_lines_shift(front: Seq<char>, rest: Seq<char>, i: int, st: ConfModel)
    requires
        0 <= i,
    ensures
        lines_read(front + rest, front.len() + i, st) == lines_read(rest, i, st),
    decreases rest.len() + 1 - i,
{
    if i < rest.len() {
        let s = front + rest;
        let n = front.len() as int;
        lemma_line_end(rest, i);
        lemma_end_shift(front, rest, i);
        let end = line_end(rest, i);
        assert(line_at(s, n + i, n + end) =~= line_at(rest, i, end));
        lemma_lines_shift(front, rest, end + 1, line_read(line_at(rest, i, end), st));
    }
}

proof fn lemma_end_shift(front: Seq<char>, rest: Seq<char>, i: int)
    requires
        0 <= i <= rest.len(),
    ensures
        line_end(front + rest, front.len() + i) == front.len() + line_end(rest, i),
    decreases rest.len() - i,
{
    if i < rest.len() && rest[i] != '\n' {
        lemma_end_shift(front, rest, i + 1);
    }
}

proof fn lemma_end_at(s: Seq<char>, i: int, n: int)
    requires
        0 <= i <= n < s.len(),
        forall|j: int| i <= j < n ==> #[trigger] s[j] != '\n',
        s[n] == '\n',
    ensures
        line_end(s, i) == n,
    decreases n - i,
{
    if i < n {
        lemma_end_at(s, i + 1, n);
    }
}

/// Lines are read one after the other, each up to its newline. A carriage return in front of the
/// newline does not belong to the line.
pub proof fn first_line_then_rest(line: Seq<char>, rest: Seq<char>, st: ConfModel)
    requires
        forall|i: int| 0 <= i < line.len() ==> #[trigger] line[i] != '\n',
        line.len() > 0 ==> line.last() != '\r',
    ensures
        lines_read(line + seq!['\n'] + rest, 0, st) == lines_read(rest, 0, line_read(line, st)),
        lines_read(line + seq!['\r', '\n'] + rest, 0, st) == lines_read(
            rest,
            0,
            line_read(line, st),
        ),
{
    let n = line.len() as int;
    let a = line + seq!['\n'];
    lemma_end_at(a + rest, 0, n);
    assert(line_at(a + rest, 0, n) =~= line);
    lemma_lines_shift(a, rest, 0, line_read(line, st));
    let b = line + seq!['\r', '\n'];
    lemma_end_at(b + rest, 0, n + 1);
    assert(line_at(b + rest, 0, n + 1) =~= line);
    lemma_lines_shift(b, rest, 0, line_read(line, st));
}

} // verus!
