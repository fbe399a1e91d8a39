//! Armored blocks: `key:value` lines between a begin and an end marker.

use vstd::prelude::*;
use vstd::string::*;
use vstd::utf8::*;

use crate::text;
use crate::text::{
    chars_of, find_char, same_text, split_armor_lines, text_of, to_lowercase, trim_range,
};

verus! {

/// Key and value of a line: what stands before and after its first colon, both
/// trimmed, the key in lower case.
pub open spec fn field_of(line: Seq<char>) -> Option<(Seq<char>, Seq<char>)> {
    let i = text::find(line, ':');
    if i >= line.len() {
        None
    } else {
        Some((text::lowercase(text::trim(line.take(i))), text::trim(line.skip(i + 1))))
    }
}

/// The fields of lines. There are none where a line has no colon, an empty key
/// or value, or the key of an earlier line.
pub open spec fn fields_of(lines: Seq<Seq<char>>) -> Option<Map<Seq<char>, Seq<char>>>
    decreases lines.len(),
{
    if lines.len() == 0 {
        Some(Map::empty())
    } else {
        match (fields_of(lines.drop_last()), field_of(lines.last())) {
            (Some(m), Some((k, v))) => if k.len() == 0 || v.len() == 0 || m.contains_key(k) {
                None
            } else {
                Some(m.insert(k, v))
            },
            _ => None,
        }
    }
}

/// Whether lines begin and end with the markers.
pub open spec fn has_markers(lines: Seq<Seq<char>>, begin: Seq<char>, end: Seq<char>) -> bool {
    lines.len() > 0 && lines.first() == begin && lines.last() == end
}

/// The lines between the markers.
pub open spec fn body_of(lines: Seq<Seq<char>>) -> Seq<Seq<char>> {
    if lines.len() <= 2 {
        seq![]
    } else {
        lines.subrange(1, lines.len() - 1)
    }
}

/// The fields of an armored block.
pub open spec fn armor_fields(arm: Seq<char>, begin: Seq<char>, end: Seq<char>) -> Option<
    Map<Seq<char>, Seq<char>>,
> {
    let lines = text::armor_lines(arm);
    if has_markers(lines, begin, end) {
        fields_of(body_of(lines))
    } else {
        None
    }
}

/// The line of a field, with its line end.
pub open spec fn field_line(key: Seq<char>, value: Seq<char>) -> Seq<char> {
    key + seq![':'] + value + seq!['\n']
}

/// The lines of fields, with their line ends.
pub open spec fn fields_text(fields: Seq<(Seq<char>, Seq<char>)>) -> Seq<char>
    decreases fields.len(),
{
    if fields.len() == 0 {
        seq![]
    } else {
        fields_text(fields.drop_last()) + field_line(fields.last().0, fields.last().1)
    }
}

/// The text of an armored block.
pub open spec fn block_text(
    begin: Seq<char>,
    fields: Seq<(Seq<char>, Seq<char>)>,
    end: Seq<char>,
) -> Seq<char> {
    begin + seq!['\n'] + fields_text(fields) + end
}

/// The pairs as a map; a later pair replaces an earlier one with its key.
pub open spec fn pairs_map(pairs: Seq<(Seq<char>, Seq<char>)>) -> Map<Seq<char>, Seq<char>>
    decreases pairs.len(),
{
    if pairs.len() == 0 {
        Map::empty()
    } else {
        pairs_map(pairs.drop_last()).insert(pairs.last().0, pairs.last().1)
    }
}

// ----------------------------------------------------------------------
// Laws
// ----------------------------------------------------------------------

/// Whether no character of `s` is white space.
pub open spec fn bare(s: Seq<char>) -> bool {
    forall|i: int| 0 <= i < s.len() ==> !text::is_space(#[trigger] s[i])
}

/// Whether `s` can stand as a line: it is neither empty nor broken, and does not
/// begin or end with white space.
pub open spec fn tidy(s: Seq<char>) -> bool {
    &&& s.len() > 0
    &&& !text::is_space(s[0])
    &&& !text::is_space(s.last())
    &&& forall|i: int| 0 <= i < s.len() ==> s[i] != '\n' && #[trigger] s[i] != '\r'
}

/// Whether `s` can stand as a key: small letters and underscores, at least one.
pub open spec fn plain_key(s: Seq<char>) -> bool {
    s.len() > 0 && forall|i: int|
        0 <= i < s.len() ==> 'a' <= #[trigger] s[i] <= 'z' || s[i] == '_'
}

/// Trimming leaves alone what does not begin or end with white space.
pub proof fn lemma_trim_tidy(s: Seq<char>)
    requires
        s.len() == 0 || (!text::is_space(s[0]) && !text::is_space(s.last())),
    ensures
        text::trim(s) == s,
{
}

/// Text without carriage returns is left alone.
proof fn lemma_no_cr(s: Seq<char>)
    requires
        forall|i: int| 0 <= i < s.len() ==> #[trigger] s[i] != '\r',
    ensures
        text::without_cr(s) == s,
    decreases s.len(),
{
    if s.len() > 0 {
        lemma_no_cr(s.drop_last());
        assert(s =~= s.drop_last().push(s.last()));
    }
}

/// A tidy line that begins a text is its first line.
proof fn lemma_first_line(line: Seq<char>, rest: Seq<char>)
    requires
        tidy(line),
    ensures
        text::trimmed_lines(line + seq!['\n'] + rest) == seq![line] + text::trimmed_lines(rest),
        text::trimmed_lines(line) == seq![line],
{
    let s = line + seq!['\n'] + rest;
    text::lemma_find_is(s, '\n', line.len() as int);
    assert(s.take(line.len() as int) =~= line);
    assert(s.skip(line.len() as int + 1) =~= rest);
    lemma_trim_tidy(line);
    text::lemma_find_is(line, '\n', line.len() as int);
    assert(line.take(line.len() as int) =~= line);
    assert(seq![line] + Seq::<Seq<char>>::empty() =~= seq![line]);
}

/// The line of a field, without its line end.
pub open spec fn bare_line(f: (Seq<char>, Seq<char>)) -> Seq<char> {
    f.0 + seq![':'] + f.1
}

/// Whether the field can stand in an armored block.
pub open spec fn plain_field(f: (Seq<char>, Seq<char>)) -> bool {
    plain_key(f.0) && bare(f.1)
}

/// A field is read back from its line.
pub proof fn lemma_plain_field(f: (Seq<char>, Seq<char>))
    requires
        plain_field(f),
    ensures
        tidy(bare_line(f)),
        field_of(bare_line(f)) == Some(f),
        field_line(f.0, f.1) == bare_line(f) + seq!['\n'],
{
    let (k, v) = f;
    let line = bare_line(f);
    assert(line[0] == k[0]);
    assert(line.last() == if v.len() > 0 { v.last() } else { ':' });
    assert forall|i: int| 0 <= i < line.len() implies line[i] != '\n' && #[trigger] line[i]
        != '\r' by {
        if i < k.len() {
            assert(line[i] == k[i]);
        } else if i > k.len() {
            assert(line[i] == v[i - k.len() - 1]);
        }
    }
    text::lemma_find_is(line, ':', k.len() as int);
    assert(line.take(k.len() as int) =~= k);
    assert(line.skip(k.len() as int + 1) =~= v);
    lemma_trim_tidy(k);
    lemma_trim_tidy(v);
    assert(is_ascii_chars(k));
    assert(text::lowercase(k) =~= k);
}

/// The lines of a text of fields, with more text behind them.
proof fn lemma_fields_lines(fields: Seq<(Seq<char>, Seq<char>)>, rest: Seq<char>)
    requires
        forall|i: int| 0 <= i < fields.len() ==> plain_field(#[trigger] fields[i]),
    ensures
        text::trimmed_lines(fields_text(fields) + rest) == fields.map_values(
            |f: (Seq<char>, Seq<char>)| bare_line(f),
        ) + text::trimmed_lines(rest),
    decreases fields.len(),
{
    let lines = fields.map_values(|f: (Seq<char>, Seq<char>)| bare_line(f));
    if fields.len() == 0 {
        assert(fields_text(fields) + rest =~= rest);
        assert(lines + text::trimmed_lines(rest) =~= text::trimmed_lines(rest));
    } else {
        let init = fields.drop_last();
        let last = fields.last();
        let more = field_line(last.0, last.1) + rest;
        lemma_plain_field(last);
        lemma_first_line(bare_line(last), rest);
        assert(more =~= bare_line(last) + seq!['\n'] + rest);
        assert(fields_text(fields) + rest =~= fields_text(init) + more);
        lemma_fields_lines(init, more);
        assert(lines + text::trimmed_lines(rest) =~= init.map_values(
            |f: (Seq<char>, Seq<char>)| bare_line(f),
        ) + (seq![bare_line(last)] + text::trimmed_lines(rest)));
    }
}

/// Fields are determined by their text.
pub proof fn lemma_fields_text_injective(
    f: Seq<(Seq<char>, Seq<char>)>,
    g: Seq<(Seq<char>, Seq<char>)>,
)
    requires
        fields_text(f) == fields_text(g),
        forall|i: int| 0 <= i < f.len() ==> plain_field(#[trigger] f[i]),
        forall|i: int| 0 <= i < g.len() ==> plain_field(#[trigger] g[i]),
    ensures
        f == g,
{
    let none = Seq::<char>::empty();
    lemma_fields_lines(f, none);
    lemma_fields_lines(g, none);
    let a = f.map_values(|x: (Seq<char>, Seq<char>)| bare_line(x));
    let b = g.map_values(|x: (Seq<char>, Seq<char>)| bare_line(x));
    assert(text::trimmed_lines(none) =~= Seq::<Seq<char>>::empty());
    assert(a + text::trimmed_lines(none) =~= a);
    assert(b + text::trimmed_lines(none) =~= b);
    assert forall|i: int| 0 <= i < f.len() implies f[i] == g[i] by {
        assert(a[i] == b[i]);
        lemma_plain_field(f[i]);
        lemma_plain_field(g[i]);
    }
    assert(f =~= g);
}

/// A text of fields has no carriage return.
proof fn lemma_fields_no_cr(fields: Seq<(Seq<char>, Seq<char>)>)
    requires
        forall|i: int| 0 <= i < fields.len() ==> plain_field(#[trigger] fields[i]),
    ensures
        forall|i: int| 0 <= i < fields_text(fields).len() ==> #[trigger] fields_text(fields)[i] != '\r',
    decreases fields.len(),
{
    if fields.len() > 0 {
        let init = fields.drop_last();
        let last = fields.last();
        lemma_fields_no_cr(init);
        lemma_plain_field(last);
        let s = fields_text(fields);
        let n = fields_text(init).len();
        assert forall|i: int| 0 <= i < s.len() implies #[trigger] s[i] != '\r' by {
            if i < n {
                assert(s[i] == fields_text(init)[i]);
            } else if i < s.len() - 1 {
                assert(s[i] == bare_line(last)[i - n]);
            }
        }
    }
}

/// Whether `c` does not occur in `s`.
pub open spec fn lacks(s: Seq<char>, c: char) -> bool {
    forall|i: int| 0 <= i < s.len() ==> #[trigger] s[i] != c
}

/// A text of fields lacks what its keys and values lack, but for colons and line
/// ends.
pub proof fn lemma_fields_lack(fields: Seq<(Seq<char>, Seq<char>)>, c: char)
    requires
        c != ':',
        c != '\n',
        forall|i: int|
            0 <= i < fields.len() ==> lacks((#[trigger] fields[i]).0, c) && lacks(fields[i].1, c),
    ensures
        lacks(fields_text(fields), c),
    decreases fields.len(),
{
    if fields.len() > 0 {
        let init = fields.drop_last();
        let last = fields.last();
        lemma_fields_lack(init, c);
        let s = fields_text(fields);
        let n = fields_text(init).len() as int;
        let k = last.0.len() as int;
        assert(fields[fields.len() - 1] == last);
        assert forall|i: int| 0 <= i < s.len() implies #[trigger] s[i] != c by {
            if i < n {
                assert(s[i] == fields_text(init)[i]);
            } else if i < n + k {
                assert(s[i] == last.0[i - n]);
            } else if n + k < i < s.len() - 1 {
                assert(s[i] == last.1[i - n - k - 1]);
            }
        }
    }
}

/// The lines of an armored block are its markers and its fields.
pub proof fn lemma_block_lines(
    begin: Seq<char>,
    fields: Seq<(Seq<char>, Seq<char>)>,
    end: Seq<char>,
)
    requires
        tidy(begin),
        tidy(end),
        forall|i: int| 0 <= i < fields.len() ==> plain_field(#[trigger] fields[i]),
    ensures
        has_markers(text::armor_lines(block_text(begin, fields, end)), begin, end),
        body_of(text::armor_lines(block_text(begin, fields, end))) == fields.map_values(
            |f: (Seq<char>, Seq<char>)| bare_line(f),
        ),
{
    let t = block_text(begin, fields, end);
    let lines = fields.map_values(|f: (Seq<char>, Seq<char>)| bare_line(f));
    lemma_fields_no_cr(fields);
    let n = begin.len() as int;
    let m = fields_text(fields).len() as int;
    assert forall|i: int| 0 <= i < t.len() implies #[trigger] t[i] != '\r' by {
        if i < n {
            assert(t[i] == begin[i]);
        } else if n < i < n + 1 + m {
            assert(t[i] == fields_text(fields)[i - n - 1]);
        } else if i > n {
            assert(t[i] == end[i - n - 1 - m]);
        }
    }
    lemma_no_cr(t);
    assert(t =~= begin + seq!['\n'] + (fields_text(fields) + end));
    lemma_first_line(begin, fields_text(fields) + end);
    lemma_fields_lines(fields, end);
    lemma_first_line(end, seq![]);
    let all = text::armor_lines(t);
    assert(all =~= seq![begin] + lines + seq![end]);
    assert(body_of(all) =~= lines);
}

/// Whether no key occurs twice.
pub open spec fn distinct_keys(fields: Seq<(Seq<char>, Seq<char>)>) -> bool {
    forall|i: int, j: int|
        0 <= i < j < fields.len() ==> (#[trigger] fields[i]).0 != (#[trigger] fields[j]).0
}

/// The keys of a map of pairs are the keys of the pairs.
proof fn lemma_pairs_keys(pairs: Seq<(Seq<char>, Seq<char>)>, k: Seq<char>)
    ensures
        pairs_map(pairs).contains_key(k) <==> exists|i: int|
            0 <= i < pairs.len() && (#[trigger] pairs[i]).0 == k,
    decreases pairs.len(),
{
    if pairs.len() > 0 {
        let init = pairs.drop_last();
        lemma_pairs_keys(init, k);
        if pairs_map(pairs).contains_key(k) {
            if pairs.last().0 == k {
                assert(pairs[pairs.len() - 1].0 == k);
            } else {
                let i = choose|i: int| 0 <= i < init.len() && (#[trigger] init[i]).0 == k;
                assert(pairs[i].0 == k);
            }
        }
        if exists|i: int| 0 <= i < pairs.len() && (#[trigger] pairs[i]).0 == k {
            let i = choose|i: int| 0 <= i < pairs.len() && (#[trigger] pairs[i]).0 == k;
            if i < init.len() {
                assert(init[i].0 == k);
            }
        }
    }
}

/// With no key twice, the map gives each key its value.
pub proof fn lemma_pairs_value(pairs: Seq<(Seq<char>, Seq<char>)>, i: int)
    requires
        distinct_keys(pairs),
        0 <= i < pairs.len(),
    ensures
        pairs_map(pairs).contains_key(pairs[i].0),
        pairs_map(pairs)[pairs[i].0] == pairs[i].1,
    decreases pairs.len(),
{
    let init = pairs.drop_last();
    if i < init.len() {
        assert forall|a: int, b: int| 0 <= a < b < init.len() implies (#[trigger] init[a]).0 != (
        #[trigger] init[b]).0 by {
            assert(pairs[a].0 != pairs[b].0);
        }
        lemma_pairs_value(init, i);
        assert(pairs[i].0 != pairs[pairs.len() - 1].0);
        assert(init[i] == pairs[i]);
    }
}

/// Lines of distinct fields, none empty, hold exactly those fields.
proof fn lemma_fields_of_lines(fields: Seq<(Seq<char>, Seq<char>)>)
    requires
        forall|i: int| 0 <= i < fields.len() ==> plain_field(#[trigger] fields[i]),
        forall|i: int| 0 <= i < fields.len() ==> (#[trigger] fields[i]).1.len() > 0,
        distinct_keys(fields),
    ensures
        fields_of(fields.map_values(|f: (Seq<char>, Seq<char>)| bare_line(f))) == Some(
            pairs_map(fields),
        ),
    decreases fields.len(),
{
    let lines = fields.map_values(|f: (Seq<char>, Seq<char>)| bare_line(f));
    if fields.len() > 0 {
        let init = fields.drop_last();
        let last = fields.last();
        assert forall|a: int, b: int| 0 <= a < b < init.len() implies (#[trigger] init[a]).0 != (
        #[trigger] init[b]).0 by {
            assert(fields[a].0 != fields[b].0);
        }
        lemma_fields_of_lines(init);
        lemma_plain_field(last);
        assert(lines.drop_last() =~= init.map_values(
            |f: (Seq<char>, Seq<char>)| bare_line(f),
        ));
        lemma_pairs_keys(init, last.0);
        assert(!pairs_map(init).contains_key(last.0)) by {
            if pairs_map(init).contains_key(last.0) {
                let i = choose|i: int| 0 <= i < init.len() && (#[trigger] init[i]).0 == last.0;
                assert(fields[i].0 != fields[fields.len() - 1].0);
            }
        }
    }
}

/// An armored block of distinct fields, none empty, is read back as those fields.
pub proof fn lemma_block_fields(
    begin: Seq<char>,
    fields: Seq<(Seq<char>, Seq<char>)>,
    end: Seq<char>,
)
    requires
        tidy(begin),
        tidy(end),
        forall|i: int| 0 <= i < fields.len() ==> plain_field(#[trigger] fields[i]),
        forall|i: int| 0 <= i < fields.len() ==> (#[trigger] fields[i]).1.len() > 0,
        distinct_keys(fields),
    ensures
        armor_fields(block_text(begin, fields, end), begin, end) == Some(pairs_map(fields)),
{
    lemma_block_lines(begin, fields, end);
    lemma_fields_of_lines(fields);
}

/// Where the fields of some of the lines are not well-formed, those of all are
/// not.
proof fn lemma_fields_prefix(lines: Seq<Seq<char>>, i: int)
    requires
        0 <= i <= lines.len(),
        fields_of(lines.take(i)) is None,
    ensures
        fields_of(lines) is None,
    decreases lines.len(),
{
    if i < lines.len() {
        assert(lines.drop_last().take(i) =~= lines.take(i));
        lemma_fields_prefix(lines.drop_last(), i);
    } else {
        assert(lines.take(i) =~= lines);
    }
}

// ----------------------------------------------------------------------
// Reading and writing
// ----------------------------------------------------------------------

/// The fields of an armored block: keys in lower case and their values.
pub struct Fields {
    pairs: Vec<(String, String)>,
}

/// What pairs of strings hold.
spec fn pair_views(pairs: Seq<(String, String)>) -> Seq<(Seq<char>, Seq<char>)> {
    pairs.map_values(|p: (String, String)| (p.0@, p.1@))
}

impl View for Fields {
    type V = Map<Seq<char>, Seq<char>>;

    closed spec fn view(&self) -> Map<Seq<char>, Seq<char>> {
        pairs_map(pair_views(self.pairs@))
    }
}

impl Fields {
    /// No fields.
    fn new() -> (f: Fields)
        ensures
            f@ == Map::<Seq<char>, Seq<char>>::empty(),
    {
        let f: Fields = Fields { pairs: Vec::new() };
        assert(pair_views(f.pairs@) =~= Seq::<(Seq<char>, Seq<char>)>::empty());
        f
    }

    /// Adds a field.
    fn insert(&mut self, key: String, value: String)
        ensures
            final(self)@ == old(self)@.insert(key@, value@),
    {
        let ghost before = pair_views(self.pairs@);
        self.pairs.push((key, value));
        proof {
            let after = pair_views(self.pairs@);
            assert(after.drop_last() =~= before);
        }
    }

    /// The value of a key.
    pub fn get(&self, key: &str) -> (value: Option<&String>)
        ensures
            value is Some <==> self@.contains_key(key@),
            value matches Some(v) ==> v@ == self@[key@],
    {
        let ghost views = pair_views(self.pairs@);
        let mut i: usize = self.pairs.len();
        assert(views.take(views.len() as int) =~= views);
        while i > 0
            invariant
                i <= self.pairs@.len(),
                views == pair_views(self.pairs@),
                pairs_map(views).contains_key(key@) == pairs_map(
                    views.take(i as int),
                ).contains_key(key@),
                pairs_map(views)[key@] == pairs_map(views.take(i as int))[key@],
            decreases i,
        {
            proof {
                assert(views.take(i as int).drop_last() =~= views.take(i - 1));
                assert(views.take(i as int).last() == views[i - 1]);
            }
            i = i - 1;
            if same_text(self.pairs[i].0.as_str(), key) {
                return Some(&self.pairs[i].1);
            }
        }
        assert(views.take(0) =~= Seq::<(Seq<char>, Seq<char>)>::empty());
        None
    }
}

/// Splits a line at its first colon.
pub fn split_field(line: &str) -> (field: Option<(String, String)>)
    ensures
        field is Some <==> field_of(line@) is Some,
        field matches Some(f) ==> field_of(line@) == Some((f.0@, f.1@)),
{
    let chars: Vec<char> = chars_of(line);
    let n: usize = chars.len();
    assert(chars@.subrange(0, n as int) =~= line@);
    let colon: usize = find_char(&chars, 0, n, ':');
    if colon == n {
        return None;
    }
    assert(chars@.subrange(0, colon as int) =~= line@.take(colon as int));
    assert(chars@.subrange(colon + 1, n as int) =~= line@.skip(colon + 1));
    let (a, b): (usize, usize) = trim_range(&chars, 0, colon);
    let key: String = to_lowercase(text_of(&chars, a, b).as_str());
    let (c, d): (usize, usize) = trim_range(&chars, colon + 1, n);
    let value: String = text_of(&chars, c, d);
    Some((key, value))
}

/// Whether lines begin and end with the markers.
pub fn check_markers(lines: &Vec<String>, begin: &str, end: &str) -> (ok: bool)
    ensures
        ok == has_markers(text::texts(lines@), begin@, end@),
{
    let n: usize = lines.len();
    n > 0 && same_text(lines[0].as_str(), begin) && same_text(lines[n - 1].as_str(), end)
}

/// Parses an armored block into its fields. Fails exactly when the markers are
/// missing, a line has no colon, a key or a value is empty, or a key occurs
/// twice.
pub fn parse_armor(text: &str, begin: &str, end: &str) -> (fields: Result<Fields, ()>)
    ensures
        fields is Ok <==> armor_fields(text@, begin@, end@) is Some,
        fields matches Ok(f) ==> armor_fields(text@, begin@, end@) == Some(f@),
{
    let lines: Vec<String> = split_armor_lines(text);
    if !check_markers(&lines, begin, end) {
        return Err(());
    }
    let n: usize = lines.len();
    let ghost views = text::texts(lines@);
    let ghost body = body_of(views);
    let mut out: Fields = Fields::new();
    let mut i: usize = 1;
    assert(body.take(0) =~= Seq::<Seq<char>>::empty());
    while i + 1 < n
        invariant
            1 <= i,
            n == lines@.len(),
            i + 1 <= n || n == 1,
            n == 1 ==> i == 1,
            views == text::texts(lines@),
            body == body_of(views),
            armor_fields(text@, begin@, end@) == fields_of(body),
            fields_of(body.take(i - 1)) == Some(out@),
            body.len() == if n <= 2 { 0 } else { n - 2 },
        decreases n - i,
    {
        let ghost next = body.take(i as int);
        proof {
            assert(next.drop_last() =~= body.take(i - 1));
            assert(next.last() == lines@[i as int]@);
        }
        let (key, value): (String, String) = match split_field(lines[i].as_str()) {
            Some(f) => f,
            None => {
                proof {
                    lemma_fields_prefix(body, i as int);
                }
                return Err(());
            },
        };
        if key.as_str().is_empty() || value.as_str().is_empty() || out.get(key.as_str()).is_some() {
            proof {
                lemma_empty_text(key@);
                lemma_empty_text(value@);
                lemma_fields_prefix(body, i as int);
            }
            return Err(());
        }
        proof {
            lemma_empty_text(key@);
            lemma_empty_text(value@);
        }
        out.insert(key, value);
        i = i + 1;
    }
    assert(body.take(i - 1) =~= body);
    Ok(out)
}

/// Text is empty exactly when its bytes are none.
proof fn lemma_empty_text(s: Seq<char>)
    ensures
        s.len() == 0 <==> encode_utf8(s).len() == 0,
{
    if s.len() > 0 {
        encode_utf8_decode_utf8(s);
    }
}

/// Appends the line of a field.
pub fn push_field(out: &mut String, key: &str, value: &str)
    ensures
        final(out)@ == old(out)@ + field_line(key@, value@),
{
    let ghost before = out@;
    out.append(key);
    out.push(':');
    out.append(value);
    out.push('\n');
    assert(out@ =~= before + field_line(key@, value@));
}

/// What pairs of texts hold.
pub open spec fn field_views(fields: Seq<(&str, &str)>) -> Seq<(Seq<char>, Seq<char>)> {
    fields.map_values(|f: (&str, &str)| (f.0@, f.1@))
}

/// Appends the lines of fields.
pub fn append_fields(out: &mut String, fields: &[(&str, &str)])
    ensures
        final(out)@ == old(out)@ + fields_text(field_views(fields@)),
{
    let ghost before = out@;
    let ghost views = field_views(fields@);
    let mut i: usize = 0;
    assert(views.take(0) =~= Seq::<(Seq<char>, Seq<char>)>::empty());
    assert(out@ =~= before + fields_text(views.take(0)));
    while i < fields.len()
        invariant
            i <= fields@.len(),
            views == field_views(fields@),
            out@ == before + fields_text(views.take(i as int)),
        decreases fields@.len() - i,
    {
        push_field(out, fields[i].0, fields[i].1);
        proof {
            let next = views.take(i + 1);
            assert(next.drop_last() =~= views.take(i as int));
            assert(next.last() == views[i as int]);
            assert(out@ =~= before + fields_text(next));
        }
        i = i + 1;
    }
    assert(views.take(views.len() as int) =~= views);
}

/// Writes an armored block.
pub fn build_block(begin: &str, fields: &[(&str, &str)], end: &str) -> (text: String)
    ensures
        text@ == block_text(begin@, field_views(fields@), end@),
{
    let mut out: String = String::new();
    out.append(begin);
    out.push('\n');
    append_fields(&mut out, fields);
    out.append(end);
    assert(out@ =~= block_text(begin@, field_views(fields@), end@));
    out
}

} // verus!
