//! Lines of text: how armor is cut into them, and how a line is cut into a field.

use vstd::prelude::*;
use vstd::string::*;
use vstd::utf8::*;

use crate::block;
use crate::block::{check_markers, parse_armor, split_field, Fields};
use crate::laws::texts::{lemma_no_cr, no_cr};
use crate::laws::{blank, lemma_blank, lemma_white, white};
use crate::text;
use crate::text::{
    char_is_space, chars_of, find_char, is_blank, same_text, split_armor_lines, text_of, trim_range,
};

verus! {

/// Lines, each with its line end.
pub open spec fn ended(ls: Seq<Seq<char>>) -> Seq<char>
    decreases ls.len(),
{
    if ls.len() == 0 {
        seq![]
    } else {
        ended(ls.drop_last()) + ls.last() + seq!['\n']
    }
}

/// Whether a text consists of the given lines, the last without its line end.
pub open spec fn has_lines(s: Seq<char>, ls: Seq<Seq<char>>) -> bool {
    &&& ls.len() > 0
    &&& ended(ls) == s.push('\n')
    &&& forall|i: int, j: int| 0 <= i < ls.len() && 0 <= j < ls[i].len() ==> ls[i][j] != '\n'
}

/// Whether `c` is what is left of `s` without the white space at its ends.
pub open spec fn stripped(s: Seq<char>, c: Seq<char>) -> bool {
    &&& exists|a: Seq<char>, b: Seq<char>| blank(a) && blank(b) && s == #[trigger] (a + c + b)
    &&& c.len() > 0 ==> !white(c[0]) && !white(c.last())
}

/// The lines that are not blank.
pub open spec fn not_blank(ls: Seq<Seq<char>>) -> Seq<Seq<char>> {
    ls.filter(|l: Seq<char>| !blank(l))
}

/// Every text has lines.
pub proof fn law_every_text_has_lines(s: Seq<char>)
    ensures
        exists|ls: Seq<Seq<char>>| has_lines(s, ls),
    decreases s.len(),
{
    let empty: Seq<char> = seq![];
    if s.len() == 0 {
        let ls = seq![empty];
        assert(ls.drop_last() =~= Seq::<Seq<char>>::empty());
        assert(ended(ls.drop_last()) =~= empty);
        assert(ended(ls) =~= s.push('\n'));
        assert(has_lines(s, ls));
    } else {
        let t = s.drop_last();
        law_every_text_has_lines(t);
        let ms = choose|ms: Seq<Seq<char>>| has_lines(t, ms);
        if s.last() == '\n' {
            let ls = ms.push(empty);
            assert(ls.drop_last() =~= ms);
            assert(s =~= t.push('\n'));
            assert(ended(ls) =~= s.push('\n'));
            assert(has_lines(s, ls));
        } else {
            let l = ms.last().push(s.last());
            let ls = ms.drop_last().push(l);
            assert(ls.drop_last() =~= ms.drop_last());
            assert(ended(ms).drop_last() =~= t);
            assert(ended(ms).drop_last() =~= ended(ms.drop_last()) + ms.last());
            assert(ended(ls) =~= s.push('\n')) by {
                assert(ended(ls) =~= (ended(ms.drop_last()) + ms.last()).push(s.last()).push('\n'));
                assert(s =~= t.push(s.last()));
            }
            assert forall|i: int, j: int|
                0 <= i < ls.len() && 0 <= j < ls[i].len() implies ls[i][j] != '\n' by {
                if i < ms.len() - 1 {
                    assert(ls[i] == ms[i]);
                } else if j < ms.last().len() {
                    assert(ls[i][j] == ms[ms.len() - 1][j]);
                }
            }
            assert(has_lines(s, ls));
        }
    }
}

// ----------------------------------------------------------------------
// White space at the ends
// ----------------------------------------------------------------------

/// Leading white space.
proof fn lemma_start(a: Seq<char>, x: Seq<char>)
    requires
        blank(a),
        x.len() == 0 || !white(x[0]),
    ensures
        text::trim_start(a + x) == x,
    decreases a.len(),
{
    if a.len() == 0 {
        assert(a + x =~= x);
        if x.len() > 0 {
            lemma_white(x[0]);
        }
    } else {
        lemma_white(a[0]);
        assert((a + x)[0] == a[0]);
        assert((a + x).skip(1) =~= a.skip(1) + x);
        assert(blank(a.skip(1))) by {
            assert forall|i: int| 0 <= i < a.skip(1).len() implies white(
                #[trigger] a.skip(1)[i],
            ) by {
                assert(a.skip(1)[i] == a[i + 1]);
            }
        }
        lemma_start(a.skip(1), x);
    }
}

/// Trailing white space.
proof fn lemma_end(x: Seq<char>, b: Seq<char>)
    requires
        blank(b),
        x.len() == 0 || !white(x.last()),
    ensures
        text::trim_end(x + b) == x,
    decreases b.len(),
{
    if b.len() == 0 {
        assert(x + b =~= x);
        if x.len() > 0 {
            lemma_white(x.last());
        }
    } else {
        lemma_white(b.last());
        assert((x + b).last() == b.last());
        assert((x + b).drop_last() =~= x + b.drop_last());
        assert(blank(b.drop_last())) by {
            assert forall|i: int| 0 <= i < b.drop_last().len() implies white(
                #[trigger] b.drop_last()[i],
            ) by {
                assert(b.drop_last()[i] == b[i]);
            }
        }
        lemma_end(x, b.drop_last());
    }
}

/// What is cut off at the start is white space.
proof fn lemma_start_cut(s: Seq<char>)
    ensures
        text::trim_start(s).len() <= s.len(),
        blank(s.take(s.len() - text::trim_start(s).len())),
        s == s.take(s.len() - text::trim_start(s).len()) + text::trim_start(s),
        text::trim_start(s).len() > 0 ==> !white(text::trim_start(s)[0]),
    decreases s.len(),
{
    if s.len() > 0 {
        lemma_white(s[0]);
        if white(s[0]) {
            let t = s.skip(1);
            lemma_start_cut(t);
            let n = t.len() - text::trim_start(t).len();
            let a = s.take(n + 1);
            assert forall|i: int| 0 <= i < a.len() implies white(#[trigger] a[i]) by {
                if i > 0 {
                    assert(a[i] == t.take(n)[i - 1]);
                }
            }
            assert(s =~= a + text::trim_start(s)) by {
                assert(t =~= t.take(n) + text::trim_start(t));
                assert(s =~= seq![s[0]] + t);
                assert(a =~= seq![s[0]] + t.take(n));
            }
        } else {
            assert(s =~= s.take(0) + s);
        }
    } else {
        assert(s =~= s.take(0) + s);
    }
}

/// What is cut off at the end is white space.
proof fn lemma_end_cut(s: Seq<char>)
    ensures
        text::trim_end(s).len() <= s.len(),
        blank(s.skip(text::trim_end(s).len() as int)),
        s == text::trim_end(s) + s.skip(text::trim_end(s).len() as int),
        text::trim_end(s).len() > 0 ==> !white(text::trim_end(s).last()) && text::trim_end(s)[0]
            == s[0],
    decreases s.len(),
{
    if s.len() > 0 {
        lemma_white(s.last());
        if white(s.last()) {
            let t = s.drop_last();
            lemma_end_cut(t);
            let n = text::trim_end(t).len() as int;
            let b = s.skip(n);
            assert forall|i: int| 0 <= i < b.len() implies white(#[trigger] b[i]) by {
                if i < b.len() - 1 {
                    assert(b[i] == t.skip(n)[i]);
                }
            }
            assert(s =~= text::trim_end(s) + b) by {
                assert(t =~= text::trim_end(t) + t.skip(n));
                assert(s =~= t.push(s.last()));
                assert(b =~= t.skip(n).push(s.last()));
            }
        } else {
            assert(s =~= s + s.skip(s.len() as int));
        }
    } else {
        assert(s =~= s + s.skip(0));
    }
}

/// Trimming strips, and nothing else is what is left.
pub proof fn lemma_stripped(s: Seq<char>, c: Seq<char>)
    ensures
        stripped(s, text::trim(s)),
        stripped(s, c) ==> c == text::trim(s),
{
    let t = text::trim_start(s);
    let m = text::trim(s);
    lemma_start_cut(s);
    lemma_end_cut(t);
    let a = s.take(s.len() - t.len());
    let b = t.skip(m.len() as int);
    assert(s =~= a + m + b);
    if stripped(s, c) {
        let (a, b) = choose|a: Seq<char>, b: Seq<char>|
            blank(a) && blank(b) && s == #[trigger] (a + c + b);
        if c.len() == 0 {
            assert(blank(s)) by {
                assert forall|i: int| 0 <= i < s.len() implies white(#[trigger] s[i]) by {
                    if i < a.len() {
                        assert(s[i] == a[i]);
                    } else {
                        assert(s[i] == b[i - a.len()]);
                    }
                }
            }
            lemma_blank(s);
            assert(c =~= m);
        } else {
            assert(a + c + b =~= a + (c + b));
            lemma_start(a, c + b);
            lemma_end(c, b);
        }
    }
}

// ----------------------------------------------------------------------
// Cutting into lines
// ----------------------------------------------------------------------

/// What one line gives.
spec fn one(l: Seq<char>) -> Seq<Seq<char>> {
    if blank(l) {
        seq![]
    } else {
        seq![text::trim(l)]
    }
}

/// A line by itself.
proof fn lemma_one(l: Seq<char>)
    requires
        forall|j: int| 0 <= j < l.len() ==> l[j] != '\n',
    ensures
        text::trimmed_lines(l) == one(l),
{
    text::lemma_find_is(l, '\n', l.len() as int);
    assert(l.take(l.len() as int) =~= l);
    lemma_blank(l);
    assert(text::trimmed_lines(l) =~= one(l));
}

/// A text that is cut at a line end.
proof fn lemma_cut(a: Seq<char>, b: Seq<char>)
    ensures
        text::trimmed_lines(a + seq!['\n'] + b) == text::trimmed_lines(a) + text::trimmed_lines(b),
    decreases a.len(),
{
    let s = a + seq!['\n'] + b;
    text::lemma_find(a, '\n');
    let i = text::find(a, '\n');
    assert forall|j: int| 0 <= j < i implies s[j] != '\n' by {
        assert(s[j] == a[j]);
    }
    if i < a.len() {
        assert(s[i] == a[i]);
    }
    text::lemma_find_is(s, '\n', i);
    assert(s.take(i) =~= a.take(i));
    let head = text::trim(a.take(i));
    if i < a.len() {
        let rest = a.skip(i + 1);
        assert(s.skip(i + 1) =~= rest + seq!['\n'] + b);
        lemma_cut(rest, b);
        if head.len() == 0 {
        } else {
            assert((seq![head] + text::trimmed_lines(rest)) + text::trimmed_lines(b) =~= seq![head]
                + (text::trimmed_lines(rest) + text::trimmed_lines(b)));
        }
    } else {
        assert(s.skip(i + 1) =~= b);
        let none: Seq<Seq<char>> = seq![];
        if head.len() == 0 {
            assert(none + text::trimmed_lines(b) =~= text::trimmed_lines(b));
        } else {
            assert(seq![head] + none =~= seq![head]);
        }
    }
}

/// The trimmed lines of a text are its lines that are not blank, stripped.
pub proof fn lemma_lines(s: Seq<char>, ls: Seq<Seq<char>>)
    requires
        has_lines(s, ls),
    ensures
        text::trimmed_lines(s).len() == not_blank(ls).len(),
        forall|i: int|
            0 <= i < not_blank(ls).len() ==> stripped(
                #[trigger] not_blank(ls)[i],
                text::trimmed_lines(s)[i],
            ),
    decreases ls.len(),
{
    reveal(Seq::filter);
    let init = ls.drop_last();
    let last = ls.last();
    assert forall|j: int| 0 <= j < last.len() implies last[j] != '\n' by {
        assert(ls[ls.len() - 1][j] != '\n');
    }
    lemma_one(last);
    lemma_stripped(last, last);
    assert(s =~= s.push('\n').drop_last());
    assert(s =~= ended(init) + last) by {
        assert(ended(ls).drop_last() =~= ended(init) + last);
    }
    if init.len() == 0 {
        assert(s =~= last);
        assert(not_blank(init) =~= Seq::<Seq<char>>::empty());
        if !blank(last) {
            assert(not_blank(ls) =~= seq![last]);
        }
    } else {
        let t = ended(init).drop_last();
        assert(ended(init) =~= t.push('\n')) by {
            assert(ended(init).last() == '\n');
        }
        assert forall|i: int, j: int|
            0 <= i < init.len() && 0 <= j < init[i].len() implies init[i][j] != '\n' by {
            assert(init[i] == ls[i]);
        }
        assert(has_lines(t, init));
        lemma_lines(t, init);
        assert(s =~= t + seq!['\n'] + last);
        lemma_cut(t, last);
        let all = text::trimmed_lines(s);
        let kept = not_blank(ls);
        assert forall|i: int| 0 <= i < kept.len() implies stripped(#[trigger] kept[i], all[i]) by {
            if i < not_blank(init).len() {
                assert(kept[i] == not_blank(init)[i]);
                assert(all[i] == text::trimmed_lines(t)[i]);
            }
        }
    }
}

/// Armor is cut into its lines: without carriage returns, without blank lines, and
/// without the white space at the ends of the others.
pub proof fn law_lines(s: &str, ls: Seq<Seq<char>>, out: Vec<String>)
    requires
        call_ensures(split_armor_lines, (s,), out),
        has_lines(no_cr(s@), ls),
    ensures
        out@.len() == not_blank(ls).len(),
        forall|i: int|
            0 <= i < out@.len() ==> stripped(not_blank(ls)[i], (#[trigger] out@[i])@),
{
    lemma_no_cr(s@);
    lemma_lines(no_cr(s@), ls);
    assert forall|i: int| 0 <= i < out@.len() implies stripped(
        not_blank(ls)[i],
        (#[trigger] out@[i])@,
    ) by {
        assert(text::texts(out@)[i] == out@[i]@);
    }
}

/// A text is blank exactly when it is white space throughout.
pub proof fn law_blank(s: &str, r: bool)
    requires
        call_ensures(is_blank, (s,), r),
    ensures
        r == blank(s@),
{
    lemma_blank(s@);
}

/// Texts are the same exactly when their characters are.
pub proof fn law_same_text(a: &str, b: &str, r: bool)
    requires
        call_ensures(same_text, (a, b), r),
    ensures
        r == (a@ == b@),
{
}

/// A character is white space or not.
pub proof fn law_white(c: char, r: bool)
    requires
        call_ensures(char_is_space, (c,), r),
    ensures
        r == white(c),
{
    lemma_white(c);
}

/// A text is its characters, and a part of them is a text.
pub proof fn law_chars(s: &str, chars: Vec<char>, from: usize, to: usize, part: String)
    requires
        call_ensures(chars_of, (s,), chars),
        from <= to <= chars@.len(),
        call_ensures(text_of, (&chars, from, to), part),
    ensures
        chars@ == s@,
        part@ == s@.subrange(from as int, to as int),
        call_requires(text_of, (&chars, from, to)),
{
}

/// What is left of a part of a text without the white space at its ends.
pub proof fn law_trim(chars: &Vec<char>, from: usize, to: usize, r: (usize, usize))
    requires
        from <= to <= chars@.len(),
        call_ensures(trim_range, (chars, from, to), r),
    ensures
        from <= r.0 <= r.1 <= to,
        stripped(
            chars@.subrange(from as int, to as int),
            chars@.subrange(r.0 as int, r.1 as int),
        ),
{
    let s = chars@.subrange(from as int, to as int);
    lemma_stripped(s, s);
}

/// Where a character first stands.
pub proof fn law_find_char(chars: &Vec<char>, from: usize, to: usize, c: char, i: usize)
    requires
        from <= to <= chars@.len(),
        call_ensures(find_char, (chars, from, to, c), i),
    ensures
        from <= i <= to,
        forall|j: int| from <= j < i ==> #[trigger] chars@[j] != c,
        i < to ==> chars@[i as int] == c,
{
    let s = chars@.subrange(from as int, to as int);
    text::lemma_find(s, c);
    assert forall|j: int| from <= j < i implies #[trigger] chars@[j] != c by {
        assert(s[j - from] == chars@[j]);
    }
    if i < to {
        assert(s[i - from] == chars@[i as int]);
    }
}

/// Whether lines begin and end with the markers.
pub proof fn law_markers(lines: &Vec<String>, begin: &str, end: &str, r: bool)
    requires
        call_ensures(check_markers, (lines, begin, end), r),
    ensures
        r == (lines@.len() > 0 && lines@[0]@ == begin@ && lines@[lines@.len() - 1]@ == end@),
{
    if lines@.len() > 0 {
        assert(text::texts(lines@).first() == lines@[0]@);
        assert(text::texts(lines@).last() == lines@[lines@.len() - 1]@);
    }
}

// ----------------------------------------------------------------------
// Fields
// ----------------------------------------------------------------------

/// A key in lower case. Keys that are not ASCII throughout are left to the standard
/// library.
pub open spec fn lower(s: Seq<char>) -> Seq<char> {
    if is_ascii_chars(s) {
        s.map_values(
            |c: char|
                if 'A' <= c <= 'Z' {
                    (c as int + 32) as char
                } else {
                    c
                },
        )
    } else {
        text::unicode_lowercase(s)
    }
}

/// Whether a line is a key, a colon and a value: the key has no colon, and both may
/// have white space around them.
pub open spec fn is_field(l: Seq<char>, key: Seq<char>, value: Seq<char>) -> bool {
    exists|a: Seq<char>, b: Seq<char>, k: Seq<char>|
        {
            &&& l == #[trigger] (a + seq![':'] + b)
            &&& forall|i: int| 0 <= i < a.len() ==> a[i] != ':'
            &&& #[trigger] stripped(a, k)
            &&& key == lower(k)
            &&& stripped(b, value)
        }
}

/// Whether a text has a colon.
pub open spec fn has_colon(l: Seq<char>) -> bool {
    exists|i: int| 0 <= i < l.len() && l[i] == ':'
}

/// A line with a colon is one field, and no other.
pub proof fn lemma_field(l: Seq<char>, key: Seq<char>, value: Seq<char>)
    ensures
        block::field_of(l) is Some <==> has_colon(l),
        block::field_of(l) == Some((key, value)) <==> is_field(l, key, value),
{
    text::lemma_find(l, ':');
    let i = text::find(l, ':');
    if has_colon(l) {
        let j = choose|j: int| 0 <= j < l.len() && l[j] == ':';
        assert(i <= j);
    }
    if i < l.len() {
        let a = l.take(i);
        let b = l.skip(i + 1);
        let k = text::trim(a);
        lemma_stripped(a, k);
        lemma_stripped(b, value);
        assert(text::lowercase(k) =~= lower(k)) by {
            if is_ascii_chars(k) {
                assert(text::lowercase(k) =~= lower(k));
            }
        }
        if block::field_of(l) == Some((key, value)) {
            assert(l =~= a + seq![':'] + b);
            assert(forall|j: int| 0 <= j < a.len() ==> a[j] != ':');
            assert(is_field(l, key, value));
        }
    }
    if is_field(l, key, value) {
        let (a, b, k) = choose|a: Seq<char>, b: Seq<char>, k: Seq<char>|
            {
                &&& l == #[trigger] (a + seq![':'] + b)
                &&& forall|i: int| 0 <= i < a.len() ==> a[i] != ':'
                &&& #[trigger] stripped(a, k)
                &&& key == lower(k)
                &&& stripped(b, value)
            };
        assert(l[a.len() as int] == ':');
        assert forall|j: int| 0 <= j < a.len() implies l[j] != ':' by {
            assert(l[j] == a[j]);
        }
        text::lemma_find_is(l, ':', a.len() as int);
        assert(l.take(i) =~= a);
        assert(l.skip(i + 1) =~= b);
        lemma_stripped(a, k);
        lemma_stripped(b, value);
        assert(text::lowercase(k) =~= lower(k));
    }
}

/// A line is cut at its first colon.
pub proof fn law_field(l: &str, r: Option<(String, String)>)
    requires
        call_ensures(split_field, (l,), r),
    ensures
        r is Some <==> has_colon(l@),
        r matches Some(f) ==> is_field(l@, f.0@, f.1@),
{
    match r {
        Some(f) => {
            lemma_field(l@, f.0@, f.1@);
        },
        None => {
            lemma_field(l@, l@, l@);
        },
    }
}

/// Whether lines are those of a block with the given fields: the markers first and
/// last, between them one line for each field; no key and no value is empty, and no
/// key stands twice.
pub open spec fn is_block(
    lines: Seq<Seq<char>>,
    begin: Seq<char>,
    end: Seq<char>,
    f: Seq<(Seq<char>, Seq<char>)>,
) -> bool {
    &&& lines.len() > 0
    &&& lines[0] == begin
    &&& lines[lines.len() - 1] == end
    &&& f.len() == if lines.len() > 2 {
        lines.len() - 2
    } else {
        0
    }
    &&& forall|i: int|
        0 <= i < f.len() ==> is_field(lines[i + 1], (#[trigger] f[i]).0, f[i].1) && f[i].0.len() > 0
            && f[i].1.len() > 0
    &&& forall|i: int, j: int| 0 <= i < j < f.len() ==> (#[trigger] f[i]).0 != (#[trigger] f[j]).0
}

/// Fields, as a map.
pub open spec fn fields_map(f: Seq<(Seq<char>, Seq<char>)>) -> Map<Seq<char>, Seq<char>>
    decreases f.len(),
{
    if f.len() == 0 {
        Map::empty()
    } else {
        fields_map(f.drop_last()).insert(f.last().0, f.last().1)
    }
}

/// The keys of fields.
proof fn lemma_fields_keys(f: Seq<(Seq<char>, Seq<char>)>, k: Seq<char>)
    ensures
        fields_map(f).contains_key(k) <==> exists|i: int|
            0 <= i < f.len() && (#[trigger] f[i]).0 == k,
    decreases f.len(),
{
    if f.len() > 0 {
        let init = f.drop_last();
        lemma_fields_keys(init, k);
        if fields_map(f).contains_key(k) {
            if f.last().0 == k {
                assert(f[f.len() - 1].0 == k);
            } else {
                let i = choose|i: int| 0 <= i < init.len() && (#[trigger] init[i]).0 == k;
                assert(f[i].0 == k);
            }
        }
        if exists|i: int| 0 <= i < f.len() && (#[trigger] f[i]).0 == k {
            let i = choose|i: int| 0 <= i < f.len() && (#[trigger] f[i]).0 == k;
            if i < init.len() {
                assert(init[i].0 == k);
            }
        }
    }
}

/// Whether lines are the given fields.
spec fn are_fields(body: Seq<Seq<char>>, f: Seq<(Seq<char>, Seq<char>)>) -> bool {
    &&& f.len() == body.len()
    &&& forall|i: int|
        0 <= i < f.len() ==> is_field(body[i], (#[trigger] f[i]).0, f[i].1) && f[i].0.len() > 0
            && f[i].1.len() > 0
    &&& forall|i: int, j: int| 0 <= i < j < f.len() ==> (#[trigger] f[i]).0 != (#[trigger] f[j]).0
}

/// Lines that are fields give them.
proof fn lemma_fields_read(body: Seq<Seq<char>>, f: Seq<(Seq<char>, Seq<char>)>)
    requires
        are_fields(body, f),
    ensures
        block::fields_of(body) == Some(fields_map(f)),
    decreases f.len(),
{
    if f.len() > 0 {
        let init = f.drop_last();
        let last = f.last();
        assert forall|i: int| 0 <= i < init.len() implies is_field(
            body.drop_last()[i],
            (#[trigger] init[i]).0,
            init[i].1,
        ) && init[i].0.len() > 0 && init[i].1.len() > 0 by {
            assert(init[i] == f[i]);
        }
        assert forall|i: int, j: int| 0 <= i < j < init.len() implies (#[trigger] init[i]).0 != (
        #[trigger] init[j]).0 by {
            assert(f[i].0 != f[j].0);
        }
        lemma_fields_read(body.drop_last(), init);
        assert(f[f.len() - 1] == last);
        lemma_field(body.last(), last.0, last.1);
        lemma_fields_keys(init, last.0);
        if fields_map(init).contains_key(last.0) {
            let i = choose|i: int| 0 <= i < init.len() && (#[trigger] init[i]).0 == last.0;
            assert(f[i].0 != f[f.len() - 1].0);
        }
    }
}

/// Lines that give fields are fields.
proof fn lemma_fields_there(body: Seq<Seq<char>>) -> (f: Seq<(Seq<char>, Seq<char>)>)
    requires
        block::fields_of(body) is Some,
    ensures
        are_fields(body, f),
        block::fields_of(body) == Some(fields_map(f)),
    decreases body.len(),
{
    if body.len() == 0 {
        let f: Seq<(Seq<char>, Seq<char>)> = seq![];
        f
    } else {
        let init = lemma_fields_there(body.drop_last());
        let last = block::field_of(body.last())->0;
        lemma_field(body.last(), last.0, last.1);
        let f = init.push(last);
        assert(f.drop_last() =~= init);
        lemma_fields_keys(init, last.0);
        assert forall|i: int| 0 <= i < f.len() implies is_field(
            body[i],
            (#[trigger] f[i]).0,
            f[i].1,
        ) && f[i].0.len() > 0 && f[i].1.len() > 0 by {
            if i < init.len() {
                assert(f[i] == init[i]);
                assert(body[i] == body.drop_last()[i]);
            }
        }
        assert forall|i: int, j: int| 0 <= i < j < f.len() implies (#[trigger] f[i]).0 != (
        #[trigger] f[j]).0 by {
            assert(f[i] == init[i]);
            if j < init.len() {
                assert(f[j] == init[j]);
            } else {
                if init[i].0 == last.0 {
                    assert(fields_map(init).contains_key(last.0));
                }
            }
        }
        f
    }
}

/// Lines are a block exactly when they have the markers and give fields.
proof fn lemma_block(
    lines: Seq<Seq<char>>,
    begin: Seq<char>,
    end: Seq<char>,
    f: Seq<(Seq<char>, Seq<char>)>,
)
    ensures
        is_block(lines, begin, end, f) <==> {
            &&& block::has_markers(lines, begin, end)
            &&& are_fields(block::body_of(lines), f)
        },
        is_block(lines, begin, end, f) ==> block::fields_of(block::body_of(lines)) == Some(
            fields_map(f),
        ),
{
    let body = block::body_of(lines);
    if is_block(lines, begin, end, f) {
        assert forall|i: int| 0 <= i < f.len() implies is_field(
            body[i],
            (#[trigger] f[i]).0,
            f[i].1,
        ) && f[i].0.len() > 0 && f[i].1.len() > 0 by {
            assert(body[i] == lines[i + 1]);
        }
        lemma_fields_read(body, f);
    }
    if block::has_markers(lines, begin, end) && are_fields(body, f) {
        assert forall|i: int| 0 <= i < f.len() implies is_field(
            lines[i + 1],
            (#[trigger] f[i]).0,
            f[i].1,
        ) && f[i].0.len() > 0 && f[i].1.len() > 0 by {
            assert(body[i] == lines[i + 1]);
        }
    }
}

/// A text has the fields of a block exactly when its lines are such a block.
pub proof fn lemma_armor_fields(s: Seq<char>, begin: Seq<char>, end: Seq<char>)
    ensures
        block::armor_fields(s, begin, end) is Some <==> exists|f: Seq<(Seq<char>, Seq<char>)>|
            is_block(text::armor_lines(s), begin, end, f),
        forall|f: Seq<(Seq<char>, Seq<char>)>| #[trigger]
            is_block(text::armor_lines(s), begin, end, f) ==> block::armor_fields(s, begin, end)
                == Some(fields_map(f)),
{
    let lines = text::armor_lines(s);
    if block::armor_fields(s, begin, end) is Some {
        let f = lemma_fields_there(block::body_of(lines));
        lemma_block(lines, begin, end, f);
        assert(is_block(lines, begin, end, f));
    }
    assert forall|f: Seq<(Seq<char>, Seq<char>)>| #[trigger]
        is_block(lines, begin, end, f) implies block::armor_fields(s, begin, end) == Some(
        fields_map(f),
    ) by {
        lemma_block(lines, begin, end, f);
    }
}

/// What the strings hold.
pub open spec fn strings(v: Seq<String>) -> Seq<Seq<char>> {
    v.map_values(|s: String| s@)
}

/// A block is read exactly when its lines are one, and gives its fields.
pub proof fn law_block(
    s: &str,
    begin: &str,
    end: &str,
    lines: Vec<String>,
    r: Result<Fields, ()>,
)
    requires
        call_ensures(split_armor_lines, (s,), lines),
        call_ensures(parse_armor, (s, begin, end), r),
    ensures
        r is Ok <==> exists|f: Seq<(Seq<char>, Seq<char>)>|
            is_block(strings(lines@), begin@, end@, f),
        r matches Ok(m) ==> forall|f: Seq<(Seq<char>, Seq<char>)>| #[trigger]
            is_block(strings(lines@), begin@, end@, f) ==> m@ == fields_map(f),
{
    assert(text::texts(lines@) =~= strings(lines@));
    lemma_armor_fields(s@, begin@, end@);
}

} // verus!
