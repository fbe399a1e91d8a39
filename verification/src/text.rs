//! Text: white space, lines, and the fields of an armored block.

use vstd::prelude::*;
use vstd::string::*;
use vstd::utf8::*;

verus! {

/// Whether `c` has the Unicode property White_Space.
pub open spec fn is_space(c: char) -> bool {
    ||| '\u{9}' <= c <= '\u{D}'
    ||| c == '\u{20}'
    ||| c == '\u{85}'
    ||| c == '\u{A0}'
    ||| c == '\u{1680}'
    ||| '\u{2000}' <= c <= '\u{200A}'
    ||| c == '\u{2028}'
    ||| c == '\u{2029}'
    ||| c == '\u{202F}'
    ||| c == '\u{205F}'
    ||| c == '\u{3000}'
}

/// `s` without its leading white space.
pub open spec fn trim_start(s: Seq<char>) -> Seq<char>
    decreases s.len(),
{
    if s.len() > 0 && is_space(s[0]) {
        trim_start(s.skip(1))
    } else {
        s
    }
}

/// `s` without its trailing white space.
pub open spec fn trim_end(s: Seq<char>) -> Seq<char>
    decreases s.len(),
{
    if s.len() > 0 && is_space(s.last()) {
        trim_end(s.drop_last())
    } else {
        s
    }
}

/// `s` without its leading and trailing white space.
pub open spec fn trim(s: Seq<char>) -> Seq<char> {
    trim_end(trim_start(s))
}

/// Where `c` first occurs in `s`, or the length of `s` where it does not.
pub open spec fn find(s: Seq<char>, c: char) -> int
    decreases s.len(),
{
    if s.len() == 0 || s[0] == c {
        0
    } else {
        1 + find(s.skip(1), c)
    }
}

/// `s` without its carriage returns.
pub open spec fn without_cr(s: Seq<char>) -> Seq<char>
    decreases s.len(),
{
    if s.len() == 0 {
        s
    } else if s.last() == '\r' {
        without_cr(s.drop_last())
    } else {
        without_cr(s.drop_last()).push(s.last())
    }
}

/// The lines of `s`, each trimmed, but for those that are blank.
pub open spec fn trimmed_lines(s: Seq<char>) -> Seq<Seq<char>>
    decreases s.len(),
{
    let i = find(s, '\n');
    let head = trim(s.take(i));
    let tail = if 0 <= i < s.len() {
        trimmed_lines(s.skip(i + 1))
    } else {
        seq![]
    };
    if head.len() == 0 {
        tail
    } else {
        seq![head] + tail
    }
}

/// The lines that an armored block consists of.
pub open spec fn armor_lines(text: Seq<char>) -> Seq<Seq<char>> {
    trimmed_lines(without_cr(text))
}

/// Whether `pattern` stands in `s` at `i`.
pub open spec fn occurs_at(s: Seq<char>, pattern: Seq<char>, i: int) -> bool {
    0 <= i && i + pattern.len() <= s.len() && s.subrange(i, i + pattern.len()) == pattern
}

/// Where `pattern` first stands in `s`, if it does.
pub open spec fn find_text(s: Seq<char>, pattern: Seq<char>) -> Option<int>
    decreases s.len(),
{
    if occurs_at(s, pattern, 0) {
        Some(0)
    } else if s.len() == 0 {
        None
    } else {
        match find_text(s.skip(1), pattern) {
            Some(i) => Some(i + 1),
            None => None,
        }
    }
}

/// A pattern is found where it stands and does not stand before.
pub proof fn lemma_find_text_is(s: Seq<char>, pattern: Seq<char>, i: int)
    requires
        occurs_at(s, pattern, i),
        forall|k: int| 0 <= k < i ==> !#[trigger] occurs_at(s, pattern, k),
    ensures
        find_text(s, pattern) == Some(i),
    decreases i,
{
    if i > 0 {
        let t = s.skip(1);
        assert(!occurs_at(s, pattern, 0));
        assert(t.subrange(i - 1, i - 1 + pattern.len()) =~= s.subrange(i, i + pattern.len()));
        assert forall|k: int| 0 <= k < i - 1 implies !#[trigger] occurs_at(t, pattern, k) by {
            assert(!occurs_at(s, pattern, k + 1));
            assert(k + pattern.len() <= t.len() ==> t.subrange(k, k + pattern.len())
                =~= s.subrange(k + 1, k + 1 + pattern.len()));
        }
        lemma_find_text_is(t, pattern, i - 1);
    }
}

/// A pattern is not found where its first character does not occur.
pub proof fn lemma_find_text_none(s: Seq<char>, pattern: Seq<char>)
    requires
        pattern.len() > 0,
        forall|i: int| 0 <= i < s.len() ==> #[trigger] s[i] != pattern[0],
    ensures
        find_text(s, pattern) is None,
    decreases s.len(),
{
    if s.len() > 0 {
        assert(s.skip(1).len() == s.len() - 1);
        lemma_find_text_none(s.skip(1), pattern);
        if occurs_at(s, pattern, 0) {
            assert(s.subrange(0, pattern.len() as int)[0] == s[0]);
        }
    } else if occurs_at(s, pattern, 0) {
        assert(s.len() >= pattern.len());
    }
}

/// UTF-8 encodes text piece by piece.
pub proof fn lemma_encode_concat(a: Seq<char>, b: Seq<char>)
    ensures
        encode_utf8(a + b) == encode_utf8(a) + encode_utf8(b),
    decreases a.len(),
{
    if a.len() == 0 {
        assert(a + b =~= b);
        assert(encode_utf8(a) + encode_utf8(b) =~= encode_utf8(b));
    } else {
        lemma_encode_concat(a.drop_first(), b);
        assert((a + b).drop_first() =~= a.drop_first() + b);
        assert((a + b)[0] == a[0]);
        assert(encode_utf8(a + b) =~= encode_utf8(a) + encode_utf8(b));
    }
}

/// The lower-case form of a character up to U+007F.
pub open spec fn ascii_lower(c: char) -> char {
    if 'A' <= c <= 'Z' {
        (c as int + 32) as char
    } else {
        c
    }
}

/// What `str::to_lowercase` makes of a text that is not ASCII throughout.
pub uninterp spec fn unicode_lowercase(s: Seq<char>) -> Seq<char>;

/// `s` in lower case.
pub open spec fn lowercase(s: Seq<char>) -> Seq<char> {
    if is_ascii_chars(s) {
        s.map_values(|c: char| ascii_lower(c))
    } else {
        unicode_lowercase(s)
    }
}

/// What the strings hold.
pub open spec fn texts(v: Seq<String>) -> Seq<Seq<char>> {
    v.map_values(|s: String| s@)
}

/// Where `c` first occurs.
pub proof fn lemma_find(s: Seq<char>, c: char)
    ensures
        0 <= find(s, c) <= s.len(),
        forall|j: int| 0 <= j < find(s, c) ==> s[j] != c,
        find(s, c) < s.len() ==> s[find(s, c)] == c,
    decreases s.len(),
{
    if s.len() > 0 && s[0] != c {
        lemma_find(s.skip(1), c);
        assert forall|j: int| 0 <= j < find(s, c) implies s[j] != c by {
            if j > 0 {
                assert(s[j] == s.skip(1)[j - 1]);
            }
        }
    }
}

/// The first occurrence is the only place that nothing precedes.
pub proof fn lemma_find_is(s: Seq<char>, c: char, i: int)
    requires
        0 <= i <= s.len(),
        forall|j: int| 0 <= j < i ==> s[j] != c,
        i < s.len() ==> s[i] == c,
    ensures
        find(s, c) == i,
{
    lemma_find(s, c);
    let f = find(s, c);
    if f < i {
        assert(s[f] == c);
    }
    if i < f {
        assert(s[i] == c);
    }
}

/// The characters of a text.
pub fn chars_of(text: &str) -> (chars: Vec<char>)
    ensures
        chars@ == text@,
{
    let mut chars: Vec<char> = Vec::new();
    for c in it: text.chars()
        invariant
            chars@ == it.seq().take(it.index()),
            it.seq() == text@,
    {
        proof {
            assert(it.seq().take(it.index() + 1) =~= it.seq().take(it.index()).push(c));
        }
        chars.push(c);
    }
    assert(chars@ =~= text@);
    chars
}

/// The text made of the characters from `from` to `to`.
pub fn text_of(chars: &Vec<char>, from: usize, to: usize) -> (text: String)
    requires
        from <= to <= chars@.len(),
    ensures
        text@ == chars@.subrange(from as int, to as int),
{
    let mut text: String = String::new();
    let mut i: usize = from;
    while i < to
        invariant
            from <= i <= to <= chars@.len(),
            text@ == chars@.subrange(from as int, i as int),
        decreases to - i,
    {
        text.push(chars[i]);
        i = i + 1;
        assert(text@ =~= chars@.subrange(from as int, i as int));
    }
    text
}

/// Whether a character is white space.
pub fn char_is_space(c: char) -> (r: bool)
    ensures
        r == is_space(c),
{
    ('\u{9}' <= c && c <= '\u{D}') || c == '\u{20}' || c == '\u{85}' || c == '\u{A0}' || c
        == '\u{1680}' || ('\u{2000}' <= c && c <= '\u{200A}') || c == '\u{2028}' || c == '\u{2029}'
        || c == '\u{202F}' || c == '\u{205F}' || c == '\u{3000}'
}

/// Where the trimmed part of the characters from `from` to `to` begins and ends.
pub fn trim_range(chars: &Vec<char>, from: usize, to: usize) -> (r: (usize, usize))
    requires
        from <= to <= chars@.len(),
    ensures
        from <= r.0 <= r.1 <= to,
        chars@.subrange(r.0 as int, r.1 as int) == trim(chars@.subrange(from as int, to as int)),
{
    let mut a: usize = from;
    while a < to && char_is_space(chars[a])
        invariant
            from <= a <= to <= chars@.len(),
            trim_start(chars@.subrange(a as int, to as int)) == trim_start(
                chars@.subrange(from as int, to as int),
            ),
        decreases to - a,
    {
        assert(chars@.subrange(a as int, to as int).skip(1) =~= chars@.subrange(
            a + 1,
            to as int,
        ));
        a = a + 1;
    }
    let mut b: usize = to;
    while a < b && char_is_space(chars[b - 1])
        invariant
            a <= b <= to <= chars@.len(),
            trim_end(chars@.subrange(a as int, b as int)) == trim_end(
                chars@.subrange(a as int, to as int),
            ),
        decreases b - a,
    {
        assert(chars@.subrange(a as int, b as int).drop_last() =~= chars@.subrange(
            a as int,
            b - 1,
        ));
        b = b - 1;
    }
    (a, b)
}

/// Whether a text is empty or white space throughout.
pub fn is_blank(text: &str) -> (r: bool)
    ensures
        r == (trim(text@).len() == 0),
{
    let chars: Vec<char> = chars_of(text);
    let (a, b): (usize, usize) = trim_range(&chars, 0, chars.len());
    assert(chars@.subrange(0, chars@.len() as int) =~= text@);
    a == b
}

/// The characters of a text but for its carriage returns.
fn chars_without_cr(text: &str) -> (chars: Vec<char>)
    ensures
        chars@ == without_cr(text@),
{
    let mut chars: Vec<char> = Vec::new();
    for c in it: text.chars()
        invariant
            chars@ == without_cr(it.seq().take(it.index())),
            it.seq() == text@,
    {
        proof {
            let next = it.seq().take(it.index() + 1);
            assert(next.drop_last() =~= it.seq().take(it.index()));
            assert(next.last() == c);
        }
        if c != '\r' {
            chars.push(c);
        }
    }
    assert(text@.take(text@.len() as int) =~= text@);
    chars
}

/// Splits an armored block into its lines: trimmed, without blank lines and
/// carriage returns.
pub fn split_armor_lines(text: &str) -> (lines: Vec<String>)
    ensures
        texts(lines@) == armor_lines(text@),
{
    let chars: Vec<char> = chars_without_cr(text);
    let n: usize = chars.len();
    let mut lines: Vec<String> = Vec::new();
    let mut start: usize = 0;
    let mut i: usize = 0;
    proof {
        assert(chars@.skip(0) =~= chars@);
        assert(texts(lines@) + trimmed_lines(chars@) =~= trimmed_lines(chars@));
    }
    loop
        invariant_except_break
            texts(lines@) + trimmed_lines(chars@.skip(start as int)) == trimmed_lines(chars@),
        invariant
            start <= i <= n,
            n == chars@.len(),
            forall|j: int| start <= j < i ==> chars@[j] != '\n',
        ensures
            texts(lines@) == trimmed_lines(chars@),
        decreases n - i,
    {
        if i == n || chars[i] == '\n' {
            let ghost rest = chars@.skip(start as int);
            let ghost before = texts(lines@);
            proof {
                assert forall|j: int| 0 <= j < i - start implies rest[j] != '\n' by {
                    assert(rest[j] == chars@[start + j]);
                }
                lemma_find_is(rest, '\n', i - start);
                assert(rest.take(i - start) =~= chars@.subrange(start as int, i as int));
            }
            let (a, b): (usize, usize) = trim_range(&chars, start, i);
            if a < b {
                let line: String = text_of(&chars, a, b);
                lines.push(line);
                assert(texts(lines@) =~= before.push(line@));
            }
            if i == n {
                assert(texts(lines@) =~= trimmed_lines(chars@));
                break;
            }
            proof {
                assert(rest.skip(i - start + 1) =~= chars@.skip(i + 1));
                assert(texts(lines@) + trimmed_lines(chars@.skip(i + 1)) =~= before
                    + trimmed_lines(rest));
            }
            start = i + 1;
        }
        i = i + 1;
    }
    lines
}

/// `str::to_lowercase`: the text in lower case. On ASCII text each of the letters
/// `A` to `Z` becomes its small letter and all else stays.
#[verifier::external_body]
pub(crate) fn to_lowercase(text: &str) -> (lower: String)
    ensures
        is_ascii_chars(text@) ==> lower@ == text@.map_values(|c: char| ascii_lower(c)),
        !is_ascii_chars(text@) ==> lower@ == unicode_lowercase(text@),
{
    text.to_lowercase()
}

/// Whether two texts are the same. Takes the same time for all texts of one
/// length.
pub fn same_text(a: &str, b: &str) -> (same: bool)
    ensures
        same == (a@ == b@),
{
    proof {
        encode_utf8_decode_utf8(a@);
        encode_utf8_decode_utf8(b@);
    }
    crate::crypto::ct_eq(a.as_bytes(), b.as_bytes())
}

/// Where a character first occurs between `from` and `to`, or `to`.
pub fn find_char(chars: &Vec<char>, from: usize, to: usize, c: char) -> (i: usize)
    requires
        from <= to <= chars@.len(),
    ensures
        from <= i <= to,
        i - from == find(chars@.subrange(from as int, to as int), c),
{
    let mut i: usize = from;
    while i < to && chars[i] != c
        invariant
            from <= i <= to <= chars@.len(),
            forall|j: int| from <= j < i ==> chars@[j] != c,
        decreases to - i,
    {
        i = i + 1;
    }
    proof {
        let part = chars@.subrange(from as int, to as int);
        assert forall|j: int| 0 <= j < i - from implies part[j] != c by {
            assert(part[j] == chars@[from + j]);
        }
        lemma_find_is(part, c, i - from);
    }
    i
}

/// Whether a pattern stands at `at`.
fn text_matches_at(chars: &Vec<char>, pattern: &Vec<char>, at: usize) -> (r: bool)
    requires
        at <= chars@.len(),
    ensures
        r == occurs_at(chars@, pattern@, at as int),
{
    if chars.len() - at < pattern.len() {
        return false;
    }
    let mut k: usize = 0;
    while k < pattern.len()
        invariant
            k <= pattern@.len(),
            at + pattern.len() <= chars.len(),
            forall|j: int| 0 <= j < k ==> chars@[at + j] == pattern@[j],
        decreases pattern@.len() - k,
    {
        if chars[at + k] != pattern[k] {
            assert(chars@.subrange(at as int, at + pattern@.len())[k as int] != pattern@[k as int]);
            return false;
        }
        k = k + 1;
    }
    assert(chars@.subrange(at as int, at + pattern@.len()) =~= pattern@);
    true
}

/// Where a pattern first stands at or after `from`.
pub fn find_text_from(chars: &Vec<char>, from: usize, pattern: &Vec<char>) -> (r: Option<usize>)
    requires
        from <= chars@.len(),
    ensures
        r is Some <==> find_text(chars@.skip(from as int), pattern@) is Some,
        r matches Some(i) ==> {
            &&& from <= i
            &&& i + pattern@.len() <= chars@.len()
            &&& find_text(chars@.skip(from as int), pattern@) == Some(i - from)
        },
{
    let mut i: usize = from;
    loop
        invariant
            from <= i <= chars@.len(),
            find_text(chars@.skip(from as int), pattern@) == match find_text(
                chars@.skip(i as int),
                pattern@,
            ) {
                Some(k) => Some(k + i - from),
                None => None,
            },
        decreases chars@.len() - i,
    {
        let ghost rest = chars@.skip(i as int);
        proof {
            assert(i + pattern@.len() <= chars@.len() ==> rest.subrange(0, pattern@.len() as int)
                =~= chars@.subrange(i as int, i + pattern@.len()));
        }
        if text_matches_at(chars, pattern, i) {
            return Some(i);
        }
        if i == chars.len() {
            return None;
        }
        assert(rest.skip(1) =~= chars@.skip(i + 1));
        i = i + 1;
    }
}

} // verus!
