//! Text as a sequence of characters: classification, trimming, splitting,
//! searching and number formatting.
//!
//! Every function here works on `&[char]` slices of one decoded text, so that
//! positions are character positions and a piece of text is a subrange.

use vstd::prelude::*;
use vstd::slice::slice_subrange;

verus! {

/// `String::push` appends one character to the end of the string.
pub assume_specification[ String::push ](s: &mut String, c: char)
    ensures
        final(s)@ == old(s)@.push(c),
;

/// The texts held by a list of slices.
pub open spec fn texts(v: Seq<&[char]>) -> Seq<Seq<char>> {
    v.map_values(|t: &[char]| t@)
}

/// The texts held by a list of strings.
pub open spec fn string_texts(v: Seq<String>) -> Seq<Seq<char>> {
    v.map_values(|t: String| t@)
}

/// Unicode's `White_Space` property.
pub open spec fn is_white_space(c: char) -> bool {
    ||| '\u{9}' <= c <= '\u{d}'
    ||| c == ' '
    ||| c == '\u{85}'
    ||| c == '\u{a0}'
    ||| c == '\u{1680}'
    ||| '\u{2000}' <= c <= '\u{200a}'
    ||| c == '\u{2028}'
    ||| c == '\u{2029}'
    ||| c == '\u{202f}'
    ||| c == '\u{205f}'
    ||| c == '\u{3000}'
}

/// Whether `c` is white space.
pub fn white_space(c: char) -> (r: bool)
    ensures
        r == is_white_space(c),
{
    ('\u{9}' <= c && c <= '\u{d}') || c == ' ' || c == '\u{85}' || c == '\u{a0}' || c == '\u{1680}'
        || ('\u{2000}' <= c && c <= '\u{200a}') || c == '\u{2028}' || c == '\u{2029}' || c
        == '\u{202f}' || c == '\u{205f}' || c == '\u{3000}'
}

/// ASCII lower case of one character.
pub open spec fn lower_char(c: char) -> char {
    if 'A' <= c <= 'Z' {
        ((c as u8) + 32) as char
    } else {
        c
    }
}

/// ASCII upper case of one character.
pub open spec fn upper_char(c: char) -> char {
    if 'a' <= c <= 'z' {
        ((c as u8) - 32) as char
    } else {
        c
    }
}

/// ASCII lower case of a text.
pub open spec fn lowered(s: Seq<char>) -> Seq<char> {
    s.map_values(|c: char| lower_char(c))
}

/// ASCII upper case of a text.
pub open spec fn uppered(s: Seq<char>) -> Seq<char> {
    s.map_values(|c: char| upper_char(c))
}

/// Equality that ignores ASCII case.
pub open spec fn same_ignoring_case(a: Seq<char>, b: Seq<char>) -> bool {
    lowered(a) == lowered(b)
}

/// The characters of a string.
pub fn chars_of(s: &str) -> (r: Vec<char>)
    ensures
        r@ == s@,
{
    let mut out: Vec<char> = Vec::new();
    for c in it: s.chars()
        invariant
            it.seq() == s@,
            out@ == s@.take(it.index()),
    {
        out.push(c);
    }
    out
}

/// The string made of the given characters.
pub fn string_of(t: &[char]) -> (r: String)
    ensures
        r@ == t@,
{
    let mut out = String::new();
    let mut i: usize = 0;
    while i < t.len()
        invariant
            i <= t@.len(),
            out@ == t@.take(i as int),
        decreases t@.len() - i,
    {
        out.push(t[i]);
        proof {
            assert(t@.take(i as int).push(t@[i as int]) =~= t@.take(i + 1));
        }
        i += 1;
    }
    assert(t@.take(i as int) =~= t@);
    out
}

/// Whether two texts are the same.
pub fn text_eq(a: &[char], b: &[char]) -> (r: bool)
    ensures
        r == (a@ == b@),
{
    if a.len() != b.len() {
        return false;
    }
    let mut i: usize = 0;
    while i < a.len()
        invariant
            i <= a@.len(),
            a@.len() == b@.len(),
            forall|j: int| 0 <= j < i ==> a@[j] == b@[j],
        decreases a@.len() - i,
    {
        if a[i] != b[i] {
            return false;
        }
        i += 1;
    }
    assert(a@ =~= b@);
    true
}

/// Whether a text is the given string.
pub fn is_str(t: &[char], s: &str) -> (r: bool)
    ensures
        r == (t@ == s@),
{
    text_eq(t, chars_of(s).as_slice())
}

/// Whether two strings hold the same text.
pub fn str_eq(a: &str, b: &str) -> (r: bool)
    ensures
        r == (a@ == b@),
{
    is_str(chars_of(a).as_slice(), b)
}

/// ASCII lower case of a text.
pub fn to_lower(t: &[char]) -> (r: Vec<char>)
    ensures
        r@ == lowered(t@),
{
    let mut out: Vec<char> = Vec::new();
    let mut i: usize = 0;
    while i < t.len()
        invariant
            i <= t@.len(),
            out@ == lowered(t@.take(i as int)),
        decreases t@.len() - i,
    {
        let c = t[i];
        let l = if 'A' <= c && c <= 'Z' {
            ((c as u8) + 32) as char
        } else {
            c
        };
        out.push(l);
        i += 1;
        assert(out@ =~= lowered(t@.take(i as int)));
    }
    assert(t@.take(i as int) =~= t@);
    out
}

/// ASCII upper case of a text.
pub fn to_upper(t: &[char]) -> (r: Vec<char>)
    ensures
        r@ == uppered(t@),
{
    let mut out: Vec<char> = Vec::new();
    let mut i: usize = 0;
    while i < t.len()
        invariant
            i <= t@.len(),
            out@ == uppered(t@.take(i as int)),
        decreases t@.len() - i,
    {
        let c = t[i];
        let u = if 'a' <= c && c <= 'z' {
            ((c as u8) - 32) as char
        } else {
            c
        };
        out.push(u);
        i += 1;
        assert(out@ =~= uppered(t@.take(i as int)));
    }
    assert(t@.take(i as int) =~= t@);
    out
}

/// Whether two strings are the same up to ASCII case.
pub fn eq_ignore_case(a: &[char], b: &str) -> (r: bool)
    ensures
        r == same_ignoring_case(a@, b@),
{
    let x = to_lower(a);
    let y = to_lower(chars_of(b).as_slice());
    text_eq(x.as_slice(), y.as_slice())
}

/// Whether `a` is one of the texts of `list`, up to ASCII case.
pub open spec fn listed(list: Seq<&str>, a: Seq<char>) -> bool {
    exists|i: int| 0 <= i < list.len() && same_ignoring_case((#[trigger] list[i])@, a)
}

/// Whether `a` is one of the texts of `list`, up to ASCII case.
pub fn is_listed(list: &[&str], a: &[char]) -> (r: bool)
    ensures
        r == listed(list@, a@),
{
    let mut i: usize = 0;
    while i < list.len()
        invariant
            i <= list@.len(),
            forall|j: int| 0 <= j < i ==> !same_ignoring_case((#[trigger] list@[j])@, a@),
        decreases list@.len() - i,
    {
        if eq_ignore_case(a, list[i]) {
            return true;
        }
        i += 1;
    }
    false
}

/// Whether `a` is one of the texts of `list`.
pub open spec fn among(list: Seq<&str>, a: Seq<char>) -> bool {
    exists|i: int| 0 <= i < list.len() && (#[trigger] list[i])@ == a
}

/// Whether `a` is one of the texts of `list`.
pub fn is_among(list: &[&str], a: &[char]) -> (r: bool)
    ensures
        r == among(list@, a@),
{
    let mut i: usize = 0;
    while i < list.len()
        invariant
            i <= list@.len(),
            forall|j: int| 0 <= j < i ==> (#[trigger] list@[j])@ != a@,
        decreases list@.len() - i,
    {
        if is_str(a, list[i]) {
            return true;
        }
        i += 1;
    }
    false
}

/// `s` without its leading white space.
pub open spec fn trimmed_start(s: Seq<char>) -> Seq<char>
    decreases s.len(),
{
    if s.len() > 0 && is_white_space(s[0]) {
        trimmed_start(s.drop_first())
    } else {
        s
    }
}

/// `s` without its trailing white space.
pub open spec fn trimmed_end(s: Seq<char>) -> Seq<char>
    decreases s.len(),
{
    if s.len() > 0 && is_white_space(s.last()) {
        trimmed_end(s.drop_last())
    } else {
        s
    }
}

/// `s` without the white space around it.
pub open spec fn trimmed(s: Seq<char>) -> Seq<char> {
    trimmed_end(trimmed_start(s))
}

/// Drops leading white space.
pub fn trim_start(t: &[char]) -> (r: &[char])
    ensures
        r@ == trimmed_start(t@),
        r@.len() <= t@.len(),
{
    let mut i: usize = 0;
    assert(t@.skip(0) =~= t@);
    while i < t.len() && white_space(t[i])
        invariant
            i <= t@.len(),
            trimmed_start(t@) == trimmed_start(t@.skip(i as int)),
        decreases t@.len() - i,
    {
        assert(t@.skip(i as int).drop_first() =~= t@.skip(i + 1));
        i += 1;
    }
    assert(t@.skip(i as int) =~= t@.subrange(i as int, t@.len() as int));
    slice_subrange(t, i, t.len())
}

/// Drops trailing white space.
pub fn trim_end(t: &[char]) -> (r: &[char])
    ensures
        r@ == trimmed_end(t@),
        r@.len() <= t@.len(),
{
    let mut n: usize = t.len();
    assert(t@.take(n as int) =~= t@);
    while n > 0 && white_space(t[n - 1])
        invariant
            n <= t@.len(),
            trimmed_end(t@) == trimmed_end(t@.take(n as int)),
        decreases n,
    {
        assert(t@.take(n as int).drop_last() =~= t@.take(n - 1));
        n -= 1;
    }
    assert(t@.take(n as int) =~= t@.subrange(0, n as int));
    slice_subrange(t, 0, n)
}

/// Drops the white space around a text.
pub fn trim(t: &[char]) -> (r: &[char])
    ensures
        r@ == trimmed(t@),
        r@.len() <= t@.len(),
{
    trim_end(trim_start(t))
}

/// `s` without the leading characters that occur in `set`.
pub open spec fn stripped_start(s: Seq<char>, set: Seq<char>) -> Seq<char>
    decreases s.len(),
{
    if s.len() > 0 && set.contains(s[0]) {
        stripped_start(s.drop_first(), set)
    } else {
        s
    }
}

/// `s` without the trailing characters that occur in `set`.
pub open spec fn stripped_end(s: Seq<char>, set: Seq<char>) -> Seq<char>
    decreases s.len(),
{
    if s.len() > 0 && set.contains(s.last()) {
        stripped_end(s.drop_last(), set)
    } else {
        s
    }
}

/// Whether `c` occurs in `t`.
pub fn has_char(t: &[char], c: char) -> (r: bool)
    ensures
        r == t@.contains(c),
{
    let mut i: usize = 0;
    while i < t.len()
        invariant
            i <= t@.len(),
            forall|j: int| 0 <= j < i ==> t@[j] != c,
        decreases t@.len() - i,
    {
        if t[i] == c {
            return true;
        }
        i += 1;
    }
    false
}

/// Drops the leading characters that occur in `set`.
pub fn strip_start<'a>(t: &'a [char], set: &[char]) -> (r: &'a [char])
    ensures
        r@ == stripped_start(t@, set@),
{
    let mut i: usize = 0;
    assert(t@.skip(0) =~= t@);
    while i < t.len() && has_char(set, t[i])
        invariant
            i <= t@.len(),
            stripped_start(t@, set@) == stripped_start(t@.skip(i as int), set@),
        decreases t@.len() - i,
    {
        assert(t@.skip(i as int).drop_first() =~= t@.skip(i + 1));
        i += 1;
    }
    assert(t@.skip(i as int) =~= t@.subrange(i as int, t@.len() as int));
    slice_subrange(t, i, t.len())
}

/// Drops the trailing characters that occur in `set`.
pub fn strip_end<'a>(t: &'a [char], set: &[char]) -> (r: &'a [char])
    ensures
        r@ == stripped_end(t@, set@),
{
    let mut n: usize = t.len();
    assert(t@.take(n as int) =~= t@);
    while n > 0 && has_char(set, t[n - 1])
        invariant
            n <= t@.len(),
            stripped_end(t@, set@) == stripped_end(t@.take(n as int), set@),
        decreases n,
    {
        assert(t@.take(n as int).drop_last() =~= t@.take(n - 1));
        n -= 1;
    }
    assert(t@.take(n as int) =~= t@.subrange(0, n as int));
    slice_subrange(t, 0, n)
}

/// The position of the first `c` in `s`, or the length of `s`.
pub open spec fn char_index(s: Seq<char>, c: char) -> int
    decreases s.len(),
{
    if s.len() == 0 || s[0] == c {
        0
    } else {
        1 + char_index(s.drop_first(), c)
    }
}

/// The position of the first white space in `s`, or the length of `s`.
pub open spec fn space_index(s: Seq<char>) -> int
    decreases s.len(),
{
    if s.len() == 0 || is_white_space(s[0]) {
        0
    } else {
        1 + space_index(s.drop_first())
    }
}

/// What `char_index` finds.
pub proof fn lemma_char_index(s: Seq<char>, c: char)
    ensures
        0 <= char_index(s, c) <= s.len(),
        char_index(s, c) < s.len() ==> s[char_index(s, c)] == c,
        forall|j: int| 0 <= j < char_index(s, c) ==> s[j] != c,
    decreases s.len(),
{
    if s.len() == 0 || s[0] == c {
    } else {
        let t = s.drop_first();
        lemma_char_index(t, c);
        assert forall|j: int| 0 <= j < char_index(s, c) implies s[j] != c by {
            if j > 0 {
                assert(t[j - 1] == s[j]);
            }
        }
    }
}

/// What `space_index` finds.
pub proof fn lemma_space_index(s: Seq<char>)
    ensures
        0 <= space_index(s) <= s.len(),
        space_index(s) < s.len() ==> is_white_space(s[space_index(s)]),
        forall|j: int| 0 <= j < space_index(s) ==> !is_white_space(s[j]),
    decreases s.len(),
{
    if s.len() == 0 || is_white_space(s[0]) {
    } else {
        let t = s.drop_first();
        lemma_space_index(t);
        assert forall|j: int| 0 <= j < space_index(s) implies !is_white_space(s[j]) by {
            if j > 0 {
                assert(t[j - 1] == s[j]);
            }
        }
    }
}

/// The position of the first `c`, or the length.
pub fn find_char(t: &[char], c: char) -> (r: usize)
    ensures
        r == char_index(t@, c),
        r <= t@.len(),
{
    let mut i: usize = 0;
    proof {
        lemma_char_index(t@, c);
    }
    while i < t.len() && t[i] != c
        invariant
            i <= t@.len(),
            forall|j: int| 0 <= j < i ==> t@[j] != c,
        decreases t@.len() - i,
    {
        i += 1;
    }
    i
}

/// The position of the first white space, or the length.
pub fn find_space(t: &[char]) -> (r: usize)
    ensures
        r == space_index(t@),
        r <= t@.len(),
{
    let mut i: usize = 0;
    proof {
        lemma_space_index(t@);
    }
    while i < t.len() && !white_space(t[i])
        invariant
            i <= t@.len(),
            forall|j: int| 0 <= j < i ==> !is_white_space(t@[j]),
        decreases t@.len() - i,
    {
        i += 1;
    }
    i
}

/// `s` without one trailing carriage return.
pub open spec fn chomped(s: Seq<char>) -> Seq<char> {
    if s.len() > 0 && s.last() == '\r' {
        s.drop_last()
    } else {
        s
    }
}

/// The lines of a text. A line ends at `\n` or `\r\n`, which is not part of
/// it; a final line ending opens no further line.
pub open spec fn line_seq(s: Seq<char>) -> Seq<Seq<char>>
    decreases s.len(),
{
    let n = char_index(s, '\n');
    if s.len() == 0 {
        Seq::empty()
    } else if n >= s.len() {
        seq![s]
    } else {
        proof {
            lemma_char_index(s, '\n');
        }
        seq![chomped(s.take(n))] + line_seq(s.skip(n + 1))
    }
}

/// The pieces of a text between the occurrences of `c`.
pub open spec fn split_seq(s: Seq<char>, c: char) -> Seq<Seq<char>>
    decreases s.len(),
{
    let n = char_index(s, c);
    if n >= s.len() {
        seq![s]
    } else {
        proof {
            lemma_char_index(s, c);
        }
        seq![s.take(n)] + split_seq(s.skip(n + 1), c)
    }
}

/// The length of a text only shrinks when it is trimmed.
pub proof fn lemma_trimmed_start_len(s: Seq<char>)
    ensures
        trimmed_start(s).len() <= s.len(),
        trimmed_start(s).len() > 0 ==> !is_white_space(trimmed_start(s)[0]),
    decreases s.len(),
{
    if s.len() > 0 && is_white_space(s[0]) {
        lemma_trimmed_start_len(s.drop_first());
    }
}

/// The words of a text: its longest runs without white space.
pub open spec fn word_seq(s: Seq<char>) -> Seq<Seq<char>>
    decreases s.len(),
{
    let t = trimmed_start(s);
    if t.len() == 0 {
        Seq::empty()
    } else {
        let n = space_index(t);
        proof {
            lemma_trimmed_start_len(s);
            lemma_space_index(t);
        }
        seq![t.take(n)] + word_seq(t.skip(n))
    }
}

/// The lines of a text.
pub fn lines(t: &[char]) -> (r: Vec<&[char]>)
    ensures
        texts(r@) == line_seq(t@),
{
    let mut out: Vec<&[char]> = Vec::new();
    let mut rest: &[char] = t;
    assert(texts(out@) + line_seq(rest@) =~= line_seq(t@));
    while rest.len() > 0
        invariant
            texts(out@) + line_seq(rest@) == line_seq(t@),
        decreases rest@.len(),
    {
        let n: usize = find_char(rest, '\n');
        let ghost before = texts(out@);
        let ghost seen = rest@;
        if n >= rest.len() {
            out.push(rest);
            assert(texts(out@) =~= before.push(seen));
            rest = slice_subrange(rest, n, n);
            assert(texts(out@) + line_seq(rest@) =~= before + line_seq(seen));
        } else {
            let end: usize = if n > 0 && rest[n - 1] == '\r' {
                n - 1
            } else {
                n
            };
            let line = slice_subrange(rest, 0, end);
            assert(line@ =~= chomped(seen.take(n as int)));
            out.push(line);
            assert(texts(out@) =~= before.push(line@));
            rest = slice_subrange(rest, n + 1, rest.len());
            assert(rest@ =~= seen.skip(n + 1));
            assert(texts(out@) + line_seq(rest@) =~= before + line_seq(seen));
        }
    }
    assert(texts(out@) + line_seq(rest@) =~= texts(out@));
    out
}

/// The pieces of a text between the occurrences of `c`.
pub fn split(t: &[char], c: char) -> (r: Vec<&[char]>)
    ensures
        texts(r@) == split_seq(t@, c),
        r@.len() > 0,
{
    let mut out: Vec<&[char]> = Vec::new();
    let mut rest: &[char] = t;
    let mut n: usize = find_char(rest, c);
    assert(texts(out@) + split_seq(rest@, c) =~= split_seq(t@, c));
    while n < rest.len()
        invariant
            n == char_index(rest@, c),
            n <= rest@.len(),
            texts(out@) + split_seq(rest@, c) == split_seq(t@, c),
        decreases rest@.len(),
    {
        let ghost before = texts(out@);
        let ghost seen = rest@;
        let piece = slice_subrange(rest, 0, n);
        assert(piece@ =~= seen.take(n as int));
        out.push(piece);
        assert(texts(out@) =~= before.push(piece@));
        rest = slice_subrange(rest, n + 1, rest.len());
        assert(rest@ =~= seen.skip(n + 1));
        assert(texts(out@) + split_seq(rest@, c) =~= before + split_seq(seen, c));
        n = find_char(rest, c);
    }
    let ghost before = texts(out@);
    out.push(rest);
    assert(texts(out@) =~= before + split_seq(rest@, c));
    out
}

/// The words of a text.
pub fn words(t: &[char]) -> (r: Vec<&[char]>)
    ensures
        texts(r@) == word_seq(t@),
{
    let mut out: Vec<&[char]> = Vec::new();
    let mut source: &[char] = t;
    let mut rest: &[char] = trim_start(t);
    assert(texts(out@) + word_seq(source@) =~= word_seq(t@));
    while rest.len() > 0
        invariant
            rest@ == trimmed_start(source@),
            texts(out@) + word_seq(source@) == word_seq(t@),
        decreases rest@.len(),
    {
        let ghost before = texts(out@);
        let ghost seen = rest@;
        let n: usize = find_space(rest);
        proof {
            lemma_trimmed_start_len(source@);
            lemma_space_index(rest@);
        }
        let word = slice_subrange(rest, 0, n);
        assert(word@ =~= seen.take(n as int));
        out.push(word);
        assert(texts(out@) =~= before.push(word@));
        let ghost old_source = source@;
        source = slice_subrange(rest, n, rest.len());
        assert(source@ =~= seen.skip(n as int));
        assert(texts(out@) + word_seq(source@) =~= before + word_seq(old_source));
        rest = trim_start(source);
    }
    assert(texts(out@) + word_seq(source@) =~= texts(out@));
    out
}

/// Whether `pat` stands in `s` at position `i`.
pub open spec fn stands_at(s: Seq<char>, pat: Seq<char>, i: int) -> bool {
    0 <= i && i + pat.len() <= s.len() && s.subrange(i, i + pat.len()) == pat
}

/// Whether `pat` occurs in `s`.
pub open spec fn occurs(s: Seq<char>, pat: Seq<char>) -> bool {
    exists|i: int| stands_at(s, pat, i)
}

/// Whether `s` begins with `pat`.
pub open spec fn begins(s: Seq<char>, pat: Seq<char>) -> bool {
    stands_at(s, pat, 0)
}

/// Whether `s` ends with `pat`.
pub open spec fn ends(s: Seq<char>, pat: Seq<char>) -> bool {
    stands_at(s, pat, s.len() - pat.len())
}

/// Whether `pat` occurs in `t`.
pub fn contains(t: &[char], pat: &str) -> (r: bool)
    ensures
        r == occurs(t@, pat@),
{
    let p = chars_of(pat);
    let m: usize = p.len();
    let n: usize = t.len();
    if m > n {
        assert forall|i: int| !stands_at(t@, pat@, i) by {}
        return false;
    }
    let last: usize = n - m;
    let mut i: usize = 0;
    while i < last
        invariant
            m == pat@.len(),
            p@ == pat@,
            n == t@.len(),
            m <= n,
            last == n - m,
            i <= last,
            forall|j: int| 0 <= j < i ==> !stands_at(t@, pat@, j),
        decreases last - i,
    {
        if text_eq(slice_subrange(t, i, i + m), p.as_slice()) {
            assert(stands_at(t@, pat@, i as int));
            return true;
        }
        i += 1;
    }
    if text_eq(slice_subrange(t, last, n), p.as_slice()) {
        assert(stands_at(t@, pat@, last as int));
        return true;
    }
    assert forall|j: int| !stands_at(t@, pat@, j) by {
        if j == last {
            assert(t@.subrange(j, j + pat@.len()) =~= t@.subrange(last as int, n as int));
        }
    }
    false
}

/// Whether `t` begins with `pat`.
pub fn starts_with(t: &[char], pat: &str) -> (r: bool)
    ensures
        r == begins(t@, pat@),
{
    let p = chars_of(pat);
    p.len() <= t.len() && text_eq(slice_subrange(t, 0, p.len()), p.as_slice())
}

/// Whether `t` ends with `pat`.
pub fn ends_with(t: &[char], pat: &str) -> (r: bool)
    ensures
        r == ends(t@, pat@),
{
    let p = chars_of(pat);
    p.len() <= t.len() && text_eq(slice_subrange(t, t.len() - p.len(), t.len()), p.as_slice())
}

/// The texts of `parts` one after the other, with `sep` between them.
pub open spec fn joined(parts: Seq<Seq<char>>, sep: Seq<char>) -> Seq<char>
    decreases parts.len(),
{
    if parts.len() == 0 {
        Seq::empty()
    } else if parts.len() == 1 {
        parts[0]
    } else {
        joined(parts.drop_last(), sep) + sep + parts.last()
    }
}

/// Joins texts with `sep` between them.
pub fn join(parts: &[String], sep: &str) -> (r: String)
    ensures
        r@ == joined(string_texts(parts@), sep@),
{
    let mut out = String::new();
    let mut i: usize = 0;
    while i < parts.len()
        invariant
            i <= parts@.len(),
            out@ == joined(string_texts(parts@.take(i as int)), sep@),
        decreases parts@.len() - i,
    {
        let ghost head = string_texts(parts@.take(i as int));
        let ghost longer = string_texts(parts@.take(i + 1));
        assert(longer.drop_last() =~= head);
        assert(longer.last() == parts@[i as int]@);
        if i > 0 {
            out.append(sep);
        }
        out.append(parts[i].as_str());
        i += 1;
        assert(out@ =~= joined(longer, sep@));
    }
    assert(parts@.take(i as int) =~= parts@);
    out
}

/// The decimal digit for `d`.
pub open spec fn digit_char(d: nat) -> char {
    (48 + d) as char
}

/// `n` in decimal notation, without leading zeros.
pub open spec fn decimal_text(n: nat) -> Seq<char>
    decreases n,
{
    if n < 10 {
        seq![digit_char(n)]
    } else {
        decimal_text(n / 10).push(digit_char(n % 10))
    }
}

/// `n` in decimal notation.
pub fn decimal(n: usize) -> (r: String)
    ensures
        r@ == decimal_text(n as nat),
    decreases n,
{
    let mut out = if n < 10 {
        String::new()
    } else {
        decimal(n / 10)
    };
    let d: u8 = (n % 10) as u8;
    out.push((48 + d) as char);
    assert(out@ =~= decimal_text(n as nat));
    out
}

/// Whether `c` is an ASCII decimal digit.
pub open spec fn is_digit(c: char) -> bool {
    '0' <= c <= '9'
}

/// The number that a sequence of decimal digits writes.
pub open spec fn digits_value(s: Seq<char>) -> nat
    decreases s.len(),
{
    if s.len() == 0 {
        0
    } else {
        digits_value(s.drop_last()) * 10 + (s.last() as nat - 48) as nat
    }
}

/// Whether every character is an ASCII decimal digit.
pub open spec fn all_digits(s: Seq<char>) -> bool {
    forall|i: int| 0 <= i < s.len() ==> is_digit(s[i])
}

/// `s` without one leading `+`.
pub open spec fn unsigned_part(s: Seq<char>) -> Seq<char> {
    if s.len() > 0 && s[0] == '+' {
        s.drop_first()
    } else {
        s
    }
}

/// The number that `s` writes: decimal digits, after at most one `+`, whose
/// value fits in 32 bits.
pub open spec fn unsigned_value(s: Seq<char>) -> Option<nat> {
    let digits = unsigned_part(s);
    if digits.len() > 0 && all_digits(digits) && digits_value(digits) <= u32::MAX {
        Some(digits_value(digits))
    } else {
        None
    }
}

/// More digits never make a smaller number.
pub proof fn lemma_digits_value_grows(s: Seq<char>, k: int)
    requires
        0 <= k <= s.len(),
    ensures
        digits_value(s.take(k)) <= digits_value(s),
    decreases s.len() - k,
{
    if k == s.len() {
        assert(s.take(k) =~= s);
    } else {
        lemma_digits_value_grows(s, k + 1);
        assert(s.take(k + 1).drop_last() =~= s.take(k));
    }
}

/// Reads an unsigned number.
pub fn parse_unsigned(t: &[char]) -> (r: Option<u32>)
    ensures
        match unsigned_value(t@) {
            Some(v) => r == Some(v as u32),
            None => r is None,
        },
{
    let digits = if t.len() > 0 && t[0] == '+' {
        slice_subrange(t, 1, t.len())
    } else {
        t
    };
    assert(t@.len() > 0 ==> t@.drop_first() =~= t@.subrange(1, t@.len() as int));
    if digits.len() == 0 {
        return None;
    }
    let mut v: u64 = 0;
    let mut i: usize = 0;
    while i < digits.len()
        invariant
            i <= digits@.len(),
            v == digits_value(digits@.take(i as int)),
            v <= u32::MAX,
            forall|j: int| 0 <= j < i ==> is_digit(digits@[j]),
            digits@ == unsigned_part(t@),
        decreases digits@.len() - i,
    {
        let c = digits[i];
        if !('0' <= c && c <= '9') {
            assert(!is_digit(digits@[i as int]));
            return None;
        }
        let d: u64 = (c as u32 - 48) as u64;
        assert(digits@.take(i + 1).drop_last() =~= digits@.take(i as int));
        v = v * 10 + d;
        i += 1;
        if v > u32::MAX as u64 {
            proof {
                lemma_digits_value_grows(digits@, i as int);
            }
            return None;
        }
    }
    assert(digits@.take(i as int) =~= digits@);
    Some(v as u32)
}

/// The order of texts: by the first character in which they differ, and a
/// text before its own continuations.
pub open spec fn text_less(a: Seq<char>, b: Seq<char>) -> bool
    decreases a.len(),
{
    if b.len() == 0 {
        false
    } else if a.len() == 0 {
        true
    } else if a[0] != b[0] {
        a[0] < b[0]
    } else {
        text_less(a.drop_first(), b.drop_first())
    }
}

/// Of two different texts exactly one comes first, and none comes before
/// itself.
pub proof fn lemma_text_less_total(a: Seq<char>, b: Seq<char>)
    ensures
        !(text_less(a, b) && text_less(b, a)),
        a == b <==> !text_less(a, b) && !text_less(b, a),
    decreases a.len(),
{
    if a.len() == 0 || b.len() == 0 {
        if a.len() == b.len() {
            assert(a =~= b);
        }
    } else if a[0] == b[0] {
        lemma_text_less_total(a.drop_first(), b.drop_first());
        if a.drop_first() == b.drop_first() {
            assert(a =~= seq![a[0]] + a.drop_first());
            assert(b =~= seq![b[0]] + b.drop_first());
        }
    }
}

/// The order of texts is transitive.
pub proof fn lemma_text_less_transitive(a: Seq<char>, b: Seq<char>, c: Seq<char>)
    requires
        text_less(a, b),
        text_less(b, c),
    ensures
        text_less(a, c),
    decreases a.len(),
{
    if a.len() > 0 && b.len() > 0 && c.len() > 0 && a[0] == b[0] && b[0] == c[0] {
        lemma_text_less_transitive(a.drop_first(), b.drop_first(), c.drop_first());
    }
}

/// Whether `a` comes before `b` in the order of texts.
pub fn less(a: &str, b: &str) -> (r: bool)
    ensures
        r == text_less(a@, b@),
{
    let x = chars_of(a);
    let y = chars_of(b);
    let mut i: usize = 0;
    assert(x@.skip(0) =~= x@);
    assert(y@.skip(0) =~= y@);
    while i < x.len() && i < y.len() && x[i] == y[i]
        invariant
            x@ == a@,
            y@ == b@,
            i <= x@.len(),
            i <= y@.len(),
            text_less(a@, b@) == text_less(x@.skip(i as int), y@.skip(i as int)),
        decreases x@.len() - i,
    {
        assert(x@.skip(i as int).drop_first() =~= x@.skip(i + 1));
        assert(y@.skip(i as int).drop_first() =~= y@.skip(i + 1));
        i += 1;
    }
    if i >= y.len() {
        false
    } else if i >= x.len() {
        true
    } else {
        x[i] < y[i]
    }
}

} // verus!
