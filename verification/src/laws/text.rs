//! What the functions on text give back of a text that is put together from
//! known pieces.

use crate::text;
use vstd::prelude::*;

verus! {

/// Whether a text is white space only.
pub open spec fn blank(s: Seq<char>) -> bool {
    forall|i: int| 0 <= i < s.len() ==> #[trigger] text::is_white_space(s[i])
}

/// Whether a text has no white space in it.
pub open spec fn unbroken(s: Seq<char>) -> bool {
    forall|i: int| 0 <= i < s.len() ==> !#[trigger] text::is_white_space(s[i])
}

/// Whether a text neither begins nor ends with white space.
pub open spec fn tight(s: Seq<char>) -> bool {
    s.len() > 0 ==> !text::is_white_space(s[0]) && !text::is_white_space(s.last())
}

/// Whether one text holds another.
pub open spec fn holds(s: Seq<char>, part: Seq<char>) -> bool {
    exists|x: Seq<char>, y: Seq<char>| s == #[trigger] (x + part + y)
}

/// Whether the arguments are one word, in any case, with white space around it
/// or not.
pub open spec fn is_word(args: Seq<char>, word: Seq<char>) -> bool {
    text::lowered(text::trimmed(args)) == word
}

/// The characters with the property `White_Space`, by their numbers.
pub proof fn law_white_space(c: char)
    ensures
        text::is_white_space(c) <==> {
            let n = c as u32;
            ||| 9 <= n <= 13
            ||| n == 32
            ||| n == 133
            ||| n == 160
            ||| n == 5760
            ||| 8192 <= n <= 8202
            ||| n == 8232
            ||| n == 8233
            ||| n == 8239
            ||| n == 8287
            ||| n == 12288
        },
{
}

/// A change of case keeps the length and every character that is no ASCII
/// letter; a letter moves by the distance of the two alphabets.
pub proof fn law_case_changes_letters_only(s: Seq<char>, i: int)
    requires
        0 <= i < s.len(),
    ensures
        text::lowered(s).len() == s.len(),
        text::uppered(s).len() == s.len(),
        65 <= s[i] as u32 <= 90 ==> text::lowered(s)[i] as u32 == s[i] as u32 + 32
            && text::uppered(s)[i] == s[i],
        97 <= s[i] as u32 <= 122 ==> text::uppered(s)[i] as u32 == s[i] as u32 - 32
            && text::lowered(s)[i] == s[i],
        !(65 <= s[i] as u32 <= 90) && !(97 <= s[i] as u32 <= 122) ==> text::lowered(s)[i] == s[i]
            && text::uppered(s)[i] == s[i],
{
}

/// Case is changed character by character, so a text in two pieces changes
/// piece by piece.
pub proof fn law_case_changes_pieces(a: Seq<char>, b: Seq<char>)
    ensures
        text::lowered(a + b) == text::lowered(a) + text::lowered(b),
        text::uppered(a + b) == text::uppered(a) + text::uppered(b),
        text::lowered(text::uppered(a)) == text::lowered(a),
        text::lowered(text::lowered(a)) == text::lowered(a),
{
    assert(text::lowered(a + b) =~= text::lowered(a) + text::lowered(b));
    assert(text::uppered(a + b) =~= text::uppered(a) + text::uppered(b));
    assert(text::lowered(text::uppered(a)) =~= text::lowered(a));
    assert(text::lowered(text::lowered(a)) =~= text::lowered(a));
}

/// Texts are the same but for case exactly when their lower-case forms are.
pub proof fn law_same_ignoring_case(a: Seq<char>, b: Seq<char>)
    ensures
        text::same_ignoring_case(a, b) <==> text::lowered(a) == text::lowered(b),
        text::same_ignoring_case(a, text::uppered(a)),
{
    law_case_changes_pieces(a, b);
}

pub(crate) proof fn lemma_trimmed_start(l: Seq<char>, t: Seq<char>)
    requires
        blank(l),
        t.len() > 0 ==> !text::is_white_space(t[0]),
    ensures
        text::trimmed_start(l + t) == t,
    decreases l.len(),
{
    if l.len() > 0 {
        assert((l + t)[0] == l[0]);
        assert((l + t).drop_first() =~= l.drop_first() + t);
        lemma_trimmed_start(l.drop_first(), t);
    } else {
        assert(l + t =~= t);
    }
}

pub(crate) proof fn lemma_trimmed_end(t: Seq<char>, r: Seq<char>)
    requires
        blank(r),
        t.len() > 0 ==> !text::is_white_space(t.last()),
    ensures
        text::trimmed_end(t + r) == t,
    decreases r.len(),
{
    if r.len() > 0 {
        assert((t + r).last() == r.last());
        assert((t + r).drop_last() =~= t + r.drop_last());
        lemma_trimmed_end(t, r.drop_last());
    } else {
        assert(t + r =~= t);
    }
}

/// Trimming takes the white space on both sides, and nothing else.
pub proof fn law_trimming(l: Seq<char>, t: Seq<char>, r: Seq<char>)
    requires
        blank(l),
        tight(t),
        blank(r),
    ensures
        text::trimmed(l + t + r) == t,
        text::trimmed_start(l + t) == t,
        text::trimmed_end(t + r) == t,
{
    lemma_trimmed_start(l, t);
    lemma_trimmed_end(t, r);
    if t.len() > 0 {
        assert(l + t + r =~= l + (t + r));
        assert((t + r)[0] == t[0]);
        lemma_trimmed_start(l, t + r);
    } else {
        let none = Seq::<char>::empty();
        assert forall|i: int| 0 <= i < (l + r).len() implies #[trigger] text::is_white_space(
            (l + r)[i],
        ) by {
            if i < l.len() {
                assert((l + r)[i] == l[i]);
            } else {
                assert((l + r)[i] == r[i - l.len()]);
            }
        }
        lemma_trimmed_start(l + r, none);
        assert(l + t + r =~= l + r + none);
        assert(text::trimmed_end(none) =~= none);
        assert(t =~= none);
    }
}

/// Every text is a trimmed text with white space around it.
pub proof fn law_trimmed_is_a_piece(s: Seq<char>)
    ensures
        tight(text::trimmed(s)),
        exists|l: Seq<char>, r: Seq<char>|
            blank(l) && blank(r) && s == #[trigger] (l + text::trimmed(s) + r),
{
    let t = text::trimmed_start(s);
    let n = s.len() - t.len();
    lemma_start_is_blank(s);
    lemma_end_is_blank(t);
    let u = text::trimmed(s);
    let l = s.take(n);
    let r = t.skip(u.len() as int);
    assert(blank(l));
    assert(blank(r));
    if u.len() > 0 {
        text::lemma_trimmed_start_len(s);
        assert(u[0] == t[0]);
    }
    assert(s =~= l + u + r);
}

pub(crate) proof fn lemma_blank(s: Seq<char>)
    ensures
        text::trimmed(s).len() == 0 <==> blank(s),
{
    if blank(s) {
        let none = Seq::<char>::empty();
        law_trimming(s, none, none);
        assert(s + none + none =~= s);
    }
    if text::trimmed(s).len() == 0 {
        law_trimmed_is_a_piece(s);
        let (l, r) = choose|l: Seq<char>, r: Seq<char>|
            blank(l) && blank(r) && s == #[trigger] (l + text::trimmed(s) + r);
        assert forall|i: int| 0 <= i < s.len() implies #[trigger] text::is_white_space(s[i]) by {
            if i < l.len() {
                assert(s[i] == l[i]);
            } else {
                assert(s[i] == r[i - l.len()]);
            }
        }
    }
}

pub(crate) proof fn lemma_start_is_blank(s: Seq<char>)
    ensures
        text::trimmed_start(s).len() <= s.len(),
        s.skip(s.len() - text::trimmed_start(s).len()) == text::trimmed_start(s),
        blank(s.take(s.len() - text::trimmed_start(s).len())),
    decreases s.len(),
{
    if s.len() > 0 && text::is_white_space(s[0]) {
        let rest = s.drop_first();
        lemma_start_is_blank(rest);
        let n = s.len() - text::trimmed_start(s).len();
        assert(s.skip(n) =~= rest.skip(n - 1));
        assert forall|i: int| 0 <= i < n implies #[trigger] text::is_white_space(s.take(n)[i]) by {
            if i > 0 {
                assert(s.take(n)[i] == rest.take(n - 1)[i - 1]);
            }
        }
    } else {
        assert(s.skip(0) =~= s);
    }
}

pub(crate) proof fn lemma_end_is_blank(s: Seq<char>)
    ensures
        text::trimmed_end(s).len() <= s.len(),
        s.take(text::trimmed_end(s).len() as int) == text::trimmed_end(s),
        blank(s.skip(text::trimmed_end(s).len() as int)),
        text::trimmed_end(s).len() > 0 ==> !text::is_white_space(text::trimmed_end(s).last()),
    decreases s.len(),
{
    if s.len() > 0 && text::is_white_space(s.last()) {
        let rest = s.drop_last();
        lemma_end_is_blank(rest);
        let n = text::trimmed_end(s).len() as int;
        assert(s.take(n) =~= rest.take(n));
        assert forall|i: int| 0 <= i < s.len() - n implies #[trigger] text::is_white_space(
            s.skip(n)[i],
        ) by {
            if i < rest.len() - n {
                assert(s.skip(n)[i] == rest.skip(n)[i]);
            }
        }
    } else {
        assert(s.take(s.len() as int) =~= s);
    }
}

/// Stripping takes from one end the characters of a set, and stops at the
/// first that is not in it.
pub proof fn law_stripping(l: Seq<char>, t: Seq<char>, r: Seq<char>, set: Seq<char>)
    requires
        forall|i: int| 0 <= i < l.len() ==> set.contains(#[trigger] l[i]),
        forall|i: int| 0 <= i < r.len() ==> set.contains(#[trigger] r[i]),
        t.len() > 0 ==> !set.contains(t[0]) && !set.contains(t.last()),
    ensures
        text::stripped_start(l + t, set) == t,
        text::stripped_end(t + r, set) == t,
    decreases l.len() + r.len(),
{
    let none = Seq::<char>::empty();
    if l.len() > 0 {
        assert((l + t)[0] == l[0]);
        assert((l + t).drop_first() =~= l.drop_first() + t);
        law_stripping(l.drop_first(), t, none, set);
    } else {
        assert(l + t =~= t);
    }
    if r.len() > 0 {
        assert((t + r).last() == r.last());
        assert((t + r).drop_last() =~= t + r.drop_last());
        law_stripping(none, t, r.drop_last(), set);
    } else {
        assert(t + r =~= t);
    }
}

/// A text occurs in another exactly where something may stand before it and
/// something after it.
pub proof fn law_occurrences(s: Seq<char>, a: Seq<char>, pat: Seq<char>, b: Seq<char>)
    ensures
        text::occurs(a + pat + b, pat),
        text::begins(pat + b, pat),
        text::ends(a + pat, pat),
        text::occurs(s, pat) ==> exists|x: Seq<char>, y: Seq<char>| s == #[trigger] (x + pat + y),
        text::begins(s, pat) ==> exists|y: Seq<char>| s == #[trigger] (pat + y),
        text::ends(s, pat) ==> exists|x: Seq<char>| s == #[trigger] (x + pat),
{
    lemma_occurs(a, pat, b);
    assert((pat + b).subrange(0, pat.len() as int) =~= pat);
    assert((a + pat).subrange(a.len() as int, (a.len() + pat.len()) as int) =~= pat);
    if text::occurs(s, pat) {
        lemma_occurs_splits(s, pat);
    }
    if text::begins(s, pat) {
        assert(s =~= s.subrange(0, pat.len() as int) + s.skip(pat.len() as int));
    }
    if text::ends(s, pat) {
        let n = s.len() - pat.len();
        assert(s =~= s.take(n) + s.subrange(n, n + pat.len()));
    }
}

pub(crate) proof fn lemma_occurs(a: Seq<char>, pat: Seq<char>, b: Seq<char>)
    ensures
        text::occurs(a + pat + b, pat),
{
    let s = a + pat + b;
    assert(s.subrange(a.len() as int, (a.len() + pat.len()) as int) =~= pat);
    assert(text::stands_at(s, pat, a.len() as int));
}

pub(crate) proof fn lemma_occurs_splits(s: Seq<char>, pat: Seq<char>)
    requires
        text::occurs(s, pat),
    ensures
        exists|x: Seq<char>, y: Seq<char>| s == #[trigger] (x + pat + y),
{
    let i = choose|i: int| text::stands_at(s, pat, i);
    let n = pat.len() as int;
    assert(s =~= s.take(i) + s.subrange(i, i + n) + s.skip(i + n));
}

pub(crate) proof fn lemma_holds(s: Seq<char>, part: Seq<char>)
    ensures
        text::occurs(s, part) == holds(s, part),
{
    if text::occurs(s, part) {
        lemma_occurs_splits(s, part);
    }
    if holds(s, part) {
        let (x, y) = choose|x: Seq<char>, y: Seq<char>| s == #[trigger] (x + part + y);
        lemma_occurs(x, part, y);
    }
}

/// The first place of a character is where the text before it ends.
pub proof fn law_first_character(a: Seq<char>, c: char, b: Seq<char>)
    requires
        !a.contains(c),
    ensures
        text::char_index(a + seq![c] + b, c) == a.len(),
        text::char_index(a, c) == a.len(),
    decreases a.len(),
{
    let s = a + seq![c] + b;
    if a.len() > 0 {
        let rest = a.drop_first();
        assert forall|i: int| 0 <= i < rest.len() implies rest[i] != c by {
            assert(rest[i] == a[i + 1]);
        }
        assert(a[0] != c);
        law_first_character(rest, c, b);
        assert(s[0] == a[0]);
        assert(s.drop_first() =~= rest + seq![c] + b);
    } else {
        assert(s[0] == c);
    }
}

/// The first white space is where the text before it ends.
pub proof fn law_first_space(a: Seq<char>, c: char, b: Seq<char>)
    requires
        unbroken(a),
        text::is_white_space(c),
    ensures
        text::space_index(a + seq![c] + b) == a.len(),
        text::space_index(a) == a.len(),
    decreases a.len(),
{
    let s = a + seq![c] + b;
    if a.len() > 0 {
        let rest = a.drop_first();
        assert forall|i: int| 0 <= i < rest.len() implies !#[trigger] text::is_white_space(
            rest[i],
        ) by {
            assert(rest[i] == a[i + 1]);
        }
        assert(!text::is_white_space(a[0]));
        law_first_space(rest, c, b);
        assert(s[0] == a[0]);
        assert(s.drop_first() =~= rest + seq![c] + b);
    } else {
        assert(s[0] == c);
    }
}

/// A text is split at every separator, and only there: the first piece ends at
/// the first one, and the rest is split in the same way.
pub proof fn law_splitting(a: Seq<char>, c: char, b: Seq<char>)
    requires
        !a.contains(c),
    ensures
        text::split_seq(a, c) == seq![a],
        text::split_seq(a + seq![c] + b, c) == seq![a] + text::split_seq(b, c),
{
    let s = a + seq![c] + b;
    law_first_character(a, c, b);
    assert(s.take(a.len() as int) =~= a);
    assert(s.skip(a.len() as int + 1) =~= b);
}

/// A text ends a line at `\n`, or at `\r` followed by it, and only there.
pub proof fn law_lines(a: Seq<char>, b: Seq<char>)
    requires
        !a.contains('\n'),
    ensures
        text::line_seq(Seq::empty()) == Seq::<Seq<char>>::empty(),
        a.len() > 0 ==> text::line_seq(a) == seq![a],
        a.len() > 0 && a.last() == '\r' ==> text::line_seq(a + seq!['\n'] + b) == seq![
            a.drop_last(),
        ] + text::line_seq(b),
        !(a.len() > 0 && a.last() == '\r') ==> text::line_seq(a + seq!['\n'] + b) == seq![a]
            + text::line_seq(b),
{
    let s = a + seq!['\n'] + b;
    law_first_character(a, '\n', b);
    assert(s.take(a.len() as int) =~= a);
    assert(s.skip(a.len() as int + 1) =~= b);
}

/// Being one given character.
pub open spec fn being(c: char) -> spec_fn(char) -> bool {
    |x: char| x == c
}

/// How often a character occurs in a text.
pub open spec fn number_of(s: Seq<char>, c: char) -> nat {
    s.filter(being(c)).len()
}

/// Occurrences are counted piece by piece.
pub proof fn law_numbers_add_up(a: Seq<char>, b: Seq<char>, c: char)
    ensures
        number_of(a + b, c) == number_of(a, c) + number_of(b, c),
        !a.contains(c) ==> number_of(a, c) == 0,
        number_of(seq![c], c) == 1,
{
    let p = being(c);
    Seq::filter_distributes_over_add(a, b, p);
    reveal_with_fuel(Seq::filter, 2);
    assert(seq![c].drop_last() =~= Seq::<char>::empty());
    if !a.contains(c) && number_of(a, c) > 0 {
        let r = a.filter(p);
        a.lemma_filter_pred(p, 0);
        assert(r.contains(r[0]));
        a.lemma_filter_contains_rev(p, r[0]);
    }
}

/// Whether a text consists of whole lines, each with its end.
pub open spec fn whole_lines(s: Seq<char>) -> bool {
    s.len() == 0 || s.last() == '\n'
}

/// Whether a text is one line, without its end.
pub open spec fn one_line(s: Seq<char>) -> bool {
    !s.contains('\n') && (s.len() > 0 ==> s.last() != '\r')
}

/// Whether a line may end in this way: with a line feed, with a carriage return
/// before it, or with neither if something stands on it.
pub open spec fn ends_line(line: Seq<char>, end: Seq<char>) -> bool {
    ||| end == seq!['\n']
    ||| end == seq!['\r', '\n']
    ||| end.len() == 0 && line.len() > 0
}

/// A line that is added to whole lines is the last line, however it ends; whole
/// lines are as many as there are line feeds.
pub proof fn law_added_line(above: Seq<char>, line: Seq<char>, end: Seq<char>)
    requires
        whole_lines(above),
        one_line(line),
        ends_line(line, end),
    ensures
        text::line_seq(above + line + end) == text::line_seq(above).push(line),
        text::line_seq(above).len() == number_of(above, '\n'),
    decreases above.len(),
{
    let none = Seq::<char>::empty();
    if above.len() == 0 {
        assert(above =~= none);
        assert(text::line_seq(none) =~= Seq::<Seq<char>>::empty());
        law_lines(line, none);
        if end.len() == 0 {
            assert(above + line + end =~= line);
        } else if end == seq!['\n'] {
            assert(above + line + end =~= line + seq!['\n'] + none);
        } else {
            let ended = line.push('\r');
            assert forall|i: int| 0 <= i < ended.len() implies ended[i] != '\n' by {
                if i < line.len() {
                    assert(line.contains(line[i]));
                }
            }
            law_lines(ended, none);
            assert(ended.drop_last() =~= line);
            assert(above + line + end =~= ended + seq!['\n'] + none);
        }
        assert(text::line_seq(above + line + end) =~= text::line_seq(above).push(line));
        law_numbers_add_up(above, none, '\n');
    } else {
        let n = text::char_index(above, '\n');
        text::lemma_char_index(above, '\n');
        assert(above[above.len() - 1] == '\n');
        let a = above.take(n);
        let b = above.skip(n + 1);
        assert forall|i: int| 0 <= i < a.len() implies a[i] != '\n' by {
            assert(a[i] == above[i]);
        }
        assert(above =~= a + seq!['\n'] + b);
        if b.len() > 0 {
            assert(b.last() == above.last());
        }
        law_added_line(b, line, end);
        law_lines(a, b);
        law_lines(a, b + line + end);
        assert(above + line + end =~= a + seq!['\n'] + (b + line + end));
        assert(text::line_seq(above + line + end) =~= text::line_seq(above).push(line));
        law_numbers_add_up(a, seq!['\n'], '\n');
        law_numbers_add_up(a + seq!['\n'], b, '\n');
    }
}

/// The words of a text are its longest runs without white space.
pub proof fn law_words(l: Seq<char>, w: Seq<char>, c: char, b: Seq<char>)
    requires
        blank(l),
        unbroken(w),
        w.len() > 0,
        text::is_white_space(c),
    ensures
        text::word_seq(l) == Seq::<Seq<char>>::empty(),
        text::word_seq(l + w) == seq![w],
        text::word_seq(l + w + seq![c] + b) == seq![w] + text::word_seq(b),
{
    let none = Seq::<char>::empty();
    assert(l + none =~= l);
    lemma_trimmed_start(l, none);
    assert(!text::is_white_space(w[0]));
    lemma_trimmed_start(l, w);
    law_first_space(w, c, b);
    assert(w.take(w.len() as int) =~= w);
    assert(w.skip(w.len() as int) =~= none);
    assert(text::word_seq(none) =~= Seq::<Seq<char>>::empty());
    assert(text::word_seq(l + w) =~= seq![w]);
    let t = w + seq![c] + b;
    assert(t[0] == w[0]);
    assert(l + w + seq![c] + b =~= l + t);
    lemma_trimmed_start(l, t);
    assert(t.take(w.len() as int) =~= w);
    let rest = t.skip(w.len() as int);
    assert(rest =~= seq![c] + b);
    assert(rest[0] == c);
    assert(rest.drop_first() =~= b);
    assert(text::trimmed_start(rest) == text::trimmed_start(b));
    assert(text::word_seq(rest) == text::word_seq(b));
}

/// A list of texts is written with one separator between each two of them.
pub proof fn law_joining(parts: Seq<Seq<char>>, last: Seq<char>, sep: Seq<char>)
    ensures
        text::joined(Seq::empty(), sep) == Seq::<char>::empty(),
        text::joined(seq![last], sep) == last,
        parts.len() > 0 ==> text::joined(parts.push(last), sep) == text::joined(parts, sep) + sep
            + last,
{
    assert(parts.push(last).drop_last() =~= parts);
}

/// What is joined with a separator that occurs in none of the parts is split
/// into the same parts again.
pub proof fn law_joined_texts_are_split_again(parts: Seq<Seq<char>>, c: char)
    requires
        parts.len() > 0,
        forall|i: int| 0 <= i < parts.len() ==> !(#[trigger] parts[i]).contains(c),
    ensures
        text::split_seq(text::joined(parts, seq![c]), c) == parts,
    decreases parts.len(),
{
    if parts.len() == 1 {
        law_splitting(parts[0], c, Seq::empty());
        assert(parts =~= seq![parts[0]]);
    } else {
        let front = parts.drop_last();
        law_joined_texts_are_split_again(front, c);
        lemma_split_last(text::joined(front, seq![c]), c, parts.last());
        assert(parts =~= front + seq![parts.last()]);
    }
}

pub(crate) proof fn lemma_split_last(s: Seq<char>, c: char, last: Seq<char>)
    requires
        !last.contains(c),
    ensures
        text::split_seq(s + seq![c] + last, c) == text::split_seq(s, c) + seq![last],
    decreases s.len(),
{
    let n = text::char_index(s, c);
    text::lemma_char_index(s, c);
    if n >= s.len() {
        assert(!s.contains(c));
        law_splitting(s, c, last);
        law_splitting(last, c, Seq::empty());
    } else {
        let a = s.take(n);
        let b = s.skip(n + 1);
        assert forall|i: int| 0 <= i < a.len() implies a[i] != c by {
            assert(a[i] == s[i]);
        }
        assert(s =~= a + seq![c] + b);
        law_splitting(a, c, b);
        law_splitting(a, c, b + seq![c] + last);
        assert(s + seq![c] + last =~= a + seq![c] + (b + seq![c] + last));
        lemma_split_last(b, c, last);
        assert(text::split_seq(s + seq![c] + last, c) =~= text::split_seq(s, c) + seq![last]);
    }
}

/// A number is written with its decimal digits, most significant first, and no
/// leading zero.
pub proof fn law_decimal_notation(n: nat, d: nat)
    requires
        d < 10,
    ensures
        text::decimal_text(d).len() == 1,
        text::decimal_text(d)[0] as nat == '0' as nat + d,
        n > 0 ==> text::decimal_text(10 * n + d) == text::decimal_text(n) + text::decimal_text(d),
{
    if n > 0 {
        assert((10 * n + d) / 10 == n);
        assert((10 * n + d) % 10 == d);
        assert(text::decimal_text(n).push(text::digit_char(d)) =~= text::decimal_text(n)
            + text::decimal_text(d));
    }
}

/// A number that fits in 32 bits is read from its decimal notation, with or
/// without leading zeros and one plus sign; a larger one is not read.
pub proof fn law_numbers_are_read_back(n: nat, zeros: nat)
    ensures
        ({
            let digits = Seq::new(zeros, |i: int| '0') + text::decimal_text(n);
            let read = if n < 4294967296 {
                Some(n)
            } else {
                None
            };
            text::unsigned_value(digits) == read && text::unsigned_value(seq!['+'] + digits) == read
        }),
{
    let zs = Seq::new(zeros, |i: int| '0');
    let t = text::decimal_text(n);
    let digits = zs + t;
    lemma_decimal_digits(n);
    lemma_leading_zeros(zeros, t);
    assert(digits[0] != '+') by {
        assert(text::is_digit(digits[0]));
    }
    let signed = seq!['+'] + digits;
    assert(signed[0] == '+');
    assert(signed.drop_first() =~= digits);
    assert(text::all_digits(digits)) by {
        assert forall|i: int| 0 <= i < digits.len() implies text::is_digit(digits[i]) by {
            if i >= zeros {
                assert(digits[i] == t[i - zeros]);
            }
        }
    }
}

pub(crate) proof fn lemma_decimal_digits(n: nat)
    ensures
        text::decimal_text(n).len() > 0,
        text::all_digits(text::decimal_text(n)),
        text::digits_value(text::decimal_text(n)) == n,
    decreases n,
{
    if n < 10 {
        let t = text::decimal_text(n);
        assert(t.drop_last() =~= Seq::<char>::empty());
        assert(text::digits_value(Seq::empty()) == 0);
        assert(t.last() as nat == 48 + n);
    } else {
        let front = text::decimal_text(n / 10);
        lemma_decimal_digits(n / 10);
        let t = text::decimal_text(n);
        assert(t.drop_last() =~= front);
        assert(t.last() as nat == 48 + n % 10);
        assert forall|i: int| 0 <= i < t.len() implies text::is_digit(t[i]) by {
            if i < front.len() {
                assert(t[i] == front[i]);
                assert(text::is_digit(front[i]));
            }
        }
    }
}

proof fn lemma_leading_zeros(zeros: nat, t: Seq<char>)
    ensures
        text::digits_value(Seq::new(zeros, |i: int| '0') + t) == text::digits_value(t),
    decreases zeros + t.len(),
{
    let zs = Seq::new(zeros, |i: int| '0');
    if t.len() > 0 {
        assert((zs + t).drop_last() =~= zs + t.drop_last());
        lemma_leading_zeros(zeros, t.drop_last());
    } else if zeros > 0 {
        let fewer = Seq::new((zeros - 1) as nat, |i: int| '0');
        assert((zs + t).drop_last() =~= fewer + t);
        lemma_leading_zeros((zeros - 1) as nat, t);
        assert((zs + t).last() == '0');
        assert(text::digits_value(zs + t) == text::digits_value(t) * 10);
        assert(t =~= Seq::<char>::empty());
        assert(text::digits_value(t) == 0);
    } else {
        assert(zs + t =~= t);
    }
}

/// A text with a character in it that is no digit writes no number, but for
/// one plus sign at its head; nor does one without a digit.
pub proof fn law_other_texts_are_no_numbers(s: Seq<char>, i: int)
    requires
        0 <= i < s.len(),
        !('0' <= s[i] <= '9'),
        i == 0 ==> s[i] != '+' || s.len() == 1,
    ensures
        text::unsigned_value(s) is None,
        text::unsigned_value(Seq::empty()) is None,
{
    let digits = text::unsigned_part(s);
    if s[0] == '+' && i > 0 {
        assert(digits[i - 1] == s[i]);
        assert(!text::is_digit(digits[i - 1]));
    } else if s[0] == '+' {
        assert(digits.len() == 0);
    } else {
        assert(!text::is_digit(digits[i]));
    }
}

/// Texts are ordered by the first character in which they differ; a text comes
/// before what continues it.
pub proof fn law_text_order(p: Seq<char>, x: char, y: char, a: Seq<char>, b: Seq<char>)
    requires
        (x as u32) < (y as u32),
    ensures
        text::text_less(p + seq![x] + a, p + seq![y] + b),
        !text::text_less(p + seq![y] + b, p + seq![x] + a),
        text::text_less(p, p + seq![x] + a),
        !text::text_less(p + seq![x] + a, p),
        !text::text_less(p, p),
    decreases p.len(),
{
    let s = p + seq![x] + a;
    let t = p + seq![y] + b;
    if p.len() > 0 {
        let q = p.drop_first();
        law_text_order(q, x, y, a, b);
        assert(s.drop_first() =~= q + seq![x] + a);
        assert(t.drop_first() =~= q + seq![y] + b);
        assert(s[0] == p[0] && t[0] == p[0]);
    } else {
        assert(s[0] == x && t[0] == y);
    }
}

} // verus!
