//! How an `sshd_config` file is read, line by line.

use super::text::{
    blank, ends_line, law_added_line, law_first_space, law_numbers_add_up, law_trimming, number_of,
    one_line, tight, unbroken, whole_lines,
};
use crate::parsers::sshd;
use crate::parsers::sshd::DirectiveView;
use crate::text;
use vstd::prelude::*;

verus! {

/// Whether every `#` of a text stands within double quotes.
pub open spec fn only_quoted_hashes(s: Seq<char>) -> bool {
    forall|i: int| 0 <= i < s.len() && #[trigger] s[i] == '#' ==> number_of(s.take(i), '"') % 2 == 1
}

/// Whether the quotes of a text are closed.
pub open spec fn closed(s: Seq<char>) -> bool {
    number_of(s, '"') % 2 == 0
}

/// Whether a text is a comment, or nothing.
pub open spec fn is_comment(s: Seq<char>) -> bool {
    s.len() > 0 ==> s[0] == '#'
}

proof fn lemma_quote_count(s: Seq<char>)
    ensures
        sshd::quote_count(s) == number_of(s, '"'),
    decreases s.len(),
{
    reveal(Seq::filter);
    if s.len() > 0 {
        lemma_quote_count(s.drop_last());
    }
}

proof fn lemma_comment_index(s: Seq<char>, comment: Seq<char>, quoted: bool)
    requires
        is_comment(comment),
        forall|i: int|
            0 <= i < s.len() && #[trigger] s[i] == '#' ==> (number_of(s.take(i), '"') % 2 == 1)
                != quoted,
        comment.len() > 0 ==> (number_of(s, '"') % 2 == 1) == quoted,
    ensures
        sshd::comment_index(s + comment, quoted) == s.len(),
    decreases s.len(),
{
    let none = Seq::<char>::empty();
    if s.len() > 0 {
        let c = s[0];
        let rest = s.drop_first();
        assert((s + comment)[0] == c);
        assert((s + comment).drop_first() =~= rest + comment);
        assert(s.take(0) =~= none);
        law_numbers_add_up(none, none, '"');
        assert(c == '#' ==> quoted);
        let next = if c == '"' {
            !quoted
        } else {
            quoted
        };
        lemma_one(c);
        assert forall|i: int| 0 <= i < rest.len() && #[trigger] rest[i] == '#' implies (number_of(
            rest.take(i),
            '"',
        ) % 2 == 1) != next by {
            assert(s[i + 1] == '#');
            assert(s.take(i + 1) =~= seq![c] + rest.take(i));
            law_numbers_add_up(seq![c], rest.take(i), '"');
        }
        assert(s =~= seq![c] + rest);
        law_numbers_add_up(seq![c], rest, '"');
        lemma_comment_index(rest, comment, next);
    } else {
        assert(s + comment =~= comment);
        assert(s =~= none);
        law_numbers_add_up(none, none, '"');
    }
}

proof fn lemma_one(c: char)
    ensures
        number_of(seq![c], '"') == (if c == '"' {
            1nat
        } else {
            0nat
        }),
{
    reveal_with_fuel(Seq::filter, 2);
    assert(seq![c].drop_last() =~= Seq::<char>::empty());
}

/// What the lines above add to the next one.
pub open spec fn within_match(ds: Seq<DirectiveView>, or: bool) -> bool {
    if ds.len() > 0 {
        ds.last().in_match
    } else {
        or
    }
}

proof fn lemma_parsed_push(lines: Seq<Seq<char>>, line: Seq<char>, i: int, in_match: bool)
    requires
        0 <= i <= lines.len(),
    ensures
        sshd::parsed(lines, i, in_match) is Err ==> sshd::parsed(lines.push(line), i, in_match)
            == sshd::parsed(lines, i, in_match),
        sshd::parsed(lines, i, in_match) matches Ok(ds) ==> sshd::parsed(
            lines.push(line),
            i,
            in_match,
        ) == (match sshd::parsed(
            lines.push(line),
            lines.len() as int,
            within_match(ds, in_match),
        ) {
            Ok(more) => Ok::<Seq<DirectiveView>, Seq<char>>(ds + more),
            Err(m) => Err(m),
        }),
    decreases lines.len() - i,
{
    let all = lines.push(line);
    if i < lines.len() {
        assert(all[i] == lines[i]);
        let t = text::trimmed(sshd::uncommented(lines[i]));
        if t.len() == 0 {
            lemma_parsed_push(lines, line, i + 1, in_match);
        } else if sshd::quote_count(t) % 2 != 0 {
        } else {
            let d = sshd::directive(t, (i + 1) as nat, in_match);
            lemma_parsed_push(lines, line, i + 1, d.in_match);
            match sshd::parsed(lines, i + 1, d.in_match) {
                Ok(rest) => {
                    let ds = seq![d] + rest;
                    assert(within_match(ds, in_match) == within_match(rest, d.in_match));
                    match sshd::parsed(all, lines.len() as int, within_match(rest, d.in_match)) {
                        Ok(more) => {
                            assert(seq![d] + (rest + more) =~= seq![d] + rest + more);
                        },
                        Err(_) => {},
                    }
                },
                Err(_) => {},
            }
        }
    } else {
        match sshd::parsed(all, lines.len() as int, in_match) {
            Ok(more) => {
                assert(Seq::<DirectiveView>::empty() + more =~= more);
            },
            Err(_) => {},
        }
    }
}

proof fn lemma_last_line(lines: Seq<Seq<char>>, line: Seq<char>, in_match: bool)
    ensures
        sshd::parsed(lines.push(line), lines.len() as int, in_match) == ({
            let t = text::trimmed(sshd::uncommented(line));
            if t.len() == 0 {
                Ok::<Seq<DirectiveView>, Seq<char>>(Seq::empty())
            } else if sshd::quote_count(t) % 2 != 0 {
                Err(sshd::unterminated((lines.len() + 1) as nat))
            } else {
                Ok(seq![sshd::directive(t, (lines.len() + 1) as nat, in_match)])
            }
        }),
{
    let all = lines.push(line);
    let n = lines.len() as int;
    assert(all[n] == line);
    reveal_with_fuel(sshd::parsed, 2);
    let t = text::trimmed(sshd::uncommented(line));
    let d = sshd::directive(t, (n + 1) as nat, in_match);
    assert(seq![d] + Seq::<DirectiveView>::empty() =~= seq![d]);
}

proof fn lemma_blank_has_no(s: Seq<char>, c: char)
    requires
        blank(s),
        !text::is_white_space(c),
    ensures
        !s.contains(c),
        number_of(s, c) == 0,
{
    assert forall|i: int| 0 <= i < s.len() implies s[i] != c by {
        assert(text::is_white_space(s[i]));
    }
    law_numbers_add_up(s, Seq::empty(), c);
}

proof fn lemma_hashes_around(l: Seq<char>, t: Seq<char>, r: Seq<char>)
    requires
        blank(l),
        blank(r),
        only_quoted_hashes(t),
    ensures
        only_quoted_hashes(l + t + r),
        number_of(l + t + r, '"') == number_of(t, '"'),
{
    let s = l + t + r;
    lemma_blank_has_no(l, '"');
    lemma_blank_has_no(r, '"');
    lemma_blank_has_no(l, '#');
    lemma_blank_has_no(r, '#');
    law_numbers_add_up(l, t, '"');
    law_numbers_add_up(l + t, r, '"');
    assert forall|i: int| 0 <= i < s.len() && #[trigger] s[i] == '#' implies number_of(
        s.take(i),
        '"',
    ) % 2 == 1 by {
        if i < l.len() {
            assert(l[i] == '#');
        } else if i >= l.len() + t.len() {
            assert(r[i - l.len() - t.len()] == '#');
        } else {
            let j = i - l.len();
            assert(t[j] == '#');
            assert(s.take(i) =~= l + t.take(j));
            law_numbers_add_up(l, t.take(j), '"');
        }
    }
}

/// A line is read without the white space around it and the comment behind it:
/// it is skipped where nothing is left, refused where a quote is left open, and
/// a directive otherwise.
proof fn lemma_line(
    content: Seq<char>,
    indent: Seq<char>,
    said: Seq<char>,
    trail: Seq<char>,
    comment: Seq<char>,
    end: Seq<char>,
)
    requires
        whole_lines(content),
        blank(indent),
        tight(said),
        blank(trail),
        only_quoted_hashes(said),
        comment.len() > 0 ==> closed(said),
        is_comment(comment),
        one_line(indent + said + trail + comment),
        ends_line(indent + said + trail + comment, end),
    ensures
        ({
            let line = indent + said + trail + comment;
            let n = number_of(content, '\n') + 1;
            let expected = match sshd::parsed_content(content) {
                Err(m) => Err(m),
                Ok(ds) => if said.len() == 0 {
                    Ok(ds)
                } else if !closed(said) {
                    Err(sshd::unterminated(n))
                } else {
                    Ok(ds.push(sshd::directive(said, n, within_match(ds, false))))
                },
            };
            sshd::parsed_content(content + line + end) == expected
        }),
{
    let body = indent + said + trail;
    let line = body + comment;
    let lines = text::line_seq(content);
    law_added_line(content, line, end);
    lemma_hashes_around(indent, said, trail);
    lemma_comment_index(body, comment, false);
    assert(line.take(body.len() as int) =~= body);
    assert(sshd::uncommented(line) == body);
    law_trimming(indent, said, trail);
    lemma_quote_count(said);
    lemma_parsed_push(lines, line, 0, false);
    match sshd::parsed(lines, 0, false) {
        Ok(ds) => {
            let m = within_match(ds, false);
            lemma_last_line(lines, line, m);
            let d = sshd::directive(said, (lines.len() + 1) as nat, m);
            assert(ds + seq![d] =~= ds.push(d));
            assert(ds + Seq::<DirectiveView>::empty() =~= ds);
        },
        Err(_) => {},
    }
}

/// An empty line, and one of white space and a comment, either or both, adds
/// nothing.
pub proof fn law_line_without_directive(
    content: Seq<char>,
    indent: Seq<char>,
    comment: Seq<char>,
    end: Seq<char>,
)
    requires
        whole_lines(content),
        blank(indent),
        is_comment(comment),
        one_line(indent + comment),
        ends_line(indent + comment, end),
    ensures
        sshd::parsed_content(content + (indent + comment) + end) == sshd::parsed_content(content),
{
    let none = Seq::<char>::empty();
    law_numbers_add_up(none, none, '"');
    assert(indent + none + none + comment =~= indent + comment);
    lemma_line(content, indent, none, none, comment, end);
    assert(none.len() == 0);
}

/// A directive is read from a line of its own: its keyword in lower case, its
/// arguments without the white space around them, the line, and the text that
/// was read. A `#` within quotes is no comment. From a `Match` on every
/// directive is within a `Match` block.
pub proof fn law_directive_is_read(
    content: Seq<char>,
    indent: Seq<char>,
    keyword: Seq<char>,
    gap: Seq<char>,
    args: Seq<char>,
    trail: Seq<char>,
    comment: Seq<char>,
    end: Seq<char>,
)
    requires
        whole_lines(content),
        sshd::parsed_content(content) is Ok,
        blank(indent),
        unbroken(keyword),
        keyword.len() > 0,
        blank(gap),
        gap.len() > 0 <==> args.len() > 0,
        tight(args),
        blank(trail),
        only_quoted_hashes(keyword + gap + args),
        closed(keyword + gap + args),
        is_comment(comment),
        one_line(indent + (keyword + gap + args) + trail + comment),
        ends_line(indent + (keyword + gap + args) + trail + comment, end),
    ensures
        ({
            let line = indent + (keyword + gap + args) + trail + comment;
            let ds = sshd::parsed_content(content)->Ok_0;
            let d = DirectiveView {
                keyword: text::lowered(keyword),
                args,
                line: number_of(content, '\n') + 1,
                raw: keyword + gap + args,
                in_match: text::lowered(keyword) == "match"@ || ds.len() > 0
                    && ds.last().in_match,
            };
            sshd::parsed_content(content + line + end) == Ok::<Seq<DirectiveView>, Seq<char>>(
                ds.push(d),
            )
        }),
{
    let none = Seq::<char>::empty();
    let said = keyword + gap + args;
    assert(said[0] == keyword[0]);
    assert(!text::is_white_space(keyword[0]));
    if args.len() > 0 {
        assert(said.last() == args.last());
        let c = gap[0];
        let rest = gap.drop_first();
        assert(text::is_white_space(gap[0]));
        law_first_space(keyword, c, rest + args);
        assert(said =~= keyword + seq![c] + (rest + args));
        assert(said.skip(keyword.len() as int + 1) =~= rest + args);
        assert forall|i: int| 0 <= i < rest.len() implies #[trigger] text::is_white_space(
            rest[i],
        ) by {
            assert(rest[i] == gap[i + 1]);
        }
        law_trimming(rest, args, none);
        assert(rest + args + none =~= rest + args);
    } else {
        assert(said =~= keyword);
        assert(said.last() == keyword[keyword.len() - 1]);
        assert(!text::is_white_space(keyword[keyword.len() - 1]));
        law_first_space(keyword, ' ', none);
        assert(args =~= none);
    }
    assert(said.take(keyword.len() as int) =~= keyword);
    lemma_line(content, indent, said, trail, comment, end);
}

/// A line whose quotes are not closed is refused, and the error names it.
pub proof fn law_open_quote_is_refused(
    content: Seq<char>,
    indent: Seq<char>,
    said: Seq<char>,
    trail: Seq<char>,
    end: Seq<char>,
)
    requires
        whole_lines(content),
        sshd::parsed_content(content) is Ok,
        blank(indent),
        tight(said),
        said.len() > 0,
        blank(trail),
        only_quoted_hashes(said),
        !closed(said),
        one_line(indent + said + trail),
        ends_line(indent + said + trail, end),
    ensures
        sshd::parsed_content(content + (indent + said + trail) + end) == Err::<
            Seq<DirectiveView>,
            Seq<char>,
        >(
            "line "@ + text::decimal_text(number_of(content, '\n') + 1)
                + ": unterminated quoted string"@,
        ),
{
    let none = Seq::<char>::empty();
    assert(indent + said + trail + none =~= indent + said + trail);
    lemma_line(content, indent, said, trail, none, end);
}

/// What was refused stays refused, whatever is added; an empty file is read.
pub proof fn law_errors_stay(content: Seq<char>, line: Seq<char>, end: Seq<char>)
    requires
        whole_lines(content),
        one_line(line),
        ends_line(line, end),
        sshd::parsed_content(content) is Err,
    ensures
        sshd::parsed_content(content + line + end) == sshd::parsed_content(content),
        sshd::parsed_content(Seq::empty()) == Ok::<Seq<DirectiveView>, Seq<char>>(Seq::empty()),
{
    law_added_line(content, line, end);
    lemma_parsed_push(text::line_seq(content), line, 0, false);
}

} // verus!
