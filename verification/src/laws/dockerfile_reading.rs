//! How a Dockerfile is read, line by line, and how the variables of an
//! instruction are.

use super::dockerfile::lemma_whole_line_before;
use super::dockerfile_rules::{is_hint, law_secrets_are_reported};
use super::nginx_reading::{raw_of, Segment};
use super::text::{
    blank, ends_line, law_added_line, law_first_character, law_first_space, law_stripping,
    law_trimming, lemma_trimmed_end, number_of, one_line, tight, unbroken, whole_lines,
};
use crate::parsers::dockerfile;
use crate::parsers::dockerfile::InstructionView;
use crate::parsers::prepended;
use crate::text;
use vstd::prelude::*;

verus! {

proof fn lemma_parsed_before(head: Seq<Seq<char>>, tail: Seq<Seq<char>>, i: int)
    requires
        0 <= i <= head.len(),
        dockerfile::parsed(head, i) is Ok,
    ensures
        dockerfile::parsed(head + tail, i) == prepended(
            dockerfile::parsed(head, i)->Ok_0,
            dockerfile::parsed(head + tail, head.len() as int),
        ),
    decreases head.len() - i,
{
    let lines = head + tail;
    let behind = dockerfile::parsed(lines, head.len() as int);
    if i == head.len() {
        crate::parsers::lemma_prepend_nothing(behind);
    } else {
        assert(lines[i] == head[i]);
        if dockerfile::skipped(head[i]) {
            lemma_parsed_before(head, tail, i + 1);
        } else {
            let line = text::trimmed_end(head[i]);
            lemma_whole_line_before(head, tail, line, i);
            dockerfile::lemma_whole_line_advances(head, line, i);
            if let Some((whole, last)) = dockerfile::whole_line(head, line, i) {
                lemma_parsed_before(head, tail, last + 1);
                crate::parsers::lemma_prepend_twice(
                    seq![dockerfile::instruction(text::trimmed(whole), (i + 1) as nat)],
                    dockerfile::parsed(head, last + 1)->Ok_0,
                    behind,
                );
            }
        }
    }
}

/// An empty line, one of white space, and a comment add nothing.
pub proof fn law_line_without_instruction(
    content: Seq<char>,
    indent: Seq<char>,
    comment: Seq<char>,
    end: Seq<char>,
)
    requires
        whole_lines(content),
        dockerfile::parsed_content(content) is Ok,
        blank(indent),
        comment.len() > 0 ==> comment[0] == '#',
        one_line(indent + comment),
        ends_line(indent + comment, end),
    ensures
        dockerfile::parsed_content(content + (indent + comment) + end)
            == dockerfile::parsed_content(content),
{
    let line = indent + comment;
    let lines = text::line_seq(content);
    let n = lines.len() as int;
    law_added_line(content, line, end);
    lemma_parsed_before(lines, seq![line], 0);
    let all = lines + seq![line];
    assert(all =~= lines.push(line));
    assert(all[n] == line);
    assert(dockerfile::skipped(line)) by {
        super::text::lemma_start_is_blank(line);
        super::text::lemma_blank(line);
        if comment.len() > 0 {
            super::text::lemma_trimmed_start(indent, comment);
            super::text::lemma_end_is_blank(comment);
            let t = text::trimmed(line);
            assert(t == text::trimmed_end(comment));
            if t.len() > 0 {
                assert(t[0] == comment[0]);
            }
        } else {
            assert(line =~= indent);
        }
    }
    reveal_with_fuel(dockerfile::parsed, 2);
    let ins = dockerfile::parsed_content(content)->Ok_0;
    assert(ins + Seq::<InstructionView>::empty() =~= ins);
}

/// The instruction that a text without white space around it writes.
pub open spec fn read_as(
    keyword: Seq<char>,
    gap: Seq<char>,
    args: Seq<char>,
    line: nat,
) -> InstructionView {
    InstructionView {
        keyword: text::uppered(keyword),
        args,
        line,
        raw: keyword + gap + args,
    }
}

/// Whether three texts write an instruction: a keyword, white space, and
/// arguments without white space around them, or a keyword alone.
pub open spec fn writes(keyword: Seq<char>, gap: Seq<char>, args: Seq<char>) -> bool {
    &&& unbroken(keyword)
    &&& keyword.len() > 0
    &&& keyword[0] != '#'
    &&& blank(gap)
    &&& gap.len() > 0 <==> args.len() > 0
    &&& tight(args)
    &&& (keyword + gap + args).last() != '\\'
}

proof fn lemma_instruction(keyword: Seq<char>, gap: Seq<char>, args: Seq<char>, line: nat)
    requires
        writes(keyword, gap, args),
    ensures
        dockerfile::instruction(keyword + gap + args, line) == read_as(keyword, gap, args, line),
        tight(keyword + gap + args),
{
    let none = Seq::<char>::empty();
    let said = keyword + gap + args;
    assert(said[0] == keyword[0]);
    assert(!text::is_white_space(keyword[0]));
    if args.len() > 0 {
        assert(said.last() == args.last());
        let c = gap[0];
        let rest = gap.drop_first();
        assert(text::is_white_space(gap[0]));
        law_first_space(keyword, c, rest + args);
        assert(said =~= keyword + seq![c] + (rest + args));
        assert(said.skip(keyword.len() as int + 1) =~= rest + args);
        assert forall|i: int| 0 <= i < rest.len() implies #[trigger] text::is_white_space(
            rest[i],
        ) by {
            assert(rest[i] == gap[i + 1]);
        }
        law_trimming(rest, args, none);
        assert(rest + args + none =~= rest + args);
    } else {
        assert(said =~= keyword);
        assert(said.last() == keyword[keyword.len() - 1]);
        assert(!text::is_white_space(keyword[keyword.len() - 1]));
        law_first_space(keyword, ' ', none);
        assert(args =~= none);
    }
    assert(said.take(keyword.len() as int) =~= keyword);
}

proof fn lemma_starts(indent: Seq<char>, said: Seq<char>, trail: Seq<char>)
    requires
        blank(indent),
        tight(said),
        said.len() > 0,
        said[0] != '#',
        blank(trail),
    ensures
        !dockerfile::skipped(indent + said + trail),
        text::trimmed_end(indent + said + trail) == indent + said,
        text::trimmed(indent + said) == said,
{
    let none = Seq::<char>::empty();
    law_trimming(indent, said, trail);
    law_trimming(indent, said, none);
    assert(indent + said + none =~= indent + said);
    assert((indent + said).last() == said.last());
    lemma_trimmed_end(indent + said, trail);
}

/// An instruction is read from a line of its own: its keyword in upper case,
/// its arguments without the white space around them, the line, and the text
/// that was read.
pub proof fn law_instruction_is_read(
    content: Seq<char>,
    indent: Seq<char>,
    keyword: Seq<char>,
    gap: Seq<char>,
    args: Seq<char>,
    trail: Seq<char>,
    end: Seq<char>,
)
    requires
        whole_lines(content),
        dockerfile::parsed_content(content) is Ok,
        blank(indent),
        writes(keyword, gap, args),
        blank(trail),
        one_line(indent + (keyword + gap + args) + trail),
        ends_line(indent + (keyword + gap + args) + trail, end),
    ensures
        dockerfile::parsed_content(content + (indent + (keyword + gap + args) + trail) + end)
            == Ok::<Seq<InstructionView>, Seq<char>>(
            dockerfile::parsed_content(content)->Ok_0.push(
                read_as(keyword, gap, args, number_of(content, '\n') + 1),
            ),
        ),
{
    let said = keyword + gap + args;
    let line = indent + said + trail;
    let lines = text::line_seq(content);
    let n = lines.len() as int;
    law_added_line(content, line, end);
    lemma_parsed_before(lines, seq![line], 0);
    let all = lines + seq![line];
    assert(all =~= lines.push(line));
    assert(all[n] == line);
    lemma_instruction(keyword, gap, args, (n + 1) as nat);
    assert(said[0] == keyword[0]);
    lemma_starts(indent, said, trail);
    let whole = indent + said;
    assert(whole.last() == said.last());
    assert(!dockerfile::goes_on(whole));
    assert(dockerfile::whole_line(all, whole, n) == Some((whole, n)));
    let ins = dockerfile::parsed_content(content)->Ok_0;
    let i = read_as(keyword, gap, args, (n + 1) as nat);
    assert(dockerfile::parsed(all, n + 1) == Ok::<Seq<InstructionView>, Seq<char>>(Seq::empty()));
    assert(seq![i] + Seq::<InstructionView>::empty() =~= seq![i]);
    assert(dockerfile::parsed(all, n) == Ok::<Seq<InstructionView>, Seq<char>>(seq![i]));
    assert(ins + seq![i] =~= ins.push(i));
}

/// Whether texts are the parts of one statement: each begins with what is
/// neither white space nor a comment, and the last ends it.
pub open spec fn are_parts(parts: Seq<Seq<char>>) -> bool {
    &&& parts.len() > 0
    &&& forall|k: int|
        0 <= k < parts.len() ==> (#[trigger] parts[k]).len() > 0 && !text::is_white_space(
            parts[k][0],
        ) && parts[k][0] != '#'
    &&& !text::is_white_space(parts.last().last())
    &&& parts.last().last() != '\\'
}

/// What ends a part: a backslash, unless it is the last.
pub open spec fn part_end(parts: Seq<Seq<char>>, k: int) -> Seq<char> {
    if k + 1 >= parts.len() {
        Seq::empty()
    } else {
        seq!['\\']
    }
}

/// The lines that hold the parts of a statement, with white space before and
/// behind each of them.
pub open spec fn part_lines(
    parts: Seq<Seq<char>>,
    indent: Seq<char>,
    trail: Seq<char>,
) -> Seq<Seq<char>> {
    Seq::new(parts.len(), |k: int| indent + (parts[k] + part_end(parts, k)) + trail)
}

/// The text of some lines with their ends.
pub open spec fn text_of(lines: Seq<Seq<char>>, end: Seq<char>) -> Seq<char>
    decreases lines.len(),
{
    if lines.len() == 0 {
        Seq::empty()
    } else {
        text_of(lines.drop_last(), end) + lines.last() + end
    }
}

proof fn lemma_text_of(content: Seq<char>, lines: Seq<Seq<char>>, end: Seq<char>)
    requires
        whole_lines(content),
        end.len() > 0,
        ends_line(Seq::empty(), end),
        forall|k: int| 0 <= k < lines.len() ==> one_line(#[trigger] lines[k]),
    ensures
        whole_lines(content + text_of(lines, end)),
        text::line_seq(content + text_of(lines, end)) == text::line_seq(content) + lines,
    decreases lines.len(),
{
    if lines.len() > 0 {
        let front = lines.drop_last();
        assert forall|k: int| 0 <= k < front.len() implies one_line(#[trigger] front[k]) by {
            assert(front[k] == lines[k]);
        }
        lemma_text_of(content, front, end);
        let last = lines.last();
        assert(last == lines[lines.len() - 1]);
        law_added_line(content + text_of(front, end), last, end);
        assert(content + text_of(lines, end) =~= content + text_of(front, end) + last + end);
        assert((content + text_of(lines, end)).last() == end.last());
        assert(text::line_seq(content) + lines =~= (text::line_seq(content) + front).push(last));
    } else {
        assert(content + text_of(lines, end) =~= content);
        assert(text::line_seq(content) + lines =~= text::line_seq(content));
    }
}

proof fn lemma_part(parts: Seq<Seq<char>>, indent: Seq<char>, trail: Seq<char>, k: int)
    requires
        are_parts(parts),
        blank(indent),
        blank(trail),
        0 <= k < parts.len(),
    ensures
        ({
            let line = part_lines(parts, indent, trail)[k];
            let said = parts[k] + part_end(parts, k);
            &&& tight(said)
            &&& said.len() > 0
            &&& said[0] != '#'
            &&& text::trimmed(line) == said
            &&& text::trimmed_end(line) == indent + said
            &&& !dockerfile::is_comment(line)
            &&& !dockerfile::skipped(line)
        }),
{
    let said = parts[k] + part_end(parts, k);
    assert(said[0] == parts[k][0]);
    if k + 1 == parts.len() {
        assert(said =~= parts[k]);
    } else {
        assert(said.last() == '\\');
    }
    law_trimming(indent, said, trail);
    lemma_starts(indent, said, trail);
}

proof fn lemma_parts_join(
    all: Seq<Seq<char>>,
    at: int,
    parts: Seq<Seq<char>>,
    indent: Seq<char>,
    trail: Seq<char>,
    k: int,
)
    requires
        are_parts(parts),
        blank(indent),
        blank(trail),
        0 < k <= parts.len(),
        0 <= at,
        at + parts.len() <= all.len(),
        forall|j: int| 0 <= j < parts.len() ==> #[trigger] all[at + j] == part_lines(
            parts,
            indent,
            trail,
        )[j],
    ensures
        dockerfile::whole_line(
            all,
            indent + (text::joined(parts.take(k), " "@) + part_end(parts, k - 1)),
            at + k - 1,
        ) == Some((indent + text::joined(parts, " "@), at + parts.len() - 1)),
    decreases parts.len() - k,
{
    reveal_strlit(" ");
    let none = Seq::<char>::empty();
    let head = text::joined(parts.take(k), " "@);
    lemma_joined_ends(parts.take(k), " "@);
    if k == parts.len() {
        assert(parts.take(k) =~= parts);
        assert(head + part_end(parts, k - 1) =~= head);
        assert((indent + head).last() == head.last());
        assert(!dockerfile::goes_on(indent + head));
    } else {
        let line = indent + (head + seq!['\\']);
        let next = all[at + k];
        lemma_part(parts, indent, trail, k);
        assert(next == part_lines(parts, indent, trail)[k]);
        let end = part_end(parts, k);
        let said = parts[k] + end;
        assert(line.drop_last() =~= indent + head);
        let glued = (indent + head).push(' ') + said;
        assert(glued.last() == said.last());
        assert(glued + none =~= glued);
        lemma_trimmed_end(glued, none);
        let longer = parts.take(k + 1);
        assert(longer.drop_last() =~= parts.take(k));
        assert(longer.last() == parts[k]);
        assert(text::joined(longer, " "@) =~= head + " "@ + parts[k]);
        assert(glued =~= indent + (text::joined(longer, " "@) + end));
        assert(dockerfile::continued_by(line, next) == glued);
        assert(dockerfile::goes_on(line));
        lemma_parts_join(all, at, parts, indent, trail, k + 1);
        assert(at + k - 1 + 1 == at + k);
    }
}

proof fn lemma_joined_ends(parts: Seq<Seq<char>>, sep: Seq<char>)
    requires
        parts.len() > 0,
        forall|k: int| 0 <= k < parts.len() ==> (#[trigger] parts[k]).len() > 0,
    ensures
        text::joined(parts, sep).len() > 0,
        text::joined(parts, sep)[0] == parts[0][0],
        text::joined(parts, sep).last() == parts.last().last(),
    decreases parts.len(),
{
    if parts.len() > 1 {
        let front = parts.drop_last();
        assert forall|k: int| 0 <= k < front.len() implies (#[trigger] front[k]).len() > 0 by {
            assert(front[k] == parts[k]);
        }
        lemma_joined_ends(front, sep);
        assert(parts.last() == parts[parts.len() - 1]);
    }
}

/// The last statement of a file, once it is known to be whole.
proof fn lemma_last_statement(
    content: Seq<char>,
    tail: Seq<Seq<char>>,
    end: Seq<char>,
    indent: Seq<char>,
    keyword: Seq<char>,
    gap: Seq<char>,
    args: Seq<char>,
)
    requires
        whole_lines(content),
        dockerfile::parsed_content(content) is Ok,
        end.len() > 0,
        ends_line(Seq::empty(), end),
        tail.len() > 0,
        forall|k: int| 0 <= k < tail.len() ==> one_line(#[trigger] tail[k]),
        !dockerfile::skipped(tail[0]),
        blank(indent),
        writes(keyword, gap, args),
        dockerfile::whole_line(
            text::line_seq(content) + tail,
            text::trimmed_end(tail[0]),
            text::line_seq(content).len() as int,
        ) == Some(
            (
                indent + (keyword + gap + args),
                text::line_seq(content).len() + tail.len() - 1,
            ),
        ),
    ensures
        dockerfile::parsed_content(content + text_of(tail, end)) == Ok::<
            Seq<InstructionView>,
            Seq<char>,
        >(
            dockerfile::parsed_content(content)->Ok_0.push(
                read_as(keyword, gap, args, number_of(content, '\n') + 1),
            ),
        ),
{
    let none = Seq::<char>::empty();
    let lines = text::line_seq(content);
    let n = lines.len() as int;
    law_added_line(content, none, end);
    lemma_text_of(content, tail, end);
    lemma_parsed_before(lines, tail, 0);
    let all = lines + tail;
    assert(all[n] == tail[0]);
    let said = keyword + gap + args;
    lemma_instruction(keyword, gap, args, (n + 1) as nat);
    law_trimming(indent, said, none);
    assert(indent + said + none =~= indent + said);
    let i = read_as(keyword, gap, args, (n + 1) as nat);
    assert(n + tail.len() == all.len());
    assert(dockerfile::parsed(all, all.len() as int) == Ok::<Seq<InstructionView>, Seq<char>>(
        Seq::empty(),
    ));
    assert(seq![i] + Seq::<InstructionView>::empty() =~= seq![i]);
    assert(dockerfile::parsed(all, n) == Ok::<Seq<InstructionView>, Seq<char>>(seq![i]));
    let ins = dockerfile::parsed_content(content)->Ok_0;
    assert(ins + seq![i] =~= ins.push(i));
}

/// A statement that is written over several lines is read as if its parts stood
/// on one line with a blank between them; its line is that of the first part.
pub proof fn law_statement_over_lines_is_read(
    content: Seq<char>,
    parts: Seq<Seq<char>>,
    indent: Seq<char>,
    trail: Seq<char>,
    end: Seq<char>,
    keyword: Seq<char>,
    gap: Seq<char>,
    args: Seq<char>,
)
    requires
        whole_lines(content),
        dockerfile::parsed_content(content) is Ok,
        end == seq!['\n'] || end == seq!['\r', '\n'],
        are_parts(parts),
        blank(indent),
        blank(trail),
        forall|k: int|
            0 <= k < parts.len() ==> one_line(#[trigger] part_lines(parts, indent, trail)[k]),
        writes(keyword, gap, args),
        text::joined(parts, " "@) == keyword + gap + args,
    ensures
        dockerfile::parsed_content(content + text_of(part_lines(parts, indent, trail), end)) == Ok::<
            Seq<InstructionView>,
            Seq<char>,
        >(
            dockerfile::parsed_content(content)->Ok_0.push(
                read_as(keyword, gap, args, number_of(content, '\n') + 1),
            ),
        ),
{
    let tail = part_lines(parts, indent, trail);
    let lines = text::line_seq(content);
    let n = lines.len() as int;
    let all = lines + tail;
    assert forall|j: int| 0 <= j < parts.len() implies #[trigger] all[n + j] == tail[j] by {}
    lemma_parts_join(all, n, parts, indent, trail, 1);
    lemma_part(parts, indent, trail, 0);
    assert(parts.take(1) =~= seq![parts[0]]);
    assert(text::joined(parts.take(1), " "@) == parts[0]);
    lemma_last_statement(content, tail, end, indent, keyword, gap, args);
}

/// A blank line ends a statement that was to go on.
pub proof fn law_blank_line_ends_statement(
    content: Seq<char>,
    indent: Seq<char>,
    keyword: Seq<char>,
    gap: Seq<char>,
    args: Seq<char>,
    space: Seq<char>,
    trail: Seq<char>,
    empty: Seq<char>,
    end: Seq<char>,
)
    requires
        whole_lines(content),
        dockerfile::parsed_content(content) is Ok,
        end == seq!['\n'] || end == seq!['\r', '\n'],
        blank(indent),
        writes(keyword, gap, args),
        blank(space),
        blank(trail),
        blank(empty),
        one_line(indent + (keyword + gap + args + space).push('\\') + trail),
        one_line(empty),
    ensures
        dockerfile::parsed_content(
            content + text_of(
                seq![indent + (keyword + gap + args + space).push('\\') + trail, empty],
                end,
            ),
        ) == Ok::<Seq<InstructionView>, Seq<char>>(
            dockerfile::parsed_content(content)->Ok_0.push(
                read_as(keyword, gap, args, number_of(content, '\n') + 1),
            ),
        ),
{
    let none = Seq::<char>::empty();
    let text = keyword + gap + args;
    let said = (text + space).push('\\');
    lemma_instruction(keyword, gap, args, 1);
    assert(said[0] == keyword[0]);
    assert(!text::is_white_space(keyword[0]));
    lemma_starts(indent, said, trail);
    let first = indent + said + trail;
    let tail = seq![first, empty];
    let lines = text::line_seq(content);
    let n = lines.len() as int;
    let all = lines + tail;
    assert(all[n] == first && all[n + 1] == empty);
    let line = indent + said;
    assert(line.last() == '\\');
    law_trimming(empty, none, none);
    assert(empty + none + none =~= empty);
    assert(!dockerfile::is_comment(empty));
    let glued = line.drop_last().push(' ') + none;
    let after = space.push(' ');
    assert forall|i: int| 0 <= i < after.len() implies #[trigger] text::is_white_space(
        after[i],
    ) by {
        if i < space.len() {
            assert(after[i] == space[i]);
        }
    }
    assert(glued =~= indent + text + after);
    assert((indent + text).last() == text.last());
    lemma_trimmed_end(indent + text, after);
    assert(dockerfile::continued_by(line, empty) == indent + text);
    assert(!dockerfile::goes_on(indent + text));
    assert(dockerfile::whole_line(all, indent + text, n + 1) == Some((indent + text, n + 1)));
    lemma_last_statement(content, tail, end, indent, keyword, gap, args);
}

/// A comment line within a statement adds nothing to it.
pub proof fn law_comment_within_statement(
    content: Seq<char>,
    first: Seq<char>,
    indent: Seq<char>,
    comment: Seq<char>,
    second: Seq<char>,
)
    requires
        whole_lines(content),
        dockerfile::parsed_content(content) is Ok,
        tight(first),
        first.len() > 1,
        first[0] != '#',
        first.last() == '\\',
        one_line(first),
        blank(indent),
        comment.len() > 0,
        comment[0] == '#',
        one_line(indent + comment),
        one_line(second),
    ensures
        dockerfile::parsed_content(
            content + text_of(seq![first, indent + comment, second], seq!['\n']),
        ) == dockerfile::parsed_content(content + text_of(seq![first, second], seq!['\n'])),
{
    let none = Seq::<char>::empty();
    let lines = text::line_seq(content);
    let n = lines.len() as int;
    let long = seq![first, indent + comment, second];
    let short = seq![first, second];
    lemma_text_of(content, long, seq!['\n']);
    lemma_text_of(content, short, seq!['\n']);
    lemma_parsed_before(lines, long, 0);
    lemma_parsed_before(lines, short, 0);
    let a = lines + long;
    let b = lines + short;
    assert(a[n] == first && a[n + 1] == indent + comment && a[n + 2] == second);
    assert(b[n] == first && b[n + 1] == second);
    lemma_starts(none, first, none);
    assert(none + first + none =~= first);
    assert(none + first =~= first);
    assert(dockerfile::is_comment(indent + comment)) by {
        super::text::lemma_trimmed_start(indent, comment);
        super::text::lemma_end_is_blank(comment);
        let t = text::trimmed(indent + comment);
        assert(t == text::trimmed_end(comment));
        if t.len() == 0 {
            assert(comment.skip(0) =~= comment);
            assert(text::is_white_space(comment.skip(0)[0]));
        }
        assert(t[0] == comment[0]);
    }
    assert(dockerfile::whole_line(a, first, n) == dockerfile::whole_line(a, first, n + 1));
    if dockerfile::is_comment(second) {
        assert(dockerfile::whole_line(a, first, n + 1) == dockerfile::whole_line(a, first, n + 2));
        assert(dockerfile::whole_line(a, first, n + 2) is None);
        assert(dockerfile::whole_line(b, first, n) == dockerfile::whole_line(b, first, n + 1));
        assert(dockerfile::whole_line(b, first, n + 1) is None);
    } else {
        let whole = dockerfile::continued_by(first, second);
        assert(dockerfile::whole_line(a, first, n + 1) == dockerfile::whole_line(a, whole, n + 2));
        assert(dockerfile::whole_line(b, first, n) == dockerfile::whole_line(b, whole, n + 1));
        if dockerfile::goes_on(whole) {
            assert(dockerfile::whole_line(a, whole, n + 2) is None);
            assert(dockerfile::whole_line(b, whole, n + 1) is None);
        } else {
            assert(dockerfile::whole_line(a, whole, n + 2) == Some((whole, n + 2)));
            assert(dockerfile::whole_line(b, whole, n + 1) == Some((whole, n + 1)));
            assert(dockerfile::parsed(a, n + 3) == Ok::<Seq<InstructionView>, Seq<char>>(
                Seq::empty(),
            ));
            assert(dockerfile::parsed(b, n + 2) == Ok::<Seq<InstructionView>, Seq<char>>(
                Seq::empty(),
            ));
        }
    }
    assert(dockerfile::parsed(a, n) == dockerfile::parsed(b, n));
}

/// A statement that is to go on at the end of the file is refused, and so is
/// one that says nothing; the error names the line where it begins.
pub proof fn law_broken_statements_are_refused(
    content: Seq<char>,
    said: Seq<char>,
    indent: Seq<char>,
    end: Seq<char>,
)
    requires
        whole_lines(content),
        dockerfile::parsed_content(content) is Ok,
        ends_line(said, end),
        tight(said),
        said.len() > 0,
        said[0] != '#',
        said.last() == '\\',
        one_line(said),
        blank(indent),
        one_line(indent),
    ensures
        dockerfile::parsed_content(content + said + end) == Err::<Seq<InstructionView>, Seq<char>>(
            "line "@ + text::decimal_text(number_of(content, '\n') + 1)
                + ": line continuation ('\\\\') with no following line"@,
        ),
        said.len() == 1 ==> dockerfile::parsed_content(
            content + text_of(seq![said, indent], seq!['\n']),
        )
            == Err::<Seq<InstructionView>, Seq<char>>(
            "line "@ + text::decimal_text(number_of(content, '\n') + 1) + ": empty instruction"@,
        ),
{
    let none = Seq::<char>::empty();
    let lines = text::line_seq(content);
    let n = lines.len() as int;
    law_added_line(content, said, end);
    lemma_parsed_before(lines, seq![said], 0);
    let all = lines + seq![said];
    assert(all =~= lines.push(said));
    assert(all[n] == said);
    lemma_starts(none, said, none);
    assert(none + said + none =~= said);
    assert(none + said =~= said);
    assert(dockerfile::whole_line(all, said, n) is None);
    if said.len() == 1 {
        let tail = seq![said, indent];
        lemma_text_of(content, tail, seq!['\n']);
        lemma_parsed_before(lines, tail, 0);
        let more = lines + tail;
        assert(more[n] == said && more[n + 1] == indent);
        law_trimming(indent, none, none);
        assert(indent + none + none =~= indent);
        assert(!dockerfile::is_comment(indent));
        let glued = said.drop_last().push(' ') + none;
        assert(glued =~= none + seq![' ']);
        assert(blank(seq![' ']));
        lemma_trimmed_end(none, seq![' ']);
        assert(dockerfile::continued_by(said, indent) == none);
        assert(dockerfile::whole_line(more, none, n + 1) == Some((none, n + 1)));
        assert(dockerfile::whole_line(more, said, n) == Some((none, n + 1)));
        law_trimming(none, none, none);
        assert(none + none + none =~= none);
    }
}

/// Whether a text has neither white space nor quotes in it.
pub open spec fn bare(s: Seq<char>) -> bool {
    unbroken(s) && !s.contains('"') && !s.contains('\'')
}

proof fn lemma_bare_piece(s: Seq<char>, rest: Seq<char>, piece: Seq<char>)
    requires
        bare(s),
    ensures
        dockerfile::pieces_from(s + rest, piece, None) == dockerfile::pieces_from(
            rest,
            piece + s,
            None,
        ),
    decreases s.len(),
{
    if s.len() > 0 {
        let c = s[0];
        let tail = s.drop_first();
        assert((s + rest)[0] == c);
        assert((s + rest).drop_first() =~= tail + rest);
        assert(!text::is_white_space(s[0]));
        assert(s.contains(c));
        assert forall|i: int| 0 <= i < tail.len() implies !#[trigger] text::is_white_space(
            tail[i],
        ) && tail[i] != '"' && tail[i] != '\'' by {
            assert(tail[i] == s[i + 1]);
            assert(!text::is_white_space(s[i + 1]));
            assert(s.contains(s[i + 1]));
        }
        lemma_bare_piece(tail, rest, piece.push(c));
        assert(piece.push(c) + tail =~= piece + s);
    } else {
        assert(s + rest =~= rest);
        assert(piece + s =~= piece);
    }
}

proof fn lemma_quoted_piece(s: Seq<char>, q: char, rest: Seq<char>, piece: Seq<char>)
    requires
        !s.contains(q),
    ensures
        dockerfile::pieces_from(s + seq![q] + rest, piece, Some(q)) == dockerfile::pieces_from(
            rest,
            piece + s + seq![q],
            None,
        ),
    decreases s.len(),
{
    let all = s + seq![q] + rest;
    if s.len() > 0 {
        let c = s[0];
        let tail = s.drop_first();
        assert(s.contains(c));
        assert(all[0] == c);
        assert(all.drop_first() =~= tail + seq![q] + rest);
        assert forall|i: int| 0 <= i < tail.len() implies tail[i] != q by {
            assert(tail[i] == s[i + 1]);
            assert(s.contains(s[i + 1]));
        }
        lemma_quoted_piece(tail, q, rest, piece.push(c));
        assert(piece.push(c) + tail + seq![q] =~= piece + s + seq![q]);
    } else {
        assert(all[0] == q);
        assert(all.drop_first() =~= rest);
        assert(piece + s + seq![q] =~= piece.push(q));
    }
}

/// Whether a piece of text stays together: one character that is neither white
/// space nor a quote, or what stands between two quotes.
pub open spec fn stays_together(s: Segment) -> bool {
    match s {
        Segment::Plain(c) => !text::is_white_space(c) && c != '"' && c != '\'',
        Segment::Quoted(q, t) => (q == '"' || q == '\'') && !t.contains(q),
    }
}

/// Whether a text is made up of what stays together.
pub open spec fn is_piece(word: Seq<Segment>) -> bool {
    forall|k: int| 0 <= k < word.len() ==> stays_together(#[trigger] word[k])
}

proof fn lemma_piece(word: Seq<Segment>, rest: Seq<char>, piece: Seq<char>)
    requires
        is_piece(word),
    ensures
        dockerfile::pieces_from(raw_of(word) + rest, piece, None) == dockerfile::pieces_from(
            rest,
            piece + raw_of(word),
            None,
        ),
    decreases word.len(),
{
    if word.len() == 0 {
        assert(raw_of(word) + rest =~= rest);
        assert(piece + raw_of(word) =~= piece);
    } else {
        let tail = word.drop_first();
        assert forall|k: int| 0 <= k < tail.len() implies stays_together(#[trigger] tail[k]) by {
            assert(tail[k] == word[k + 1]);
        }
        assert(stays_together(word[0]));
        let all = raw_of(word) + rest;
        let after = raw_of(tail) + rest;
        match word[0] {
            Segment::Plain(c) => {
                assert(all =~= seq![c] + after);
                assert(all[0] == c);
                assert(all.drop_first() =~= after);
                lemma_piece(tail, rest, piece.push(c));
                assert(piece.push(c) + raw_of(tail) =~= piece + raw_of(word));
            },
            Segment::Quoted(q, t) => {
                let inner = t + seq![q] + after;
                assert(all =~= seq![q] + inner);
                assert(all[0] == q);
                assert(all.drop_first() =~= inner);
                lemma_quoted_piece(t, q, after, piece.push(q));
                lemma_piece(tail, rest, piece.push(q) + t + seq![q]);
                assert(piece.push(q) + t + seq![q] + raw_of(tail) =~= piece + raw_of(word));
            },
        }
    }
}

proof fn lemma_blank_pieces(l: Seq<char>, rest: Seq<char>)
    requires
        blank(l),
    ensures
        dockerfile::pieces(l + rest) == dockerfile::pieces(rest),
    decreases l.len(),
{
    if l.len() > 0 {
        let tail = l.drop_first();
        assert(text::is_white_space(l[0]));
        assert((l + rest)[0] == l[0]);
        assert((l + rest).drop_first() =~= tail + rest);
        assert forall|i: int| 0 <= i < tail.len() implies #[trigger] text::is_white_space(
            tail[i],
        ) by {
            assert(tail[i] == l[i + 1]);
        }
        lemma_blank_pieces(tail, rest);
    } else {
        assert(l + rest =~= rest);
    }
}

/// Arguments are cut into pieces at white space outside of quotes; quotes stay
/// in their pieces, and one that is not closed keeps all of the rest together.
pub proof fn law_pieces(
    l: Seq<char>,
    word: Seq<Segment>,
    c: char,
    rest: Seq<char>,
    q: char,
    open: Seq<char>,
)
    requires
        blank(l),
        is_piece(word),
        raw_of(word).len() > 0,
        text::is_white_space(c),
        q == '"' || q == '\'',
        !open.contains(q),
    ensures
        dockerfile::pieces(l) == Seq::<Seq<char>>::empty(),
        dockerfile::pieces(l + raw_of(word)) == seq![raw_of(word)],
        dockerfile::pieces(l + (raw_of(word) + (seq![c] + rest))) == seq![raw_of(word)]
            + dockerfile::pieces(rest),
        dockerfile::pieces(l + (raw_of(word) + (seq![q] + open))) == seq![
            raw_of(word) + seq![q] + open,
        ],
{
    let none = Seq::<char>::empty();
    let raw = raw_of(word);
    lemma_blank_pieces(l, none);
    assert(l + none =~= l);
    assert(dockerfile::pieces(none) =~= Seq::<Seq<char>>::empty());
    lemma_blank_pieces(l, raw);
    lemma_piece(word, none, none);
    assert(raw + none =~= raw);
    assert(none + raw =~= raw);
    lemma_blank_pieces(l, raw + (seq![c] + rest));
    lemma_piece(word, seq![c] + rest, none);
    assert((seq![c] + rest)[0] == c);
    assert((seq![c] + rest).drop_first() =~= rest);
    lemma_blank_pieces(l, raw + (seq![q] + open));
    lemma_piece(word, seq![q] + open, none);
    assert((seq![q] + open)[0] == q);
    assert((seq![q] + open).drop_first() =~= open);
    lemma_open_piece(open, q, raw.push(q));
    assert(raw.push(q) + open =~= raw + seq![q] + open);
}

proof fn lemma_open_piece(s: Seq<char>, q: char, piece: Seq<char>)
    requires
        !s.contains(q),
        piece.len() > 0,
    ensures
        dockerfile::pieces_from(s, piece, Some(q)) == seq![piece + s],
    decreases s.len(),
{
    if s.len() > 0 {
        let c = s[0];
        let tail = s.drop_first();
        assert(s.contains(c));
        assert forall|i: int| 0 <= i < tail.len() implies tail[i] != q by {
            assert(s.contains(s[i + 1]));
        }
        lemma_open_piece(tail, q, piece.push(c));
        assert(piece.push(c) + tail =~= piece + s);
    } else {
        assert(piece + s =~= piece);
    }
}

/// All quotes of one kind at the ends of a text are taken off, and no others.
pub proof fn law_unquoting(l: Seq<char>, t: Seq<char>, r: Seq<char>, c: char)
    requires
        forall|i: int| 0 <= i < l.len() ==> #[trigger] l[i] == c,
        forall|i: int| 0 <= i < r.len() ==> #[trigger] r[i] == c,
        t.len() > 0,
        t[0] != c,
        t.last() != c,
    ensures
        dockerfile::unquoted(l + t + r, c) == t,
{
    let none = Seq::<char>::empty();
    let set = seq![c];
    assert(set[0] == c);
    assert(set.contains(c));
    assert(!set.contains(t[0]) && !set.contains(t.last()));
    assert(l + t + r =~= l + (t + r));
    assert((t + r)[0] == t[0]);
    lemma_strip_front(l, t + r, set);
    law_stripping(none, t, r, set);
}

proof fn lemma_strip_front(l: Seq<char>, t: Seq<char>, set: Seq<char>)
    requires
        forall|i: int| 0 <= i < l.len() ==> set.contains(#[trigger] l[i]),
        t.len() > 0 ==> !set.contains(t[0]),
    ensures
        text::stripped_start(l + t, set) == t,
    decreases l.len(),
{
    if l.len() > 0 {
        assert((l + t)[0] == l[0]);
        assert(set.contains(l[0]));
        assert((l + t).drop_first() =~= l.drop_first() + t);
        lemma_strip_front(l.drop_first(), t, set);
    } else {
        assert(l + t =~= t);
    }
}

/// A piece sets a variable where it has `=` in it: the name stands before the
/// first one, the value behind it and without the quotes at its ends.
pub proof fn law_pairs(
    key: Seq<char>,
    value: Seq<char>,
    other: Seq<char>,
    ps: Seq<Seq<char>>,
)
    requires
        !key.contains('='),
        !other.contains('='),
    ensures
        dockerfile::pairs_in(Seq::empty()) == Seq::<(Seq<char>, Seq<char>)>::empty(),
        dockerfile::pairs_in(ps.push(key + seq!['='] + value)) == dockerfile::pairs_in(ps).push(
            (key, dockerfile::unquoted(dockerfile::unquoted(value, '"'), '\'')),
        ),
        dockerfile::pairs_in(ps.push(other)) == dockerfile::pairs_in(ps),
{
    let s = key + seq!['='] + value;
    law_first_character(key, '=', value);
    law_first_character(other, '=', value);
    assert(s.take(key.len() as int) =~= key);
    assert(s.skip(key.len() as int + 1) =~= value);
    assert(ps.push(s).drop_last() =~= ps);
    assert(ps.push(other).drop_last() =~= ps);
}

/// One variable that is set: its name, and its value with the quotes that it
/// is written in, if any.
pub struct Assignment {
    pub key: Seq<Segment>,
    pub quote: Option<char>,
    pub value: Seq<char>,
}

/// How an assignment is written.
pub open spec fn assignment_text(a: Assignment) -> Seq<char> {
    raw_of(a.key) + seq!['='] + (match a.quote {
        None => a.value,
        Some(q) => seq![q] + a.value + seq![q],
    })
}

/// Whether an assignment can be written: a name that stays together, without
/// `=`; a value without white space and quotes, or between quotes that do not
/// occur in it and with no quote at its ends.
pub open spec fn is_assignment(a: Assignment) -> bool {
    &&& is_piece(a.key)
    &&& !raw_of(a.key).contains('=')
    &&& match a.quote {
        None => bare(a.value),
        Some(q) => {
            &&& q == '"' || q == '\''
            &&& !a.value.contains(q)
            &&& a.value.len() > 0 ==> {
                &&& a.value[0] != '"' && a.value[0] != '\''
                &&& a.value.last() != '"' && a.value.last() != '\''
            }
        },
    }
}

proof fn lemma_assignment_piece(a: Assignment, rest: Seq<char>)
    requires
        is_assignment(a),
    ensures
        dockerfile::pieces(assignment_text(a) + rest) == dockerfile::pieces_from(
            rest,
            assignment_text(a),
            None,
        ),
{
    let none = Seq::<char>::empty();
    let key = raw_of(a.key);
    let head = key + seq!['='];
    match a.quote {
        None => {
            let tail = a.value + rest;
            lemma_piece(a.key, seq!['='] + tail, none);
            assert(assignment_text(a) + rest =~= key + (seq!['='] + tail));
            assert(none + key =~= key);
            assert((seq!['='] + tail)[0] == '=');
            assert((seq!['='] + tail).drop_first() =~= tail);
            assert(key.push('=') =~= head);
            assert(dockerfile::pieces_from(seq!['='] + tail, key, None)
                == dockerfile::pieces_from(tail, head, None));
            lemma_bare_piece(a.value, rest, head);
            assert(head + a.value =~= assignment_text(a));
        },
        Some(q) => {
            let inner = a.value + seq![q] + rest;
            let tail = seq![q] + inner;
            lemma_piece(a.key, seq!['='] + tail, none);
            assert(assignment_text(a) + rest =~= key + (seq!['='] + tail));
            assert(none + key =~= key);
            assert((seq!['='] + tail)[0] == '=');
            assert((seq!['='] + tail).drop_first() =~= tail);
            assert(key.push('=') =~= head);
            assert(dockerfile::pieces_from(seq!['='] + tail, key, None)
                == dockerfile::pieces_from(tail, head, None));
            assert(tail[0] == q);
            assert(tail.drop_first() =~= inner);
            assert(dockerfile::pieces_from(tail, head, None) == dockerfile::pieces_from(
                inner,
                head.push(q),
                Some(q),
            ));
            lemma_quoted_piece(a.value, q, rest, head.push(q));
            assert(head.push(q) + a.value + seq![q] =~= assignment_text(a));
        },
    }
}

proof fn lemma_strip_nothing(s: Seq<char>, c: char)
    requires
        s.len() > 0 ==> s[0] != c && s.last() != c,
    ensures
        dockerfile::unquoted(s, c) == s,
{
    let set = seq![c];
    if s.len() > 0 {
        assert(!set.contains(s[0]));
        assert(!set.contains(s.last()));
    }
}

proof fn lemma_strip_quotes(s: Seq<char>, q: char)
    requires
        s.len() > 0 ==> s[0] != q && s.last() != q,
    ensures
        dockerfile::unquoted(seq![q] + s + seq![q], q) == s,
{
    if s.len() > 0 {
        law_unquoting(seq![q], s, seq![q], q);
    } else {
        let none = Seq::<char>::empty();
        let set = seq![q];
        let two = seq![q, q];
        assert(set[0] == q);
        assert(set.contains(q));
        assert forall|i: int| 0 <= i < two.len() implies set.contains(#[trigger] two[i]) by {}
        assert(seq![q] + s + seq![q] =~= two + none);
        lemma_strip_front(two, none, set);
        assert(text::stripped_end(none, set) == none);
        assert(s =~= none);
    }
}

proof fn lemma_bare_ends(s: Seq<char>)
    requires
        bare(s),
    ensures
        s.len() > 0 ==> s[0] != '"' && s.last() != '"' && s[0] != '\'' && s.last() != '\'',
{
    if s.len() > 0 {
        assert(s.contains(s[0]));
        assert(s.contains(s[s.len() - 1]));
    }
}

proof fn lemma_pair(a: Assignment)
    requires
        is_assignment(a),
    ensures
        dockerfile::pair_in(assignment_text(a)) == Some((raw_of(a.key), a.value)),
        assignment_text(a).len() > 0,
        assignment_text(a).contains('='),
{
    let s = assignment_text(a);
    let v = match a.quote {
        None => a.value,
        Some(q) => seq![q] + a.value + seq![q],
    };
    let key = raw_of(a.key);
    law_first_character(key, '=', v);
    assert(s.take(key.len() as int) =~= key);
    assert(s.skip(key.len() as int + 1) =~= v);
    assert(s[key.len() as int] == '=');
    match a.quote {
        None => {
            lemma_bare_ends(a.value);
            lemma_strip_nothing(a.value, '"');
            lemma_strip_nothing(a.value, '\'');
        },
        Some(q) => {
            lemma_strip_quotes(a.value, q);
            if q == '"' {
                lemma_strip_nothing(a.value, '\'');
            } else {
                assert(v[0] == '\'' && v.last() == '\'');
                lemma_strip_nothing(v, '"');
            }
        },
    }
}

/// The texts of some assignments.
pub open spec fn assignment_texts(list: Seq<Assignment>) -> Seq<Seq<char>> {
    Seq::new(list.len(), |k: int| assignment_text(list[k]))
}

/// The texts of some assignments behind one another, each with a blank behind
/// it.
pub open spec fn written(list: Seq<Assignment>) -> Seq<char>
    decreases list.len(),
{
    if list.len() == 0 {
        Seq::empty()
    } else {
        assignment_text(list[0]) + seq![' '] + written(list.drop_first())
    }
}

proof fn lemma_pieces(list: Seq<Assignment>, end: Seq<char>)
    requires
        forall|k: int| 0 <= k < list.len() ==> is_assignment(#[trigger] list[k]),
    ensures
        dockerfile::pieces(written(list) + end) == assignment_texts(list) + dockerfile::pieces(end),
    decreases list.len(),
{
    if list.len() > 0 {
        let a = list[0];
        let rest = list.drop_first();
        assert forall|k: int| 0 <= k < rest.len() implies is_assignment(#[trigger] rest[k]) by {
            assert(rest[k] == list[k + 1]);
        }
        lemma_pieces(rest, end);
        lemma_pair(a);
        let tail = seq![' '] + (written(rest) + end);
        lemma_assignment_piece(a, tail);
        assert(written(list) + end =~= assignment_text(a) + tail);
        assert(tail[0] == ' ');
        assert(tail.drop_first() =~= written(rest) + end);
        assert(dockerfile::pieces_from(tail, assignment_text(a), None) == seq![assignment_text(a)]
            + dockerfile::pieces(written(rest) + end));
        assert(assignment_texts(list) + dockerfile::pieces(end) =~= seq![assignment_text(a)] + (
        assignment_texts(rest) + dockerfile::pieces(end)));
    } else {
        assert(written(list) + end =~= end);
        assert(assignment_texts(list) + dockerfile::pieces(end) =~= dockerfile::pieces(end));
    }
}

proof fn lemma_pairs(list: Seq<Assignment>)
    requires
        forall|k: int| 0 <= k < list.len() ==> is_assignment(#[trigger] list[k]),
    ensures
        dockerfile::pairs_in(assignment_texts(list)) == Seq::new(
            list.len(),
            |k: int| (raw_of(list[k].key), list[k].value),
        ),
    decreases list.len(),
{
    let pairs = Seq::new(list.len(), |k: int| (raw_of(list[k].key), list[k].value));
    if list.len() > 0 {
        let front = list.drop_last();
        assert forall|k: int| 0 <= k < front.len() implies is_assignment(#[trigger] front[k]) by {
            assert(front[k] == list[k]);
        }
        lemma_pairs(front);
        let last = list.last();
        assert(last == list[list.len() - 1]);
        lemma_pair(last);
        assert(assignment_texts(list).drop_last() =~= assignment_texts(front));
        assert(assignment_texts(list).last() == assignment_text(last));
        assert(pairs =~= Seq::new(front.len(), |k: int| (raw_of(front[k].key), front[k].value)).push(
            (raw_of(last.key), last.value),
        ));
    } else {
        assert(pairs =~= Seq::<(Seq<char>, Seq<char>)>::empty());
    }
}

/// The variables of an instruction are those that it assigns, in order, each
/// value without the quotes that it is written in.
pub proof fn law_assignments_are_read(list: Seq<Assignment>, last: Assignment)
    requires
        forall|k: int| 0 <= k < list.len() ==> is_assignment(#[trigger] list[k]),
        is_assignment(last),
    ensures
        dockerfile::variables(written(list) + assignment_text(last)) == Seq::new(
            list.len(),
            |k: int| (raw_of(list[k].key), list[k].value),
        ).push((raw_of(last.key), last.value)),
{
    let none = Seq::<char>::empty();
    let end = assignment_text(last);
    let all = list.push(last);
    assert forall|k: int| 0 <= k < all.len() implies is_assignment(#[trigger] all[k]) by {
        if k < list.len() {
            assert(all[k] == list[k]);
        }
    }
    lemma_pieces(list, end);
    lemma_assignment_piece(last, none);
    lemma_pair(last);
    assert(end + none =~= end);
    assert(dockerfile::pieces(end) == seq![end]);
    assert(assignment_texts(list) + seq![end] =~= assignment_texts(all));
    lemma_pairs(all);
    lemma_pair(all[0]);
    assert(assignment_texts(all)[0] == assignment_text(all[0]));
    assert(Seq::new(all.len(), |k: int| (raw_of(all[k].key), all[k].value)) =~= Seq::new(
        list.len(),
        |k: int| (raw_of(list[k].key), list[k].value),
    ).push((raw_of(last.key), last.value)));
}

/// Without `=` in its first piece an instruction sets one variable, whose name
/// ends at the first white space, to everything behind it.
pub proof fn law_old_form_is_read(
    word: Seq<Segment>,
    c: char,
    rest: Seq<char>,
    key: Seq<char>,
    d: char,
    value: Seq<char>,
)
    requires
        is_piece(word),
        raw_of(word).len() > 0,
        !raw_of(word).contains('='),
        text::is_white_space(c),
        unbroken(key),
        text::is_white_space(d),
        raw_of(word) + (seq![c] + rest) == key + seq![d] + value,
    ensures
        dockerfile::variables(key + seq![d] + value) == seq![(key, text::trimmed(value))],
        unbroken(raw_of(word)) ==> dockerfile::variables(raw_of(word)) == Seq::<
            (Seq<char>, Seq<char>),
        >::empty(),
{
    let none = Seq::<char>::empty();
    let args = key + seq![d] + value;
    let raw = raw_of(word);
    law_pieces(none, word, c, rest, '"', none);
    assert(none + (raw + (seq![c] + rest)) =~= args);
    assert(none + raw =~= raw);
    assert(dockerfile::pieces(args)[0] == raw);
    law_first_space(key, d, value);
    assert(args.take(key.len() as int) =~= key);
    assert(args.skip(key.len() as int + 1) =~= value);
    assert(dockerfile::pieces(raw)[0] == raw);
    if unbroken(raw) {
        law_first_space(raw, ' ', none);
    }
}

/// A variable whose name holds a word for a secret, in any case and with
/// anything before and behind it, is reported on the line of the instruction
/// that assigns it, whatever else the instruction assigns, unless the value is
/// nothing but white space.
pub proof fn law_assigned_secrets_are_reported(
    file: Seq<char>,
    content: Seq<char>,
    i: int,
    list: Seq<Assignment>,
    last: Assignment,
    k: int,
    before: Seq<char>,
    hint: Seq<char>,
    behind: Seq<char>,
)
    requires
        dockerfile::audited(file, content) is Ok,
        0 <= i < dockerfile::parsed_content(content)->Ok_0.len(),
        dockerfile::parsed_content(content)->Ok_0[i].keyword == "ENV"@
            || dockerfile::parsed_content(content)->Ok_0[i].keyword == "ARG"@,
        dockerfile::parsed_content(content)->Ok_0[i].args == written(list) + assignment_text(last),
        forall|j: int| 0 <= j < list.len() ==> is_assignment(#[trigger] list[j]),
        is_assignment(last),
        0 <= k <= list.len(),
        text::lowered(raw_of(list.push(last)[k].key)) == before + hint + behind,
        is_hint(hint),
        !blank(list.push(last)[k].value),
    ensures
        exists|n: int|
            0 <= n < dockerfile::audited(file, content)->Ok_0.len() && (
            #[trigger] dockerfile::audited(file, content)->Ok_0[n]).rule_id == "DOCK004"@
                && dockerfile::audited(file, content)->Ok_0[n].line == dockerfile::parsed_content(
                content,
            )->Ok_0[i].line,
{
    law_assignments_are_read(list, last);
    let a = list.push(last)[k];
    assert(dockerfile::variables(dockerfile::parsed_content(content)->Ok_0[i].args)[k] == (
        raw_of(a.key),
        a.value,
    ));
    law_secrets_are_reported(file, content, i, k, before, hint, behind);
}

} // verus!
