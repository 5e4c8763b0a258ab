//! What holds of every audit of a Dockerfile.

use crate::finding::{FindingView, SourceKind};
use crate::laws::{
    all_labelled, all_moved, dockerfile_documented, lemma_all_add, lemma_at_most_one,
    lemma_labelled_add, lemma_labelled_again, lemma_labelled_sorted, lemma_moved_add,
    lemma_moved_sorted, lemma_none_add, lemma_none_counts_nothing, lemma_numbers, lemma_of_rule_add,
    moved_line, none_of, number, of_rule,
};
use crate::order;
use crate::parsers::dockerfile::{
    add_findings, audited, cache_rule, continued_by, each_findings, first_copy_all, first_install,
    from_findings, goes_on, healthcheck_rule, instruction, instruction_findings, is_comment,
    last_named,
    lemma_whole_line_advances, parsed, parsed_content, rule_findings, run_findings,
    secret_findings, skipped, user_rule, variables, whole_line, InstructionView,
};
use crate::text;
use vstd::prelude::*;

verus! {

/// The text of the instruction that starts on line `i`, counted from zero.
pub open spec fn statement_at(lines: Seq<Seq<char>>, i: int) -> Option<Seq<char>> {
    match whole_line(lines, text::trimmed_end(lines[i]), i) {
        Some((whole, _)) => Some(text::trimmed(whole)),
        None => None,
    }
}

/// Whether an instruction says what stands in the file from its line on.
spec fn placed(i: InstructionView, lines: Seq<Seq<char>>) -> bool {
    &&& 1 <= i.line <= lines.len()
    &&& !skipped(lines[i.line - 1])
    &&& statement_at(lines, i.line - 1) == Some(i.raw)
}

/// Whether every instruction of a list is placed.
spec fn all_placed(ins: Seq<InstructionView>, lines: Seq<Seq<char>>) -> bool {
    forall|k: int| 0 <= k < ins.len() ==> placed(#[trigger] ins[k], lines)
}

proof fn lemma_placed(lines: Seq<Seq<char>>, i: int)
    requires
        0 <= i,
    ensures
        parsed(lines, i) matches Ok(ins) ==> all_placed(ins, lines),
    decreases lines.len() - i,
{
    if i < lines.len() {
        if skipped(lines[i]) {
            lemma_placed(lines, i + 1);
        } else {
            lemma_whole_line_advances(lines, text::trimmed_end(lines[i]), i);
            if let Some((_, last)) = whole_line(lines, text::trimmed_end(lines[i]), i) {
                lemma_placed(lines, last + 1);
            }
        }
    }
}

/// Whether a finding is one that an audit of the given lines may report: it
/// names the file, it has the severity that its rule is documented with, and
/// it either concerns the file as a whole or points to the line where an
/// instruction starts, which it shows.
pub open spec fn sound(f: FindingView, file: Seq<char>, lines: Seq<Seq<char>>) -> bool {
    &&& f.file == file
    &&& f.source == SourceKind::Dockerfile
    &&& dockerfile_documented(f.rule_id, f.severity)
    &&& f.line == 0 ==> f.rule_id == "DOCK001"@ || f.rule_id == "DOCK008"@
    &&& f.line > 0 ==> {
        &&& f.line <= lines.len()
        &&& !skipped(lines[f.line - 1])
        &&& statement_at(lines, f.line - 1) == Some(f.evidence)
    }
}

proof fn lemma_secrets_sound(
    file: Seq<char>,
    i: InstructionView,
    pairs: Seq<(Seq<char>, Seq<char>)>,
    lines: Seq<Seq<char>>,
)
    requires
        placed(i, lines),
    ensures
        secret_findings(file, i, pairs).all(|f: FindingView| sound(f, file, lines)),
    decreases pairs.len(),
{
    if pairs.len() > 0 {
        lemma_secrets_sound(file, i, pairs.drop_last(), lines);
    }
}

proof fn lemma_instruction_sound(file: Seq<char>, i: InstructionView, lines: Seq<Seq<char>>)
    requires
        placed(i, lines),
    ensures
        instruction_findings(file, i).all(|f: FindingView| sound(f, file, lines)),
{
    lemma_secrets_sound(file, i, variables(i.args), lines);
    assert(run_findings(file, i).all(|f: FindingView| sound(f, file, lines)));
}

proof fn lemma_each_sound(file: Seq<char>, ins: Seq<InstructionView>, lines: Seq<Seq<char>>)
    requires
        all_placed(ins, lines),
    ensures
        each_findings(file, ins).all(|f: FindingView| sound(f, file, lines)),
    decreases ins.len(),
{
    if ins.len() > 0 {
        let head = ins.drop_last();
        assert forall|k: int| 0 <= k < head.len() implies placed(#[trigger] head[k], lines) by {
            assert(head[k] == ins[k]);
        }
        lemma_each_sound(file, head, lines);
        assert(placed(ins[ins.len() - 1], lines));
        lemma_instruction_sound(file, ins.last(), lines);
        lemma_all_add(
            each_findings(file, head),
            instruction_findings(file, ins.last()),
            |f: FindingView| sound(f, file, lines),
        );
    }
}

proof fn lemma_last_named_placed(
    ins: Seq<InstructionView>,
    keyword: Seq<char>,
    lines: Seq<Seq<char>>,
)
    requires
        all_placed(ins, lines),
    ensures
        last_named(ins, keyword) matches Some(i) ==> placed(i, lines),
    decreases ins.len(),
{
    if ins.len() > 0 {
        let head = ins.drop_last();
        assert(placed(ins[ins.len() - 1], lines));
        assert forall|k: int| 0 <= k < head.len() implies placed(#[trigger] head[k], lines) by {
            assert(head[k] == ins[k]);
        }
        lemma_last_named_placed(head, keyword, lines);
    }
}

proof fn lemma_first_copy_placed(ins: Seq<InstructionView>, lines: Seq<Seq<char>>)
    requires
        all_placed(ins, lines),
    ensures
        first_copy_all(ins) matches Some(i) ==> placed(i, lines),
    decreases ins.len(),
{
    if ins.len() > 0 {
        let rest = ins.drop_first();
        assert(placed(ins[0], lines));
        assert forall|k: int| 0 <= k < rest.len() implies placed(#[trigger] rest[k], lines) by {
            assert(rest[k] == ins[k + 1]);
        }
        lemma_first_copy_placed(rest, lines);
    }
}

/// Every finding names the audited file, has the severity that its rule is
/// documented with, and either concerns the file as a whole or points to the
/// line where an instruction starts. It shows that instruction with its
/// continuation lines joined.
pub proof fn law_findings_are_sound(file: Seq<char>, content: Seq<char>)
    requires
        audited(file, content) is Ok,
    ensures
        audited(file, content)->Ok_0.all(
            |f: FindingView| sound(f, file, text::line_seq(content)),
        ),
{
    let lines = text::line_seq(content);
    let ins = parsed_content(content)->Ok_0;
    let pred = |f: FindingView| sound(f, file, lines);
    lemma_placed(lines, 0);
    lemma_last_named_placed(ins, "USER"@, lines);
    lemma_each_sound(file, ins, lines);
    lemma_first_copy_placed(ins, lines);
    let a = user_rule(file, ins);
    let b = healthcheck_rule(file, ins);
    let c = each_findings(file, ins);
    let d = cache_rule(file, ins);
    assert(a.all(pred));
    assert(b.all(pred));
    assert(d.all(pred));
    lemma_all_add(a, b, pred);
    lemma_all_add(a + b, c, pred);
    lemma_all_add(a + b + c, d, pred);
    order::lemma_sort_keeps_all(rule_findings(file, ins), pred);
}

proof fn lemma_secrets_are_none_of(
    file: Seq<char>,
    i: InstructionView,
    pairs: Seq<(Seq<char>, Seq<char>)>,
    rule_id: Seq<char>,
)
    requires
        number(rule_id) != 4,
    ensures
        none_of(secret_findings(file, i, pairs), rule_id),
    decreases pairs.len(),
{
    if pairs.len() > 0 {
        lemma_numbers();
        lemma_secrets_are_none_of(file, i, pairs.drop_last(), rule_id);
    }
}

proof fn lemma_each_is_none_of(file: Seq<char>, ins: Seq<InstructionView>, rule_id: Seq<char>)
    requires
        number(rule_id) == 1 || number(rule_id) == 8 || number(rule_id) == 10,
    ensures
        none_of(each_findings(file, ins), rule_id),
    decreases ins.len(),
{
    if ins.len() > 0 {
        lemma_each_is_none_of(file, ins.drop_last(), rule_id);
        lemma_secrets_are_none_of(file, ins.last(), variables(ins.last().args), rule_id);
        lemma_numbers();
        assert(none_of(run_findings(file, ins.last()), rule_id));
        assert(none_of(instruction_findings(file, ins.last()), rule_id));
        lemma_none_add(
            each_findings(file, ins.drop_last()),
            instruction_findings(file, ins.last()),
            rule_id,
        );
    }
}

/// The rules on the file as a whole (its user, its health check, the order of
/// copying and installing) are each reported at most once.
pub proof fn law_file_rules_are_reported_once(
    file: Seq<char>,
    content: Seq<char>,
    rule_id: Seq<char>,
)
    requires
        rule_id == "DOCK001"@ || rule_id == "DOCK008"@ || rule_id == "DOCK010"@,
        audited(file, content) is Ok,
    ensures
        of_rule(audited(file, content)->Ok_0, rule_id).len() <= 1,
{
    let ins = parsed_content(content)->Ok_0;
    let a = user_rule(file, ins);
    let b = healthcheck_rule(file, ins);
    let c = each_findings(file, ins);
    let d = cache_rule(file, ins);
    lemma_numbers();
    lemma_at_most_one(a, "DOCK001"@, rule_id);
    lemma_at_most_one(b, "DOCK008"@, rule_id);
    lemma_each_is_none_of(file, ins, rule_id);
    lemma_none_counts_nothing(c, rule_id);
    lemma_at_most_one(d, "DOCK010"@, rule_id);
    lemma_of_rule_add(a, b, rule_id);
    lemma_of_rule_add(a + b, c, rule_id);
    lemma_of_rule_add(a + b + c, d, rule_id);
    order::lemma_sort_keeps_count(
        rule_findings(file, ins),
        |f: FindingView| f.rule_id == rule_id,
    );
}

pub(crate) proof fn lemma_whole_line_before(
    head: Seq<Seq<char>>,
    tail: Seq<Seq<char>>,
    line: Seq<char>,
    i: int,
)
    requires
        0 <= i < head.len(),
        whole_line(head, line, i) is Some,
    ensures
        whole_line(head + tail, line, i) == whole_line(head, line, i),
    decreases head.len() - i,
{
    if goes_on(line) {
        assert((head + tail)[i + 1] == head[i + 1]);
        if is_comment(head[i + 1]) {
            lemma_whole_line_before(head, tail, line, i + 1);
        } else {
            lemma_whole_line_before(head, tail, continued_by(line, head[i + 1]), i + 1);
        }
    }
}

proof fn lemma_skipped_tail(lines: Seq<Seq<char>>, i: int)
    requires
        0 <= i <= lines.len(),
        forall|k: int| i <= k < lines.len() ==> skipped(#[trigger] lines[k]),
    ensures
        parsed(lines, i) == Ok::<Seq<InstructionView>, Seq<char>>(Seq::empty()),
    decreases lines.len() - i,
{
    if i < lines.len() {
        lemma_skipped_tail(lines, i + 1);
    }
}

proof fn lemma_parsed_before(head: Seq<Seq<char>>, tail: Seq<Seq<char>>, i: int)
    requires
        0 <= i <= head.len(),
        parsed(head, i) is Ok,
        forall|k: int| 0 <= k < tail.len() ==> skipped(#[trigger] tail[k]),
    ensures
        parsed(head + tail, i) == parsed(head, i),
    decreases head.len() - i,
{
    let lines = head + tail;
    if i == head.len() {
        assert forall|k: int| i <= k < lines.len() implies skipped(#[trigger] lines[k]) by {
            assert(lines[k] == tail[k - head.len()]);
        }
        lemma_skipped_tail(lines, i);
    } else {
        assert(lines[i] == head[i]);
        if skipped(head[i]) {
            lemma_parsed_before(head, tail, i + 1);
        } else {
            let line = text::trimmed_end(head[i]);
            lemma_whole_line_before(head, tail, line, i);
            lemma_whole_line_advances(head, line, i);
            if let Some((_, last)) = whole_line(head, line, i) {
                lemma_parsed_before(head, tail, last + 1);
            }
        }
    }
}

/// Blank lines and comments at the end of a file change nothing.
pub proof fn law_trailing_comments_are_ignored(
    file: Seq<char>,
    content: Seq<char>,
    above: Seq<char>,
    below: Seq<Seq<char>>,
)
    requires
        text::line_seq(content) == text::line_seq(above) + below,
        forall|k: int| 0 <= k < below.len() ==> skipped(#[trigger] below[k]),
        audited(file, above) is Ok,
    ensures
        audited(file, content) == audited(file, above),
{
    lemma_parsed_before(text::line_seq(above), below, 0);
}

proof fn lemma_trimmed_end_add(a: Seq<char>, b: Seq<char>)
    requires
        text::trimmed_end(b).len() > 0,
    ensures
        text::trimmed_end(a + b) == a + text::trimmed_end(b),
    decreases b.len(),
{
    assert((a + b).last() == b.last());
    if text::is_white_space(b.last()) {
        lemma_trimmed_end_add(a, b.drop_last());
        assert((a + b).drop_last() =~= a + b.drop_last());
    }
}

proof fn lemma_trimmed_last(s: Seq<char>)
    requires
        text::trimmed(s).len() > 0,
    ensures
        text::trimmed_end(s).len() > 0,
        text::trimmed_end(s).last() == text::trimmed(s).last(),
    decreases s.len(),
{
    if s.len() > 0 && text::is_white_space(s[0]) {
        let rest = s.drop_first();
        lemma_trimmed_last(rest);
        lemma_trimmed_end_add(seq![s[0]], rest);
        assert(s =~= seq![s[0]] + rest);
    }
}

/// Whether line `m`, counted from zero, asks for another one that does not
/// come: it is no comment and ends with a backslash, and only comments follow
/// it.
pub open spec fn dangles(lines: Seq<Seq<char>>, m: int) -> bool {
    &&& 0 <= m < lines.len()
    &&& !is_comment(lines[m])
    &&& goes_on(text::trimmed(lines[m]))
    &&& forall|k: int| m < k < lines.len() ==> is_comment(#[trigger] lines[k])
}

proof fn lemma_never_reaches_end(lines: Seq<Seq<char>>, line: Seq<char>, i: int, m: int)
    requires
        dangles(lines, m),
        0 <= i < lines.len(),
        i >= m ==> goes_on(line),
    ensures
        whole_line(lines, line, i) matches Some((_, last)) ==> i <= last < m,
    decreases lines.len() - i,
{
    if goes_on(line) && i + 1 < lines.len() {
        let next = lines[i + 1];
        if is_comment(next) {
            lemma_never_reaches_end(lines, line, i + 1, m);
        } else {
            let joined = line.drop_last().push(' ') + text::trimmed(next);
            if i + 1 == m {
                assert(joined.last() == text::trimmed(next).last());
                assert(!text::is_white_space('\\'));
                assert(continued_by(line, next) == joined);
            }
            lemma_never_reaches_end(lines, continued_by(line, next), i + 1, m);
        }
    }
}

proof fn lemma_dangling_fails(lines: Seq<Seq<char>>, i: int, m: int)
    requires
        dangles(lines, m),
        0 <= i <= m,
    ensures
        parsed(lines, i) is Err,
    decreases m - i,
{
    if skipped(lines[i]) {
        lemma_dangling_fails(lines, i + 1, m);
    } else {
        let line = text::trimmed_end(lines[i]);
        if i == m {
            lemma_trimmed_last(lines[i]);
        }
        lemma_never_reaches_end(lines, line, i, m);
        if let Some((_, last)) = whole_line(lines, line, i) {
            lemma_dangling_fails(lines, last + 1, m);
        }
    }
}

/// A file that ends with a dangling line continuation, or in which only
/// comments follow one, is refused.
pub proof fn law_dangling_continuation_fails(file: Seq<char>, content: Seq<char>, m: int)
    requires
        dangles(text::line_seq(content), m),
    ensures
        audited(file, content) is Err,
{
    lemma_dangling_fails(text::line_seq(content), 0, m);
}

/// Whether an instruction may start on line `n`, counted from zero, when lines
/// are read from line `i` on: it does not continue an earlier one.
pub open spec fn starts_statement(lines: Seq<Seq<char>>, i: int, n: int) -> bool
    decreases lines.len() - i,
{
    if i >= n || i >= lines.len() {
        i == n
    } else if skipped(lines[i]) {
        starts_statement(lines, i + 1, n)
    } else {
        proof {
            lemma_whole_line_advances(lines, text::trimmed_end(lines[i]), i);
        }
        match whole_line(lines, text::trimmed_end(lines[i]), i) {
            Some((_, last)) => starts_statement(lines, last + 1, n),
            None => false,
        }
    }
}

/// An instruction as it is when a line is put in behind the first `n`.
spec fn moved_instruction(i: InstructionView, n: nat) -> InstructionView {
    InstructionView { line: moved_line(i.line, n), ..i }
}

/// Instructions as they are when a line is put in behind the first `n`.
spec fn moved_instructions(ins: Seq<InstructionView>, n: nat) -> Seq<InstructionView> {
    ins.map_values(|i: InstructionView| moved_instruction(i, n))
}

/// Where the line at position `i` lies when one is put in at position `n`.
spec fn moved_index(i: int, n: int) -> int {
    if i >= n {
        i + 1
    } else {
        i
    }
}

proof fn lemma_whole_line_behind(
    lines: Seq<Seq<char>>,
    inserted: Seq<char>,
    n: int,
    line: Seq<char>,
    i: int,
)
    requires
        0 <= n <= i + 1,
        0 <= i < lines.len(),
    ensures
        whole_line(lines.insert(n, inserted), line, i + 1) == match whole_line(lines, line, i) {
            Some((whole, last)) => Some((whole, last + 1)),
            None => None,
        },
    decreases lines.len() - i,
{
    let longer = lines.insert(n, inserted);
    if goes_on(line) && i + 1 < lines.len() {
        assert(longer[i + 2] == lines[i + 1]);
        if is_comment(lines[i + 1]) {
            lemma_whole_line_behind(lines, inserted, n, line, i + 1);
        } else {
            lemma_whole_line_behind(lines, inserted, n, continued_by(line, lines[i + 1]), i + 1);
        }
    }
}

proof fn lemma_whole_line_around(
    lines: Seq<Seq<char>>,
    inserted: Seq<char>,
    n: int,
    line: Seq<char>,
    i: int,
)
    requires
        0 <= i < n <= lines.len(),
        whole_line(lines, line, i) matches Some((_, last)) && (is_comment(inserted) || last < n),
    ensures
        whole_line(lines.insert(n, inserted), line, i) == match whole_line(lines, line, i) {
            Some((whole, last)) => Some((whole, moved_index(last, n))),
            None => None,
        },
    decreases n - i,
{
    let longer = lines.insert(n, inserted);
    if goes_on(line) {
        let next = if is_comment(lines[i + 1]) {
            line
        } else {
            continued_by(line, lines[i + 1])
        };
        lemma_whole_line_advances(lines, next, i + 1);
        if i + 1 == n {
            assert(longer[i + 1] == inserted);
            lemma_whole_line_behind(lines, inserted, n, line, i);
        } else {
            assert(longer[i + 1] == lines[i + 1]);
            lemma_whole_line_around(lines, inserted, n, next, i + 1);
        }
    }
}

proof fn lemma_parsed_behind(lines: Seq<Seq<char>>, inserted: Seq<char>, n: int, i: int)
    requires
        0 <= n <= i <= lines.len(),
        parsed(lines, i) is Ok,
    ensures
        parsed(lines.insert(n, inserted), i + 1) == Ok::<Seq<InstructionView>, Seq<char>>(
            moved_instructions(parsed(lines, i)->Ok_0, n as nat),
        ),
    decreases lines.len() - i,
{
    let longer = lines.insert(n, inserted);
    if i < lines.len() {
        assert(longer[i + 1] == lines[i]);
        if skipped(lines[i]) {
            lemma_parsed_behind(lines, inserted, n, i + 1);
        } else {
            let line = text::trimmed_end(lines[i]);
            lemma_whole_line_behind(lines, inserted, n, line, i);
            lemma_whole_line_advances(lines, line, i);
            if let Some((whole, last)) = whole_line(lines, line, i) {
                let t = text::trimmed(whole);
                let rest = parsed(lines, last + 1)->Ok_0;
                lemma_parsed_behind(lines, inserted, n, last + 1);
                assert(moved_instructions(
                    seq![instruction(t, (i + 1) as nat)] + rest,
                    n as nat,
                ) =~= seq![instruction(t, (i + 2) as nat)] + moved_instructions(rest, n as nat));
            }
        }
    } else {
        assert(moved_instructions(Seq::empty(), n as nat) =~= Seq::empty());
    }
}

proof fn lemma_parsed_around(lines: Seq<Seq<char>>, inserted: Seq<char>, n: int, i: int)
    requires
        0 <= i <= n <= lines.len(),
        skipped(inserted),
        is_comment(inserted) || starts_statement(lines, i, n),
        parsed(lines, i) is Ok,
    ensures
        parsed(lines.insert(n, inserted), i) == Ok::<Seq<InstructionView>, Seq<char>>(
            moved_instructions(parsed(lines, i)->Ok_0, n as nat),
        ),
    decreases n - i,
{
    let longer = lines.insert(n, inserted);
    if i == n {
        lemma_parsed_behind(lines, inserted, n, i);
        assert(longer[i] == inserted);
    } else {
        assert(longer[i] == lines[i]);
        if skipped(lines[i]) {
            lemma_parsed_around(lines, inserted, n, i + 1);
        } else {
            let line = text::trimmed_end(lines[i]);
            lemma_whole_line_advances(lines, line, i);
            if let Some((whole, last)) = whole_line(lines, line, i) {
                let t = text::trimmed(whole);
                let rest = parsed(lines, last + 1)->Ok_0;
                assert(is_comment(inserted) || last < n) by {
                    reveal_with_fuel(starts_statement, 2);
                }
                lemma_whole_line_around(lines, inserted, n, line, i);
                if last < n {
                    lemma_parsed_around(lines, inserted, n, last + 1);
                } else {
                    lemma_parsed_behind(lines, inserted, n, last + 1);
                }
                let ins = instruction(t, (i + 1) as nat);
                assert(moved_instructions(seq![ins] + rest, n as nat) =~= seq![ins]
                    + moved_instructions(rest, n as nat));
            }
        }
    }
}

proof fn lemma_moved_last_named(ins: Seq<InstructionView>, keyword: Seq<char>, n: nat)
    ensures
        last_named(moved_instructions(ins, n), keyword) == match last_named(ins, keyword) {
            Some(i) => Some(moved_instruction(i, n)),
            None => None,
        },
    decreases ins.len(),
{
    if ins.len() > 0 {
        lemma_moved_last_named(ins.drop_last(), keyword, n);
        assert(moved_instructions(ins, n).drop_last() =~= moved_instructions(ins.drop_last(), n));
    }
}

proof fn lemma_moved_firsts(ins: Seq<InstructionView>, n: nat)
    ensures
        first_copy_all(moved_instructions(ins, n)) == match first_copy_all(ins) {
            Some(i) => Some(moved_instruction(i, n)),
            None => None,
        },
        first_install(moved_instructions(ins, n)) == match first_install(ins) {
            Some(line) => Some(moved_line(line, n)),
            None => None,
        },
    decreases ins.len(),
{
    if ins.len() > 0 {
        lemma_moved_firsts(ins.drop_first(), n);
        assert(moved_instructions(ins, n).drop_first() =~= moved_instructions(
            ins.drop_first(),
            n,
        ));
    }
}

proof fn lemma_moved_secrets(
    file: Seq<char>,
    i: InstructionView,
    pairs: Seq<(Seq<char>, Seq<char>)>,
    n: nat,
)
    ensures
        secret_findings(file, moved_instruction(i, n), pairs) == all_moved(
            secret_findings(file, i, pairs),
            n,
        ),
    decreases pairs.len(),
{
    if pairs.len() > 0 {
        lemma_moved_secrets(file, i, pairs.drop_last(), n);
        assert(secret_findings(file, moved_instruction(i, n), pairs) =~= all_moved(
            secret_findings(file, i, pairs),
            n,
        ));
    } else {
        assert(all_moved(Seq::empty(), n) =~= Seq::empty());
    }
}

proof fn lemma_moved_each(file: Seq<char>, ins: Seq<InstructionView>, n: nat)
    ensures
        each_findings(file, moved_instructions(ins, n)) == all_moved(each_findings(file, ins), n),
    decreases ins.len(),
{
    if ins.len() > 0 {
        let i = ins.last();
        let m = moved_instruction(i, n);
        lemma_moved_each(file, ins.drop_last(), n);
        assert(moved_instructions(ins, n).drop_last() =~= moved_instructions(ins.drop_last(), n));
        lemma_moved_secrets(file, i, variables(i.args), n);
        assert(run_findings(file, m) =~= all_moved(run_findings(file, i), n));
        assert(from_findings(file, m) =~= all_moved(from_findings(file, i), n));
        assert(add_findings(file, m) =~= all_moved(add_findings(file, i), n));
        assert(all_moved(Seq::empty(), n) =~= Seq::empty());
        lemma_moved_add(each_findings(file, ins.drop_last()), instruction_findings(file, i), n);
    } else {
        assert(all_moved(Seq::empty(), n) =~= Seq::empty());
    }
}

proof fn lemma_ignored(
    file: Seq<char>,
    content: Seq<char>,
    longer: Seq<char>,
    n: nat,
    inserted: Seq<char>,
)
    requires
        n <= text::line_seq(content).len(),
        text::line_seq(longer) == text::line_seq(content).insert(n as int, inserted),
        skipped(inserted),
        is_comment(inserted) || starts_statement(text::line_seq(content), 0, n as int),
        audited(file, content) is Ok,
    ensures
        audited(file, longer) == Ok::<Seq<FindingView>, Seq<char>>(
            all_moved(audited(file, content)->Ok_0, n),
        ),
{
    let ins = parsed_content(content)->Ok_0;
    let ms = moved_instructions(ins, n);
    lemma_parsed_around(text::line_seq(content), inserted, n as int, 0);
    lemma_moved_last_named(ins, "USER"@, n);
    lemma_moved_last_named(ins, "HEALTHCHECK"@, n);
    lemma_moved_each(file, ins, n);
    lemma_moved_firsts(ins, n);
    let a = user_rule(file, ins);
    let b = healthcheck_rule(file, ins);
    let c = each_findings(file, ins);
    let d = cache_rule(file, ins);
    assert(user_rule(file, ms) =~= all_moved(a, n));
    assert(healthcheck_rule(file, ms) =~= all_moved(b, n));
    assert(cache_rule(file, ms) =~= all_moved(d, n));
    lemma_moved_add(a, b, n);
    lemma_moved_add(a + b, c, n);
    lemma_moved_add(a + b + c, d, n);
    lemma_moved_sorted(rule_findings(file, ins), n);
}

/// A comment, wherever it is put in, changes nothing but the numbers of the
/// lines below it.
pub proof fn law_comments_are_ignored(
    file: Seq<char>,
    content: Seq<char>,
    longer: Seq<char>,
    n: nat,
    comment: Seq<char>,
)
    requires
        n <= text::line_seq(content).len(),
        text::line_seq(longer) == text::line_seq(content).insert(n as int, comment),
        is_comment(comment),
        audited(file, content) is Ok,
    ensures
        audited(file, longer) == Ok::<Seq<FindingView>, Seq<char>>(
            all_moved(audited(file, content)->Ok_0, n),
        ),
{
    lemma_ignored(file, content, longer, n, comment);
}

/// A blank line changes nothing but the numbers of the lines below it, unless
/// it is put into an instruction that goes on over several lines.
pub proof fn law_blank_lines_are_ignored(
    file: Seq<char>,
    content: Seq<char>,
    longer: Seq<char>,
    n: nat,
    blank: Seq<char>,
)
    requires
        n <= text::line_seq(content).len(),
        starts_statement(text::line_seq(content), 0, n as int),
        text::line_seq(longer) == text::line_seq(content).insert(n as int, blank),
        text::trimmed(blank).len() == 0,
        audited(file, content) is Ok,
    ensures
        audited(file, longer) == Ok::<Seq<FindingView>, Seq<char>>(
            all_moved(audited(file, content)->Ok_0, n),
        ),
{
    lemma_ignored(file, content, longer, n, blank);
}

proof fn lemma_labelled_secrets(
    file: Seq<char>,
    other: Seq<char>,
    i: InstructionView,
    pairs: Seq<(Seq<char>, Seq<char>)>,
)
    ensures
        secret_findings(other, i, pairs) == all_labelled(secret_findings(file, i, pairs), other),
    decreases pairs.len(),
{
    if pairs.len() > 0 {
        lemma_labelled_secrets(file, other, i, pairs.drop_last());
    }
    assert(secret_findings(other, i, pairs) =~= all_labelled(
        secret_findings(file, i, pairs),
        other,
    ));
}

proof fn lemma_labelled_each(file: Seq<char>, other: Seq<char>, ins: Seq<InstructionView>)
    ensures
        each_findings(other, ins) == all_labelled(each_findings(file, ins), other),
    decreases ins.len(),
{
    if ins.len() > 0 {
        let i = ins.last();
        lemma_labelled_each(file, other, ins.drop_last());
        lemma_labelled_secrets(file, other, i, variables(i.args));
        assert(run_findings(other, i) =~= all_labelled(run_findings(file, i), other));
        assert(from_findings(other, i) =~= all_labelled(from_findings(file, i), other));
        assert(add_findings(other, i) =~= all_labelled(add_findings(file, i), other));
        assert(all_labelled(Seq::empty(), other) =~= Seq::empty());
        lemma_labelled_add(
            each_findings(file, ins.drop_last()),
            instruction_findings(file, i),
            other,
        );
    } else {
        assert(all_labelled(Seq::empty(), other) =~= Seq::empty());
    }
}

proof fn lemma_labelled_rules(file: Seq<char>, other: Seq<char>, ins: Seq<InstructionView>)
    ensures
        rule_findings(other, ins) == all_labelled(rule_findings(file, ins), other),
{
    let a = user_rule(file, ins);
    let b = healthcheck_rule(file, ins);
    let c = each_findings(file, ins);
    let d = cache_rule(file, ins);
    lemma_labelled_each(file, other, ins);
    assert(user_rule(other, ins) =~= all_labelled(a, other));
    assert(healthcheck_rule(other, ins) =~= all_labelled(b, other));
    assert(cache_rule(other, ins) =~= all_labelled(d, other));
    lemma_labelled_add(a, b, other);
    lemma_labelled_add(a + b, c, other);
    lemma_labelled_add(a + b + c, d, other);
}

pub(crate) proof fn lemma_file_is_a_label(file: Seq<char>, other: Seq<char>, content: Seq<char>)
    ensures
        audited(other, content) == match audited(file, content) {
            Ok(fs) => Ok(all_labelled(fs, other)),
            Err(m) => Err(m),
        },
{
    if let Ok(ins) = parsed_content(content) {
        lemma_labelled_rules(file, file, ins);
        lemma_labelled_again(rule_findings(file, ins), file);
        lemma_labelled_rules(file, other, ins);
        lemma_labelled_sorted(rule_findings(file, ins), file, other);
    }
}

} // verus!
