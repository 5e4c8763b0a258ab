//! What holds of audits of every kind, and of which findings are reported.

use crate::cli;
use crate::finding::{FindingView, Severity, SourceKind};
use crate::laws::{all_labelled, dockerfile, nginx, sshd};
use crate::laws::output::{severity_word, source_word};
use crate::laws::text::{blank, law_splitting, lemma_blank, lemma_split_last};
use crate::order::{law_sort_orders, ordered};
use crate::output::Format;
use crate::parsers::{self, FileKind};
use crate::text;
use crate::{audited, audited_read, filtered, ignored, kind_or_err, reported};
use vstd::prelude::*;

verus! {

/// The source that findings in a file of the given kind name.
pub open spec fn source_of(kind: FileKind) -> SourceKind {
    match kind {
        FileKind::Sshd => SourceKind::Sshd,
        FileKind::Nginx => SourceKind::Nginx,
        FileKind::Dockerfile => SourceKind::Dockerfile,
    }
}

/// Every finding of an audit names the given file and the kind of the file.
pub proof fn law_findings_name_their_file(kind: FileKind, file: Seq<char>, content: Seq<char>)
    requires
        audited(kind, file, content) is Ok,
    ensures
        audited(kind, file, content)->Ok_0.all(
            |f: FindingView| f.file == file && f.source == source_of(kind),
        ),
{
    let fs = audited(kind, file, content)->Ok_0;
    match kind {
        FileKind::Sshd => {
            sshd::law_findings_are_sound(file, content);
            let pred = |f: FindingView| sshd::sound(f, file, text::line_seq(content));
            assert(forall|i: int| 0 <= i < fs.len() ==> pred(#[trigger] fs[i]));
        },
        FileKind::Nginx => {
            nginx::law_findings_are_sound(file, content);
            let toks = parsers::nginx::tokens(content)->Ok_0;
            let pred = |f: FindingView| nginx::sound(f, file, toks);
            assert(forall|i: int| 0 <= i < fs.len() ==> pred(#[trigger] fs[i]));
        },
        FileKind::Dockerfile => {
            dockerfile::law_findings_are_sound(file, content);
            let pred = |f: FindingView| dockerfile::sound(f, file, text::line_seq(content));
            assert(forall|i: int| 0 <= i < fs.len() ==> pred(#[trigger] fs[i]));
        },
    }
}

/// The findings of an audit are in order: highest severity first, then by
/// line, then by rule.
pub proof fn law_audits_are_ordered(kind: FileKind, file: Seq<char>, content: Seq<char>)
    requires
        audited(kind, file, content) is Ok,
    ensures
        ordered(audited(kind, file, content)->Ok_0),
{
    match kind {
        FileKind::Sshd => {
            let ds = parsers::sshd::parsed_content(content)->Ok_0;
            law_sort_orders(parsers::sshd::rule_findings(file, ds));
        },
        FileKind::Nginx => {
            let items = parsers::nginx::parsed_content(content)->Ok_0;
            law_sort_orders(parsers::nginx::tree_findings(file, items));
        },
        FileKind::Dockerfile => {
            let ins = parsers::dockerfile::parsed_content(content)->Ok_0;
            law_sort_orders(parsers::dockerfile::rule_findings(file, ins));
        },
    }
}

/// How much a severity weighs.
pub open spec fn weight(severity: Severity) -> int {
    match severity {
        Severity::Critical => 4,
        Severity::High => 3,
        Severity::Medium => 2,
        Severity::Low => 1,
        Severity::Info => 0,
    }
}

/// Findings are ordered by severity, the highest first, then by file, then by
/// line, then by rule.
pub proof fn law_order_of_findings(a: FindingView, b: FindingView)
    ensures
        weight(a.severity) > weight(b.severity) ==> a.before(b) && !b.before(a),
        a.severity == b.severity && text::text_less(a.file, b.file) ==> a.before(b) && !b.before(a),
        a.severity == b.severity && a.file == b.file && a.line < b.line ==> a.before(b)
            && !b.before(a),
        a.severity == b.severity && a.file == b.file && a.line == b.line && text::text_less(
            a.rule_id,
            b.rule_id,
        ) ==> a.before(b) && !b.before(a),
        a.severity == b.severity && a.file == b.file && a.line == b.line && a.rule_id == b.rule_id
            ==> !a.before(b) && !b.before(a),
{
    text::lemma_text_less_total(a.file, b.file);
    text::lemma_text_less_total(a.rule_id, b.rule_id);
}

/// A finding is kept by filtering exactly when it is at or above the threshold
/// and its rule is not ignored, whatever the case in which it is named.
pub proof fn law_filter_keeps_what_is_reported(
    fs: Seq<FindingView>,
    threshold: Severity,
    ignore: Seq<Seq<char>>,
    f: FindingView,
)
    ensures
        filtered(fs, threshold, ignore).contains(f) <==> {
            &&& fs.contains(f)
            &&& weight(f.severity) >= weight(threshold)
            &&& forall|i: int|
                0 <= i < ignore.len() ==> text::lowered(#[trigger] ignore[i]) != text::lowered(
                    f.rule_id,
                )
        },
        filtered(fs, threshold, ignore).contains(f) <==> fs.contains(f) && reported(
            f,
            threshold,
            ignore,
        ),
{
    let pred = |f: FindingView| reported(f, threshold, ignore);
    let kept = filtered(fs, threshold, ignore);
    if kept.contains(f) {
        let k = choose|k: int| 0 <= k < kept.len() && kept[k] == f;
        fs.lemma_filter_pred(pred, k);
        fs.lemma_filter_contains_rev(pred, f);
        assert forall|i: int| 0 <= i < ignore.len() implies text::lowered(#[trigger] ignore[i])
            != text::lowered(f.rule_id) by {
            assert(!text::same_ignoring_case(ignore[i], f.rule_id));
        }
    }
    if fs.contains(f) && reported(f, threshold, ignore) {
        let k = choose|k: int| 0 <= k < fs.len() && fs[k] == f;
        fs.lemma_filter_contains(pred, k);
    }
}

/// Findings are filtered one by one, and those that are kept keep their order.
pub proof fn law_filter_goes_one_by_one(
    a: Seq<FindingView>,
    b: Seq<FindingView>,
    threshold: Severity,
    ignore: Seq<Seq<char>>,
)
    ensures
        filtered(a + b, threshold, ignore) == filtered(a, threshold, ignore) + filtered(
            b,
            threshold,
            ignore,
        ),
{
    Seq::filter_distributes_over_add(a, b, |f: FindingView| reported(f, threshold, ignore));
}

/// One finding is kept once or not at all.
pub proof fn law_filter_of_one(f: FindingView, threshold: Severity, ignore: Seq<Seq<char>>)
    ensures
        ({
            let kept = {
                &&& weight(f.severity) >= weight(threshold)
                &&& forall|i: int|
                    0 <= i < ignore.len() ==> text::lowered(#[trigger] ignore[i]) != text::lowered(
                        f.rule_id,
                    )
            };
            filtered(seq![f], threshold, ignore) == if kept {
                seq![f]
            } else {
                Seq::empty()
            }
        }),
{
    reveal_with_fuel(Seq::filter, 2);
    assert(seq![f].drop_last() =~= Seq::<FindingView>::empty());
    law_filter_keeps_what_is_reported(seq![f], threshold, ignore, f);
    assert(seq![f].contains(f)) by {
        assert(seq![f][0] == f);
    }
    let kept = filtered(seq![f], threshold, ignore);
    if reported(f, threshold, ignore) {
        assert(kept =~= seq![f]);
        assert(kept[0] == f);
    } else {
        assert(kept =~= Seq::<FindingView>::empty());
    }
}

/// Two filters in a row report what one filter with both lists and the higher
/// threshold reports.
pub proof fn law_filters_compose(
    fs: Seq<FindingView>,
    low: Severity,
    high: Severity,
    first: Seq<Seq<char>>,
    second: Seq<Seq<char>>,
)
    requires
        low.rank() <= high.rank(),
    ensures
        filtered(filtered(fs, low, first), high, second) == filtered(fs, high, first + second),
        filtered(filtered(fs, high, first), low, second) == filtered(fs, high, first + second),
    decreases fs.len(),
{
    reveal(Seq::filter);
    if fs.len() > 0 {
        law_filters_compose(fs.drop_last(), low, high, first, second);
        let f = fs.last();
        lemma_ignored_by_either(f.rule_id, first, second);
        let a = filtered(fs.drop_last(), low, first);
        let b = filtered(fs.drop_last(), high, first);
        assert(a.push(f).drop_last() =~= a);
        assert(b.push(f).drop_last() =~= b);
    }
}

proof fn lemma_ignored_by_either(rule_id: Seq<char>, first: Seq<Seq<char>>, second: Seq<Seq<char>>)
    ensures
        ignored(rule_id, first + second) <==> ignored(rule_id, first) || ignored(rule_id, second),
{
    let all = first + second;
    if ignored(rule_id, first) {
        let k = choose|k: int|
            0 <= k < first.len() && text::same_ignoring_case(#[trigger] first[k], rule_id);
        assert(all[k] == first[k]);
    }
    if ignored(rule_id, second) {
        let k = choose|k: int|
            0 <= k < second.len() && text::same_ignoring_case(#[trigger] second[k], rule_id);
        assert(all[first.len() + k] == second[k]);
    }
    if ignored(rule_id, all) {
        let k = choose|k: int|
            0 <= k < all.len() && text::same_ignoring_case(#[trigger] all[k], rule_id);
        if k < first.len() {
            assert(all[k] == first[k]);
        } else {
            assert(all[k] == second[k - first.len()]);
        }
    }
}

/// Filtering once more changes nothing.
pub proof fn law_filter_is_idempotent(
    fs: Seq<FindingView>,
    threshold: Severity,
    ignore: Seq<Seq<char>>,
)
    ensures
        filtered(filtered(fs, threshold, ignore), threshold, ignore) == filtered(
            fs,
            threshold,
            ignore,
        ),
    decreases fs.len(),
{
    reveal(Seq::filter);
    if fs.len() > 0 {
        law_filter_is_idempotent(fs.drop_last(), threshold, ignore);
        let a = filtered(fs.drop_last(), threshold, ignore);
        assert(a.push(fs.last()).drop_last() =~= a);
    }
}

/// With the lowest threshold and nothing to ignore everything is reported.
pub proof fn law_default_filter_keeps_everything(fs: Seq<FindingView>)
    ensures
        filtered(fs, Severity::Info, Seq::empty()) == fs,
    decreases fs.len(),
{
    reveal(Seq::filter);
    if fs.len() > 0 {
        law_default_filter_keeps_everything(fs.drop_last());
        assert(fs.drop_last().push(fs.last()) =~= fs);
    }
}

/// What is reported of findings in order is in order.
pub proof fn law_filter_keeps_order(
    fs: Seq<FindingView>,
    threshold: Severity,
    ignore: Seq<Seq<char>>,
)
    requires
        ordered(fs),
    ensures
        ordered(filtered(fs, threshold, ignore)),
    decreases fs.len(),
{
    reveal(Seq::filter);
    if fs.len() > 0 {
        let head = fs.drop_last();
        assert forall|i: int, j: int| 0 <= i < j < head.len() implies !head[j].before(head[i]) by {
            assert(head[i] == fs[i] && head[j] == fs[j]);
        }
        law_filter_keeps_order(head, threshold, ignore);
        let kept = filtered(head, threshold, ignore);
        assert forall|i: int| 0 <= i < kept.len() implies !fs.last().before(
            #[trigger] kept[i],
        ) by {
            head.lemma_filter_contains_rev(
                |f: FindingView| reported(f, threshold, ignore),
                kept[i],
            );
            let k = choose|k: int| 0 <= k < head.len() && head[k] == kept[i];
            assert(head[k] == fs[k]);
            assert(!fs[fs.len() - 1].before(fs[k]));
        }
    }
}

/// The exit status is a gate: an error gives 2; without errors, a finding that
/// is reported gives 1, unless failing is switched off; else it is 0.
pub proof fn law_exit_status_gates(
    fs: Seq<FindingView>,
    threshold: Severity,
    ignore: Seq<Seq<char>>,
)
    ensures
        cli::status(false, false, filtered(fs, threshold, ignore).len()) == 1 <==> exists|i: int|
            0 <= i < fs.len() && filtered(fs, threshold, ignore).contains(#[trigger] fs[i]),
        cli::status(false, false, filtered(fs, threshold, ignore).len()) == 0 <==> forall|i: int|
            0 <= i < fs.len() ==> !filtered(fs, threshold, ignore).contains(#[trigger] fs[i]),
        cli::status(false, false, filtered(fs, threshold, ignore).len()) != 0 <==> exists|i: int|
            0 <= i < fs.len() && reported(#[trigger] fs[i], threshold, ignore),
        cli::status(false, true, filtered(fs, threshold, ignore).len()) == 0,
        cli::status(true, false, filtered(fs, threshold, ignore).len()) == 2,
        cli::status(true, true, filtered(fs, threshold, ignore).len()) == 2,
{
    let kept = filtered(fs, threshold, ignore);
    if kept.len() > 0 {
        assert(kept.contains(kept[0]));
        law_filter_keeps_what_is_reported(fs, threshold, ignore, kept[0]);
        let k = choose|k: int| 0 <= k < fs.len() && fs[k] == kept[0];
        assert(kept.contains(fs[k]));
        assert(reported(fs[k], threshold, ignore));
    }
    if exists|i: int| 0 <= i < fs.len() && reported(#[trigger] fs[i], threshold, ignore) {
        let i = choose|i: int| 0 <= i < fs.len() && reported(#[trigger] fs[i], threshold, ignore);
        law_filter_keeps_what_is_reported(fs, threshold, ignore, fs[i]);
        assert(kept.contains(fs[i]));
    }
}

/// The name of a severity is read back as that severity, in any ASCII case.
pub proof fn law_severity_names_are_read_back(severity: Severity, s: Seq<char>)
    requires
        text::same_ignoring_case(s, severity.name()),
    ensures
        Severity::named(s) == Some(severity),
{
    reveal_strlit("info");
    reveal_strlit("low");
    reveal_strlit("medium");
    reveal_strlit("med");
    reveal_strlit("high");
    reveal_strlit("critical");
    reveal_strlit("crit");
    let name = severity.name();
    assert(text::lowered(name) =~= name);
    assert("info"@[0] != "high"@[0]);
    assert("info"@[0] != "crit"@[0]);
    assert("high"@[0] != "crit"@[0]);
    assert("low"@[0] != "med"@[0]);
    assert("critical"@.len() == 8);
    assert("medium"@.len() == 6);
    assert("info"@.len() == 4);
    assert("high"@.len() == 4);
    assert("crit"@.len() == 4);
    assert("low"@.len() == 3);
    assert("med"@.len() == 3);
}

proof fn lemma_severity_words()
    ensures
        "info"@ != "low"@,
        "info"@ != "medium"@,
        "info"@ != "med"@,
        "info"@ != "high"@,
        "info"@ != "critical"@,
        "info"@ != "crit"@,
        "low"@ != "medium"@,
        "low"@ != "med"@,
        "low"@ != "high"@,
        "low"@ != "critical"@,
        "low"@ != "crit"@,
        "medium"@ != "high"@,
        "med"@ != "high"@,
        "medium"@ != "critical"@,
        "med"@ != "critical"@,
        "medium"@ != "crit"@,
        "med"@ != "crit"@,
        "high"@ != "critical"@,
        "high"@ != "crit"@,
{
    reveal_strlit("info");
    reveal_strlit("low");
    reveal_strlit("medium");
    reveal_strlit("med");
    reveal_strlit("high");
    reveal_strlit("critical");
    reveal_strlit("crit");
    assert("info"@.len() == 4 && "info"@[0] == 'i');
    assert("high"@.len() == 4 && "high"@[0] == 'h');
    assert("crit"@.len() == 4 && "crit"@[0] == 'c');
    assert("low"@.len() == 3 && "low"@[0] == 'l');
    assert("med"@.len() == 3 && "med"@[0] == 'm');
    assert("critical"@.len() == 8);
    assert("medium"@.len() == 6);
}

/// The words for severities, in any ASCII case: two of them have a short form.
pub proof fn law_severity_words(s: Seq<char>)
    ensures
        Severity::named(s) == Some(Severity::Info) <==> text::lowered(s) == "info"@,
        Severity::named(s) == Some(Severity::Low) <==> text::lowered(s) == "low"@,
        Severity::named(s) == Some(Severity::Medium) <==> text::lowered(s) == "medium"@
            || text::lowered(s) == "med"@,
        Severity::named(s) == Some(Severity::High) <==> text::lowered(s) == "high"@,
        Severity::named(s) == Some(Severity::Critical) <==> text::lowered(s) == "critical"@
            || text::lowered(s) == "crit"@,
{
    lemma_severity_words();
}

/// What severities and kinds of file are called, and the level that SARIF
/// gives a severity.
pub proof fn law_words_in_reports(severity: Severity, source: SourceKind)
    ensures
        severity.name() == severity_word(severity),
        source.name() == source_word(source),
        weight(severity) >= 3 ==> severity.level() == "error"@,
        weight(severity) == 2 ==> severity.level() == "warning"@,
        weight(severity) <= 1 ==> severity.level() == "note"@,
{
}

/// The words for formats, in any ASCII case.
pub proof fn law_format_words(s: Seq<char>)
    ensures
        Format::named(s) == Some(Format::Text) <==> text::lowered(s) == "text"@,
        Format::named(s) == Some(Format::Json) <==> text::lowered(s) == "json"@,
        Format::named(s) == Some(Format::Sarif) <==> text::lowered(s) == "sarif"@,
{
    reveal_strlit("text");
    reveal_strlit("json");
    reveal_strlit("sarif");
    assert("text"@.len() == 4 && "text"@[0] == 't');
    assert("json"@.len() == 4 && "json"@[0] == 'j');
    assert("sarif"@.len() == 5);
}

/// The entries of a comma-separated list are those on both sides of a comma;
/// white space around an entry is dropped, and so is an entry with nothing
/// else.
pub proof fn law_list_entries(a: Seq<char>, b: Seq<char>)
    requires
        !b.contains(','),
    ensures
        blank(b) ==> cli::list_entries(b) == Seq::<Seq<char>>::empty(),
        !blank(b) ==> cli::list_entries(b) == seq![text::trimmed(b)],
        cli::list_entries(a + seq![','] + b) == cli::list_entries(a) + cli::list_entries(b),
{
    let cut = |p: Seq<char>| text::trimmed(p);
    let full = |t: Seq<char>| t.len() > 0;
    let none = Seq::<char>::empty();
    law_splitting(b, ',', none);
    lemma_split_last(a, ',', b);
    lemma_blank(b);
    let one = seq![b].map_values(cut);
    assert(one =~= seq![text::trimmed(b)]);
    let front = text::split_seq(a, ',').map_values(cut);
    let all = text::split_seq(a + seq![','] + b, ',').map_values(cut);
    assert(all =~= front + one);
    Seq::filter_distributes_over_add(front, one, full);
    reveal_with_fuel(Seq::filter, 2);
    assert(one.drop_last() =~= Seq::<Seq<char>>::empty());
    assert(cli::list_entries(b) =~= if blank(b) {
        Seq::<Seq<char>>::empty()
    } else {
        seq![text::trimmed(b)]
    });
}

/// A file of each kind is read in the manner of its kind; one that cannot be
/// read, or whose kind is not known, is an error that names it.
pub proof fn law_files_are_read_by_kind(
    path: Seq<char>,
    content: Seq<char>,
    message: Seq<char>,
    kind: FileKind,
    read: Result<Seq<char>, Seq<char>>,
)
    ensures
        audited(FileKind::Sshd, path, content) == parsers::sshd::audited(path, content),
        audited(FileKind::Nginx, path, content) == parsers::nginx::audited(path, content),
        audited(FileKind::Dockerfile, path, content) == parsers::dockerfile::audited(path, content),
        audited_read(Ok(kind), path, Ok(content)) == audited(kind, path, content),
        audited_read(Ok(kind), path, Err(message)) == Err::<Seq<FindingView>, Seq<char>>(
            path + ": "@ + message,
        ),
        audited_read(Err(message), path, read) == Err::<Seq<FindingView>, Seq<char>>(message),
        parsers::kind_of(parsers::file_name_of(path)) is None ==> kind_or_err(path) == Err::<
            FileKind,
            Seq<char>,
        >(
            path
                + ": unrecognized config file (expected sshd_config, an nginx *.conf, or a Dockerfile)"@,
        ),
        parsers::kind_of(parsers::file_name_of(path)) == Some(kind) ==> kind_or_err(path) == Ok::<
            FileKind,
            Seq<char>,
        >(kind),
{
}

/// A more severe finding has no lower SARIF level: an error stays an error,
/// and what is no note does not become one.
pub proof fn law_sarif_levels_follow_severity(low: Severity, high: Severity)
    requires
        low.rank() <= high.rank(),
    ensures
        low.level() == "error"@ ==> high.level() == "error"@,
        high.level() == "note"@ ==> low.level() == "note"@,
{
    reveal_strlit("note");
    reveal_strlit("warning");
    reveal_strlit("error");
    assert("note"@.len() == 4);
    assert("warning"@.len() == 7);
    assert("error"@.len() == 5);
}

/// A rule that a comma-separated list names, in any ASCII case and with any
/// white space around it, is not reported.
pub proof fn law_listed_rules_are_suppressed(
    fs: Seq<FindingView>,
    threshold: Severity,
    list: Seq<char>,
    k: int,
    f: FindingView,
)
    requires
        0 <= k < text::split_seq(list, ',').len(),
        text::trimmed(text::split_seq(list, ',')[k]).len() > 0,
        text::same_ignoring_case(text::trimmed(text::split_seq(list, ',')[k]), f.rule_id),
    ensures
        !filtered(fs, threshold, cli::list_entries(list)).contains(f),
{
    let all = text::split_seq(list, ',').map_values(|p: Seq<char>| text::trimmed(p));
    let entries = cli::list_entries(list);
    all.lemma_filter_contains(|t: Seq<char>| t.len() > 0, k);
    assert(entries.contains(all[k]));
    let j = choose|j: int| 0 <= j < entries.len() && entries[j] == all[k];
    assert(text::same_ignoring_case(entries[j], f.rule_id));
    law_filter_keeps_what_is_reported(fs, threshold, entries, f);
}

/// The outcome of an audit under the label `file`.
pub open spec fn labelled_outcome(
    outcome: Result<Seq<FindingView>, Seq<char>>,
    file: Seq<char>,
) -> Result<Seq<FindingView>, Seq<char>> {
    match outcome {
        Ok(fs) => Ok(all_labelled(fs, file)),
        Err(m) => Err(m),
    }
}

/// The name of the file is only a label: an audit under another name gives the
/// same findings under that name, or the same error.
pub proof fn law_file_is_a_label(
    kind: FileKind,
    file: Seq<char>,
    other: Seq<char>,
    content: Seq<char>,
)
    ensures
        audited(kind, other, content) == labelled_outcome(audited(kind, file, content), other),
{
    match kind {
        FileKind::Sshd => sshd::lemma_file_is_a_label(file, other, content),
        FileKind::Nginx => nginx::lemma_file_is_a_label(file, other, content),
        FileKind::Dockerfile => dockerfile::lemma_file_is_a_label(file, other, content),
    }
}

} // verus!
