//! What a report says of each finding, and where in the report it says it.

use crate::finding::{FindingView, Severity, SourceKind};
use crate::output::document::Tree;
use crate::output::{count_of, json, sarif, text, Summary};
use crate::text as texts;
use vstd::prelude::*;

verus! {

/// One step into a document.
pub enum Step {
    /// To the member of an object with a name.
    Member(Seq<char>),
    /// To the item of an array at a position.
    Item(int),
}

/// The first member with a name, if there is one.
pub open spec fn member(members: Seq<(Seq<char>, Tree)>, name: Seq<char>) -> Option<Tree>
    decreases members.len(),
{
    if members.len() == 0 {
        None
    } else if members[0].0 == name {
        Some(members[0].1)
    } else {
        member(members.drop_first(), name)
    }
}

/// What one step leads to.
pub open spec fn step(t: Tree, s: Step) -> Option<Tree> {
    match (t, s) {
        (Tree::Object(members), Step::Member(name)) => member(members, name),
        (Tree::Array(items), Step::Item(k)) => if 0 <= k < items.len() {
            Some(items[k])
        } else {
            None
        },
        _ => None,
    }
}

/// What some steps lead to, one after the other.
pub open spec fn at(t: Tree, path: Seq<Step>) -> Option<Tree>
    decreases path.len(),
{
    if path.len() == 0 {
        Some(t)
    } else {
        match step(t, path[0]) {
            Some(inner) => at(inner, path.drop_first()),
            None => None,
        }
    }
}

/// The number of members or items of a document.
pub open spec fn width(t: Option<Tree>) -> nat {
    match t {
        Some(Tree::Object(members)) => members.len(),
        Some(Tree::Array(items)) => items.len(),
        _ => 0,
    }
}

proof fn lemma_at_add(t: Tree, a: Seq<Step>, b: Seq<Step>)
    ensures
        at(t, a + b) == (match at(t, a) {
            Some(inner) => at(inner, b),
            None => None,
        }),
    decreases a.len(),
{
    if a.len() > 0 {
        assert((a + b)[0] == a[0]);
        assert((a + b).drop_first() =~= a.drop_first() + b);
        match step(t, a[0]) {
            Some(inner) => lemma_at_add(inner, a.drop_first(), b),
            None => {},
        }
    } else {
        assert(a + b =~= b);
    }
}

proof fn lemma_at_one(t: Tree, s: Step)
    ensures
        at(t, seq![s]) == step(t, s),
{
    reveal_with_fuel(at, 2);
    assert(seq![s].drop_first() =~= Seq::<Step>::empty());
}

proof fn lemma_at_next(t: Tree, path: Seq<Step>, s: Step)
    ensures
        at(t, path.push(s)) == (match at(t, path) {
            Some(inner) => step(inner, s),
            None => None,
        }),
{
    lemma_at_add(t, path, seq![s]);
    assert(path.push(s) =~= path + seq![s]);
    match at(t, path) {
        Some(inner) => lemma_at_one(inner, s),
        None => {},
    }
}

proof fn lemma_member(members: Seq<(Seq<char>, Tree)>, k: int)
    requires
        0 <= k < members.len(),
        forall|j: int| 0 <= j < k ==> (#[trigger] members[j]).0 != members[k].0,
    ensures
        member(members, members[k].0) == Some(members[k].1),
    decreases members.len(),
{
    if k > 0 {
        let rest = members.drop_first();
        assert(rest[k - 1] == members[k]);
        assert forall|j: int| 0 <= j < k - 1 implies (#[trigger] rest[j]).0 != rest[k - 1].0 by {
            assert(rest[j] == members[j + 1]);
        }
        lemma_member(rest, k - 1);
        assert(members[0].0 != members[k].0);
    }
}

/// The way to the results of a log.
pub open spec fn results() -> Seq<Step> {
    seq![Step::Member("runs"@), Step::Item(0), Step::Member("results"@)]
}

/// The way to the tool of a log.
pub open spec fn driver() -> Seq<Step> {
    seq![Step::Member("runs"@), Step::Item(0), Step::Member("tool"@), Step::Member("driver"@)]
}

proof fn lemma_sarif_names()
    ensures
        "$schema"@ != "runs"@,
        "$schema"@ != "version"@,
        "runs"@ != "version"@,
        "results"@ != "tool"@,
        "level"@ != "locations"@,
        "level"@ != "message"@,
        "level"@ != "ruleId"@,
        "locations"@ != "message"@,
        "locations"@ != "ruleId"@,
        "message"@ != "ruleId"@,
        "artifactLocation"@ != "region"@,
        "help"@ != "id"@,
        "help"@ != "shortDescription"@,
        "id"@ != "shortDescription"@,
        "informationUri"@ != "name"@,
        "informationUri"@ != "rules"@,
        "informationUri"@ != "version"@,
        "name"@ != "rules"@,
        "name"@ != "version"@,
        "rules"@ != "version"@,
{
    reveal_strlit("$schema");
    reveal_strlit("runs");
    reveal_strlit("version");
    reveal_strlit("results");
    reveal_strlit("tool");
    reveal_strlit("level");
    reveal_strlit("locations");
    reveal_strlit("message");
    reveal_strlit("ruleId");
    reveal_strlit("artifactLocation");
    reveal_strlit("region");
    reveal_strlit("help");
    reveal_strlit("id");
    reveal_strlit("shortDescription");
    reveal_strlit("informationUri");
    reveal_strlit("name");
    reveal_strlit("rules");
    assert("$schema"@.len() == 7 && "$schema"@[0] == '$');
    assert("version"@.len() == 7 && "version"@[0] == 'v');
    assert("runs"@.len() == 4);
    assert("results"@.len() == 7);
    assert("tool"@.len() == 4);
    assert("level"@.len() == 5);
    assert("locations"@.len() == 9);
    assert("message"@.len() == 7);
    assert("ruleId"@.len() == 6);
    assert("artifactLocation"@.len() == 16);
    assert("region"@.len() == 6);
    assert("help"@.len() == 4);
    assert("id"@.len() == 2);
    assert("shortDescription"@.len() == 16);
    assert("informationUri"@.len() == 14);
    assert("name"@.len() == 4);
    assert("rules"@.len() == 5);
}

proof fn lemma_run(fs: Seq<FindingView>)
    ensures
        at(sarif::log_tree(fs), seq![Step::Member("runs"@)]) == Some(
            Tree::Array(seq![Tree::Object(sarif::run_members(fs))]),
        ),
        at(sarif::log_tree(fs), seq![Step::Member("runs"@), Step::Item(0)]) == Some(
            Tree::Object(sarif::run_members(fs)),
        ),
        at(sarif::log_tree(fs), results()) == Some(Tree::Array(sarif::result_trees(fs))),
        at(sarif::log_tree(fs), driver()) == Some(Tree::Object(sarif::driver_members(fs))),
{
    lemma_sarif_names();
    let t = sarif::log_tree(fs);
    lemma_member(sarif::log_members(fs), 1);
    lemma_member(sarif::run_members(fs), 0);
    lemma_member(sarif::run_members(fs), 1);
    lemma_member(sarif::tool_members(fs), 0);
    let p = seq![Step::Member("runs"@)];
    lemma_at_one(t, Step::Member("runs"@));
    lemma_at_next(t, p, Step::Item(0));
    let q = seq![Step::Member("runs"@), Step::Item(0)];
    assert(p.push(Step::Item(0)) =~= q);
    lemma_at_next(t, q, Step::Member("results"@));
    assert(q.push(Step::Member("results"@)) =~= results());
    lemma_at_next(t, q, Step::Member("tool"@));
    let r = q.push(Step::Member("tool"@));
    lemma_at_next(t, r, Step::Member("driver"@));
    assert(r.push(Step::Member("driver"@)) =~= driver());
}

/// The way to a part of a result.
pub open spec fn result_part(k: int, path: Seq<Step>) -> Seq<Step> {
    results() + seq![Step::Item(k)] + path
}

proof fn lemma_result(fs: Seq<FindingView>, k: int, path: Seq<Step>)
    requires
        0 <= k < fs.len(),
    ensures
        at(sarif::log_tree(fs), result_part(k, path)) == at(
            Tree::Object(sarif::result_members(fs[k])),
            path,
        ),
        at(sarif::log_tree(fs), results() + seq![Step::Item(k)]) == Some(
            Tree::Object(sarif::result_members(fs[k])),
        ),
{
    lemma_run(fs);
    let t = sarif::log_tree(fs);
    lemma_at_next(t, results(), Step::Item(k));
    assert(results().push(Step::Item(k)) =~= results() + seq![Step::Item(k)]);
    lemma_at_add(t, results() + seq![Step::Item(k)], path);
}

/// The way from a result to what it says of the file.
pub open spec fn file_path() -> Seq<Step> {
    seq![
        Step::Member("locations"@),
        Step::Item(0),
        Step::Member("physicalLocation"@),
        Step::Member("artifactLocation"@),
        Step::Member("uri"@),
    ]
}

/// The way from a result to what it says of the line.
pub open spec fn line_path() -> Seq<Step> {
    seq![
        Step::Member("locations"@),
        Step::Item(0),
        Step::Member("physicalLocation"@),
        Step::Member("region"@),
        Step::Member("startLine"@),
    ]
}

proof fn lemma_location(f: FindingView)
    ensures
        at(Tree::Object(sarif::result_members(f)), file_path()) == Some(Tree::Text(f.file)),
        at(Tree::Object(sarif::result_members(f)), line_path()) == Some(
            Tree::Number(
                if f.line == 0 {
                    1
                } else {
                    f.line
                },
            ),
        ),
{
    lemma_sarif_names();
    let t = Tree::Object(sarif::result_members(f));
    lemma_member(sarif::result_members(f), 1);
    lemma_member(sarif::location_members(f), 0);
    lemma_member(sarif::physical_members(f), 0);
    lemma_member(sarif::physical_members(f), 1);
    lemma_member(sarif::artifact_members(f), 0);
    lemma_member(sarif::region_members(f), 0);
    let a = seq![Step::Member("locations"@)];
    lemma_at_one(t, Step::Member("locations"@));
    lemma_at_next(t, a, Step::Item(0));
    let b = a.push(Step::Item(0));
    lemma_at_next(t, b, Step::Member("physicalLocation"@));
    let c = b.push(Step::Member("physicalLocation"@));
    lemma_at_next(t, c, Step::Member("artifactLocation"@));
    let d = c.push(Step::Member("artifactLocation"@));
    lemma_at_next(t, d, Step::Member("uri"@));
    assert(d.push(Step::Member("uri"@)) =~= file_path());
    lemma_at_next(t, c, Step::Member("region"@));
    let e = c.push(Step::Member("region"@));
    lemma_at_next(t, e, Step::Member("startLine"@));
    assert(e.push(Step::Member("startLine"@)) =~= line_path());
}

/// The location of each result is the whole text of the file of its finding;
/// so findings in different files have results with different locations.
pub proof fn law_results_name_their_file(fs: Seq<FindingView>, k: int, j: int)
    requires
        0 <= k < fs.len(),
        0 <= j < fs.len(),
    ensures
        at(sarif::log_tree(fs), result_part(k, file_path())) == Some(Tree::Text(fs[k].file)),
        fs[k].file != fs[j].file ==> at(sarif::log_tree(fs), result_part(k, file_path())) != at(
            sarif::log_tree(fs),
            result_part(j, file_path()),
        ),
{
    lemma_result(fs, k, file_path());
    lemma_result(fs, j, file_path());
    lemma_location(fs[k]);
    lemma_location(fs[j]);
}

/// Each result points to the line of its finding, or to the first line where
/// the finding is on no line.
pub proof fn law_results_name_their_line(fs: Seq<FindingView>, k: int)
    requires
        0 <= k < fs.len(),
    ensures
        fs[k].line > 0 ==> at(sarif::log_tree(fs), result_part(k, line_path())) == Some(
            Tree::Number(fs[k].line),
        ),
        fs[k].line == 0 ==> at(sarif::log_tree(fs), result_part(k, line_path())) == Some(
            Tree::Number(1),
        ),
{
    lemma_result(fs, k, line_path());
    lemma_location(fs[k]);
}

/// There is one result for each finding, in the same order; it holds the rule,
/// the level, the message and one location, and nothing else.
pub proof fn law_results_repeat_their_finding(fs: Seq<FindingView>, k: int)
    requires
        0 <= k < fs.len(),
    ensures
        width(at(sarif::log_tree(fs), results())) == fs.len(),
        width(at(sarif::log_tree(fs), result_part(k, Seq::empty()))) == 4,
        width(at(sarif::log_tree(fs), result_part(k, seq![Step::Member("locations"@)]))) == 1,
        at(sarif::log_tree(fs), result_part(k, seq![Step::Member("ruleId"@)])) == Some(
            Tree::Text(fs[k].rule_id),
        ),
        at(sarif::log_tree(fs), result_part(k, seq![Step::Member("level"@)])) == Some(
            Tree::Text(
                match fs[k].severity {
                    Severity::Critical => "error"@,
                    Severity::High => "error"@,
                    Severity::Medium => "warning"@,
                    Severity::Low => "note"@,
                    Severity::Info => "note"@,
                },
            ),
        ),
        at(
            sarif::log_tree(fs),
            result_part(k, seq![Step::Member("message"@), Step::Member("text"@)]),
        ) == Some(Tree::Text(fs[k].consequence + " | fix: "@ + fs[k].fix)),
{
    lemma_sarif_names();
    lemma_run(fs);
    let f = fs[k];
    let ms = sarif::result_members(f);
    let t = Tree::Object(ms);
    lemma_result(fs, k, Seq::empty());
    lemma_result(fs, k, seq![Step::Member("locations"@)]);
    lemma_result(fs, k, seq![Step::Member("ruleId"@)]);
    lemma_result(fs, k, seq![Step::Member("level"@)]);
    lemma_result(fs, k, seq![Step::Member("message"@), Step::Member("text"@)]);
    lemma_member(ms, 0);
    lemma_member(ms, 1);
    lemma_member(ms, 2);
    lemma_member(ms, 3);
    lemma_at_one(t, Step::Member("locations"@));
    lemma_at_one(t, Step::Member("ruleId"@));
    lemma_at_one(t, Step::Member("level"@));
    lemma_at_one(t, Step::Member("message"@));
    let p = seq![Step::Member("message"@)];
    lemma_at_next(t, p, Step::Member("text"@));
    assert(p.push(Step::Member("text"@)) =~= seq![Step::Member("message"@), Step::Member("text"@)]);
    lemma_member(sarif::text_members(sarif::message_text(f)), 0);
}

/// A log names its format and the tool, and holds one run.
pub proof fn law_log_names_the_tool(fs: Seq<FindingView>)
    ensures
        width(Some(sarif::log_tree(fs))) == 3,
        width(at(sarif::log_tree(fs), seq![Step::Member("runs"@)])) == 1,
        width(at(sarif::log_tree(fs), seq![Step::Member("runs"@), Step::Item(0)])) == 2,
        width(at(sarif::log_tree(fs), driver())) == 4,
        at(sarif::log_tree(fs), seq![Step::Member("version"@)]) == Some(Tree::Text("2.1.0"@)),
        at(sarif::log_tree(fs), seq![Step::Member("$schema"@)]) == Some(
            Tree::Text(
                "https://raw.githubusercontent.com/oasis-tcs/sarif-spec/master/Schemata/sarif-schema-2.1.0.json"@,
            ),
        ),
        at(sarif::log_tree(fs), driver().push(Step::Member("name"@))) == Some(
            Tree::Text("confaudit"@),
        ),
        at(sarif::log_tree(fs), driver().push(Step::Member("version"@))) == Some(
            Tree::Text("0.1.0"@),
        ),
        at(sarif::log_tree(fs), driver().push(Step::Member("informationUri"@))) == Some(
            Tree::Text("https://github.com/hellpuffyt/confaudit"@),
        ),
{
    lemma_sarif_names();
    lemma_run(fs);
    let t = sarif::log_tree(fs);
    lemma_at_one(t, Step::Member("version"@));
    lemma_at_one(t, Step::Member("$schema"@));
    lemma_member(sarif::log_members(fs), 0);
    lemma_member(sarif::log_members(fs), 2);
    lemma_member(sarif::driver_members(fs), 0);
    lemma_member(sarif::driver_members(fs), 1);
    lemma_member(sarif::driver_members(fs), 3);
    lemma_at_next(t, driver(), Step::Member("name"@));
    lemma_at_next(t, driver(), Step::Member("version"@));
    lemma_at_next(t, driver(), Step::Member("informationUri"@));
}

/// What is printed is the text of the log, or an empty object where there is
/// none.
pub proof fn law_log_text(t: Seq<char>)
    ensures
        sarif::text_or_empty(Some(t)) == t,
        sarif::text_or_empty(None) == seq!['{', '}'],
{
    reveal_strlit("{}");
    assert("{}"@ =~= seq!['{', '}']);
}

/// The way to the rules of a log.
pub open spec fn rules() -> Seq<Step> {
    driver().push(Step::Member("rules"@))
}

/// A log lists the rules of its table, each with its id, the consequence and
/// the fix.
pub proof fn law_log_describes_rules(fs: Seq<FindingView>, k: int)
    requires
        0 <= k < sarif::rule_table(fs).len(),
    ensures
        width(at(sarif::log_tree(fs), rules())) == sarif::rule_table(fs).len(),
        at(sarif::log_tree(fs), rules() + seq![Step::Item(k), Step::Member("id"@)]) == Some(
            Tree::Text(sarif::rule_table(fs)[k].rule_id),
        ),
        at(
            sarif::log_tree(fs),
            rules() + seq![Step::Item(k), Step::Member("help"@), Step::Member("text"@)],
        ) == Some(Tree::Text(sarif::rule_table(fs)[k].fix)),
        at(
            sarif::log_tree(fs),
            rules() + seq![Step::Item(k), Step::Member("shortDescription"@), Step::Member("text"@)],
        ) == Some(Tree::Text(sarif::rule_table(fs)[k].consequence)),
        width(at(sarif::log_tree(fs), rules() + seq![Step::Item(k)])) == 3,
{
    lemma_sarif_names();
    lemma_run(fs);
    let t = sarif::log_tree(fs);
    let f = sarif::rule_table(fs)[k];
    lemma_member(sarif::driver_members(fs), 2);
    lemma_at_next(t, driver(), Step::Member("rules"@));
    let p = rules();
    lemma_at_next(t, p, Step::Item(k));
    let q = p.push(Step::Item(k));
    assert(q =~= p + seq![Step::Item(k)]);
    let ms = sarif::rule_members(f);
    lemma_member(ms, 0);
    lemma_member(ms, 1);
    lemma_member(ms, 2);
    lemma_at_next(t, q, Step::Member("id"@));
    assert(q.push(Step::Member("id"@)) =~= p + seq![Step::Item(k), Step::Member("id"@)]);
    lemma_at_next(t, q, Step::Member("help"@));
    let h = q.push(Step::Member("help"@));
    lemma_at_next(t, h, Step::Member("text"@));
    assert(h.push(Step::Member("text"@)) =~= p + seq![
        Step::Item(k),
        Step::Member("help"@),
        Step::Member("text"@),
    ]);
    lemma_at_next(t, q, Step::Member("shortDescription"@));
    let s = q.push(Step::Member("shortDescription"@));
    lemma_at_next(t, s, Step::Member("text"@));
    assert(s.push(Step::Member("text"@)) =~= p + seq![
        Step::Item(k),
        Step::Member("shortDescription"@),
        Step::Member("text"@),
    ]);
    lemma_member(sarif::text_members(f.fix), 0);
    lemma_member(sarif::text_members(f.consequence), 0);
}

proof fn lemma_json_names()
    ensures
        "findings"@ != "summary"@,
        "rule_id"@ != "severity"@,
        "rule_id"@ != "source"@,
        "severity"@ != "source"@,
        "rule_id"@ != "file"@,
        "severity"@ != "file"@,
        "source"@ != "file"@,
        "rule_id"@ != "line"@,
        "severity"@ != "line"@,
        "source"@ != "line"@,
        "file"@ != "line"@,
        "rule_id"@ != "evidence"@,
        "severity"@ != "evidence"@,
        "source"@ != "evidence"@,
        "file"@ != "evidence"@,
        "line"@ != "evidence"@,
        "rule_id"@ != "consequence"@,
        "severity"@ != "consequence"@,
        "source"@ != "consequence"@,
        "file"@ != "consequence"@,
        "line"@ != "consequence"@,
        "evidence"@ != "consequence"@,
        "rule_id"@ != "fix"@,
        "severity"@ != "fix"@,
        "source"@ != "fix"@,
        "file"@ != "fix"@,
        "line"@ != "fix"@,
        "evidence"@ != "fix"@,
        "consequence"@ != "fix"@,
        "total"@ != "critical"@,
        "total"@ != "high"@,
        "critical"@ != "high"@,
        "total"@ != "medium"@,
        "critical"@ != "medium"@,
        "high"@ != "medium"@,
        "total"@ != "low"@,
        "critical"@ != "low"@,
        "high"@ != "low"@,
        "medium"@ != "low"@,
        "total"@ != "info"@,
        "critical"@ != "info"@,
        "high"@ != "info"@,
        "medium"@ != "info"@,
        "low"@ != "info"@,
{
    reveal_strlit("findings");
    reveal_strlit("summary");
    reveal_strlit("rule_id");
    reveal_strlit("severity");
    reveal_strlit("source");
    reveal_strlit("file");
    reveal_strlit("line");
    reveal_strlit("evidence");
    reveal_strlit("consequence");
    reveal_strlit("fix");
    reveal_strlit("total");
    reveal_strlit("critical");
    reveal_strlit("high");
    reveal_strlit("medium");
    reveal_strlit("low");
    reveal_strlit("info");
    assert("findings"@.len() == 8 && "summary"@.len() == 7);
    assert("rule_id"@.len() == 7 && "severity"@.len() == 8 && "source"@.len() == 6);
    assert("file"@.len() == 4 && "line"@.len() == 4 && "file"@[0] == 'f' && "line"@[0] == 'l');
    assert("evidence"@.len() == 8 && "evidence"@[0] == 'e' && "severity"@[0] == 's');
    assert("consequence"@.len() == 11 && "fix"@.len() == 3);
    assert("total"@.len() == 5 && "critical"@.len() == 8 && "high"@.len() == 4);
    assert("medium"@.len() == 6 && "low"@.len() == 3 && "info"@.len() == 4);
    assert("high"@[0] == 'h' && "info"@[0] == 'i');
}

/// The way to one thing that a report says of a finding.
pub open spec fn field(k: int, name: Seq<char>) -> Seq<Step> {
    seq![Step::Member("findings"@), Step::Item(k), Step::Member(name)]
}

proof fn lemma_field(fs: Seq<FindingView>, k: int, j: int)
    requires
        0 <= k < fs.len(),
        0 <= j < json::finding_members(fs[k]).len(),
    ensures
        at(json::report_tree(fs), field(k, json::finding_members(fs[k])[j].0)) == Some(
            json::finding_members(fs[k])[j].1,
        ),
        at(json::report_tree(fs), seq![Step::Member("findings"@)]) == Some(
            Tree::Array(json::finding_trees(fs)),
        ),
        at(json::report_tree(fs), seq![Step::Member("findings"@), Step::Item(k)]) == Some(
            Tree::Object(json::finding_members(fs[k])),
        ),
{
    lemma_json_names();
    let t = json::report_tree(fs);
    let ms = json::finding_members(fs[k]);
    lemma_member(json::report_members(fs), 0);
    assert(forall|i: int| 0 <= i < j ==> (#[trigger] ms[i]).0 != ms[j].0);
    lemma_member(ms, j);
    let p = seq![Step::Member("findings"@)];
    lemma_at_one(t, Step::Member("findings"@));
    lemma_at_next(t, p, Step::Item(k));
    let q = p.push(Step::Item(k));
    assert(q =~= seq![Step::Member("findings"@), Step::Item(k)]);
    lemma_at_next(t, q, Step::Member(ms[j].0));
    assert(q.push(Step::Member(ms[j].0)) =~= field(k, ms[j].0));
}

/// A report in JSON has one entry for each finding, in the same order, and the
/// entry says everything that the finding says.
pub proof fn law_entries_repeat_their_finding(fs: Seq<FindingView>, k: int)
    requires
        0 <= k < fs.len(),
    ensures
        width(at(json::report_tree(fs), seq![Step::Member("findings"@)])) == fs.len(),
        width(at(json::report_tree(fs), seq![Step::Member("findings"@), Step::Item(k)])) == 8,
        at(json::report_tree(fs), field(k, "rule_id"@)) == Some(Tree::Text(fs[k].rule_id)),
        at(json::report_tree(fs), field(k, "file"@)) == Some(Tree::Text(fs[k].file)),
        at(json::report_tree(fs), field(k, "line"@)) == Some(Tree::Number(fs[k].line)),
        at(json::report_tree(fs), field(k, "evidence"@)) == Some(Tree::Text(fs[k].evidence)),
        at(json::report_tree(fs), field(k, "consequence"@)) == Some(Tree::Text(fs[k].consequence)),
        at(json::report_tree(fs), field(k, "fix"@)) == Some(Tree::Text(fs[k].fix)),
        at(json::report_tree(fs), field(k, "severity"@)) == Some(
            Tree::Text(severity_word(fs[k].severity)),
        ),
        at(json::report_tree(fs), field(k, "source"@)) == Some(
            Tree::Text(source_word(fs[k].source)),
        ),
{
    lemma_field(fs, k, 0);
    lemma_field(fs, k, 1);
    lemma_field(fs, k, 2);
    lemma_field(fs, k, 3);
    lemma_field(fs, k, 4);
    lemma_field(fs, k, 5);
    lemma_field(fs, k, 6);
    lemma_field(fs, k, 7);
}

/// The word for a severity.
pub open spec fn severity_word(severity: Severity) -> Seq<char> {
    match severity {
        Severity::Critical => "critical"@,
        Severity::High => "high"@,
        Severity::Medium => "medium"@,
        Severity::Low => "low"@,
        Severity::Info => "info"@,
    }
}

/// The word for a kind of file.
pub open spec fn source_word(source: SourceKind) -> Seq<char> {
    match source {
        SourceKind::Sshd => "sshd"@,
        SourceKind::Nginx => "nginx"@,
        SourceKind::Dockerfile => "dockerfile"@,
    }
}

/// The number of findings of a severity.
pub open spec fn how_many(fs: Seq<FindingView>, severity: Severity) -> nat {
    fs.filter(|f: FindingView| f.severity == severity).len()
}

/// Findings are counted by their severity.
pub proof fn law_counts(fs: Seq<FindingView>, severity: Severity)
    ensures
        count_of(fs, severity) == how_many(fs, severity),
    decreases fs.len(),
{
    reveal(Seq::filter);
    if fs.len() > 0 {
        law_counts(fs.drop_last(), severity);
    }
}

/// A summary holds the number of findings, in all and of each severity.
pub proof fn law_summary_counts(s: Summary, fs: Seq<FindingView>)
    ensures
        s.sums_up(fs) <==> {
            &&& s.total == fs.len()
            &&& s.critical == how_many(fs, Severity::Critical)
            &&& s.high == how_many(fs, Severity::High)
            &&& s.medium == how_many(fs, Severity::Medium)
            &&& s.low == how_many(fs, Severity::Low)
            &&& s.info == how_many(fs, Severity::Info)
        },
{
    law_counts(fs, Severity::Critical);
    law_counts(fs, Severity::High);
    law_counts(fs, Severity::Medium);
    law_counts(fs, Severity::Low);
    law_counts(fs, Severity::Info);
}

/// The way to one number of the summary.
pub open spec fn sum(name: Seq<char>) -> Seq<Step> {
    seq![Step::Member("summary"@), Step::Member(name)]
}

/// A report in JSON gives the number of findings, in all and of each severity.
pub proof fn law_report_gives_the_numbers(fs: Seq<FindingView>)
    ensures
        width(Some(json::report_tree(fs))) == 2,
        width(at(json::report_tree(fs), seq![Step::Member("summary"@)])) == 6,
        at(json::report_tree(fs), sum("total"@)) == Some(Tree::Number(fs.len())),
        at(json::report_tree(fs), sum("critical"@)) == Some(
            Tree::Number(how_many(fs, Severity::Critical)),
        ),
        at(json::report_tree(fs), sum("high"@)) == Some(Tree::Number(how_many(fs, Severity::High))),
        at(json::report_tree(fs), sum("medium"@)) == Some(
            Tree::Number(how_many(fs, Severity::Medium)),
        ),
        at(json::report_tree(fs), sum("low"@)) == Some(Tree::Number(how_many(fs, Severity::Low))),
        at(json::report_tree(fs), sum("info"@)) == Some(Tree::Number(how_many(fs, Severity::Info))),
{
    law_counts(fs, Severity::Critical);
    law_counts(fs, Severity::High);
    law_counts(fs, Severity::Medium);
    law_counts(fs, Severity::Low);
    law_counts(fs, Severity::Info);
    lemma_sum(fs, 0);
    lemma_sum(fs, 1);
    lemma_sum(fs, 2);
    lemma_sum(fs, 3);
    lemma_sum(fs, 4);
    lemma_sum(fs, 5);
}

proof fn lemma_sum(fs: Seq<FindingView>, j: int)
    requires
        0 <= j < json::summary_members(fs).len(),
    ensures
        at(json::report_tree(fs), sum(json::summary_members(fs)[j].0)) == Some(
            json::summary_members(fs)[j].1,
        ),
        at(json::report_tree(fs), seq![Step::Member("summary"@)]) == Some(
            Tree::Object(json::summary_members(fs)),
        ),
{
    lemma_json_names();
    let t = json::report_tree(fs);
    let ms = json::summary_members(fs);
    lemma_member(json::report_members(fs), 1);
    assert(forall|i: int| 0 <= i < j ==> (#[trigger] ms[i]).0 != ms[j].0);
    lemma_member(ms, j);
    let p = seq![Step::Member("summary"@)];
    lemma_at_one(t, Step::Member("summary"@));
    lemma_at_next(t, p, Step::Member(ms[j].0));
    assert(p.push(Step::Member(ms[j].0)) =~= sum(ms[j].0));
}

/// What a plain report writes for one finding.
pub open spec fn entry(f: FindingView) -> Seq<char> {
    let place = if f.line == 0 {
        f.file
    } else {
        f.file + ":"@ + texts::decimal_text(f.line)
    };
    texts::joined(
        seq![
            "["@ + severity_word(f.severity) + "] "@ + f.rule_id + " ("@ + source_word(f.source)
                + ") - "@ + place,
            "  found:      "@ + f.evidence,
            "  consequence: "@ + f.consequence,
            "  fix:        "@ + f.fix,
            Seq::empty(),
            Seq::empty(),
        ],
        seq!['\n'],
    )
}

proof fn lemma_entry(f: FindingView)
    ensures
        text::finding_text(f) == entry(f),
{
    reveal_strlit("\n  found:      ");
    reveal_strlit("  found:      ");
    reveal_strlit("\n  consequence: ");
    reveal_strlit("  consequence: ");
    reveal_strlit("\n  fix:        ");
    reveal_strlit("  fix:        ");
    reveal_strlit("\n\n");
    let nl = seq!['\n'];
    assert("\n  found:      "@ =~= nl + "  found:      "@);
    assert("\n  consequence: "@ =~= nl + "  consequence: "@);
    assert("\n  fix:        "@ =~= nl + "  fix:        "@);
    assert("\n\n"@ =~= nl + nl);
    let none = Seq::<char>::empty();
    let place = if f.line == 0 {
        f.file
    } else {
        f.file + ":"@ + texts::decimal_text(f.line)
    };
    let a = "["@ + severity_word(f.severity) + "] "@ + f.rule_id + " ("@ + source_word(f.source)
        + ") - "@ + place;
    let b = "  found:      "@ + f.evidence;
    let c = "  consequence: "@ + f.consequence;
    let d = "  fix:        "@ + f.fix;
    let all = seq![a, b, c, d, none, none];
    let p1 = seq![a];
    let p2 = seq![a, b];
    let p3 = seq![a, b, c];
    let p4 = seq![a, b, c, d];
    let p5 = seq![a, b, c, d, none];
    assert(p2.drop_last() =~= p1);
    assert(p3.drop_last() =~= p2);
    assert(p4.drop_last() =~= p3);
    assert(p5.drop_last() =~= p4);
    assert(all.drop_last() =~= p5);
    assert(texts::joined(p1, nl) == a);
    assert(texts::joined(p2, nl) == a + nl + b);
    assert(texts::joined(p3, nl) == a + nl + b + nl + c);
    assert(texts::joined(p4, nl) == a + nl + b + nl + c + nl + d);
    assert(texts::joined(p5, nl) == a + nl + b + nl + c + nl + d + nl + none);
    assert(texts::joined(all, nl) == a + nl + b + nl + c + nl + d + nl + none + nl + none);
    assert(text::location(f) == place);
    assert(text::finding_text(f) =~= a + nl + b + nl + c + nl + d + nl + none + nl + none);
}

/// A plain report is what it writes for each finding, in order, and one line
/// with the numbers; without findings it is one line that says so.
pub proof fn law_plain_report(fs: Seq<FindingView>, f: FindingView)
    ensures
        text::rendered(Seq::empty()) == "No findings.\n"@,
        text::findings_text(Seq::empty()) == Seq::<char>::empty(),
        text::findings_text(fs.push(f)) == text::findings_text(fs) + entry(f),
        fs.len() > 0 ==> text::rendered(fs) == text::findings_text(fs) + "Summary: "@
            + texts::decimal_text(fs.len()) + " finding(s) - critical="@ + texts::decimal_text(
            how_many(fs, Severity::Critical),
        ) + " high="@ + texts::decimal_text(how_many(fs, Severity::High)) + " medium="@
            + texts::decimal_text(how_many(fs, Severity::Medium)) + " low="@ + texts::decimal_text(
            how_many(fs, Severity::Low),
        ) + " info="@ + texts::decimal_text(how_many(fs, Severity::Info)) + "\n"@,
{
    lemma_entry(f);
    assert(fs.push(f).drop_last() =~= fs);
    law_counts(fs, Severity::Critical);
    law_counts(fs, Severity::High);
    law_counts(fs, Severity::Medium);
    law_counts(fs, Severity::Low);
    law_counts(fs, Severity::Info);
    if fs.len() > 0 {
        assert(text::rendered(fs) =~= text::findings_text(fs) + "Summary: "@ + texts::decimal_text(
            fs.len(),
        ) + " finding(s) - critical="@ + texts::decimal_text(how_many(fs, Severity::Critical))
            + " high="@ + texts::decimal_text(how_many(fs, Severity::High)) + " medium="@
            + texts::decimal_text(how_many(fs, Severity::Medium)) + " low="@ + texts::decimal_text(
            how_many(fs, Severity::Low),
        ) + " info="@ + texts::decimal_text(how_many(fs, Severity::Info)) + "\n"@);
    }
}

} // verus!
