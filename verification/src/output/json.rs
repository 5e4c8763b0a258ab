//! JSON output: the list of findings and a summary count, suitable for machine
//! consumption.

use crate::finding::{views, Finding, FindingView, Severity};
use crate::output::document::{
    add_item, add_member, array_of, item_views, lemma_array, lemma_object, member_views, no_items,
    no_members, object_of, pretty, pretty_text, text_of, well_named, Json, RenderError, Tree,
};
use crate::output::{count_of, summarize};
use vstd::prelude::*;

verus! {

/// The members of the object that a finding is shown as.
pub open spec fn finding_members(f: FindingView) -> Seq<(Seq<char>, Tree)> {
    seq![
        ("rule_id"@, Tree::Text(f.rule_id)),
        ("severity"@, Tree::Text(f.severity.name())),
        ("source"@, Tree::Text(f.source.name())),
        ("file"@, Tree::Text(f.file)),
        ("line"@, Tree::Number(f.line)),
        ("evidence"@, Tree::Text(f.evidence)),
        ("consequence"@, Tree::Text(f.consequence)),
        ("fix"@, Tree::Text(f.fix)),
    ]
}

/// Findings as a list of objects.
pub open spec fn finding_trees(fs: Seq<FindingView>) -> Seq<Tree> {
    fs.map_values(|f: FindingView| Tree::Object(finding_members(f)))
}

/// The members of the object that sums up findings.
pub open spec fn summary_members(fs: Seq<FindingView>) -> Seq<(Seq<char>, Tree)> {
    seq![
        ("total"@, Tree::Number(fs.len())),
        ("critical"@, Tree::Number(count_of(fs, Severity::Critical))),
        ("high"@, Tree::Number(count_of(fs, Severity::High))),
        ("medium"@, Tree::Number(count_of(fs, Severity::Medium))),
        ("low"@, Tree::Number(count_of(fs, Severity::Low))),
        ("info"@, Tree::Number(count_of(fs, Severity::Info))),
    ]
}

/// The members of the whole report.
pub open spec fn report_members(fs: Seq<FindingView>) -> Seq<(Seq<char>, Tree)> {
    seq![
        ("findings"@, Tree::Array(finding_trees(fs))),
        ("summary"@, Tree::Object(summary_members(fs))),
    ]
}

/// The whole report.
pub open spec fn report_tree(fs: Seq<FindingView>) -> Tree {
    Tree::Object(report_members(fs))
}

proof fn lemma_finding_well_named(f: FindingView)
    ensures
        well_named(Tree::Object(finding_members(f))),
{
    reveal_strlit("rule_id");
    assert("rule_id"@.len() == 7);
    reveal_strlit("severity");
    assert("severity"@.len() == 8);
    reveal_strlit("source");
    assert("source"@.len() == 6);
    reveal_strlit("file");
    assert("file"@.len() == 4);
    reveal_strlit("line");
    assert("line"@.len() == 4);
    reveal_strlit("evidence");
    assert("evidence"@.len() == 8);
    reveal_strlit("consequence");
    assert("consequence"@.len() == 11);
    reveal_strlit("fix");
    assert("fix"@.len() == 3);
    assert("severity"@[0] != "evidence"@[0]);
    assert("file"@[0] != "line"@[0]);
    lemma_object(finding_members(f));
}

proof fn lemma_summary_well_named(fs: Seq<FindingView>)
    ensures
        well_named(Tree::Object(summary_members(fs))),
{
    reveal_strlit("total");
    assert("total"@.len() == 5);
    reveal_strlit("critical");
    assert("critical"@.len() == 8);
    reveal_strlit("high");
    assert("high"@.len() == 4);
    reveal_strlit("medium");
    assert("medium"@.len() == 6);
    reveal_strlit("low");
    assert("low"@.len() == 3);
    reveal_strlit("info");
    assert("info"@.len() == 4);
    assert("high"@[0] != "info"@[0]);
    lemma_object(summary_members(fs));
}

/// In a report no object names a member twice.
pub proof fn law_report_is_well_named(fs: Seq<FindingView>)
    ensures
        well_named(report_tree(fs)),
{
    assert forall|i: int| 0 <= i < fs.len() implies well_named(
        #[trigger] finding_trees(fs)[i],
    ) by {
        lemma_finding_well_named(fs[i]);
    }
    lemma_array(finding_trees(fs));
    lemma_summary_well_named(fs);
    reveal_strlit("findings");
    assert("findings"@.len() == 8);
    reveal_strlit("summary");
    assert("summary"@.len() == 7);
    lemma_object(report_members(fs));
}

/// A finding as an object.
fn finding_object(f: &Finding) -> (r: Json)
    ensures
        r@ == Tree::Object(finding_members(f@)),
{
    let mut members = no_members();
    add_member(&mut members, "rule_id", text_of(f.rule_id.as_str()));
    add_member(&mut members, "severity", text_of(f.severity.as_str()));
    add_member(&mut members, "source", text_of(f.source.as_str()));
    add_member(&mut members, "file", text_of(f.file.as_str()));
    add_member(&mut members, "line", Json::Number(f.line));
    add_member(&mut members, "evidence", text_of(f.evidence.as_str()));
    add_member(&mut members, "consequence", text_of(f.consequence.as_str()));
    add_member(&mut members, "fix", text_of(f.fix.as_str()));
    assert(member_views(members@) =~= finding_members(f@));
    object_of(members)
}

/// The summary as an object.
fn summary_object(findings: &[Finding]) -> (r: Json)
    ensures
        r@ == Tree::Object(summary_members(views(findings@))),
{
    let s = summarize(findings);
    let mut members = no_members();
    add_member(&mut members, "total", Json::Number(s.total));
    add_member(&mut members, "critical", Json::Number(s.critical));
    add_member(&mut members, "high", Json::Number(s.high));
    add_member(&mut members, "medium", Json::Number(s.medium));
    add_member(&mut members, "low", Json::Number(s.low));
    add_member(&mut members, "info", Json::Number(s.info));
    assert(member_views(members@) =~= summary_members(views(findings@)));
    object_of(members)
}

/// The report of findings, as a document.
#[must_use]
pub fn report(findings: &[Finding]) -> (r: Json)
    ensures
        r@ == report_tree(views(findings@)),
{
    let ghost fv = views(findings@);
    let mut items = no_items();
    let mut i: usize = 0;
    assert(item_views(items@) =~= finding_trees(fv.take(0)));
    while i < findings.len()
        invariant
            i <= findings@.len(),
            fv == views(findings@),
            item_views(items@) == finding_trees(fv.take(i as int)),
        decreases findings@.len() - i,
    {
        add_item(&mut items, finding_object(&findings[i]));
        assert(item_views(items@) =~= finding_trees(fv.take(i + 1)));
        i += 1;
    }
    assert(fv.take(i as int) =~= fv);
    let mut members = no_members();
    add_member(&mut members, "findings", array_of(items));
    add_member(&mut members, "summary", summary_object(findings));
    assert(member_views(members@) =~= report_members(fv));
    object_of(members)
}

/// Renders findings as JSON.
///
/// # Errors
/// Returns an error only if serialization itself fails, which it does not for
/// a document.
pub fn render(findings: &[Finding]) -> (r: Result<String, RenderError>)
    ensures
        r is Ok && r->Ok_0@ == pretty_text(report_tree(views(findings@))),
{
    proof {
        law_report_is_well_named(views(findings@));
    }
    pretty(&report(findings))
}

} // verus!
