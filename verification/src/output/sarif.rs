//! SARIF 2.1.0 output for GitHub code scanning.
//!
//! The members of every object are in alphabetical order.

use crate::finding::{views, Finding, FindingView};
use crate::output::document::{
    add_item, add_member, array_of, item_views, lemma_array, lemma_object, member_views, no_items,
    no_members, object_of, pretty, pretty_text, text_of, well_named, Json, RenderError, Tree,
};
use crate::text;
use vstd::prelude::*;

verus! {

/// Where the schema of the format is published.
pub const SCHEMA: &'static str =
    "https://raw.githubusercontent.com/oasis-tcs/sarif-spec/master/Schemata/sarif-schema-2.1.0.json";

/// The version of the format.
pub const FORMAT_VERSION: &'static str = "2.1.0";

/// The name of the tool.
pub const TOOL_NAME: &'static str = "confaudit";

/// Where the tool is published.
pub const TOOL_URI: &'static str = "https://github.com/hellpuffyt/confaudit";

/// The version of the tool.
pub const TOOL_VERSION: &'static str = "0.1.0";

/// The place of a rule among rules in the order of their ids: behind those,
/// from the `i`-th on, whose id is smaller.
pub open spec fn place(table: Seq<FindingView>, id: Seq<char>, i: int) -> int
    decreases table.len() - i,
{
    if 0 <= i < table.len() && text::text_less(table[i].rule_id, id) {
        place(table, id, i + 1)
    } else {
        i
    }
}

/// Adds a finding at its place, unless its rule is there already.
pub open spec fn entered(table: Seq<FindingView>, f: FindingView) -> Seq<FindingView> {
    let i = place(table, f.rule_id, 0);
    if i < table.len() && table[i].rule_id == f.rule_id {
        table
    } else {
        table.insert(i, f)
    }
}

/// For each rule the first of its findings, in the order of the rules' ids.
pub open spec fn rule_table(fs: Seq<FindingView>) -> Seq<FindingView>
    decreases fs.len(),
{
    if fs.len() == 0 {
        Seq::empty()
    } else {
        entered(rule_table(fs.drop_last()), fs.last())
    }
}

/// The line that a result points to: the first, if none applies.
pub open spec fn start_line(line: nat) -> nat {
    if line == 0 {
        1
    } else {
        line
    }
}

/// What a result says.
pub open spec fn message_text(f: FindingView) -> Seq<char> {
    f.consequence + " | fix: "@ + f.fix
}

/// The members of an object that holds a text.
pub open spec fn text_members(t: Seq<char>) -> Seq<(Seq<char>, Tree)> {
    seq![("text"@, Tree::Text(t))]
}

/// The members of a rule.
pub open spec fn rule_members(f: FindingView) -> Seq<(Seq<char>, Tree)> {
    seq![
        ("help"@, Tree::Object(text_members(f.fix))),
        ("id"@, Tree::Text(f.rule_id)),
        ("shortDescription"@, Tree::Object(text_members(f.consequence))),
    ]
}

/// The rules that findings violate.
pub open spec fn rule_trees(table: Seq<FindingView>) -> Seq<Tree> {
    table.map_values(|f: FindingView| Tree::Object(rule_members(f)))
}

/// The members of the object that names a file.
pub open spec fn artifact_members(f: FindingView) -> Seq<(Seq<char>, Tree)> {
    seq![("uri"@, Tree::Text(f.file))]
}

/// The members of the object that names a line.
pub open spec fn region_members(f: FindingView) -> Seq<(Seq<char>, Tree)> {
    seq![("startLine"@, Tree::Number(start_line(f.line)))]
}

/// The members of a place in a file.
pub open spec fn physical_members(f: FindingView) -> Seq<(Seq<char>, Tree)> {
    seq![
        ("artifactLocation"@, Tree::Object(artifact_members(f))),
        ("region"@, Tree::Object(region_members(f))),
    ]
}

/// The members of a location.
pub open spec fn location_members(f: FindingView) -> Seq<(Seq<char>, Tree)> {
    seq![("physicalLocation"@, Tree::Object(physical_members(f)))]
}

/// The members of a result.
pub open spec fn result_members(f: FindingView) -> Seq<(Seq<char>, Tree)> {
    seq![
        ("level"@, Tree::Text(f.severity.level())),
        ("locations"@, Tree::Array(seq![Tree::Object(location_members(f))])),
        ("message"@, Tree::Object(text_members(message_text(f)))),
        ("ruleId"@, Tree::Text(f.rule_id)),
    ]
}

/// The results.
pub open spec fn result_trees(fs: Seq<FindingView>) -> Seq<Tree> {
    fs.map_values(|f: FindingView| Tree::Object(result_members(f)))
}

/// The members of the description of the tool.
pub open spec fn driver_members(fs: Seq<FindingView>) -> Seq<(Seq<char>, Tree)> {
    seq![
        ("informationUri"@, Tree::Text(TOOL_URI@)),
        ("name"@, Tree::Text(TOOL_NAME@)),
        ("rules"@, Tree::Array(rule_trees(rule_table(fs)))),
        ("version"@, Tree::Text(TOOL_VERSION@)),
    ]
}

/// The members of the tool.
pub open spec fn tool_members(fs: Seq<FindingView>) -> Seq<(Seq<char>, Tree)> {
    seq![("driver"@, Tree::Object(driver_members(fs)))]
}

/// The members of a run.
pub open spec fn run_members(fs: Seq<FindingView>) -> Seq<(Seq<char>, Tree)> {
    seq![
        ("results"@, Tree::Array(result_trees(fs))),
        ("tool"@, Tree::Object(tool_members(fs))),
    ]
}

/// The members of the whole document.
pub open spec fn log_members(fs: Seq<FindingView>) -> Seq<(Seq<char>, Tree)> {
    seq![
        ("$schema"@, Tree::Text(SCHEMA@)),
        ("runs"@, Tree::Array(seq![Tree::Object(run_members(fs))])),
        ("version"@, Tree::Text(FORMAT_VERSION@)),
    ]
}

/// The whole document.
pub open spec fn log_tree(fs: Seq<FindingView>) -> Tree {
    Tree::Object(log_members(fs))
}

/// The text of a document, or an empty object where it has none.
pub open spec fn text_or_empty(t: Option<Seq<char>>) -> Seq<char> {
    match t {
        Some(s) => s,
        None => "{}"@,
    }
}

proof fn lemma_rule_well_named(f: FindingView)
    ensures
        well_named(Tree::Object(rule_members(f))),
{
    reveal_strlit("help");
    assert("help"@.len() == 4);
    reveal_strlit("id");
    assert("id"@.len() == 2);
    reveal_strlit("shortDescription");
    assert("shortDescription"@.len() == 16);
    lemma_object(text_members(f.fix));
    lemma_object(text_members(f.consequence));
    lemma_object(rule_members(f));
}

proof fn lemma_physical_well_named(f: FindingView)
    ensures
        well_named(Tree::Object(physical_members(f))),
{
    reveal_strlit("artifactLocation");
    assert("artifactLocation"@.len() == 16);
    reveal_strlit("region");
    assert("region"@.len() == 6);
    lemma_object(artifact_members(f));
    lemma_object(region_members(f));
    lemma_object(physical_members(f));
}

proof fn lemma_result_well_named(f: FindingView)
    ensures
        well_named(Tree::Object(result_members(f))),
{
    reveal_strlit("level");
    assert("level"@.len() == 5);
    reveal_strlit("locations");
    assert("locations"@.len() == 9);
    reveal_strlit("message");
    assert("message"@.len() == 7);
    reveal_strlit("ruleId");
    assert("ruleId"@.len() == 6);
    lemma_physical_well_named(f);
    lemma_object(location_members(f));
    lemma_array(seq![Tree::Object(location_members(f))]);
    lemma_object(text_members(message_text(f)));
    lemma_object(result_members(f));
}

proof fn lemma_driver_well_named(fs: Seq<FindingView>)
    ensures
        well_named(Tree::Object(driver_members(fs))),
{
    reveal_strlit("informationUri");
    assert("informationUri"@.len() == 14);
    reveal_strlit("name");
    assert("name"@.len() == 4);
    reveal_strlit("rules");
    assert("rules"@.len() == 5);
    reveal_strlit("version");
    assert("version"@.len() == 7);
    let table = rule_table(fs);
    assert forall|i: int| 0 <= i < table.len() implies well_named(
        #[trigger] rule_trees(table)[i],
    ) by {
        lemma_rule_well_named(table[i]);
    }
    lemma_array(rule_trees(table));
    lemma_object(driver_members(fs));
}

proof fn lemma_run_well_named(fs: Seq<FindingView>)
    ensures
        well_named(Tree::Object(run_members(fs))),
{
    reveal_strlit("results");
    assert("results"@.len() == 7);
    reveal_strlit("tool");
    assert("tool"@.len() == 4);
    assert forall|i: int| 0 <= i < fs.len() implies well_named(#[trigger] result_trees(fs)[i]) by {
        lemma_result_well_named(fs[i]);
    }
    lemma_array(result_trees(fs));
    lemma_driver_well_named(fs);
    lemma_object(tool_members(fs));
    lemma_object(run_members(fs));
}

/// In a SARIF document no object names a member twice.
pub proof fn law_log_is_well_named(fs: Seq<FindingView>)
    ensures
        well_named(log_tree(fs)),
{
    reveal_strlit("$schema");
    assert("$schema"@.len() == 7);
    reveal_strlit("runs");
    assert("runs"@.len() == 4);
    reveal_strlit("version");
    assert("version"@.len() == 7);
    assert("$schema"@[0] != "version"@[0]);
    lemma_run_well_named(fs);
    lemma_array(seq![Tree::Object(run_members(fs))]);
    lemma_object(log_members(fs));
}

/// What the findings of a list of references say.
pub open spec fn ref_views(fs: Seq<&Finding>) -> Seq<FindingView> {
    fs.map_values(|f: &Finding| f@)
}

/// The first finding of each rule, in the order of the rules' ids.
fn first_of_each_rule(findings: &[Finding]) -> (r: Vec<&Finding>)
    ensures
        ref_views(r@) == rule_table(views(findings@)),
{
    let ghost fv = views(findings@);
    let mut table: Vec<&Finding> = Vec::new();
    let mut i: usize = 0;
    assert(ref_views(table@) =~= Seq::empty());
    while i < findings.len()
        invariant
            i <= findings@.len(),
            fv == views(findings@),
            ref_views(table@) == rule_table(fv.take(i as int)),
        decreases findings@.len() - i,
    {
        let f = &findings[i];
        let ghost tv = ref_views(table@);
        proof {
            assert(fv.take(i + 1).drop_last() =~= fv.take(i as int));
            assert(fv.take(i + 1).last() == f@);
        }
        let mut at: usize = 0;
        while at < table.len() && text::less(table[at].rule_id.as_str(), f.rule_id.as_str())
            invariant
                at <= table@.len(),
                tv == ref_views(table@),
                place(tv, f@.rule_id, 0) == place(tv, f@.rule_id, at as int),
            decreases table@.len() - at,
        {
            assert(tv[at as int] == table@[at as int]@);
            at += 1;
        }
        assert(at < table@.len() ==> tv[at as int] == table@[at as int]@);
        if at < table.len() && table[at].rule_id == f.rule_id {
            assert(entered(tv, f@) == tv);
        } else {
            table.insert(at, f);
            assert(ref_views(table@) =~= entered(tv, f@));
        }
        i += 1;
    }
    assert(fv.take(i as int) =~= fv);
    table
}

/// An object that holds a text.
fn text_object(t: &str) -> (r: Json)
    ensures
        r@ == Tree::Object(text_members(t@)),
{
    let mut members = no_members();
    add_member(&mut members, "text", text_of(t));
    assert(member_views(members@) =~= text_members(t@));
    object_of(members)
}

/// A rule.
fn rule_object(f: &Finding) -> (r: Json)
    ensures
        r@ == Tree::Object(rule_members(f@)),
{
    let mut members = no_members();
    add_member(&mut members, "help", text_object(f.fix.as_str()));
    add_member(&mut members, "id", text_of(f.rule_id.as_str()));
    add_member(&mut members, "shortDescription", text_object(f.consequence.as_str()));
    assert(member_views(members@) =~= rule_members(f@));
    object_of(members)
}

/// The rules that findings violate.
fn rules_array(findings: &[Finding]) -> (r: Json)
    ensures
        r@ == Tree::Array(rule_trees(rule_table(views(findings@)))),
{
    let table = first_of_each_rule(findings);
    let ghost tv = ref_views(table@);
    let mut items = no_items();
    let mut i: usize = 0;
    assert(item_views(items@) =~= rule_trees(tv.take(0)));
    while i < table.len()
        invariant
            i <= table@.len(),
            tv == ref_views(table@),
            item_views(items@) == rule_trees(tv.take(i as int)),
        decreases table@.len() - i,
    {
        add_item(&mut items, rule_object(table[i]));
        assert(item_views(items@) =~= rule_trees(tv.take(i + 1)));
        i += 1;
    }
    assert(tv.take(i as int) =~= tv);
    array_of(items)
}

/// A place in a file.
fn physical_object(f: &Finding) -> (r: Json)
    ensures
        r@ == Tree::Object(physical_members(f@)),
{
    let mut artifact = no_members();
    add_member(&mut artifact, "uri", text_of(f.file.as_str()));
    assert(member_views(artifact@) =~= artifact_members(f@));
    let line: usize = if f.line == 0 {
        1
    } else {
        f.line
    };
    let mut region = no_members();
    add_member(&mut region, "startLine", Json::Number(line));
    assert(member_views(region@) =~= region_members(f@));
    let mut members = no_members();
    add_member(&mut members, "artifactLocation", object_of(artifact));
    add_member(&mut members, "region", object_of(region));
    assert(member_views(members@) =~= physical_members(f@));
    object_of(members)
}

/// A result.
fn result_object(f: &Finding) -> (r: Json)
    ensures
        r@ == Tree::Object(result_members(f@)),
{
    let mut location = no_members();
    add_member(&mut location, "physicalLocation", physical_object(f));
    assert(member_views(location@) =~= location_members(f@));
    let mut locations = no_items();
    add_item(&mut locations, object_of(location));
    assert(item_views(locations@) =~= seq![Tree::Object(location_members(f@))]);
    let mut message = f.consequence.clone();
    message.append(" | fix: ");
    message.append(f.fix.as_str());
    let mut members = no_members();
    add_member(&mut members, "level", text_of(f.severity.sarif_level()));
    add_member(&mut members, "locations", array_of(locations));
    add_member(&mut members, "message", text_object(message.as_str()));
    add_member(&mut members, "ruleId", text_of(f.rule_id.as_str()));
    assert(member_views(members@) =~= result_members(f@));
    object_of(members)
}

/// The results.
fn results_array(findings: &[Finding]) -> (r: Json)
    ensures
        r@ == Tree::Array(result_trees(views(findings@))),
{
    let ghost fv = views(findings@);
    let mut items = no_items();
    let mut i: usize = 0;
    assert(item_views(items@) =~= result_trees(fv.take(0)));
    while i < findings.len()
        invariant
            i <= findings@.len(),
            fv == views(findings@),
            item_views(items@) == result_trees(fv.take(i as int)),
        decreases findings@.len() - i,
    {
        add_item(&mut items, result_object(&findings[i]));
        assert(item_views(items@) =~= result_trees(fv.take(i + 1)));
        i += 1;
    }
    assert(fv.take(i as int) =~= fv);
    array_of(items)
}

/// The description of the tool.
fn driver_object(findings: &[Finding]) -> (r: Json)
    ensures
        r@ == Tree::Object(driver_members(views(findings@))),
{
    let mut members = no_members();
    add_member(&mut members, "informationUri", text_of(TOOL_URI));
    add_member(&mut members, "name", text_of(TOOL_NAME));
    add_member(&mut members, "rules", rules_array(findings));
    add_member(&mut members, "version", text_of(TOOL_VERSION));
    assert(member_views(members@) =~= driver_members(views(findings@)));
    object_of(members)
}

/// The SARIF log of findings, as a document.
#[must_use]
pub fn log(findings: &[Finding]) -> (r: Json)
    ensures
        r@ == log_tree(views(findings@)),
{
    let ghost fv = views(findings@);
    let mut tool = no_members();
    add_member(&mut tool, "driver", driver_object(findings));
    assert(member_views(tool@) =~= tool_members(fv));
    let mut run = no_members();
    add_member(&mut run, "results", results_array(findings));
    add_member(&mut run, "tool", object_of(tool));
    assert(member_views(run@) =~= run_members(fv));
    let mut runs = no_items();
    add_item(&mut runs, object_of(run));
    assert(item_views(runs@) =~= seq![Tree::Object(run_members(fv))]);
    let mut members = no_members();
    add_member(&mut members, "$schema", text_of(SCHEMA));
    add_member(&mut members, "runs", array_of(runs));
    add_member(&mut members, "version", text_of(FORMAT_VERSION));
    assert(member_views(members@) =~= log_members(fv));
    object_of(members)
}

/// The text that came of serializing a document, or an empty object where
/// that failed.
#[must_use]
pub fn or_empty(serialized: Result<String, RenderError>) -> (r: String)
    ensures
        r@ == text_or_empty(
            match serialized {
                Ok(s) => Some(s@),
                Err(_) => None,
            },
        ),
{
    match serialized {
        Ok(s) => s,
        Err(_) => "{}".to_owned(),
    }
}

/// Renders findings as SARIF.
#[must_use]
pub fn render(findings: &[Finding]) -> (r: String)
    ensures
        r@ == pretty_text(log_tree(views(findings@))),
{
    proof {
        law_log_is_well_named(views(findings@));
    }
    or_empty(pretty(&log(findings)))
}

} // verus!
