//! Human-readable text output.

use crate::finding::{views, Finding, FindingView, Severity};
use crate::output::{count_of, summarize};
use crate::text;
use vstd::prelude::*;

verus! {

/// Where a finding lies: the file, and the line if there is one.
pub open spec fn location(f: FindingView) -> Seq<char> {
    if f.line == 0 {
        f.file
    } else {
        f.file + ":"@ + text::decimal_text(f.line)
    }
}

/// A finding as it is shown.
pub open spec fn finding_text(f: FindingView) -> Seq<char> {
    "["@ + f.severity.name() + "] "@ + f.rule_id + " ("@ + f.source.name() + ") - "@ + location(f)
        + "\n  found:      "@ + f.evidence + "\n  consequence: "@ + f.consequence
        + "\n  fix:        "@ + f.fix + "\n\n"@
}

/// Findings as they are shown, one after the other.
pub open spec fn findings_text(fs: Seq<FindingView>) -> Seq<char>
    decreases fs.len(),
{
    if fs.len() == 0 {
        Seq::empty()
    } else {
        findings_text(fs.drop_last()) + finding_text(fs.last())
    }
}

/// The line that sums up findings.
pub open spec fn summary_text(fs: Seq<FindingView>) -> Seq<char> {
    "Summary: "@ + text::decimal_text(fs.len()) + " finding(s) - critical="@ + text::decimal_text(
        count_of(fs, Severity::Critical),
    ) + " high="@ + text::decimal_text(count_of(fs, Severity::High)) + " medium="@
        + text::decimal_text(count_of(fs, Severity::Medium)) + " low="@ + text::decimal_text(
        count_of(fs, Severity::Low),
    ) + " info="@ + text::decimal_text(count_of(fs, Severity::Info)) + "\n"@
}

/// The whole report.
pub open spec fn rendered(fs: Seq<FindingView>) -> Seq<char> {
    if fs.len() == 0 {
        "No findings.\n"@
    } else {
        findings_text(fs) + summary_text(fs)
    }
}

/// Where a finding lies.
fn render_location(f: &Finding) -> (r: String)
    ensures
        r@ == location(f@),
{
    let mut out = f.file.clone();
    if f.line != 0 {
        out.append(":");
        out.append(text::decimal(f.line).as_str());
    }
    out
}

/// One finding.
fn render_finding(f: &Finding) -> (r: String)
    ensures
        r@ == finding_text(f@),
{
    let mut out = "[".to_owned();
    out.append(f.severity.as_str());
    out.append("] ");
    out.append(f.rule_id.as_str());
    out.append(" (");
    out.append(f.source.as_str());
    out.append(") - ");
    out.append(render_location(f).as_str());
    out.append("\n  found:      ");
    out.append(f.evidence.as_str());
    out.append("\n  consequence: ");
    out.append(f.consequence.as_str());
    out.append("\n  fix:        ");
    out.append(f.fix.as_str());
    out.append("\n\n");
    out
}

/// The line that sums up findings.
fn render_summary(findings: &[Finding]) -> (r: String)
    ensures
        r@ == summary_text(views(findings@)),
{
    let s = summarize(findings);
    let mut out = "Summary: ".to_owned();
    out.append(text::decimal(s.total).as_str());
    out.append(" finding(s) - critical=");
    out.append(text::decimal(s.critical).as_str());
    out.append(" high=");
    out.append(text::decimal(s.high).as_str());
    out.append(" medium=");
    out.append(text::decimal(s.medium).as_str());
    out.append(" low=");
    out.append(text::decimal(s.low).as_str());
    out.append(" info=");
    out.append(text::decimal(s.info).as_str());
    out.append("\n");
    out
}

/// Renders findings as text.
#[must_use]
pub fn render(findings: &[Finding]) -> (r: String)
    ensures
        r@ == rendered(views(findings@)),
{
    let ghost fv = views(findings@);
    if findings.len() == 0 {
        return "No findings.\n".to_owned();
    }
    let mut out = String::new();
    let mut i: usize = 0;
    while i < findings.len()
        invariant
            i <= findings@.len(),
            fv == views(findings@),
            out@ == findings_text(fv.take(i as int)),
        decreases findings@.len() - i,
    {
        assert(fv.take(i + 1).drop_last() =~= fv.take(i as int));
        assert(fv.take(i + 1).last() == findings@[i as int]@);
        out.append(render_finding(&findings[i]).as_str());
        i += 1;
    }
    assert(fv.take(i as int) =~= fv);
    out.append(render_summary(findings).as_str());
    out
}

/// The report says that there are no findings exactly when there are none:
/// any other report begins with a bracket.
pub proof fn law_report_shows_findings(fs: Seq<FindingView>)
    ensures
        fs.len() == 0 <==> rendered(fs) == "No findings.\n"@,
        fs.len() > 0 ==> rendered(fs)[0] == '[',
{
    reveal_strlit("No findings.\n");
    if fs.len() > 0 {
        lemma_begins_with_bracket(fs);
        assert(rendered(fs)[0] != "No findings.\n"@[0]);
    }
}

proof fn lemma_begins_with_bracket(fs: Seq<FindingView>)
    requires
        fs.len() > 0,
    ensures
        findings_text(fs).len() > 0,
        findings_text(fs)[0] == '[',
    decreases fs.len(),
{
    reveal_strlit("[");
    assert(finding_text(fs.last())[0] == '[');
    if fs.len() == 1 {
        assert(findings_text(fs.drop_last()) =~= Seq::empty());
    } else {
        lemma_begins_with_bracket(fs.drop_last());
    }
}

} // verus!
