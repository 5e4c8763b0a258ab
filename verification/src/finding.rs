//! The `Finding` type shared by every parser and every output format.

use crate::text;
use std::cmp::Ordering;
use vstd::prelude::*;

verus! {

/// How dangerous a finding is, from least to most severe.
#[derive(Debug, Clone, Copy, PartialEq, Eq, Structural, Ord)]
pub enum Severity {
    Info,
    Low,
    Medium,
    High,
    Critical,
}

impl Severity {
    /// The position of a severity in the order, from 0 for the least severe.
    pub open spec fn rank(self) -> int {
        match self {
            Severity::Info => 0,
            Severity::Low => 1,
            Severity::Medium => 2,
            Severity::High => 3,
            Severity::Critical => 4,
        }
    }

    /// The name of a severity.
    pub open spec fn name(self) -> Seq<char> {
        match self {
            Severity::Info => "info"@,
            Severity::Low => "low"@,
            Severity::Medium => "medium"@,
            Severity::High => "high"@,
            Severity::Critical => "critical"@,
        }
    }

    /// The SARIF level of a severity.
    pub open spec fn level(self) -> Seq<char> {
        match self {
            Severity::Info | Severity::Low => "note"@,
            Severity::Medium => "warning"@,
            Severity::High | Severity::Critical => "error"@,
        }
    }

    /// The severity that a name stands for, in any ASCII case.
    pub open spec fn named(s: Seq<char>) -> Option<Severity> {
        let t = text::lowered(s);
        if t == "info"@ {
            Some(Severity::Info)
        } else if t == "low"@ {
            Some(Severity::Low)
        } else if t == "medium"@ || t == "med"@ {
            Some(Severity::Medium)
        } else if t == "high"@ {
            Some(Severity::High)
        } else if t == "critical"@ || t == "crit"@ {
            Some(Severity::Critical)
        } else {
            None
        }
    }

    /// The name of a severity.
    #[must_use]
    pub fn as_str(self) -> (r: &'static str)
        ensures
            r@ == self.name(),
    {
        match self {
            Severity::Info => "info",
            Severity::Low => "low",
            Severity::Medium => "medium",
            Severity::High => "high",
            Severity::Critical => "critical",
        }
    }

    /// SARIF only understands `note`, `warning` and `error`: maps the five
    /// levels down onto those three.
    #[must_use]
    pub fn sarif_level(self) -> (r: &'static str)
        ensures
            r@ == self.level(),
    {
        match self {
            Severity::Info | Severity::Low => "note",
            Severity::Medium => "warning",
            Severity::High | Severity::Critical => "error",
        }
    }

    /// Reads the name of a severity.
    pub fn from_str(s: &str) -> (r: Result<Severity, String>)
        ensures
            match Severity::named(s@) {
                Some(v) => r == Ok::<Severity, String>(v),
                None => r is Err && r->Err_0@ == "invalid severity '"@ + text::lowered(s@)
                    + "' (expected one of: info, low, medium, high, critical)"@,
            },
    {
        let lower = text::to_lower(text::chars_of(s).as_slice());
        let t = lower.as_slice();
        if text::is_str(t, "info") {
            Ok(Severity::Info)
        } else if text::is_str(t, "low") {
            Ok(Severity::Low)
        } else if text::is_str(t, "medium") || text::is_str(t, "med") {
            Ok(Severity::Medium)
        } else if text::is_str(t, "high") {
            Ok(Severity::High)
        } else if text::is_str(t, "critical") || text::is_str(t, "crit") {
            Ok(Severity::Critical)
        } else {
            let mut message = "invalid severity '".to_owned();
            message.append(text::string_of(t).as_str());
            message.append("' (expected one of: info, low, medium, high, critical)");
            Err(message)
        }
    }
}

impl std::str::FromStr for Severity {
    type Err = String;

    fn from_str(s: &str) -> (r: Result<Severity, String>)
        ensures
            match Severity::named(s@) {
                Some(v) => r == Ok::<Severity, String>(v),
                None => r is Err && r->Err_0@ == "invalid severity '"@ + text::lowered(s@)
                    + "' (expected one of: info, low, medium, high, critical)"@,
            },
    {
        Severity::from_str(s)
    }
}

impl PartialOrd for Severity {
    fn partial_cmp(&self, other: &Severity) -> (r: Option<Ordering>) {
        Some(match (*self, *other) {
            (Severity::Info, Severity::Info)
            | (Severity::Low, Severity::Low)
            | (Severity::Medium, Severity::Medium)
            | (Severity::High, Severity::High)
            | (Severity::Critical, Severity::Critical) => Ordering::Equal,
            (Severity::Info, _)
            | (Severity::Low, Severity::Medium)
            | (Severity::Low, Severity::High)
            | (Severity::Low, Severity::Critical)
            | (Severity::Medium, Severity::High)
            | (Severity::Medium, Severity::Critical)
            | (Severity::High, Severity::Critical) => Ordering::Less,
            _ => Ordering::Greater,
        })
    }
}

impl vstd::std_specs::cmp::PartialOrdSpecImpl for Severity {
    open spec fn obeys_partial_cmp_spec() -> bool {
        true
    }

    open spec fn partial_cmp_spec(&self, other: &Severity) -> Option<Ordering> {
        if self.rank() < other.rank() {
            Some(Ordering::Less)
        } else if self.rank() > other.rank() {
            Some(Ordering::Greater)
        } else {
            Some(Ordering::Equal)
        }
    }
}

/// The kind of configuration file a finding came from.
#[derive(Debug, Clone, Copy, PartialEq, Eq, Structural)]
pub enum SourceKind {
    Sshd,
    Nginx,
    Dockerfile,
}

impl SourceKind {
    /// The name of a kind.
    pub open spec fn name(self) -> Seq<char> {
        match self {
            SourceKind::Sshd => "sshd"@,
            SourceKind::Nginx => "nginx"@,
            SourceKind::Dockerfile => "dockerfile"@,
        }
    }

    /// The name of a kind.
    #[must_use]
    pub fn as_str(self) -> (r: &'static str)
        ensures
            r@ == self.name(),
    {
        match self {
            SourceKind::Sshd => "sshd",
            SourceKind::Nginx => "nginx",
            SourceKind::Dockerfile => "dockerfile",
        }
    }
}

/// A single security finding produced by a rule.
#[derive(Debug)]
pub struct Finding {
    /// Stable identifier, e.g. `SSHD001`. Never renumber once shipped.
    pub rule_id: String,
    pub severity: Severity,
    pub source: SourceKind,
    pub file: String,
    /// 1-based line number. `0` means "file level" (no single line applies).
    pub line: usize,
    /// The offending text as it appears in the file (trimmed).
    pub evidence: String,
    /// What an attacker gains, or what breaks, if this is left as-is.
    pub consequence: String,
    /// The exact fix to apply.
    pub fix: String,
}

/// What a finding says.
#[verifier::ext_equal]
pub struct FindingView {
    pub rule_id: Seq<char>,
    pub severity: Severity,
    pub source: SourceKind,
    pub file: Seq<char>,
    pub line: nat,
    pub evidence: Seq<char>,
    pub consequence: Seq<char>,
    pub fix: Seq<char>,
}

impl View for Finding {
    type V = FindingView;

    open spec fn view(&self) -> FindingView {
        FindingView {
            rule_id: self.rule_id@,
            severity: self.severity,
            source: self.source,
            file: self.file@,
            line: self.line as nat,
            evidence: self.evidence@,
            consequence: self.consequence@,
            fix: self.fix@,
        }
    }
}

impl Clone for Finding {
    fn clone(&self) -> (r: Finding)
        ensures
            r@ == self@,
    {
        Finding {
            rule_id: self.rule_id.clone(),
            severity: self.severity,
            source: self.source,
            file: self.file.clone(),
            line: self.line,
            evidence: self.evidence.clone(),
            consequence: self.consequence.clone(),
            fix: self.fix.clone(),
        }
    }
}

/// What the findings of a list say.
pub open spec fn views(findings: Seq<Finding>) -> Seq<FindingView> {
    findings.map_values(|f: Finding| f@)
}

/// The findings of a rule that is violated or not.
pub open spec fn if_violated(violated: bool, f: FindingView) -> Seq<FindingView> {
    if violated {
        seq![f]
    } else {
        Seq::empty()
    }
}

/// Appends one finding.
pub fn add_finding(findings: &mut Vec<Finding>, f: Finding)
    ensures
        views(final(findings)@) == views(old(findings)@) + seq![f@],
{
    let ghost before = views(findings@);
    let ghost added = f@;
    findings.push(f);
    assert(views(findings@) =~= before + seq![added]);
}

impl FindingView {
    /// The order of findings: highest severity first, then by file, then by
    /// line, then by rule.
    pub open spec fn before(self, other: FindingView) -> bool {
        if self.severity != other.severity {
            self.severity.rank() > other.severity.rank()
        } else if self.file != other.file {
            text::text_less(self.file, other.file)
        } else if self.line != other.line {
            self.line < other.line
        } else {
            text::text_less(self.rule_id, other.rule_id)
        }
    }

    /// How two findings are ordered.
    pub open spec fn ordering(self, other: FindingView) -> Ordering {
        if self.before(other) {
            Ordering::Less
        } else if other.before(self) {
            Ordering::Greater
        } else {
            Ordering::Equal
        }
    }

    /// Whether two findings stand at the same place of the order.
    pub open spec fn same_place(self, other: FindingView) -> bool {
        &&& self.severity == other.severity
        &&& self.file == other.file
        &&& self.line == other.line
        &&& self.rule_id == other.rule_id
    }
}

impl Finding {
    /// A finding with the given contents.
    pub fn new(
        rule_id: &str,
        severity: Severity,
        source: SourceKind,
        file: &str,
        line: usize,
        evidence: &str,
        consequence: &str,
        fix: &str,
    ) -> (r: Finding)
        ensures
            r@ == (FindingView {
                rule_id: rule_id@,
                severity,
                source,
                file: file@,
                line: line as nat,
                evidence: evidence@,
                consequence: consequence@,
                fix: fix@,
            }),
    {
        Finding {
            rule_id: rule_id.to_owned(),
            severity,
            source,
            file: file.to_owned(),
            line,
            evidence: evidence.to_owned(),
            consequence: consequence.to_owned(),
            fix: fix.to_owned(),
        }
    }

    /// Whether `self` comes before `other`.
    pub fn comes_before(&self, other: &Finding) -> (r: bool)
        ensures
            r == self@.before(other@),
    {
        if self.severity != other.severity {
            self.severity > other.severity
        } else if self.file != other.file {
            text::less(self.file.as_str(), other.file.as_str())
        } else if self.line != other.line {
            self.line < other.line
        } else {
            text::less(self.rule_id.as_str(), other.rule_id.as_str())
        }
    }

    /// Highest severity first, then file, then line, then rule id.
    pub fn cmp(&self, other: &Finding) -> (r: Ordering)
        ensures
            r == self@.ordering(other@),
    {
        if self.comes_before(other) {
            Ordering::Less
        } else if other.comes_before(self) {
            Ordering::Greater
        } else {
            Ordering::Equal
        }
    }
}

impl PartialEq for Finding {
    fn eq(&self, other: &Finding) -> (r: bool) {
        self.rule_id == other.rule_id && self.severity == other.severity && self.source
            == other.source && self.file == other.file && self.line == other.line && self.evidence
            == other.evidence && self.consequence == other.consequence && self.fix == other.fix
    }
}

impl vstd::std_specs::cmp::PartialEqSpecImpl for Finding {
    open spec fn obeys_eq_spec() -> bool {
        true
    }

    open spec fn eq_spec(&self, other: &Finding) -> bool {
        self@ == other@
    }
}

impl Eq for Finding {

}

impl PartialOrd for Finding {
    fn partial_cmp(&self, other: &Finding) -> (r: Option<Ordering>) {
        Some(self.cmp(other))
    }
}

impl vstd::std_specs::cmp::PartialOrdSpecImpl for Finding {
    open spec fn obeys_partial_cmp_spec() -> bool {
        true
    }

    open spec fn partial_cmp_spec(&self, other: &Finding) -> Option<Ordering> {
        Some(self@.ordering(other@))
    }
}

} // verus!
