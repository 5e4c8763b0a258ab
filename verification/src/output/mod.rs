//! The formats in which findings are reported.

use crate::finding::{views, Finding, FindingView, Severity};
use crate::text as texts;
use vstd::prelude::*;

pub mod document;
pub mod json;
pub mod sarif;
pub mod text;

verus! {

/// An output format.
#[derive(Debug, Clone, Copy, PartialEq, Eq, Structural)]
pub enum Format {
    Text,
    Json,
    Sarif,
}

impl Format {
    /// The format that a name stands for, in any ASCII case.
    pub open spec fn named(s: Seq<char>) -> Option<Format> {
        let t = texts::lowered(s);
        if t == "text"@ {
            Some(Format::Text)
        } else if t == "json"@ {
            Some(Format::Json)
        } else if t == "sarif"@ {
            Some(Format::Sarif)
        } else {
            None
        }
    }

    /// Reads the name of a format.
    pub fn from_str(s: &str) -> (r: Result<Format, String>)
        ensures
            match Format::named(s@) {
                Some(v) => r == Ok::<Format, String>(v),
                None => r is Err && r->Err_0@ == "invalid format '"@ + texts::lowered(s@)
                    + "' (expected one of: text, json, sarif)"@,
            },
    {
        let lower = texts::to_lower(texts::chars_of(s).as_slice());
        let t = lower.as_slice();
        if texts::is_str(t, "text") {
            Ok(Format::Text)
        } else if texts::is_str(t, "json") {
            Ok(Format::Json)
        } else if texts::is_str(t, "sarif") {
            Ok(Format::Sarif)
        } else {
            let mut message = "invalid format '".to_owned();
            message.append(texts::string_of(t).as_str());
            message.append("' (expected one of: text, json, sarif)");
            Err(message)
        }
    }
}

impl std::str::FromStr for Format {
    type Err = String;

    fn from_str(s: &str) -> (r: Result<Format, String>)
        ensures
            match Format::named(s@) {
                Some(v) => r == Ok::<Format, String>(v),
                None => r is Err && r->Err_0@ == "invalid format '"@ + texts::lowered(s@)
                    + "' (expected one of: text, json, sarif)"@,
            },
    {
        Format::from_str(s)
    }
}

/// The number of findings of a severity.
pub open spec fn count_of(fs: Seq<FindingView>, severity: Severity) -> nat
    decreases fs.len(),
{
    if fs.len() == 0 {
        0
    } else {
        count_of(fs.drop_last(), severity) + (if fs.last().severity == severity {
            1nat
        } else {
            0nat
        })
    }
}

/// How many findings there are, in all and of each severity.
#[derive(Debug, Clone, Copy, PartialEq, Eq, Structural)]
pub struct Summary {
    pub total: usize,
    pub critical: usize,
    pub high: usize,
    pub medium: usize,
    pub low: usize,
    pub info: usize,
}

impl Summary {
    /// Whether this is the summary of `fs`.
    pub open spec fn sums_up(self, fs: Seq<FindingView>) -> bool {
        &&& self.total == fs.len()
        &&& self.critical == count_of(fs, Severity::Critical)
        &&& self.high == count_of(fs, Severity::High)
        &&& self.medium == count_of(fs, Severity::Medium)
        &&& self.low == count_of(fs, Severity::Low)
        &&& self.info == count_of(fs, Severity::Info)
    }
}

/// Counts findings by severity.
pub fn summarize(findings: &[Finding]) -> (r: Summary)
    ensures
        r.sums_up(views(findings@)),
{
    let ghost fv = views(findings@);
    let mut s = Summary { total: 0, critical: 0, high: 0, medium: 0, low: 0, info: 0 };
    let mut i: usize = 0;
    while i < findings.len()
        invariant
            i <= findings@.len(),
            fv == views(findings@),
            s.sums_up(fv.take(i as int)),
            s.critical <= i,
            s.high <= i,
            s.medium <= i,
            s.low <= i,
            s.info <= i,
        decreases findings@.len() - i,
    {
        assert(fv.take(i + 1).drop_last() =~= fv.take(i as int));
        assert(fv.take(i + 1).last() == findings@[i as int]@);
        match findings[i].severity {
            Severity::Critical => {
                s.critical = s.critical + 1;
            },
            Severity::High => {
                s.high = s.high + 1;
            },
            Severity::Medium => {
                s.medium = s.medium + 1;
            },
            Severity::Low => {
                s.low = s.low + 1;
            },
            Severity::Info => {
                s.info = s.info + 1;
            },
        }
        s.total = s.total + 1;
        i += 1;
    }
    assert(fv.take(i as int) =~= fv);
    s
}

/// The counts of a summary add up to the total.
pub proof fn law_counts_add_up(fs: Seq<FindingView>)
    ensures
        count_of(fs, Severity::Critical) + count_of(fs, Severity::High) + count_of(
            fs,
            Severity::Medium,
        ) + count_of(fs, Severity::Low) + count_of(fs, Severity::Info) == fs.len(),
    decreases fs.len(),
{
    if fs.len() > 0 {
        law_counts_add_up(fs.drop_last());
    }
}

} // verus!
