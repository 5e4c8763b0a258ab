//! Audits nginx, sshd and Dockerfile configuration files for settings that
//! weaken security.

use finding::{views, Finding, FindingView, Severity};
use parsers::FileKind;
use vstd::prelude::*;

pub mod cli;
pub mod finding;
pub mod laws;
pub mod names;
pub mod order;
pub mod output;
pub mod parsers;
pub mod text;

verus! {

/// The outcome of auditing a file of the given kind.
pub open spec fn audited(kind: FileKind, file: Seq<char>, content: Seq<char>) -> Result<
    Seq<FindingView>,
    Seq<char>,
> {
    match kind {
        FileKind::Sshd => parsers::sshd::audited(file, content),
        FileKind::Nginx => parsers::nginx::audited(file, content),
        FileKind::Dockerfile => parsers::dockerfile::audited(file, content),
    }
}

/// Runs the parser and rule set for `kind` over `content`, tagging findings
/// with `file` (used for display, not for reading from disk).
///
/// # Errors
/// Returns a human-readable message if the content cannot be parsed.
pub fn audit_content(kind: FileKind, file: &str, content: &str) -> (r: Result<
    Vec<Finding>,
    String,
>)
    ensures
        match audited(kind, file@, content@) {
            Ok(fs) => r is Ok && views(r->Ok_0@) == fs,
            Err(m) => r is Err && r->Err_0@ == m,
        },
{
    match kind {
        FileKind::Sshd => parsers::sshd::audit(file, content),
        FileKind::Nginx => parsers::nginx::audit(file, content),
        FileKind::Dockerfile => parsers::dockerfile::audit(file, content),
    }
}

/// The message for a file of unknown kind.
pub open spec fn unrecognized(path: Seq<char>) -> Seq<char> {
    path
        + ": unrecognized config file (expected sshd_config, an nginx *.conf, or a Dockerfile)"@
}

impl FileKind {
    /// Turns a detected kind into a result that names the path if there is
    /// none.
    ///
    /// # Errors
    /// Returns an error describing why the file kind could not be determined.
    pub fn found_or_err(found: Option<FileKind>, path: &str) -> (r: Result<FileKind, String>)
        ensures
            match found {
                Some(kind) => r == Ok::<FileKind, String>(kind),
                None => r is Err && r->Err_0@ == unrecognized(path@),
            },
    {
        match found {
            Some(kind) => Ok(kind),
            None => {
                let mut message = path.to_owned();
                message.append(
                    ": unrecognized config file (expected sshd_config, an nginx *.conf, or a Dockerfile)",
                );
                Err(message)
            },
        }
    }

    /// Like [`parsers::detect`] but returns a descriptive error instead of
    /// `None`.
    ///
    /// # Errors
    /// Returns an error describing why the file kind could not be determined.
    pub fn detect_or_err(path: &str) -> (r: Result<FileKind, String>)
        ensures
            parsers::is_portable(path@) ==> match parsers::kind_of(
                parsers::file_name_of(path@),
            ) {
                Some(kind) => r == Ok::<FileKind, String>(kind),
                None => r is Err,
            },
            r is Ok ==> parsers::detected_in(path@, r->Ok_0),
            r is Err ==> r->Err_0@ == unrecognized(path@),
    {
        FileKind::found_or_err(parsers::detect(path), path)
    }
}

/// The outcome of auditing a file that was read, or could not be read, once
/// its kind is known or known to be unknown.
pub open spec fn audited_read(
    kind: Result<FileKind, Seq<char>>,
    path: Seq<char>,
    read: Result<Seq<char>, Seq<char>>,
) -> Result<Seq<FindingView>, Seq<char>> {
    match (kind, read) {
        (Err(m), _) => Err(m),
        (Ok(_), Err(e)) => Err(path + ": "@ + e),
        (Ok(kind), Ok(content)) => audited(kind, path, content),
    }
}

/// What a result of strings says.
pub open spec fn read_view(read: Result<String, String>) -> Result<Seq<char>, Seq<char>> {
    match read {
        Ok(s) => Ok(s@),
        Err(e) => Err(e@),
    }
}

/// Audits a file of the given kind that was read, or could not be read.
///
/// # Errors
/// Returns an error if the kind could not be determined, the file could not be
/// read, or the content cannot be parsed, in that order.
pub fn audit_found(
    kind: Result<FileKind, String>,
    path: &str,
    read: Result<String, String>,
) -> (r: Result<Vec<Finding>, String>)
    ensures
        match audited_read(
            match kind {
                Ok(k) => Ok(k),
                Err(m) => Err(m@),
            },
            path@,
            read_view(read),
        ) {
            Ok(fs) => r is Ok && views(r->Ok_0@) == fs,
            Err(m) => r is Err && r->Err_0@ == m,
        },
{
    match kind {
        Err(message) => Err(message),
        Ok(k) => match read {
            Ok(content) => audit_content(k, path, content.as_str()),
            Err(e) => {
                let mut message = path.to_owned();
                message.append(": ");
                message.append(e.as_str());
                Err(message)
            },
        },
    }
}

/// The kind of the file at a portable path, or the error that names it.
pub open spec fn kind_or_err(path: Seq<char>) -> Result<FileKind, Seq<char>> {
    match parsers::kind_of(parsers::file_name_of(path)) {
        Some(kind) => Ok(kind),
        None => Err(unrecognized(path)),
    }
}

/// Audits a file that was read, or could not be read, inferring its kind from
/// the path.
///
/// # Errors
/// Returns an error if the kind cannot be inferred, the file could not be
/// read, or the content cannot be parsed.
pub fn audit_read(path: &str, read: Result<String, String>) -> (r: Result<Vec<Finding>, String>)
    ensures
        parsers::is_portable(path@) ==> match audited_read(
            kind_or_err(path@),
            path@,
            read_view(read),
        ) {
            Ok(fs) => r is Ok && views(r->Ok_0@) == fs,
            Err(m) => r is Err && r->Err_0@ == m,
        },
        r is Ok ==> read is Ok && exists|kind: FileKind| #[trigger]
            parsers::detected_in(path@, kind) && audited(kind, path@, read->Ok_0@) == Ok::<
                Seq<FindingView>,
                Seq<char>,
            >(views(r->Ok_0@)),
        r is Err ==> r->Err_0@ == unrecognized(path@) || (read is Err && r->Err_0@ == path@ + ": "@
            + read->Err_0@) || (read is Ok && exists|kind: FileKind| #[trigger]
            parsers::detected_in(path@, kind) && audited(kind, path@, read->Ok_0@) == Err::<
                Seq<FindingView>,
                Seq<char>,
            >(r->Err_0@)),
{
    audit_found(FileKind::detect_or_err(path), path, read)
}

/// Whether a rule is one of those to ignore, in any ASCII case.
pub open spec fn ignored(rule_id: Seq<char>, ignore: Seq<Seq<char>>) -> bool {
    exists|i: int|
        0 <= i < ignore.len() && text::same_ignoring_case(#[trigger] ignore[i], rule_id)
}

/// Whether a finding is reported: it is at or above the threshold, and its
/// rule is not ignored.
pub open spec fn reported(f: FindingView, threshold: Severity, ignore: Seq<Seq<char>>) -> bool {
    f.severity.rank() >= threshold.rank() && !ignored(f.rule_id, ignore)
}

/// The reported findings, in their order.
pub open spec fn filtered(
    fs: Seq<FindingView>,
    threshold: Severity,
    ignore: Seq<Seq<char>>,
) -> Seq<FindingView> {
    fs.filter(|f: FindingView| reported(f, threshold, ignore))
}

/// Whether a rule is one of those to ignore.
fn is_ignored(rule_id: &str, ignore: &[String]) -> (r: bool)
    ensures
        r == ignored(rule_id@, text::string_texts(ignore@)),
{
    let ghost iv = text::string_texts(ignore@);
    let mut i: usize = 0;
    while i < ignore.len()
        invariant
            i <= ignore@.len(),
            iv == text::string_texts(ignore@),
            forall|j: int|
                0 <= j < i ==> !text::same_ignoring_case(#[trigger] iv[j], rule_id@),
        decreases ignore@.len() - i,
    {
        assert(iv[i as int] == ignore@[i as int]@);
        let id = text::chars_of(ignore[i].as_str());
        if text::eq_ignore_case(id.as_slice(), rule_id) {
            return true;
        }
        i += 1;
    }
    false
}

/// Filters findings to those at or above `threshold`, and drops any whose
/// rule id is in `ignore`.
#[must_use]
pub fn filter_findings(findings: Vec<Finding>, threshold: Severity, ignore: &[String]) -> (r: Vec<
    Finding,
>)
    ensures
        views(r@) == filtered(views(findings@), threshold, text::string_texts(ignore@)),
{
    let ghost fv = views(findings@);
    let ghost iv = text::string_texts(ignore@);
    let ghost pred = |f: FindingView| reported(f, threshold, iv);
    let mut out: Vec<Finding> = Vec::new();
    let mut i: usize = 0;
    assert(fv.take(0).filter(pred) =~= Seq::empty()) by {
        reveal(Seq::filter);
    }
    assert(views(out@) =~= Seq::empty());
    while i < findings.len()
        invariant
            i <= findings@.len(),
            fv == views(findings@),
            iv == text::string_texts(ignore@),
            pred == (|f: FindingView| reported(f, threshold, iv)),
            views(out@) == fv.take(i as int).filter(pred),
        decreases findings@.len() - i,
    {
        let f = &findings[i];
        proof {
            assert(fv.take(i + 1).drop_last() =~= fv.take(i as int));
            assert(fv.take(i + 1).last() == f@);
            reveal(Seq::filter);
        }
        if f.severity >= threshold && !is_ignored(f.rule_id.as_str(), ignore) {
            let ghost before = views(out@);
            finding::add_finding(&mut out, f.clone());
            assert(views(out@) =~= before.push(f@));
        }
        i += 1;
    }
    assert(fv.take(i as int) =~= fv);
    out
}

} // verus!
