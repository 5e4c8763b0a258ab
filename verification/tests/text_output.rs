//! Text output.

use confaudit::finding::{Finding, Severity, SourceKind};
use confaudit::output::text::render;

#[test]
fn empty_findings_prints_no_findings() {
    assert_eq!(render(&[]), "No findings.\n");
}

#[test]
fn renders_rule_id_and_summary() {
    let f = Finding::new(
        "SSHD001",
        Severity::Critical,
        SourceKind::Sshd,
        "sshd_config",
        3,
        "PermitRootLogin yes",
        "attacker gets root",
        "set to no",
    );
    let out = render(&[f]);
    assert!(out.contains("SSHD001"));
    assert!(out.contains("sshd_config:3"));
    assert!(out.contains("Summary: 1 finding(s) - critical=1"));
}

#[test]
fn file_level_finding_has_no_line_suffix() {
    let f = Finding::new(
        "DOCK008",
        Severity::Info,
        SourceKind::Dockerfile,
        "Dockerfile",
        0,
        "(no HEALTHCHECK)",
        "cannot detect hangs",
        "add HEALTHCHECK",
    );
    let out = render(&[f]);
    assert!(out.contains("Dockerfile\n") || out.contains("Dockerfile "));
    assert!(!out.contains("Dockerfile:0"));
}

#[test]
fn report_is_laid_out_line_by_line() {
    let findings = [
        Finding::new("A", Severity::High, SourceKind::Nginx, "n.conf", 12, "ev", "why", "how"),
        Finding::new("B", Severity::Info, SourceKind::Dockerfile, "d", 0, "e", "c", "x"),
    ];
    assert_eq!(
        render(&findings),
        "[high] A (nginx) - n.conf:12\n  found:      ev\n  consequence: why\n  fix:        how\n\n\
         [info] B (dockerfile) - d\n  found:      e\n  consequence: c\n  fix:        x\n\n\
         Summary: 2 finding(s) - critical=0 high=1 medium=0 low=0 info=1\n"
    );
}
