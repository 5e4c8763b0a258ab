//! JSON output.

use confaudit::finding::{Finding, Severity, SourceKind};
use confaudit::output::json::render;

#[test]
fn empty_findings_summary_is_zero() {
    let s = render(&[]).unwrap();
    let v: serde_json::Value = serde_json::from_str(&s).unwrap();
    assert_eq!(v["summary"]["total"], 0);
    assert_eq!(v["findings"].as_array().unwrap().len(), 0);
}

#[test]
fn counts_by_severity() {
    let findings = vec![
        Finding::new(
            "A",
            Severity::Critical,
            SourceKind::Sshd,
            "f",
            1,
            "e",
            "c",
            "x",
        ),
        Finding::new(
            "B",
            Severity::Critical,
            SourceKind::Sshd,
            "f",
            2,
            "e",
            "c",
            "x",
        ),
        Finding::new("C", Severity::Low, SourceKind::Sshd, "f", 3, "e", "c", "x"),
    ];
    let s = render(&findings).unwrap();
    let v: serde_json::Value = serde_json::from_str(&s).unwrap();
    assert_eq!(v["summary"]["critical"], 2);
    assert_eq!(v["summary"]["low"], 1);
    assert_eq!(v["summary"]["total"], 3);
}

#[test]
fn preserves_rule_id_and_line() {
    let findings = vec![Finding::new(
        "NGX001",
        Severity::High,
        SourceKind::Nginx,
        "nginx.conf",
        10,
        "autoindex on;",
        "listing exposed",
        "set off",
    )];
    let s = render(&findings).unwrap();
    let v: serde_json::Value = serde_json::from_str(&s).unwrap();
    assert_eq!(v["findings"][0]["rule_id"], "NGX001");
    assert_eq!(v["findings"][0]["line"], 10);
}

#[test]
fn report_is_written_in_order() {
    let findings = vec![Finding::new(
        "A\"",
        Severity::Medium,
        SourceKind::Dockerfile,
        "f",
        0,
        "e\n",
        "c",
        "x",
    )];
    assert_eq!(
        render(&findings).unwrap(),
        "{\n  \"findings\": [\n    {\n      \"rule_id\": \"A\\\"\",\n      \"severity\": \"medium\",\n      \
         \"source\": \"dockerfile\",\n      \"file\": \"f\",\n      \"line\": 0,\n      \
         \"evidence\": \"e\\n\",\n      \"consequence\": \"c\",\n      \"fix\": \"x\"\n    }\n  ],\n  \
         \"summary\": {\n    \"total\": 1,\n    \"critical\": 0,\n    \"high\": 0,\n    \"medium\": 1,\n    \
         \"low\": 0,\n    \"info\": 0\n  }\n}"
    );
}
