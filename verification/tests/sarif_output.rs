//! SARIF output.

use confaudit::finding::{Finding, Severity, SourceKind};
use confaudit::output::document::RenderError;
use confaudit::output::sarif::{or_empty, render};

#[test]
fn empty_findings_produces_valid_sarif_shell() {
    let s = render(&[]);
    let v: serde_json::Value = serde_json::from_str(&s).unwrap();
    assert_eq!(v["version"], "2.1.0");
    assert_eq!(v["runs"][0]["results"].as_array().unwrap().len(), 0);
}

#[test]
fn maps_severity_to_sarif_level() {
    let findings = vec![
        Finding::new(
            "A",
            Severity::Critical,
            SourceKind::Sshd,
            "f",
            1,
            "e",
            "c",
            "x",
        ),
        Finding::new(
            "B",
            Severity::Medium,
            SourceKind::Sshd,
            "f",
            2,
            "e",
            "c",
            "x",
        ),
        Finding::new("C", Severity::Info, SourceKind::Sshd, "f", 3, "e", "c", "x"),
    ];
    let s = render(&findings);
    let v: serde_json::Value = serde_json::from_str(&s).unwrap();
    let results = v["runs"][0]["results"].as_array().unwrap();
    assert_eq!(results[0]["level"], "error");
    assert_eq!(results[1]["level"], "warning");
    assert_eq!(results[2]["level"], "note");
}

#[test]
fn line_zero_clamped_to_one_for_sarif_region() {
    let findings = vec![Finding::new(
        "DOCK008",
        Severity::Info,
        SourceKind::Dockerfile,
        "Dockerfile",
        0,
        "e",
        "c",
        "x",
    )];
    let s = render(&findings);
    let v: serde_json::Value = serde_json::from_str(&s).unwrap();
    assert_eq!(
        v["runs"][0]["results"][0]["locations"][0]["physicalLocation"]["region"]["startLine"],
        1
    );
}

#[test]
fn rules_deduplicated_by_rule_id() {
    let findings = vec![
        Finding::new(
            "SSHD001",
            Severity::Critical,
            SourceKind::Sshd,
            "a",
            1,
            "e",
            "c",
            "x",
        ),
        Finding::new(
            "SSHD001",
            Severity::Critical,
            SourceKind::Sshd,
            "b",
            2,
            "e",
            "c",
            "x",
        ),
    ];
    let s = render(&findings);
    let v: serde_json::Value = serde_json::from_str(&s).unwrap();
    let rules = v["runs"][0]["tool"]["driver"]["rules"].as_array().unwrap();
    assert_eq!(rules.len(), 1);
}

#[test]
fn log_is_written_in_alphabetical_order() {
    let findings = vec![Finding::new(
        "A",
        Severity::Low,
        SourceKind::Sshd,
        "f",
        7,
        "e",
        "c",
        "x",
    )];
    assert_eq!(
        render(&findings),
        "{\n  \"$schema\": \"https://raw.githubusercontent.com/oasis-tcs/sarif-spec/master/Schemata/\
         sarif-schema-2.1.0.json\",\n  \"runs\": [\n    {\n      \"results\": [\n        {\n          \
         \"level\": \"note\",\n          \"locations\": [\n            {\n              \
         \"physicalLocation\": {\n                \"artifactLocation\": {\n                  \
         \"uri\": \"f\"\n                },\n                \"region\": {\n                  \
         \"startLine\": 7\n                }\n              }\n            }\n          ],\n          \
         \"message\": {\n            \"text\": \"c | fix: x\"\n          },\n          \
         \"ruleId\": \"A\"\n        }\n      ],\n      \"tool\": {\n        \"driver\": {\n          \
         \"informationUri\": \"https://github.com/hellpuffyt/confaudit\",\n          \
         \"name\": \"confaudit\",\n          \"rules\": [\n            {\n              \
         \"help\": {\n                \"text\": \"x\"\n              },\n              \
         \"id\": \"A\",\n              \"shortDescription\": {\n                \"text\": \"c\"\n              \
         }\n            }\n          ],\n          \"version\": \"0.1.0\"\n        }\n      }\n    }\n  ],\n  \
         \"version\": \"2.1.0\"\n}"
    );
}

#[test]
fn rules_are_sorted_and_described_by_their_first_finding() {
    let f = |id: &str, consequence: &str| {
        Finding::new(id, Severity::Low, SourceKind::Sshd, "f", 1, "e", consequence, "x")
    };
    let s = render(&[f("C", "1"), f("A", "2"), f("C", "3"), f("B", "4"), f("A", "5")]);
    let v: serde_json::Value = serde_json::from_str(&s).unwrap();
    let rules = v["runs"][0]["tool"]["driver"]["rules"].as_array().unwrap();
    let listed: Vec<(&str, &str)> = rules
        .iter()
        .map(|r| {
            let text = r["shortDescription"]["text"].as_str().unwrap();
            (r["id"].as_str().unwrap(), text)
        })
        .collect();
    assert_eq!(listed, [("A", "2"), ("B", "4"), ("C", "1")]);
    assert_eq!(v["runs"][0]["results"].as_array().unwrap().len(), 5);
}

#[test]
fn failed_serialization_leaves_an_empty_object() {
    let error = serde_json::from_str::<serde_json::Value>("nonsense").unwrap_err();
    assert_eq!(or_empty(Err(RenderError { error })), "{}");
    assert_eq!(or_empty(Ok("[]".to_string())), "[]");
}
