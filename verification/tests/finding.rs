//! Findings and severities.

use confaudit::finding::{Finding, Severity, SourceKind};

#[test]
fn severity_ordering() {
    assert!(Severity::Critical > Severity::High);
    assert!(Severity::High > Severity::Medium);
    assert!(Severity::Medium > Severity::Low);
    assert!(Severity::Low > Severity::Info);
}

#[test]
fn severity_from_str_valid() {
    assert_eq!(Severity::from_str("critical").unwrap(), Severity::Critical);
    assert_eq!(Severity::from_str("HIGH").unwrap(), Severity::High);
    assert_eq!(Severity::from_str("med").unwrap(), Severity::Medium);
    assert_eq!(Severity::from_str("crit").unwrap(), Severity::Critical);
}

#[test]
fn severity_from_str_invalid() {
    assert!(Severity::from_str("nonsense").is_err());
}

#[test]
fn severity_sarif_level_mapping() {
    assert_eq!(Severity::Info.sarif_level(), "note");
    assert_eq!(Severity::Low.sarif_level(), "note");
    assert_eq!(Severity::Medium.sarif_level(), "warning");
    assert_eq!(Severity::High.sarif_level(), "error");
    assert_eq!(Severity::Critical.sarif_level(), "error");
}

#[test]
fn finding_sorts_by_severity_then_file_then_line() {
    let a = Finding::new("A", Severity::Low, SourceKind::Sshd, "f", 5, "e", "c", "x");
    let b = Finding::new(
        "B",
        Severity::Critical,
        SourceKind::Sshd,
        "f",
        1,
        "e",
        "c",
        "x",
    );
    let mut v = [a.clone(), b.clone()];
    v.sort_by(|x, y| x.cmp(y));
    assert_eq!(v[0], b);
    assert_eq!(v[1], a);
}

#[test]
fn severity_names_are_read_back() {
    for s in [
        Severity::Info,
        Severity::Low,
        Severity::Medium,
        Severity::High,
        Severity::Critical,
    ] {
        assert_eq!(Severity::from_str(s.as_str()), Ok(s));
        assert_eq!(Severity::from_str(&s.as_str().to_uppercase()), Ok(s));
        assert_eq!(s.as_str().parse::<Severity>(), Ok(s));
    }
    assert_eq!(
        Severity::from_str("Fatal").unwrap_err(),
        "invalid severity 'fatal' (expected one of: info, low, medium, high, critical)"
    );
}

#[test]
fn findings_are_ordered_by_file_line_and_rule() {
    let f = |id: &str, file: &str, line: usize| {
        Finding::new(id, Severity::Low, SourceKind::Nginx, file, line, "e", "c", "x")
    };
    assert!(f("B", "a", 9) < f("A", "b", 1));
    assert!(f("B", "a", 1) < f("A", "a", 2));
    assert!(f("A", "a", 1) < f("B", "a", 1));
    assert_eq!(f("A", "a", 1).cmp(&f("A", "a", 1)), std::cmp::Ordering::Equal);
    assert!(f("A", "a", 1) != f("A", "a", 2));
}
