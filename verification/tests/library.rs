//! Detection and filtering.

use confaudit::filter_findings;
use confaudit::finding::{Finding, Severity, SourceKind};
use confaudit::output::Format;
use confaudit::parsers::{detect, detect_found, detect_name, FileKind};

fn f(id: &str, sev: Severity) -> Finding {
    Finding::new(id, sev, SourceKind::Sshd, "f", 1, "e", "c", "x")
}

#[test]
fn detect_sshd_config() {
    assert_eq!(
        FileKind::detect_or_err("sshd_config").unwrap(),
        FileKind::Sshd
    );
}

#[test]
fn detect_dockerfile() {
    assert_eq!(
        FileKind::detect_or_err("Dockerfile").unwrap(),
        FileKind::Dockerfile
    );
    assert_eq!(
        FileKind::detect_or_err("app.dockerfile").unwrap(),
        FileKind::Dockerfile
    );
}

#[test]
fn detect_nginx_conf() {
    assert_eq!(
        FileKind::detect_or_err("site.conf").unwrap(),
        FileKind::Nginx
    );
    assert_eq!(
        FileKind::detect_or_err("nginx.conf").unwrap(),
        FileKind::Nginx
    );
}

#[test]
fn detect_unknown_errors() {
    assert!(FileKind::detect_or_err("readme.txt").is_err());
}

#[test]
fn filter_by_threshold() {
    let findings = vec![f("A", Severity::Low), f("B", Severity::High)];
    let out = filter_findings(findings, Severity::High, &[]);
    assert_eq!(out.len(), 1);
    assert_eq!(out[0].rule_id, "B");
}

#[test]
fn filter_by_ignore_list_case_insensitive() {
    let findings = vec![f("SSHD001", Severity::High), f("SSHD002", Severity::High)];
    let out = filter_findings(findings, Severity::Info, &["sshd001".to_string()]);
    assert_eq!(out.len(), 1);
    assert_eq!(out[0].rule_id, "SSHD002");
}

#[test]
fn detection_reads_the_last_part_of_a_path() {
    for (path, kind) in [
        ("/etc/ssh/sshd_config", Some(FileKind::Sshd)),
        ("sshd_config.d/readme.txt", None),
        ("sshd_config.d/50-cloud.conf", Some(FileKind::Nginx)),
        ("a/SSHD_Config.bak", Some(FileKind::Sshd)),
        ("a/Dockerfile.prod", Some(FileKind::Dockerfile)),
        ("docker/dockerfile/", Some(FileKind::Dockerfile)),
        ("docker/dockerfile/.", Some(FileKind::Dockerfile)),
        ("docker/dockerfile/..", None),
        ("my-nginx-site", Some(FileKind::Nginx)),
        ("my-dockerfile-notes.txt", None),
        ("dockerfiles", None),
        ("dockerfile-nginx.conf", Some(FileKind::Nginx)),
        ("/srv/app:v1/Dockerfile", Some(FileKind::Dockerfile)),
        ("bad_sshd_config", Some(FileKind::Sshd)),
        ("sites/.conf", None),
        ("sites/..conf", Some(FileKind::Nginx)),
        ("sites/a.CONF", None),
        ("", None),
        (".", None),
        ("/", None),
    ] {
        assert_eq!(detect(path), kind, "{}", path);
    }
    assert_eq!(detect_found(None), None);
    assert_eq!(detect_found(Some("x.conf".to_string())), Some(FileKind::Nginx));
    assert_eq!(detect_name("a/sshd_config"), Some(FileKind::Sshd));
}

#[test]
fn unrecognized_file_is_named() {
    assert_eq!(
        FileKind::detect_or_err("a/readme.txt").unwrap_err(),
        "a/readme.txt: unrecognized config file (expected sshd_config, an nginx *.conf, or a Dockerfile)"
    );
    assert_eq!(FileKind::found_or_err(Some(FileKind::Sshd), "x"), Ok(FileKind::Sshd));
}

#[test]
fn formats_are_read_in_any_case() {
    assert_eq!(Format::from_str("text"), Ok(Format::Text));
    assert_eq!(Format::from_str("JSON"), Ok(Format::Json));
    assert_eq!(Format::from_str("Sarif"), Ok(Format::Sarif));
    assert_eq!(
        Format::from_str("XML").unwrap_err(),
        "invalid format 'xml' (expected one of: text, json, sarif)"
    );
}

#[test]
fn formats_are_parsed_from_strings() {
    assert_eq!("sarif".parse::<Format>(), Ok(Format::Sarif));
    assert!("".parse::<Format>().is_err());
}
