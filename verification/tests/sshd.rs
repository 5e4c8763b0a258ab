//! The rules on `sshd_config`.

use confaudit::finding::{Finding, Severity};
use confaudit::parsers::sshd::audit;

fn ids(findings: &[Finding]) -> Vec<String> {
    findings.iter().map(|f| f.rule_id.clone()).collect()
}

fn has(findings: &[Finding], id: &str) -> bool {
    findings.iter().any(|f| f.rule_id == id)
}

#[test]
fn permit_root_login_yes_flagged() {
    let f = audit("sshd_config", "PermitRootLogin yes\n").unwrap();
    assert!(has(&f, "SSHD001"));
    assert_eq!(
        f.iter().find(|x| x.rule_id == "SSHD001").unwrap().severity,
        Severity::Critical
    );
}

#[test]
fn permit_root_login_no_clean() {
    let f = audit("sshd_config", "PermitRootLogin no\n").unwrap();
    assert!(!has(&f, "SSHD001"));
    assert!(!has(&f, "SSHD002"));
}

#[test]
fn permit_root_login_without_password_flagged() {
    let f = audit("sshd_config", "PermitRootLogin without-password\n").unwrap();
    assert!(has(&f, "SSHD002"));
}

#[test]
fn permit_root_login_prohibit_password_flagged() {
    let f = audit("sshd_config", "PermitRootLogin prohibit-password\n").unwrap();
    assert!(has(&f, "SSHD002"));
}

#[test]
fn permit_root_login_unset_is_medium_default() {
    let f = audit("sshd_config", "Port 22\n").unwrap();
    let finding = f
        .iter()
        .find(|x| x.rule_id == "SSHD001")
        .expect("finding present");
    assert_eq!(finding.severity, Severity::Medium);
    assert_eq!(finding.line, 0);
}

#[test]
fn password_authentication_yes_flagged() {
    let f = audit("sshd_config", "PasswordAuthentication yes\n").unwrap();
    assert!(has(&f, "SSHD003"));
}

#[test]
fn password_authentication_no_clean() {
    let f = audit("sshd_config", "PasswordAuthentication no\n").unwrap();
    assert!(!has(&f, "SSHD003"));
}

#[test]
fn permit_empty_passwords_yes_flagged() {
    let f = audit("sshd_config", "PermitEmptyPasswords yes\n").unwrap();
    assert!(has(&f, "SSHD004"));
    assert_eq!(
        f.iter().find(|x| x.rule_id == "SSHD004").unwrap().severity,
        Severity::Critical
    );
}

#[test]
fn permit_empty_passwords_no_clean() {
    let f = audit("sshd_config", "PermitEmptyPasswords no\n").unwrap();
    assert!(!has(&f, "SSHD004"));
}

#[test]
fn protocol_1_flagged() {
    let f = audit("sshd_config", "Protocol 1\n").unwrap();
    assert!(has(&f, "SSHD005"));
}

#[test]
fn protocol_2_1_flagged() {
    let f = audit("sshd_config", "Protocol 2,1\n").unwrap();
    assert!(has(&f, "SSHD005"));
}

#[test]
fn protocol_2_clean() {
    let f = audit("sshd_config", "Protocol 2\n").unwrap();
    assert!(!has(&f, "SSHD005"));
}

#[test]
fn weak_ciphers_flagged() {
    let f = audit("sshd_config", "Ciphers aes256-gcm@openssh.com,3des-cbc\n").unwrap();
    assert!(has(&f, "SSHD006"));
}

#[test]
fn strong_ciphers_clean() {
    let f = audit(
        "sshd_config",
        "Ciphers chacha20-poly1305@openssh.com,aes256-gcm@openssh.com\n",
    )
    .unwrap();
    assert!(!has(&f, "SSHD006"));
}

#[test]
fn weak_macs_flagged() {
    let f = audit("sshd_config", "MACs hmac-md5,hmac-sha2-256\n").unwrap();
    assert!(has(&f, "SSHD007"));
}

#[test]
fn strong_macs_clean() {
    let f = audit("sshd_config", "MACs hmac-sha2-512-etm@openssh.com\n").unwrap();
    assert!(!has(&f, "SSHD007"));
}

#[test]
fn weak_kex_flagged() {
    let f = audit("sshd_config", "KexAlgorithms diffie-hellman-group1-sha1\n").unwrap();
    assert!(has(&f, "SSHD008"));
}

#[test]
fn strong_kex_clean() {
    let f = audit("sshd_config", "KexAlgorithms curve25519-sha256\n").unwrap();
    assert!(!has(&f, "SSHD008"));
}

#[test]
fn x11_forwarding_yes_flagged() {
    let f = audit("sshd_config", "X11Forwarding yes\n").unwrap();
    assert!(has(&f, "SSHD009"));
}

#[test]
fn x11_forwarding_no_clean() {
    let f = audit("sshd_config", "X11Forwarding no\n").unwrap();
    assert!(!has(&f, "SSHD009"));
}

#[test]
fn allow_tcp_forwarding_yes_flagged() {
    let f = audit("sshd_config", "AllowTcpForwarding yes\n").unwrap();
    assert!(has(&f, "SSHD010"));
}

#[test]
fn allow_tcp_forwarding_no_clean() {
    let f = audit("sshd_config", "AllowTcpForwarding no\n").unwrap();
    assert!(!has(&f, "SSHD010"));
}

#[test]
fn max_auth_tries_missing_flagged() {
    let f = audit("sshd_config", "Port 22\n").unwrap();
    assert!(has(&f, "SSHD011"));
}

#[test]
fn max_auth_tries_high_flagged() {
    let f = audit("sshd_config", "MaxAuthTries 10\n").unwrap();
    assert!(has(&f, "SSHD011"));
}

#[test]
fn max_auth_tries_low_clean() {
    let f = audit("sshd_config", "MaxAuthTries 3\n").unwrap();
    assert!(!has(&f, "SSHD011"));
}

#[test]
fn permit_user_environment_yes_flagged() {
    let f = audit("sshd_config", "PermitUserEnvironment yes\n").unwrap();
    assert!(has(&f, "SSHD012"));
}

#[test]
fn permit_user_environment_no_clean() {
    let f = audit("sshd_config", "PermitUserEnvironment no\n").unwrap();
    assert!(!has(&f, "SSHD012"));
}

#[test]
fn use_pam_no_flagged() {
    let f = audit("sshd_config", "UsePAM no\n").unwrap();
    assert!(has(&f, "SSHD013"));
}

#[test]
fn use_pam_yes_clean() {
    let f = audit("sshd_config", "UsePAM yes\n").unwrap();
    assert!(!has(&f, "SSHD013"));
}

#[test]
fn client_alive_interval_missing_flagged() {
    let f = audit("sshd_config", "Port 22\n").unwrap();
    assert!(has(&f, "SSHD014"));
}

#[test]
fn client_alive_interval_set_clean() {
    let f = audit("sshd_config", "ClientAliveInterval 300\n").unwrap();
    assert!(!has(&f, "SSHD014"));
}

#[test]
fn match_block_directive_not_reported_globally() {
    // The hard case: PasswordAuthentication yes only inside a Match
    // block must not be reported as a global PasswordAuthentication
    // setting.
    let cfg = "PasswordAuthentication no\nMatch User deploy\n\tPasswordAuthentication yes\n";
    let f = audit("sshd_config", cfg).unwrap();
    assert!(
        !has(&f, "SSHD003"),
        "Match-scoped directive leaked into global check: {:?}",
        ids(&f)
    );
}

#[test]
fn match_block_permit_root_login_not_global() {
    let cfg = "PermitRootLogin no\nMatch Address 10.0.0.0/8\n    PermitRootLogin yes\n";
    let f = audit("sshd_config", cfg).unwrap();
    assert!(!has(&f, "SSHD001"));
    assert!(!has(&f, "SSHD002"));
}

#[test]
fn case_insensitive_keyword_and_yes() {
    let f = audit("sshd_config", "permitrootlogin YES\n").unwrap();
    assert!(has(&f, "SSHD001"));
}

#[test]
fn comments_and_blank_lines_ignored() {
    let cfg = "# comment\n\n   \nPermitRootLogin no # trailing comment\n";
    let f = audit("sshd_config", cfg).unwrap();
    assert!(!has(&f, "SSHD001"));
    assert!(!has(&f, "SSHD002"));
}

#[test]
fn sshd_line_number_accuracy() {
    let cfg = "Port 22\nProtocol 1\n";
    let f = audit("sshd_config", cfg).unwrap();
    let finding = f.iter().find(|x| x.rule_id == "SSHD005").expect("present");
    assert_eq!(finding.line, 2);
}

#[test]
fn sshd_unterminated_quote_errors_cleanly() {
    let cfg = "Banner \"unterminated\n";
    let result = audit("sshd_config", cfg);
    assert!(result.is_err());
}

#[test]
fn empty_file_no_panic() {
    let f = audit("sshd_config", "").unwrap();
    // Missing-directive info findings still fire on an empty file.
    assert!(has(&f, "SSHD014"));
}

#[test]
fn findings_sorted_by_severity_desc() {
    let cfg = "PermitEmptyPasswords yes\nX11Forwarding yes\n";
    let f = audit("sshd_config", cfg).unwrap();
    for pair in f.windows(2) {
        assert!(pair[0].severity >= pair[1].severity);
    }
}
