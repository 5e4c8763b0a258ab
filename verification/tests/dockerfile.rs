//! The rules on Dockerfiles.

use confaudit::finding::Finding;
use confaudit::parsers::dockerfile::{audit, parse};

fn has(findings: &[Finding], id: &str) -> bool {
    findings.iter().any(|f| f.rule_id == id)
}

#[test]
fn no_user_flagged() {
    let f = audit("Dockerfile", "FROM debian:12\n").unwrap();
    assert!(has(&f, "DOCK001"));
}

#[test]
fn user_root_flagged() {
    let f = audit("Dockerfile", "FROM debian:12\nUSER root\n").unwrap();
    assert!(has(&f, "DOCK001"));
}

#[test]
fn user_zero_flagged() {
    let f = audit("Dockerfile", "FROM debian:12\nUSER 0\n").unwrap();
    assert!(has(&f, "DOCK001"));
}

#[test]
fn user_nonroot_clean() {
    let f = audit("Dockerfile", "FROM debian:12\nUSER app\n").unwrap();
    assert!(!has(&f, "DOCK001"));
}

#[test]
fn latest_tag_flagged() {
    let f = audit("Dockerfile", "FROM debian:latest\nUSER app\n").unwrap();
    assert!(has(&f, "DOCK002"));
}

#[test]
fn no_tag_flagged() {
    let f = audit("Dockerfile", "FROM debian\nUSER app\n").unwrap();
    assert!(has(&f, "DOCK002"));
}

#[test]
fn pinned_tag_clean() {
    let f = audit("Dockerfile", "FROM debian:12.5\nUSER app\n").unwrap();
    assert!(!has(&f, "DOCK002"));
}

#[test]
fn scratch_base_clean() {
    let f = audit("Dockerfile", "FROM scratch\nUSER app\n").unwrap();
    assert!(!has(&f, "DOCK002"));
}

#[test]
fn add_url_flagged() {
    let f = audit(
        "Dockerfile",
        "FROM debian:12\nADD https://example.com/file.tar.gz /tmp/\nUSER app\n",
    )
    .unwrap();
    assert!(has(&f, "DOCK003"));
}

#[test]
fn add_local_file_clean() {
    let f = audit(
        "Dockerfile",
        "FROM debian:12\nADD app.tar.gz /tmp/\nUSER app\n",
    )
    .unwrap();
    assert!(!has(&f, "DOCK003"));
}

#[test]
fn copy_instead_of_add_clean() {
    let f = audit(
        "Dockerfile",
        "FROM debian:12\nCOPY app.tar.gz /tmp/\nUSER app\n",
    )
    .unwrap();
    assert!(!has(&f, "DOCK003"));
}

#[test]
fn secret_in_env_flagged() {
    let f = audit(
        "Dockerfile",
        "FROM debian:12\nENV DB_PASSWORD=hunter2fake\nUSER app\n",
    )
    .unwrap();
    assert!(has(&f, "DOCK004"));
}

#[test]
fn secret_in_arg_flagged() {
    let f = audit(
        "Dockerfile",
        "FROM debian:12\nARG API_KEY=fake-abc123\nUSER app\n",
    )
    .unwrap();
    assert!(has(&f, "DOCK004"));
}

#[test]
fn non_secret_env_clean() {
    let f = audit(
        "Dockerfile",
        "FROM debian:12\nENV APP_ENV=production\nUSER app\n",
    )
    .unwrap();
    assert!(!has(&f, "DOCK004"));
}

#[test]
fn empty_secret_value_not_flagged() {
    let f = audit("Dockerfile", "FROM debian:12\nARG DB_PASSWORD\nUSER app\n").unwrap();
    assert!(!has(&f, "DOCK004"));
}

#[test]
fn apt_install_missing_flags_flagged() {
    let f = audit(
        "Dockerfile",
        "FROM debian:12\nRUN apt-get update && apt-get install -y curl\nUSER app\n",
    )
    .unwrap();
    assert!(has(&f, "DOCK005"));
}

#[test]
fn apt_install_clean_flags_clean() {
    let cfg = "FROM debian:12\nRUN apt-get update && apt-get install -y --no-install-recommends curl && rm -rf /var/lib/apt/lists/*\nUSER app\n";
    let f = audit("Dockerfile", cfg).unwrap();
    assert!(!has(&f, "DOCK005"));
}

#[test]
fn curl_pipe_sh_flagged() {
    let f = audit(
        "Dockerfile",
        "FROM debian:12\nRUN curl -fsSL https://get.example.com | sh\nUSER app\n",
    )
    .unwrap();
    assert!(has(&f, "DOCK006"));
}

#[test]
fn curl_pipe_bash_flagged() {
    let f = audit(
        "Dockerfile",
        "FROM debian:12\nRUN curl -fsSL https://get.example.com | bash\nUSER app\n",
    )
    .unwrap();
    assert!(has(&f, "DOCK006"));
}

#[test]
fn curl_to_file_clean() {
    let cfg = "FROM debian:12\nRUN curl -fsSL https://get.example.com -o install.sh && sh install.sh\nUSER app\n";
    let f = audit("Dockerfile", cfg).unwrap();
    assert!(!has(&f, "DOCK006"));
}

#[test]
fn privileged_hint_flagged() {
    let f = audit(
        "Dockerfile",
        "FROM debian:12\nRUN echo 'requires --privileged' > /README\nUSER app\n",
    )
    .unwrap();
    assert!(has(&f, "DOCK007"));
}

#[test]
fn no_privileged_hint_clean() {
    let f = audit("Dockerfile", "FROM debian:12\nRUN echo hello\nUSER app\n").unwrap();
    assert!(!has(&f, "DOCK007"));
}

#[test]
fn missing_healthcheck_flagged() {
    let f = audit("Dockerfile", "FROM debian:12\nUSER app\n").unwrap();
    assert!(has(&f, "DOCK008"));
}

#[test]
fn healthcheck_present_clean() {
    let cfg = "FROM debian:12\nUSER app\nHEALTHCHECK CMD curl -f http://localhost/ || exit 1\n";
    let f = audit("Dockerfile", cfg).unwrap();
    assert!(!has(&f, "DOCK008"));
}

#[test]
fn sudo_usage_flagged() {
    let f = audit(
        "Dockerfile",
        "FROM debian:12\nRUN sudo apt-get update\nUSER app\n",
    )
    .unwrap();
    assert!(has(&f, "DOCK009"));
}

#[test]
fn no_sudo_clean() {
    let f = audit(
        "Dockerfile",
        "FROM debian:12\nRUN apt-get update\nUSER app\n",
    )
    .unwrap();
    assert!(!has(&f, "DOCK009"));
}

#[test]
fn copy_all_before_install_flagged() {
    let cfg = "FROM node:20.11\nWORKDIR /app\nCOPY . .\nRUN npm install\nUSER app\n";
    let f = audit("Dockerfile", cfg).unwrap();
    assert!(has(&f, "DOCK010"));
}

#[test]
fn copy_manifest_then_install_then_copy_all_clean() {
    let cfg = "FROM node:20.11\nWORKDIR /app\nCOPY package.json .\nRUN npm install\nCOPY . .\nUSER app\n";
    let f = audit("Dockerfile", cfg).unwrap();
    assert!(!has(&f, "DOCK010"));
}

#[test]
fn line_continuation_joins_instruction() {
    let cfg = "FROM debian:12\nRUN apt-get update && \\\n    apt-get install -y --no-install-recommends curl && \\\n    rm -rf /var/lib/apt/lists/*\nUSER app\n";
    let instructions = parse(cfg).unwrap();
    let run = instructions
        .iter()
        .find(|i| i.keyword == "RUN")
        .expect("RUN present");
    assert!(run.args.contains("curl"));
    assert!(run.args.contains("rm -rf"));
}

#[test]
fn dockerfile_comments_are_ignored() {
    let cfg = "# comment\nFROM debian:12\n# another comment\nUSER app\n";
    let instructions = parse(cfg).unwrap();
    assert_eq!(instructions.len(), 2);
}

#[test]
fn dockerfile_line_number_accuracy() {
    let cfg = "FROM debian:12\nUSER app\nRUN echo hi\nRUN sudo echo bye\n";
    let f = audit("Dockerfile", cfg).unwrap();
    let finding = f.iter().find(|x| x.rule_id == "DOCK009").expect("present");
    assert_eq!(finding.line, 4);
}

#[test]
fn unterminated_continuation_errors_cleanly() {
    let cfg = "FROM debian:12\nRUN echo hi \\\n";
    let result = parse(cfg);
    assert!(result.is_err());
}

#[test]
fn empty_file_flags_missing_user_and_healthcheck() {
    let f = audit("Dockerfile", "").unwrap();
    assert!(has(&f, "DOCK001"));
    assert!(has(&f, "DOCK008"));
}

#[test]
fn env_multiple_key_value_pairs_parsed() {
    let cfg = "FROM debian:12\nENV FOO=bar BAR=baz\nUSER app\n";
    let f = audit("Dockerfile", cfg).unwrap();
    assert!(!has(&f, "DOCK004"));
}
