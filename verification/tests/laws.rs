//! What holds of audits as a whole, on concrete files.

use confaudit::cli::{exit_status, ignore_list};
use confaudit::finding::{Finding, Severity, SourceKind};
use confaudit::names::NameSet;
use confaudit::order::sort;
use confaudit::parsers::{dockerfile, nginx, sshd, FileKind};
use confaudit::{audit_content, audit_found, audit_read, filter_findings};

const SSHD: &str = "Port 22\nPermitRootLogin yes # never\nPasswordAuthentication yes\n\
                    Protocol 2, 1\nCiphers +aes128-cbc,3DES-CBC,aes256-gcm@openssh.com\n\
                    MACs hmac-md5\nKexAlgorithms diffie-hellman-group1-sha1\nX11Forwarding yes\n\
                    AllowTcpForwarding yes\nMaxAuthTries 6\nPermitUserEnvironment yes\n\
                    PermitEmptyPasswords yes\nUsePAM no\n";

const NGINX: &str = "http {\n  autoindex on;\n  server {\n    listen 80;\n    location /a {\n\
                     \x20     autoindex ON;\n      alias /data;\n      proxy_pass http://b;\n    }\n\
                     \x20   if ($x) { deny all; }\n    ssl_protocols SSLv3;\n\
                     \x20   ssl_ciphers RC4:3DES;\n    client_max_body_size 0;\n  }\n\
                     \x20 server_tokens on;\n}\n";

const DOCKERFILE: &str = "FROM debian\nENV A=b DB_PASSWORD='x y' API_KEY=z\nCOPY . .\n\
                          RUN sudo apt-get install \\\n  curl && \\\n  curl http://x |sh\n\
                          ADD HTTP://x /\nRUN echo --privileged\nUSER root:root\n";

fn ids(findings: &[Finding]) -> Vec<&str> {
    findings.iter().map(|f| f.rule_id.as_str()).collect()
}

fn count(findings: &[Finding], id: &str) -> usize {
    findings.iter().filter(|f| f.rule_id == id).count()
}

fn documented(id: &str) -> Vec<Severity> {
    match id {
        "SSHD001" => vec![Severity::Critical, Severity::Medium],
        "SSHD004" | "SSHD005" | "DOCK004" => vec![Severity::Critical],
        "SSHD002" | "SSHD003" | "SSHD006" | "SSHD007" | "SSHD008" | "NGX001" | "NGX004"
        | "NGX005" | "NGX012" | "DOCK001" | "DOCK006" | "DOCK007" => vec![Severity::High],
        "SSHD012" | "SSHD013" | "NGX003" | "NGX009" | "NGX010" | "NGX011" | "DOCK002"
        | "DOCK003" => vec![Severity::Medium],
        "SSHD009" | "SSHD010" | "SSHD011" | "NGX002" | "NGX006" | "NGX007" | "NGX008"
        | "DOCK005" | "DOCK009" => vec![Severity::Low],
        "SSHD014" | "DOCK008" | "DOCK010" => vec![Severity::Info],
        other => panic!("no rule {}", other),
    }
}

#[test]
fn every_sshd_rule_is_reported_once() {
    let f = sshd::audit("s", SSHD).unwrap();
    assert_eq!(
        ids(&f),
        [
            "SSHD001", "SSHD005", "SSHD004", "SSHD003", "SSHD006", "SSHD007", "SSHD008", "SSHD012",
            "SSHD013", "SSHD009", "SSHD010", "SSHD011", "SSHD014",
        ]
    );
    assert_eq!(f[0].line, 2);
    assert_eq!(f[0].evidence, "PermitRootLogin yes");
    assert_eq!(
        f[4].consequence,
        "Weak/legacy cipher(s) enabled (aes128-cbc, 3DES-CBC); CBC-mode and RC4 ciphers are \
         vulnerable to known plaintext-recovery attacks."
    );
    assert_eq!(f[12].line, 0);
    assert_eq!(f[12].evidence, "(ClientAliveInterval not set)");
}

#[test]
fn findings_name_their_file_and_have_documented_severities() {
    for (kind, source, content) in [
        (FileKind::Sshd, SourceKind::Sshd, SSHD),
        (FileKind::Nginx, SourceKind::Nginx, NGINX),
        (FileKind::Dockerfile, SourceKind::Dockerfile, DOCKERFILE),
    ] {
        let findings = audit_content(kind, "some/file", content).unwrap();
        assert!(findings.len() > 8);
        for f in &findings {
            assert_eq!(f.file, "some/file");
            assert_eq!(f.source, source);
            assert!(documented(&f.rule_id).contains(&f.severity), "{:?}", f);
            assert!(f.line <= content.lines().count());
        }
        for pair in findings.windows(2) {
            assert!(!pair[1].comes_before(&pair[0]));
        }
    }
}

#[test]
fn match_line_ends_global_scope() {
    let above = "PermitRootLogin no\nUsePAM no\n";
    let alone = sshd::audit("s", above).unwrap();
    for below in [
        "Match all\n",
        "MATCH User x\nPermitRootLogin yes\nMaxAuthTries 3\nClientAliveInterval 1\n",
        "  match Group y # a comment\nMatch User z\nPermitEmptyPasswords yes\n",
    ] {
        let content = format!("{}{}", above, below);
        assert_eq!(sshd::audit("s", &content).unwrap(), alone);
    }
}

#[test]
fn sshd_error_names_first_open_quote() {
    let content = "Banner \"ok\"\n# \"comment\nBanner \"open # not a comment\nBanner \"again\n";
    assert_eq!(
        sshd::audit("s", content).unwrap_err(),
        "line 3: unterminated quoted string"
    );
}

#[test]
fn sshd_first_directive_counts() {
    let f = sshd::audit("s", "UsePAM yes\nUsePAM no\nMaxAuthTries x\n").unwrap();
    assert_eq!(count(&f, "SSHD013"), 0);
    assert_eq!(count(&f, "SSHD011"), 0);
    let high = sshd::audit("s", "MaxAuthTries +5\n").unwrap();
    assert_eq!(count(&high, "SSHD011"), 1);
    let edge = sshd::audit("s", "MaxAuthTries 4\n").unwrap();
    assert_eq!(count(&edge, "SSHD011"), 0);
    let large = sshd::audit("s", "MaxAuthTries 4294967296\n").unwrap();
    assert_eq!(count(&large, "SSHD011"), 0);
}

#[test]
fn nginx_audit_reports_every_violation_once() {
    let f = nginx::audit("n", NGINX).unwrap();
    assert_eq!(
        f.iter().map(|x| (x.rule_id.as_str(), x.line)).collect::<Vec<_>>(),
        [
            ("NGX001", 2),
            ("NGX001", 6),
            ("NGX012", 7),
            ("NGX004", 11),
            ("NGX005", 12),
            ("NGX003", 3),
            ("NGX010", 8),
            ("NGX011", 10),
            ("NGX009", 13),
            ("NGX006", 3),
            ("NGX007", 3),
            ("NGX002", 15),
        ]
    );
    assert_eq!(f[7].evidence, "if ($x)");
    assert_eq!(
        f[2].fix,
        "Add a trailing slash to both, e.g. 'location /a/ { alias /data/; }'."
    );
    assert_eq!(
        f[4].consequence,
        "Weak cipher token(s) allowed (rc4, 3des); these are vulnerable to known \
         plaintext-recovery or downgrade attacks."
    );
    assert_eq!(f[5].evidence, "server");
    assert_eq!(
        f[9].fix,
        "Add 'add_header X-Content-Type-Options nosniff;' (at http, server, or this location \
         level)."
    );
    assert_eq!(
        f[10].fix,
        "Add 'add_header X-Frame-Options DENY;' (at http, server, or this location level)."
    );
}

#[test]
fn headers_and_host_are_inherited() {
    let content = "http { add_header x-frame-options DENY; proxy_set_header HOST $h; \
                   add_header Strict-Transport-Security x; add_header X-Content-Type-Options n; \
                   server { listen 443 SSL; location / { proxy_pass u; } server { } } \
                   map a { server { listen ssl; } } }";
    let f = nginx::audit("n", content).unwrap();
    for id in ["NGX006", "NGX007", "NGX008", "NGX010"] {
        assert_eq!(count(&f, id), 0, "{}", id);
    }
    let outside = nginx::audit("n", "a { add_header X-Frame-Options D; } server { }").unwrap();
    assert_eq!(count(&outside, "NGX007"), 1);
}

#[test]
fn nginx_errors_name_their_line() {
    for (content, message) in [
        ("a 'b\nc", "line 1: unterminated quoted string"),
        ("\nx\"y\n", "line 2: unterminated quoted string"),
        ("server {", "unexpected end of file: unterminated block, missing '}'"),
        ("a;\n}", "line 2: unexpected '}' with no matching '{'"),
        ("\n\n;", "line 3: unexpected ';' with no directive"),
        ("{ }", "line 1: unexpected '{' with no block name"),
        ("a {\nb }", "line 2: unexpected '}' before ';' or '{'"),
        ("a;\nb\nc", "line 2: unexpected end of file, expected ';' or '{'"),
    ] {
        assert_eq!(nginx::parse(content).unwrap_err(), message);
        assert_eq!(nginx::audit("n", content).unwrap_err(), message);
    }
}

#[test]
fn nginx_tree_keeps_words_and_lines() {
    let items = nginx::parse("Events {\n} # }\nA 'b c'd\n  \"\" e;").unwrap();
    assert_eq!(items.len(), 2);
    match &items[0] {
        nginx::Item::Block(b) => {
            assert_eq!((b.name.as_str(), b.args.as_str(), b.line), ("events", "", 1));
            assert_eq!(b.raw, "Events");
            assert!(b.children.is_empty());
        }
        nginx::Item::Directive(d) => panic!("{:?}", d),
    }
    match items[1].clone() {
        nginx::Item::Directive(d) => {
            assert_eq!(d.keyword, "a");
            assert_eq!(d.args, "b cd e");
            assert_eq!(d.raw, "A 'b c'd e");
            assert_eq!(d.line, 3);
        }
        nginx::Item::Block(b) => panic!("{:?}", b),
    }
}

#[test]
fn dockerfile_audit_reports_every_violation() {
    let f = dockerfile::audit("d", DOCKERFILE).unwrap();
    assert_eq!(
        f.iter().map(|x| (x.rule_id.as_str(), x.line)).collect::<Vec<_>>(),
        [
            ("DOCK004", 2),
            ("DOCK004", 2),
            ("DOCK006", 4),
            ("DOCK007", 8),
            ("DOCK001", 9),
            ("DOCK002", 1),
            ("DOCK003", 7),
            ("DOCK005", 4),
            ("DOCK009", 4),
            ("DOCK008", 0),
            ("DOCK010", 3),
        ]
    );
    assert_eq!(f[2].evidence, "RUN sudo apt-get install  curl &&  curl http://x |sh");
    assert!(f[7].consequence.starts_with(
        "Missing '--no-install-recommends' and apt list cleanup: this pulls in extra packages"
    ));
}

#[test]
fn dockerfile_apt_findings_say_what_is_missing() {
    for (command, missing) in [
        ("apt install --no-install-recommends x", "apt list cleanup ('rm -rf /var/lib/apt/lists/*')"),
        ("apt-get install x && apt-get clean", "'--no-install-recommends'"),
    ] {
        let f = dockerfile::audit("d", &format!("RUN {}", command)).unwrap();
        let found = f.iter().find(|x| x.rule_id == "DOCK005").unwrap();
        assert!(found.consequence.starts_with(&format!("Missing {}: ", missing)));
    }
}

#[test]
fn trailing_comments_change_nothing() {
    let above = "FROM a:1\nRUN x \\\n# y\nz\n";
    let alone = dockerfile::audit("d", above).unwrap();
    let content = format!("{}\n   # z \\\n\t\n", above);
    assert_eq!(dockerfile::audit("d", &content).unwrap(), alone);
}

#[test]
fn dangling_continuation_fails() {
    assert_eq!(
        dockerfile::audit("d", "FROM a\nRUN x \\\n  y \\  \n").unwrap_err(),
        "line 2: line continuation ('\\\\') with no following line"
    );
    assert_eq!(
        dockerfile::audit("d", "FROM a\nRUN x \\\n  # y\n").unwrap_err(),
        "line 2: line continuation ('\\\\') with no following line"
    );
    assert_eq!(
        dockerfile::parse("\n\\\n\n").unwrap_err(),
        "line 2: empty instruction"
    );
}

#[test]
fn variables_are_split_outside_quotes() {
    assert_eq!(
        dockerfile::env_arg_pairs("A=\"b c\" D='e f' G ==h"),
        [
            ("A".to_string(), "b c".to_string()),
            ("D".to_string(), "e f".to_string()),
            (String::new(), "=h".to_string()),
        ]
    );
    assert_eq!(
        dockerfile::env_arg_pairs("KEY  a value "),
        [("KEY".to_string(), "a value".to_string())]
    );
    assert!(dockerfile::env_arg_pairs("KEY").is_empty());
    assert_eq!(
        dockerfile::env_arg_pairs("MY_SECRET a=b"),
        [("MY_SECRET".to_string(), "a=b".to_string())]
    );
    assert_eq!(
        dockerfile::env_arg_pairs("\"MY KEY_SECRET\"=x"),
        [("\"MY KEY_SECRET\"".to_string(), "x".to_string())]
    );
    assert_eq!(
        dockerfile::env_arg_pairs("'a b'=c D=\"e=f\""),
        [
            ("'a b'".to_string(), "c".to_string()),
            ("D".to_string(), "e=f".to_string()),
        ]
    );
    assert_eq!(
        dockerfile::env_arg_pairs("  A=b C"),
        [("A".to_string(), "b".to_string())]
    );
}

#[test]
fn filters_compose_and_gate_the_exit_status() {
    let all = audit_content(FileKind::Dockerfile, "d", DOCKERFILE).unwrap();
    assert_eq!(filter_findings(all.clone(), Severity::Info, &[]), all);
    let ignore = ignore_list(" dock004, ,DOCK001,");
    assert_eq!(ignore, ["dock004", "DOCK001"]);
    let high = filter_findings(all.clone(), Severity::High, &ignore);
    assert_eq!(ids(&high), ["DOCK006", "DOCK007"]);
    assert_eq!(filter_findings(high.clone(), Severity::High, &ignore), high);
    let twice = filter_findings(
        filter_findings(all.clone(), Severity::Low, &ignore[..1]),
        Severity::High,
        &ignore[1..],
    );
    assert_eq!(twice, high);
    assert_eq!(exit_status(false, false, high.len()), 1);
    let none = filter_findings(all, Severity::Critical, &ignore);
    assert_eq!(exit_status(false, false, none.len()), 0);
    assert_eq!(exit_status(false, true, 5), 0);
    assert_eq!(exit_status(true, true, 0), 2);
    assert!(ignore_list("").is_empty());
}

#[test]
fn sorting_is_stable() {
    let f = |line: usize, evidence: &str| {
        Finding::new("A", Severity::Low, SourceKind::Sshd, "f", line, evidence, "c", "x")
    };
    let sorted = sort(vec![f(2, "1"), f(1, "2"), f(2, "3"), f(1, "4")]);
    assert_eq!(
        sorted.iter().map(|x| x.evidence.as_str()).collect::<Vec<_>>(),
        ["2", "4", "1", "3"]
    );
}

#[test]
fn comments_only_move_lines() {
    for (kind, content, comment, n) in [
        (FileKind::Sshd, SSHD, "   # PermitRootLogin no", 0),
        (FileKind::Sshd, SSHD, "", 4),
        (FileKind::Dockerfile, DOCKERFILE, "# FROM x", 3),
        (FileKind::Dockerfile, DOCKERFILE, "  # between \\", 4),
        (FileKind::Dockerfile, DOCKERFILE, "# before the last", 5),
        (FileKind::Dockerfile, DOCKERFILE, " \t", 6),
    ] {
        let mut lines: Vec<&str> = content.lines().collect();
        lines.insert(n, comment);
        let expected: Vec<Finding> = audit_content(kind, "f", content)
            .unwrap()
            .into_iter()
            .map(|mut f| {
                if f.line > n {
                    f.line += 1;
                }
                f
            })
            .collect();
        assert_eq!(audit_content(kind, "f", &lines.join("\n")).unwrap(), expected);
    }
}

#[test]
fn nginx_lines_count_inside_quotes_and_comments() {
    let f = nginx::audit("n", "a \"x\ny\" b; # c\n\nautoindex\n on;").unwrap();
    assert_eq!(f.len(), 1);
    assert_eq!(f[0].line, 4);
    assert_eq!(f[0].evidence, "autoindex on");
}

#[test]
fn base_image_is_behind_the_flags() {
    let rest = "USER app\nHEALTHCHECK NONE\n";
    for (image, flagged) in [
        ("--platform=linux/amd64 debian:12", false),
        ("--platform=linux/amd64 debian", true),
        ("--platform=$P --other=x:1 debian:latest AS b", true),
        ("scratch", false),
        ("scratchpad", true),
        ("registry:5000/debian", true),
        ("registry:5000/debian:12", false),
        ("--platform=a:b", true),
    ] {
        let f = dockerfile::audit("Dockerfile", &format!("FROM {}\n{}", image, rest)).unwrap();
        assert_eq!(count(&f, "DOCK002"), usize::from(flagged), "{}", image);
        assert_eq!(f.len(), usize::from(flagged));
    }
}

#[test]
fn copied_context_is_shown_as_written() {
    let content = "FROM node:20\nCOPY ./ ./\nRUN npm install\nUSER app\nHEALTHCHECK NONE\n";
    let f = audit_content(FileKind::Dockerfile, "Dockerfile", content).unwrap();
    assert_eq!(ids(&f), ["DOCK010"]);
    assert_eq!((f[0].line, f[0].evidence.as_str()), (2, "COPY ./ ./"));
}

#[test]
fn comments_within_an_instruction_are_ignored() {
    let v = dockerfile::parse("RUN echo a \\\n# note\necho b\n").unwrap();
    assert_eq!(v.len(), 1);
    assert_eq!((v[0].keyword.as_str(), v[0].line), ("RUN", 1));
    assert_eq!(v[0].args.split_whitespace().collect::<Vec<_>>(), ["echo", "a", "echo", "b"]);
}

#[test]
fn legacy_secret_is_reported() {
    let f = dockerfile::audit("d", "ENV MY_SECRET a=b\n").unwrap();
    assert_eq!(count(&f, "DOCK004"), 1);
    let quoted = dockerfile::audit("d", "ENV \"MY KEY_SECRET\"=x\n").unwrap();
    assert_eq!(count(&quoted, "DOCK004"), 1);
}

#[test]
fn only_shells_are_piped_into() {
    for (command, flagged) in [
        ("curl -fsSL u | sh", true),
        ("curl u |bash -s -- x", true),
        ("(wget -O- u | sh)", true),
        ("curl u | sha256sum -c", false),
        ("wget u |shellcheck - ; bash x", false),
        ("echo x | sh", false),
    ] {
        let f = dockerfile::audit("d", &format!("RUN {}\n", command)).unwrap();
        assert_eq!(count(&f, "DOCK006"), usize::from(flagged), "{}", command);
    }
}

#[test]
fn tls_settings_outside_blocks_are_reported_once() {
    let f = nginx::audit("ssl.conf", "ssl_protocols TLSv1;\n").unwrap();
    assert_eq!(ids(&f), ["NGX004"]);
    assert_eq!((f[0].severity, f[0].line), (Severity::High, 1));
    let both = nginx::audit("n", "ssl_ciphers RC4;\nhttp { ssl_ciphers MD5; }\n").unwrap();
    assert_eq!(count(&both, "NGX005"), 2);
    assert_eq!((both[0].line, both[1].line), (1, 2));
}

#[test]
fn nginx_evidence_keeps_quotes() {
    let f = nginx::audit("n", "autoindex  \"on\";\nif ($a = 'b c') { deny x; }").unwrap();
    assert_eq!(ids(&f), ["NGX001", "NGX011"]);
    assert_eq!(f[0].evidence, "autoindex \"on\"");
    assert_eq!(f[1].evidence, "if ($a = 'b c')");
}

#[test]
fn nginx_files_can_be_put_together() {
    let a = "http {\n server { } }\nautoindex on; # \"\n";
    let b = "server {\n  listen \"80\n\";\n location / { autoindex on; } }";
    let mut expected: Vec<(String, usize)> = Vec::new();
    for (content, moved) in [(a, 0), (b, 3)] {
        for f in nginx::audit("n", content).unwrap() {
            expected.push((f.rule_id, f.line + moved));
        }
    }
    let mut found: Vec<(String, usize)> = nginx::audit("n", &format!("{}{}", a, b))
        .unwrap()
        .into_iter()
        .map(|f| (f.rule_id, f.line))
        .collect();
    expected.sort();
    found.sort();
    assert_eq!(found, expected);
    assert!(found.contains(&("NGX001".to_string(), 7)));
}

#[test]
fn reading_and_auditing_fail_in_order() {
    let unread = || Err("no such file".to_string());
    assert_eq!(
        audit_read("notes.txt", unread()).unwrap_err(),
        "notes.txt: unrecognized config file (expected sshd_config, an nginx *.conf, or a Dockerfile)"
    );
    assert_eq!(
        audit_read("a/sshd_config", unread()).unwrap_err(),
        "a/sshd_config: no such file"
    );
    assert_eq!(
        audit_read("a.conf", Ok("}".to_string())).unwrap_err(),
        "line 1: unexpected '}' with no matching '{'"
    );
    assert_eq!(
        audit_read("x/Dockerfile", Ok(DOCKERFILE.to_string())),
        audit_content(FileKind::Dockerfile, "x/Dockerfile", DOCKERFILE)
    );
    assert_eq!(
        audit_found(Ok(FileKind::Sshd), "s", Ok(SSHD.to_string())),
        sshd::audit("s", SSHD)
    );
    assert_eq!(audit_found(Err("e".to_string()), "s", unread()), Err("e".to_string()));
}

#[test]
fn file_name_is_only_a_label() {
    for (kind, content) in [
        (FileKind::Sshd, SSHD),
        (FileKind::Nginx, NGINX),
        (FileKind::Dockerfile, DOCKERFILE),
    ] {
        let mut findings = audit_content(kind, "a", content).unwrap();
        for f in &mut findings {
            f.file = "z/other".to_string();
        }
        assert_eq!(audit_content(kind, "z/other", content).unwrap(), findings);
    }
    assert_eq!(
        audit_content(FileKind::Nginx, "a", "}"),
        audit_content(FileKind::Nginx, "b", "}")
    );
}

#[test]
fn walks_append_and_add_up() {
    let a = nginx::parse("server { add_header X-Frame-Options D; }").unwrap();
    let b = nginx::parse("autoindex on; server { }").unwrap();
    let mut both = a.clone();
    both.extend(b.clone());
    let ctx = nginx::Ctx { headers: NameSet::new(), proxy_host_set: false };
    let mut found: Vec<Finding> = Vec::new();
    nginx::walk("n", &a, &ctx, &mut found);
    let first = found.clone();
    nginx::walk("n", &b, &ctx, &mut found);
    assert_eq!(found[..first.len()], first[..]);
    let mut whole: Vec<Finding> = Vec::new();
    nginx::walk("n", &both, &ctx, &mut whole);
    assert_eq!(whole, found);
    assert_eq!(count(&whole, "NGX007"), 1);
}
