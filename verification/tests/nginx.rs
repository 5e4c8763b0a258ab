//! The rules on nginx configurations.

use confaudit::finding::Finding;
use confaudit::parsers::nginx::audit;

fn has(findings: &[Finding], id: &str) -> bool {
    findings.iter().any(|f| f.rule_id == id)
}

const TLS_SERVER: &str = r#"
server {
    listen 443 ssl;
    ssl_certificate /etc/ssl/cert.pem;
    ssl_certificate_key /etc/ssl/key.pem;
    ssl_protocols TLSv1.2 TLSv1.3;
    ssl_ciphers HIGH:!aNULL;
    add_header X-Content-Type-Options nosniff;
    add_header X-Frame-Options DENY;
    add_header Strict-Transport-Security "max-age=63072000" always;
    server_name example.com;
}
"#;

#[test]
fn autoindex_on_flagged() {
    let f = audit("nginx.conf", "server { location / { autoindex on; } }").unwrap();
    assert!(has(&f, "NGX001"));
}

#[test]
fn autoindex_off_clean() {
    let f = audit("nginx.conf", "server { location / { autoindex off; } }").unwrap();
    assert!(!has(&f, "NGX001"));
}

#[test]
fn server_tokens_on_flagged() {
    let f = audit("nginx.conf", "http { server_tokens on; }").unwrap();
    assert!(has(&f, "NGX002"));
}

#[test]
fn server_tokens_off_clean() {
    let f = audit("nginx.conf", "http { server_tokens off; }").unwrap();
    assert!(!has(&f, "NGX002"));
}

#[test]
fn missing_https_redirect_flagged() {
    let f = audit("nginx.conf", "server { listen 80; server_name x.com; }").unwrap();
    assert!(has(&f, "NGX003"));
}

#[test]
fn https_redirect_present_clean() {
    let f = audit(
        "nginx.conf",
        "server { listen 80; return 301 https://$host$request_uri; }",
    )
    .unwrap();
    assert!(!has(&f, "NGX003"));
}

#[test]
fn tls_server_no_redirect_needed() {
    let f = audit("nginx.conf", TLS_SERVER).unwrap();
    assert!(!has(&f, "NGX003"));
}

#[test]
fn weak_ssl_protocol_flagged() {
    let f = audit("nginx.conf", "server { ssl_protocols TLSv1 TLSv1.1; }").unwrap();
    assert!(has(&f, "NGX004"));
}

#[test]
fn strong_ssl_protocol_clean() {
    let f = audit("nginx.conf", "server { ssl_protocols TLSv1.2 TLSv1.3; }").unwrap();
    assert!(!has(&f, "NGX004"));
}

#[test]
fn weak_ssl_ciphers_flagged() {
    let f = audit("nginx.conf", "server { ssl_ciphers RC4-SHA:MD5; }").unwrap();
    assert!(has(&f, "NGX005"));
}

#[test]
fn strong_ssl_ciphers_clean() {
    let f = audit(
        "nginx.conf",
        "server { ssl_ciphers ECDHE-ECDSA-AES128-GCM-SHA256; }",
    )
    .unwrap();
    assert!(!has(&f, "NGX005"));
}

#[test]
fn missing_content_type_options_flagged() {
    let f = audit("nginx.conf", "server { server_name x.com; }").unwrap();
    assert!(has(&f, "NGX006"));
}

#[test]
fn missing_frame_options_flagged() {
    let f = audit("nginx.conf", "server { server_name x.com; }").unwrap();
    assert!(has(&f, "NGX007"));
}

#[test]
fn headers_present_on_server_clean() {
    let cfg = r"server {
        add_header X-Content-Type-Options nosniff;
        add_header X-Frame-Options DENY;
    }";
    let f = audit("nginx.conf", cfg).unwrap();
    assert!(!has(&f, "NGX006"));
    assert!(!has(&f, "NGX007"));
}

#[test]
fn headers_inherited_from_http_not_double_flagged() {
    // The hard case: a header set once at http level applies to every
    // server beneath it and must not be reported missing per-server.
    let cfg = r"http {
        add_header X-Content-Type-Options nosniff;
        add_header X-Frame-Options DENY;
        server {
            server_name a.com;
        }
        server {
            server_name b.com;
        }
    }";
    let f = audit("nginx.conf", cfg).unwrap();
    assert!(!has(&f, "NGX006"));
    assert!(!has(&f, "NGX007"));
}

#[test]
fn header_missing_on_one_of_two_servers() {
    let cfg = r"http {
        server {
            server_name a.com;
            add_header X-Content-Type-Options nosniff;
            add_header X-Frame-Options DENY;
        }
        server {
            server_name b.com;
        }
    }";
    let f = audit("nginx.conf", cfg).unwrap();
    let missing_count = f.iter().filter(|x| x.rule_id == "NGX006").count();
    assert_eq!(missing_count, 1);
}

#[test]
fn missing_hsts_on_tls_server_flagged() {
    let cfg = r"server {
        listen 443 ssl;
        ssl_certificate /etc/ssl/cert.pem;
        add_header X-Content-Type-Options nosniff;
        add_header X-Frame-Options DENY;
    }";
    let f = audit("nginx.conf", cfg).unwrap();
    assert!(has(&f, "NGX008"));
}

#[test]
fn hsts_present_on_tls_server_clean() {
    let f = audit("nginx.conf", TLS_SERVER).unwrap();
    assert!(!has(&f, "NGX008"));
}

#[test]
fn hsts_not_required_on_plain_http_server() {
    let cfg = "server { listen 80; return 301 https://$host$request_uri; }";
    let f = audit("nginx.conf", cfg).unwrap();
    assert!(!has(&f, "NGX008"));
}

#[test]
fn client_max_body_size_zero_flagged() {
    let f = audit("nginx.conf", "http { client_max_body_size 0; }").unwrap();
    assert!(has(&f, "NGX009"));
}

#[test]
fn client_max_body_size_bounded_clean() {
    let f = audit("nginx.conf", "http { client_max_body_size 10m; }").unwrap();
    assert!(!has(&f, "NGX009"));
}

#[test]
fn proxy_pass_without_host_header_flagged() {
    let cfg = "server { location / { proxy_pass http://backend; } }";
    let f = audit("nginx.conf", cfg).unwrap();
    assert!(has(&f, "NGX010"));
}

#[test]
fn proxy_pass_with_host_header_clean() {
    let cfg = r"server {
        location / {
            proxy_set_header Host $host;
            proxy_pass http://backend;
        }
    }";
    let f = audit("nginx.conf", cfg).unwrap();
    assert!(!has(&f, "NGX010"));
}

#[test]
fn proxy_pass_host_header_inherited_from_server_clean() {
    let cfg = r"server {
        proxy_set_header Host $host;
        location / {
            proxy_pass http://backend;
        }
    }";
    let f = audit("nginx.conf", cfg).unwrap();
    assert!(!has(&f, "NGX010"));
}

#[test]
fn if_with_proxy_pass_flagged() {
    let cfg = r"server {
        location / {
            if ($request_method = POST) {
                proxy_pass http://backend;
            }
        }
    }";
    let f = audit("nginx.conf", cfg).unwrap();
    assert!(has(&f, "NGX011"));
}

#[test]
fn if_with_only_return_clean() {
    let cfg = r"server {
        location / {
            if ($request_method = POST) {
                return 405;
            }
        }
    }";
    let f = audit("nginx.conf", cfg).unwrap();
    assert!(!has(&f, "NGX011"));
}

#[test]
fn alias_without_trailing_slash_flagged() {
    let cfg = "server { location /files { alias /data/files; } }";
    let f = audit("nginx.conf", cfg).unwrap();
    assert!(has(&f, "NGX012"));
}

#[test]
fn alias_with_trailing_slash_clean() {
    let cfg = "server { location /files/ { alias /data/files/; } }";
    let f = audit("nginx.conf", cfg).unwrap();
    assert!(!has(&f, "NGX012"));
}

#[test]
fn nested_http_server_location_parses() {
    let cfg = r"http {
        server {
            location / {
                location /inner {
                    return 200;
                }
            }
        }
    }";
    assert!(audit("nginx.conf", cfg).is_ok());
}

#[test]
fn nginx_comments_are_ignored() {
    let cfg = "server {\n    # autoindex on;\n    autoindex off;\n}\n";
    let f = audit("nginx.conf", cfg).unwrap();
    assert!(!has(&f, "NGX001"));
}

#[test]
fn quoted_string_with_braces_does_not_confuse_parser() {
    let cfg = r#"server { add_header X-Test "value with { and } chars"; }"#;
    assert!(audit("nginx.conf", cfg).is_ok());
}

#[test]
fn unterminated_brace_errors_cleanly() {
    let cfg = "server { location / { autoindex on; }";
    let result = audit("nginx.conf", cfg);
    assert!(result.is_err());
}

#[test]
fn stray_closing_brace_errors_cleanly() {
    let cfg = "server { } }";
    let result = audit("nginx.conf", cfg);
    assert!(result.is_err());
}

#[test]
fn nginx_unterminated_quote_errors_cleanly() {
    let cfg = "server { add_header X-Test \"unterminated; }";
    let result = audit("nginx.conf", cfg);
    assert!(result.is_err());
}

#[test]
fn line_number_accuracy_in_nested_block() {
    let cfg = "http {\n    server {\n        autoindex on;\n    }\n}\n";
    let f = audit("nginx.conf", cfg).unwrap();
    let finding = f.iter().find(|x| x.rule_id == "NGX001").expect("present");
    assert_eq!(finding.line, 3);
}

#[test]
fn empty_file_parses_with_no_findings_of_block_rules() {
    let f = audit("nginx.conf", "").unwrap();
    assert!(!has(&f, "NGX001"));
    assert!(!has(&f, "NGX003"));
}
