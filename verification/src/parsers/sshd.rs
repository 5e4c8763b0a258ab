//! Parser and rule set for `sshd_config`.
//!
//! `sshd_config` is a simple keyword/argument-per-line format with one
//! wrinkle: a `Match` line scopes every directive that follows it, up to the
//! end of the file, to a condition. A directive inside a `Match` block is
//! *not* a global setting and is never reported as one.

use crate::finding::{add_finding, views, Finding, FindingView, Severity, SourceKind};
use crate::order;
use crate::parsers::{lemma_prepend_nothing, lemma_prepend_one, prepended};
use crate::text;
use vstd::prelude::*;
use vstd::slice::slice_subrange;

verus! {

/// One parsed directive.
#[derive(Debug)]
pub struct Directive {
    /// Lower-cased keyword.
    pub keyword: String,
    pub args: String,
    /// The 1-based line it came from.
    pub line: usize,
    pub raw: String,
    /// Whether it sits inside a `Match` block.
    pub in_match: bool,
}

/// What a directive says.
#[verifier::ext_equal]
pub struct DirectiveView {
    pub keyword: Seq<char>,
    pub args: Seq<char>,
    pub line: nat,
    pub raw: Seq<char>,
    pub in_match: bool,
}

impl View for Directive {
    type V = DirectiveView;

    open spec fn view(&self) -> DirectiveView {
        DirectiveView {
            keyword: self.keyword@,
            args: self.args@,
            line: self.line as nat,
            raw: self.raw@,
            in_match: self.in_match,
        }
    }
}

impl Clone for Directive {
    fn clone(&self) -> (r: Directive)
        ensures
            r@ == self@,
    {
        Directive {
            keyword: self.keyword.clone(),
            args: self.args.clone(),
            line: self.line,
            raw: self.raw.clone(),
            in_match: self.in_match,
        }
    }
}

/// What the directives of a list say.
pub open spec fn directive_views(ds: Seq<Directive>) -> Seq<DirectiveView> {
    ds.map_values(|d: Directive| d@)
}

/// Where the comment of a line begins: the first `#` outside double quotes,
/// or the end of the line.
pub open spec fn comment_index(s: Seq<char>, in_quotes: bool) -> int
    decreases s.len(),
{
    if s.len() == 0 || (s[0] == '#' && !in_quotes) {
        0
    } else {
        1 + comment_index(
            s.drop_first(),
            if s[0] == '"' {
                !in_quotes
            } else {
                in_quotes
            },
        )
    }
}

/// A line without its comment.
pub open spec fn uncommented(s: Seq<char>) -> Seq<char> {
    s.take(comment_index(s, false))
}

/// The number of double quotes in a text.
pub open spec fn quote_count(s: Seq<char>) -> nat
    decreases s.len(),
{
    if s.len() == 0 {
        0
    } else {
        quote_count(s.drop_last()) + (if s.last() == '"' {
            1nat
        } else {
            0nat
        })
    }
}

/// The directive that a trimmed, non-empty line writes: a keyword, up to the
/// first white space, and its arguments. A `Match` line opens the scope that
/// it stands in itself.
pub open spec fn directive(t: Seq<char>, line: nat, in_match: bool) -> DirectiveView {
    let n = text::space_index(t);
    let keyword = text::lowered(t.take(n));
    DirectiveView {
        keyword,
        args: if n < t.len() {
            text::trimmed(t.skip(n + 1))
        } else {
            Seq::empty()
        },
        line,
        raw: t,
        in_match: in_match || keyword == "match"@,
    }
}

/// The text of the error for a line with an unterminated quote.
pub open spec fn unterminated(line: nat) -> Seq<char> {
    "line "@ + text::decimal_text(line) + ": unterminated quoted string"@
}

/// The directives written from line `i` on, or the error of the first line
/// with an unterminated quote. `in_match` tells whether a `Match` line came
/// before.
pub open spec fn parsed(lines: Seq<Seq<char>>, i: int, in_match: bool) -> Result<
    Seq<DirectiveView>,
    Seq<char>,
>
    decreases lines.len() - i,
{
    if i >= lines.len() {
        Ok(Seq::empty())
    } else {
        let t = text::trimmed(uncommented(lines[i]));
        if t.len() == 0 {
            parsed(lines, i + 1, in_match)
        } else if quote_count(t) % 2 != 0 {
            Err(unterminated((i + 1) as nat))
        } else {
            let d = directive(t, (i + 1) as nat, in_match);
            match parsed(lines, i + 1, d.in_match) {
                Ok(rest) => Ok(seq![d] + rest),
                Err(m) => Err(m),
            }
        }
    }
}

/// The directives of a whole file.
pub open spec fn parsed_content(content: Seq<char>) -> Result<Seq<DirectiveView>, Seq<char>> {
    parsed(text::line_seq(content), 0, false)
}

/// Strips a `#` comment, respecting a `#` inside double quotes.
pub fn strip_comment(line: &[char]) -> (r: &[char])
    ensures
        r@ == uncommented(line@),
{
    let mut i: usize = 0;
    let mut in_quotes = false;
    let ghost s = line@;
    assert(s.skip(0) =~= s);
    while i < line.len() && !(line[i] == '#' && !in_quotes)
        invariant
            i <= s.len(),
            s == line@,
            comment_index(s, false) == i + comment_index(s.skip(i as int), in_quotes),
        decreases s.len() - i,
    {
        assert(s.skip(i as int).drop_first() =~= s.skip(i + 1));
        if line[i] == '"' {
            in_quotes = !in_quotes;
        }
        i += 1;
    }
    assert(s.take(i as int) =~= s.subrange(0, i as int));
    slice_subrange(line, 0, i)
}

/// Whether the number of double quotes is odd.
fn has_open_quote(t: &[char]) -> (r: bool)
    ensures
        r == (quote_count(t@) % 2 != 0),
{
    let mut i: usize = 0;
    let mut open = false;
    while i < t.len()
        invariant
            i <= t@.len(),
            open == (quote_count(t@.take(i as int)) % 2 != 0),
        decreases t@.len() - i,
    {
        assert(t@.take(i + 1).drop_last() =~= t@.take(i as int));
        if t[i] == '"' {
            open = !open;
        }
        i += 1;
    }
    assert(t@.take(i as int) =~= t@);
    open
}

/// The error for a line with an unterminated quote.
fn unterminated_error(line: usize) -> (r: String)
    ensures
        r@ == unterminated(line as nat),
{
    let mut message = "line ".to_owned();
    message.append(text::decimal(line).as_str());
    message.append(": unterminated quoted string");
    message
}

/// Reads the directive on a trimmed line.
fn parse_directive(t: &[char], line: usize, in_match: bool) -> (r: Directive)
    ensures
        r@ == directive(t@, line as nat, in_match),
{
    let n: usize = text::find_space(t);
    let keyword = text::to_lower(slice_subrange(t, 0, n));
    assert(t@.take(n as int) =~= t@.subrange(0, n as int));
    let args = if n < t.len() {
        assert(t@.skip(n + 1) =~= t@.subrange(n + 1, t@.len() as int));
        text::string_of(text::trim(slice_subrange(t, n + 1, t.len())))
    } else {
        String::new()
    };
    Directive {
        in_match: in_match || text::is_str(keyword.as_slice(), "match"),
        keyword: text::string_of(keyword.as_slice()),
        args,
        line,
        raw: text::string_of(t),
    }
}

/// What `parse` answers on a parse result.
pub open spec fn parse_agrees(
    r: Result<Vec<Directive>, String>,
    expected: Result<Seq<DirectiveView>, Seq<char>>,
) -> bool {
    match expected {
        Ok(ds) => r is Ok && directive_views(r->Ok_0@) == ds,
        Err(m) => r is Err && r->Err_0@ == m,
    }
}

/// Parses the text of an `sshd_config` file into directives, tracking `Match`
/// scope.
///
/// # Errors
/// Returns an error for the first line with an unterminated quote.
pub fn parse(content: &str) -> (r: Result<Vec<Directive>, String>)
    ensures
        parse_agrees(r, parsed_content(content@)),
{
    let chars = text::chars_of(content);
    let lines = text::lines(chars.as_slice());
    let ghost ls = text::line_seq(content@);
    let mut directives: Vec<Directive> = Vec::new();
    let mut in_match = false;
    let mut i: usize = 0;
    proof {
        lemma_prepend_nothing(parsed(ls, 0, false));
        assert(directive_views(directives@) =~= Seq::empty());
    }
    while i < lines.len()
        invariant
            i <= lines@.len(),
            ls == text::texts(lines@),
            ls == text::line_seq(content@),
            parsed(ls, 0, false) == prepended(
                directive_views(directives@),
                parsed(ls, i as int, in_match),
            ),
        decreases lines@.len() - i,
    {
        let t = text::trim(strip_comment(lines[i]));
        assert(t@ == text::trimmed(uncommented(ls[i as int])));
        let ghost seen = directive_views(directives@);
        let ghost rest = parsed(ls, i as int, in_match);
        if t.len() > 0 {
            if has_open_quote(t) {
                return Err(unterminated_error(i + 1));
            }
            let d = parse_directive(t, i + 1, in_match);
            in_match = d.in_match;
            let ghost dv = d@;
            directives.push(d);
            proof {
                assert(directive_views(directives@) =~= seen.push(dv));
                lemma_prepend_one(seen, dv, parsed(ls, i + 1, in_match));
            }
        }
        i += 1;
    }
    assert(directive_views(directives@) + Seq::<DirectiveView>::empty() =~= directive_views(
        directives@,
    ));
    Ok(directives)
}

/// Ciphers that are broken or run in CBC mode.
pub const WEAK_CIPHERS: [&'static str; 11] = [
    "3des-cbc",
    "arcfour",
    "arcfour128",
    "arcfour256",
    "blowfish-cbc",
    "cast128-cbc",
    "des-cbc",
    "aes128-cbc",
    "aes192-cbc",
    "aes256-cbc",
    "rijndael-cbc@lysator.liu.se",
];

/// Message authentication codes that are broken or truncated.
pub const WEAK_MACS: [&'static str; 5] = [
    "hmac-md5",
    "hmac-md5-96",
    "hmac-sha1-96",
    "hmac-ripemd160",
    "umac-64@openssh.com",
];

/// Key exchanges over SHA-1 or small groups.
pub const WEAK_KEX: [&'static str; 3] = [
    "diffie-hellman-group1-sha1",
    "diffie-hellman-group14-sha1",
    "diffie-hellman-group-exchange-sha1",
];

pub const ROOT_YES: &'static str = "An attacker who obtains or brute-forces any valid credential (password or key) can log in directly as root, skipping privilege escalation entirely.";

pub const ROOT_KEY: &'static str = "Root login is still permitted via public key. A stolen or weakly-protected root private key grants full root access with no additional factor.";

pub const ROOT_FIX: &'static str = "Set 'PermitRootLogin no' and use sudo with a named account for administrative access.";

pub const ROOT_UNSET: &'static str = "OpenSSH defaults to 'prohibit-password', which still allows direct root key login. Root logins are unaudited and bypass per-user accountability.";

pub const ROOT_UNSET_FIX: &'static str = "Add 'PermitRootLogin no' explicitly.";

pub const PASSWORD: &'static str = "Passwords are guessable and phishable; enabling password auth exposes the server to credential-stuffing and brute-force login attempts.";

pub const PASSWORD_FIX: &'static str = "Set 'PasswordAuthentication no' and rely on key-based or certificate-based authentication.";

pub const EMPTY_PASSWORD: &'static str = "Any account with a blank password can be logged into by anyone, with no credential needed at all.";

pub const EMPTY_PASSWORD_FIX: &'static str = "Set 'PermitEmptyPasswords no'.";

pub const PROTOCOL: &'static str = "SSH protocol 1 has known cryptographic weaknesses (including trivial MITM attacks) and has been removed from modern OpenSSH entirely.";

pub const PROTOCOL_FIX: &'static str = "Remove the Protocol directive (or set 'Protocol 2') so only SSHv2 is used.";

pub const CIPHERS_HEAD: &'static str = "Weak/legacy cipher(s) enabled (";

pub const CIPHERS_TAIL: &'static str = "); CBC-mode and RC4 ciphers are vulnerable to known plaintext-recovery attacks.";

pub const CIPHERS_FIX: &'static str = "Restrict Ciphers to AEAD ciphers, e.g. 'Ciphers chacha20-poly1305@openssh.com,aes256-gcm@openssh.com,aes128-gcm@openssh.com'.";

pub const MACS_HEAD: &'static str = "Weak MAC(s) enabled (";

pub const MACS_TAIL: &'static str = "); MD5/SHA1-96/truncated MACs are vulnerable to collision and forgery attacks that can allow traffic tampering.";

pub const MACS_FIX: &'static str = "Restrict MACs to ETM/SHA2 variants, e.g. 'MACs hmac-sha2-512-etm@openssh.com,hmac-sha2-256-etm@openssh.com'.";

pub const KEX_HEAD: &'static str = "Weak key exchange algorithm(s) enabled (";

pub const KEX_TAIL: &'static str = "); SHA-1-based and small DH groups are vulnerable to Logjam-style attacks that weaken forward secrecy.";

pub const KEX_FIX: &'static str = "Restrict KexAlgorithms to modern groups, e.g. 'KexAlgorithms curve25519-sha256,diffie-hellman-group16-sha512'.";

pub const X11: &'static str = "X11 forwarding increases attack surface: a compromised client's X server can be reached and abused (X11 has weak isolation between clients).";

pub const X11_FIX: &'static str = "Set 'X11Forwarding no' unless remote GUI access is a hard requirement.";

pub const TCP: &'static str = "TCP forwarding lets any authenticated user pivot the server into an arbitrary SOCKS/port proxy, bypassing network firewalls.";

pub const TCP_FIX: &'static str = "Set 'AllowTcpForwarding no' (or 'local' if only local forwarding is needed) unless port forwarding is a required use case.";

pub const TRIES_UNSET: &'static str = "OpenSSH's default of 6 permits many authentication attempts per connection, making online brute-force attacks cheaper.";

pub const TRIES_UNSET_FIX: &'static str = "Add 'MaxAuthTries 3' to cut off brute-force attempts earlier.";

pub const TRIES_HIGH: &'static str = "A high MaxAuthTries permits many authentication attempts per connection, making online brute-force attacks cheaper.";

pub const TRIES_HIGH_FIX: &'static str = "Lower MaxAuthTries to 3 or 4.";

pub const USER_ENV: &'static str = "Users can set arbitrary environment variables (e.g. LD_PRELOAD) for their sessions via ~/.ssh/environment, which can be abused for privilege escalation or bypassing restricted commands.";

pub const USER_ENV_FIX: &'static str = "Set 'PermitUserEnvironment no'.";

pub const PAM: &'static str = "Disabling PAM skips account/session controls such as password expiry, lockouts and centrally-managed access restrictions.";

pub const PAM_FIX: &'static str = "Set 'UsePAM yes' unless you have a specific, understood reason not to.";

pub const ALIVE: &'static str = "Idle sessions (e.g. abandoned on a shared or stolen device) stay authenticated indefinitely instead of being dropped.";

pub const ALIVE_FIX: &'static str = "Add 'ClientAliveInterval 300' and 'ClientAliveCountMax 2' to drop unresponsive sessions.";

/// A finding in an `sshd_config` file.
pub open spec fn report(
    rule_id: Seq<char>,
    severity: Severity,
    file: Seq<char>,
    line: nat,
    evidence: Seq<char>,
    consequence: Seq<char>,
    fix: Seq<char>,
) -> FindingView {
    FindingView {
        rule_id,
        severity,
        source: SourceKind::Sshd,
        file,
        line,
        evidence,
        consequence,
        fix,
    }
}

/// The first global directive with the given keyword.
pub open spec fn first_global(ds: Seq<DirectiveView>, keyword: Seq<char>) -> Option<DirectiveView>
    decreases ds.len(),
{
    if ds.len() == 0 {
        None
    } else if !ds[0].in_match && ds[0].keyword == keyword {
        Some(ds[0])
    } else {
        first_global(ds.drop_first(), keyword)
    }
}

/// Whether arguments are the given word, in any ASCII case.
pub open spec fn says(args: Seq<char>, word: Seq<char>) -> bool {
    text::same_ignoring_case(text::trimmed(args), word)
}

/// The rule that the first global directive with this keyword does not have
/// this value.
pub open spec fn value_rule(
    file: Seq<char>,
    ds: Seq<DirectiveView>,
    keyword: Seq<char>,
    value: Seq<char>,
    rule_id: Seq<char>,
    severity: Severity,
    consequence: Seq<char>,
    fix: Seq<char>,
) -> Seq<FindingView> {
    match first_global(ds, keyword) {
        Some(d) if says(d.args, value) => seq![
            report(rule_id, severity, file, d.line, d.raw, consequence, fix),
        ],
        _ => Seq::empty(),
    }
}

/// `PermitRootLogin` is to be `no`.
pub open spec fn root_login_rule(file: Seq<char>, ds: Seq<DirectiveView>) -> Seq<FindingView> {
    match first_global(ds, "permitrootlogin"@) {
        Some(d) => {
            let arg = text::lowered(d.args);
            if arg == "yes"@ {
                seq![
                    report(
                        "SSHD001"@,
                        Severity::Critical,
                        file,
                        d.line,
                        d.raw,
                        ROOT_YES@,
                        ROOT_FIX@,
                    ),
                ]
            } else if arg == "without-password"@ || arg == "prohibit-password"@ {
                seq![
                    report("SSHD002"@, Severity::High, file, d.line, d.raw, ROOT_KEY@, ROOT_FIX@),
                ]
            } else {
                Seq::empty()
            }
        },
        None => seq![
            report(
                "SSHD001"@,
                Severity::Medium,
                file,
                0,
                "(PermitRootLogin not set)"@,
                ROOT_UNSET@,
                ROOT_UNSET_FIX@,
            ),
        ],
    }
}

/// Whether a protocol list names version 1.
pub open spec fn names_protocol_one(args: Seq<char>) -> bool {
    exists|i: int|
        0 <= i < text::split_seq(args, ',').len() && text::trimmed(
            #[trigger] text::split_seq(args, ',')[i],
        ) == "1"@
}

/// `Protocol` is not to name version 1.
pub open spec fn protocol_rule(file: Seq<char>, ds: Seq<DirectiveView>) -> Seq<FindingView> {
    match first_global(ds, "protocol"@) {
        Some(d) if names_protocol_one(d.args) => seq![
            report(
                "SSHD005"@,
                Severity::Critical,
                file,
                d.line,
                d.raw,
                PROTOCOL@,
                PROTOCOL_FIX@,
            ),
        ],
        _ => Seq::empty(),
    }
}

/// The entries of a comma-separated algorithm list that stand in `weak`. A
/// leading `+`, `-` or `^` is not part of the list.
pub open spec fn weak_entries(args: Seq<char>, weak: Seq<&str>) -> Seq<Seq<char>> {
    text::split_seq(text::stripped_start(args, seq!['+', '-', '^']), ',').map_values(
        |p: Seq<char>| text::trimmed(p),
    ).filter(|a: Seq<char>| text::listed(weak, a))
}

/// The rule that an algorithm list names no weak algorithm.
pub open spec fn weak_rule(
    file: Seq<char>,
    ds: Seq<DirectiveView>,
    keyword: Seq<char>,
    weak: Seq<&str>,
    rule_id: Seq<char>,
    head: Seq<char>,
    tail: Seq<char>,
    fix: Seq<char>,
) -> Seq<FindingView> {
    match first_global(ds, keyword) {
        Some(d) if weak_entries(d.args, weak).len() > 0 => seq![
            report(
                rule_id,
                Severity::High,
                file,
                d.line,
                d.raw,
                head + text::joined(weak_entries(d.args, weak), ", "@) + tail,
                fix,
            ),
        ],
        _ => Seq::empty(),
    }
}

/// `MaxAuthTries` is to be set, and to at most 4.
pub open spec fn auth_tries_rule(file: Seq<char>, ds: Seq<DirectiveView>) -> Seq<FindingView> {
    match first_global(ds, "maxauthtries"@) {
        None => seq![
            report(
                "SSHD011"@,
                Severity::Low,
                file,
                0,
                "(MaxAuthTries not set)"@,
                TRIES_UNSET@,
                TRIES_UNSET_FIX@,
            ),
        ],
        Some(d) => match text::unsigned_value(text::trimmed(d.args)) {
            Some(n) if n > 4 => seq![
                report(
                    "SSHD011"@,
                    Severity::Low,
                    file,
                    d.line,
                    d.raw,
                    TRIES_HIGH@,
                    TRIES_HIGH_FIX@,
                ),
            ],
            _ => Seq::empty(),
        },
    }
}

/// `ClientAliveInterval` is to be set.
pub open spec fn alive_rule(file: Seq<char>, ds: Seq<DirectiveView>) -> Seq<FindingView> {
    match first_global(ds, "clientaliveinterval"@) {
        None => seq![
            report(
                "SSHD014"@,
                Severity::Info,
                file,
                0,
                "(ClientAliveInterval not set)"@,
                ALIVE@,
                ALIVE_FIX@,
            ),
        ],
        Some(_) => Seq::empty(),
    }
}

/// `PasswordAuthentication` is not to be `yes`.
pub open spec fn password_rule(file: Seq<char>, ds: Seq<DirectiveView>) -> Seq<FindingView> {
    value_rule(file, ds, "passwordauthentication"@, "yes"@, "SSHD003"@, Severity::High, PASSWORD@, PASSWORD_FIX@)
}

/// `PermitEmptyPasswords` is not to be `yes`.
pub open spec fn empty_password_rule(file: Seq<char>, ds: Seq<DirectiveView>) -> Seq<FindingView> {
    value_rule(file, ds, "permitemptypasswords"@, "yes"@, "SSHD004"@, Severity::Critical, EMPTY_PASSWORD@, EMPTY_PASSWORD_FIX@)
}

/// `X11Forwarding` is not to be `yes`.
pub open spec fn x11_rule(file: Seq<char>, ds: Seq<DirectiveView>) -> Seq<FindingView> {
    value_rule(file, ds, "x11forwarding"@, "yes"@, "SSHD009"@, Severity::Low, X11@, X11_FIX@)
}

/// `AllowTcpForwarding` is not to be `yes`.
pub open spec fn tcp_rule(file: Seq<char>, ds: Seq<DirectiveView>) -> Seq<FindingView> {
    value_rule(file, ds, "allowtcpforwarding"@, "yes"@, "SSHD010"@, Severity::Low, TCP@, TCP_FIX@)
}

/// `PermitUserEnvironment` is not to be `yes`.
pub open spec fn user_env_rule(file: Seq<char>, ds: Seq<DirectiveView>) -> Seq<FindingView> {
    value_rule(file, ds, "permituserenvironment"@, "yes"@, "SSHD012"@, Severity::Medium, USER_ENV@, USER_ENV_FIX@)
}

/// `UsePAM` is not to be `no`.
pub open spec fn pam_rule(file: Seq<char>, ds: Seq<DirectiveView>) -> Seq<FindingView> {
    value_rule(file, ds, "usepam"@, "no"@, "SSHD013"@, Severity::Medium, PAM@, PAM_FIX@)
}

/// `Ciphers` is not to name a weak cipher.
pub open spec fn cipher_rule(file: Seq<char>, ds: Seq<DirectiveView>) -> Seq<FindingView> {
    weak_rule(file, ds, "ciphers"@, WEAK_CIPHERS@, "SSHD006"@, CIPHERS_HEAD@, CIPHERS_TAIL@, CIPHERS_FIX@)
}

/// `MACs` is not to name a weak code.
pub open spec fn mac_rule(file: Seq<char>, ds: Seq<DirectiveView>) -> Seq<FindingView> {
    weak_rule(file, ds, "macs"@, WEAK_MACS@, "SSHD007"@, MACS_HEAD@, MACS_TAIL@, MACS_FIX@)
}

/// `KexAlgorithms` is not to name a weak key exchange.
pub open spec fn kex_rule(file: Seq<char>, ds: Seq<DirectiveView>) -> Seq<FindingView> {
    weak_rule(file, ds, "kexalgorithms"@, WEAK_KEX@, "SSHD008"@, KEX_HEAD@, KEX_TAIL@, KEX_FIX@)
}

/// The findings of the rules on logging in.
pub open spec fn login_findings(file: Seq<char>, ds: Seq<DirectiveView>) -> Seq<FindingView> {
    root_login_rule(file, ds) + password_rule(file, ds) + empty_password_rule(file, ds)
}

/// The findings of the rules on cryptography.
pub open spec fn crypto_findings(file: Seq<char>, ds: Seq<DirectiveView>) -> Seq<FindingView> {
    protocol_rule(file, ds) + cipher_rule(file, ds) + mac_rule(file, ds) + kex_rule(file, ds)
}

/// The findings of the rules on sessions.
pub open spec fn session_findings(file: Seq<char>, ds: Seq<DirectiveView>) -> Seq<FindingView> {
    x11_rule(file, ds) + tcp_rule(file, ds) + auth_tries_rule(file, ds) + user_env_rule(file, ds)
        + pam_rule(file, ds) + alive_rule(file, ds)
}

/// The findings of all rules on the directives of a file, rule by rule.
pub open spec fn rule_findings(file: Seq<char>, ds: Seq<DirectiveView>) -> Seq<FindingView> {
    login_findings(file, ds) + crypto_findings(file, ds) + session_findings(file, ds)
}

/// The outcome of an audit: the findings in order, or the parse error.
pub open spec fn audited(file: Seq<char>, content: Seq<char>) -> Result<
    Seq<FindingView>,
    Seq<char>,
> {
    match parsed_content(content) {
        Ok(ds) => Ok(order::sorted(rule_findings(file, ds))),
        Err(m) => Err(m),
    }
}

/// A finding in an `sshd_config` file.
fn mk(
    rule_id: &str,
    severity: Severity,
    file: &str,
    line: usize,
    evidence: &str,
    consequence: &str,
    fix: &str,
) -> (r: Finding)
    ensures
        r@ == report(rule_id@, severity, file@, line as nat, evidence@, consequence@, fix@),
{
    Finding::new(rule_id, severity, SourceKind::Sshd, file, line, evidence, consequence, fix)
}

/// The first global directive with the given keyword.
pub fn find_global<'a>(ds: &'a [Directive], keyword: &str) -> (r: Option<&'a Directive>)
    ensures
        match first_global(directive_views(ds@), keyword@) {
            Some(d) => r is Some && r->0@ == d,
            None => r is None,
        },
{
    let ghost dv = directive_views(ds@);
    let mut i: usize = 0;
    assert(dv.skip(0) =~= dv);
    while i < ds.len()
        invariant
            i <= ds@.len(),
            dv == directive_views(ds@),
            first_global(dv, keyword@) == first_global(dv.skip(i as int), keyword@),
        decreases ds@.len() - i,
    {
        assert(dv.skip(i as int)[0] == ds@[i as int]@);
        assert(dv.skip(i as int).drop_first() =~= dv.skip(i + 1));
        if !ds[i].in_match && text::str_eq(ds[i].keyword.as_str(), keyword) {
            return Some(&ds[i]);
        }
        i += 1;
    }
    None
}

/// Whether arguments are the given word, in any ASCII case.
fn is_word(args: &str, word: &str) -> (r: bool)
    ensures
        r == says(args@, word@),
{
    let chars = text::chars_of(args);
    text::eq_ignore_case(text::trim(chars.as_slice()), word)
}

/// Whether arguments are `yes`, in any ASCII case.
pub fn yes(args: &str) -> (r: bool)
    ensures
        r == says(args@, "yes"@),
{
    is_word(args, "yes")
}

/// Checks that the first global directive with this keyword does not have
/// this value.
fn check_value(
    file: &str,
    ds: &[Directive],
    keyword: &str,
    value: &str,
    rule_id: &str,
    severity: Severity,
    consequence: &str,
    fix: &str,
    findings: &mut Vec<Finding>,
)
    ensures
        views(final(findings)@) == views(old(findings)@) + value_rule(
            file@,
            directive_views(ds@),
            keyword@,
            value@,
            rule_id@,
            severity,
            consequence@,
            fix@,
        ),
{
    if let Some(d) = find_global(ds, keyword) {
        if is_word(d.args.as_str(), value) {
            add_finding(findings, mk(rule_id, severity, file, d.line, d.raw.as_str(), consequence, fix));
        }
    }
}

/// Checks that a boolean setting is not switched on.
fn check_yes(
    file: &str,
    ds: &[Directive],
    keyword: &str,
    rule_id: &str,
    severity: Severity,
    consequence: &str,
    fix: &str,
    findings: &mut Vec<Finding>,
)
    ensures
        views(final(findings)@) == views(old(findings)@) + value_rule(
            file@,
            directive_views(ds@),
            keyword@,
            "yes"@,
            rule_id@,
            severity,
            consequence@,
            fix@,
        ),
{
    if let Some(d) = find_global(ds, keyword) {
        if yes(d.args.as_str()) {
            add_finding(findings, mk(rule_id, severity, file, d.line, d.raw.as_str(), consequence, fix));
        }
    }
}

/// Checks `PermitRootLogin`.
fn check_root_login(file: &str, ds: &[Directive], findings: &mut Vec<Finding>)
    ensures
        views(final(findings)@) == views(old(findings)@) + root_login_rule(
            file@,
            directive_views(ds@),
        ),
{
    match find_global(ds, "permitrootlogin") {
        Some(d) => {
            let arg = text::to_lower(text::chars_of(d.args.as_str()).as_slice());
            if text::is_str(arg.as_slice(), "yes") {
                add_finding(
                    findings,
                    mk(
                        "SSHD001",
                        Severity::Critical,
                        file,
                        d.line,
                        d.raw.as_str(),
                        ROOT_YES,
                        ROOT_FIX,
                    ),
                );
            } else if text::is_str(arg.as_slice(), "without-password") || text::is_str(
                arg.as_slice(),
                "prohibit-password",
            ) {
                add_finding(
                    findings,
                    mk(
                        "SSHD002",
                        Severity::High,
                        file,
                        d.line,
                        d.raw.as_str(),
                        ROOT_KEY,
                        ROOT_FIX,
                    ),
                );
            }
        },
        None => {
            add_finding(
                findings,
                mk(
                    "SSHD001",
                    Severity::Medium,
                    file,
                    0,
                    "(PermitRootLogin not set)",
                    ROOT_UNSET,
                    ROOT_UNSET_FIX,
                ),
            );
        },
    }
}

/// Whether a protocol list names version 1.
fn has_protocol_one(args: &str) -> (r: bool)
    ensures
        r == names_protocol_one(args@),
{
    let chars = text::chars_of(args);
    let pieces = text::split(chars.as_slice(), ',');
    let ghost ps = text::split_seq(args@, ',');
    let mut i: usize = 0;
    while i < pieces.len()
        invariant
            i <= pieces@.len(),
            ps == text::split_seq(args@, ','),
            ps == text::texts(pieces@),
            forall|j: int| 0 <= j < i ==> text::trimmed(#[trigger] ps[j]) != "1"@,
        decreases pieces@.len() - i,
    {
        assert(ps[i as int] == pieces@[i as int]@);
        if text::is_str(text::trim(pieces[i]), "1") {
            return true;
        }
        i += 1;
    }
    false
}

/// Checks `Protocol`.
fn check_protocol(file: &str, ds: &[Directive], findings: &mut Vec<Finding>)
    ensures
        views(final(findings)@) == views(old(findings)@) + protocol_rule(
            file@,
            directive_views(ds@),
        ),
{
    if let Some(d) = find_global(ds, "protocol") {
        if has_protocol_one(d.args.as_str()) {
            add_finding(
                findings,
                mk(
                    "SSHD005",
                    Severity::Critical,
                    file,
                    d.line,
                    d.raw.as_str(),
                    PROTOCOL,
                    PROTOCOL_FIX,
                ),
            );
        }
    }
}

/// The entries of an algorithm list that stand in `weak`.
pub fn list_has_weak(args: &str, weak: &[&str]) -> (r: Vec<String>)
    ensures
        text::string_texts(r@) == weak_entries(args@, weak@),
{
    let chars = text::chars_of(args);
    let list = text::strip_start(chars.as_slice(), &['+', '-', '^']);
    let pieces = text::split(list, ',');
    let ghost all = text::split_seq(
        text::stripped_start(args@, seq!['+', '-', '^']),
        ',',
    ).map_values(|p: Seq<char>| text::trimmed(p));
    let ghost pred = |a: Seq<char>| text::listed(weak@, a);
    let mut out: Vec<String> = Vec::new();
    let mut i: usize = 0;
    assert(all.take(0).filter(pred) =~= Seq::empty()) by {
        reveal(Seq::filter);
    }
    assert(text::string_texts(out@) =~= Seq::empty());
    while i < pieces.len()
        invariant
            i <= pieces@.len(),
            all == text::texts(pieces@).map_values(|p: Seq<char>| text::trimmed(p)),
            pred == (|a: Seq<char>| text::listed(weak@, a)),
            text::string_texts(out@) == all.take(i as int).filter(pred),
        decreases pieces@.len() - i,
    {
        let piece = text::trim(pieces[i]);
        let ghost before = text::string_texts(out@);
        assert(all.take(i + 1).drop_last() =~= all.take(i as int));
        assert(all.take(i + 1).last() == text::texts(pieces@).map_values(
            |p: Seq<char>| text::trimmed(p),
        )[i as int]);
        assert(all[i as int] == piece@);
        reveal(Seq::filter);
        if text::is_listed(weak, piece) {
            let entry = text::string_of(piece);
            out.push(entry);
            assert(text::string_texts(out@) =~= before.push(piece@));
        }
        i += 1;
    }
    assert(all.take(i as int) =~= all);
    out
}

/// Checks that an algorithm list names no weak algorithm.
fn check_weak(
    file: &str,
    ds: &[Directive],
    keyword: &str,
    weak: &[&str],
    rule_id: &str,
    head: &str,
    tail: &str,
    fix: &str,
    findings: &mut Vec<Finding>,
)
    ensures
        views(final(findings)@) == views(old(findings)@) + weak_rule(
            file@,
            directive_views(ds@),
            keyword@,
            weak@,
            rule_id@,
            head@,
            tail@,
            fix@,
        ),
{
    if let Some(d) = find_global(ds, keyword) {
        let entries = list_has_weak(d.args.as_str(), weak);
        assert(text::string_texts(entries@).len() == entries@.len());
        if entries.len() > 0 {
            let mut consequence = head.to_owned();
            consequence.append(text::join(entries.as_slice(), ", ").as_str());
            consequence.append(tail);
            add_finding(
                findings,
                mk(
                    rule_id,
                    Severity::High,
                    file,
                    d.line,
                    d.raw.as_str(),
                    consequence.as_str(),
                    fix,
                ),
            );
        }
    }
}

/// Checks `MaxAuthTries`.
fn check_auth_tries(file: &str, ds: &[Directive], findings: &mut Vec<Finding>)
    ensures
        views(final(findings)@) == views(old(findings)@) + auth_tries_rule(
            file@,
            directive_views(ds@),
        ),
{
    match find_global(ds, "maxauthtries") {
        None => {
            add_finding(
                findings,
                mk(
                    "SSHD011",
                    Severity::Low,
                    file,
                    0,
                    "(MaxAuthTries not set)",
                    TRIES_UNSET,
                    TRIES_UNSET_FIX,
                ),
            );
        },
        Some(d) => {
            let chars = text::chars_of(d.args.as_str());
            if let Some(n) = text::parse_unsigned(text::trim(chars.as_slice())) {
                if n > 4 {
                    add_finding(
                        findings,
                        mk(
                            "SSHD011",
                            Severity::Low,
                            file,
                            d.line,
                            d.raw.as_str(),
                            TRIES_HIGH,
                            TRIES_HIGH_FIX,
                        ),
                    );
                }
            }
        },
    }
}

/// Checks `ClientAliveInterval`.
fn check_alive(file: &str, ds: &[Directive], findings: &mut Vec<Finding>)
    ensures
        views(final(findings)@) == views(old(findings)@) + alive_rule(file@, directive_views(ds@)),
{
    if find_global(ds, "clientaliveinterval").is_none() {
        add_finding(
            findings,
            mk(
                "SSHD014",
                Severity::Info,
                file,
                0,
                "(ClientAliveInterval not set)",
                ALIVE,
                ALIVE_FIX,
            ),
        );
    }
}

/// Applies the rules on logging in.
fn check_login(file: &str, ds: &[Directive], findings: &mut Vec<Finding>)
    ensures
        views(final(findings)@) == views(old(findings)@) + login_findings(
            file@,
            directive_views(ds@),
        ),
{
    check_root_login(file, ds, findings);
    check_yes(
        file,
        ds,
        "passwordauthentication",
        "SSHD003",
        Severity::High,
        PASSWORD,
        PASSWORD_FIX,
        findings,
    );
    check_yes(
        file,
        ds,
        "permitemptypasswords",
        "SSHD004",
        Severity::Critical,
        EMPTY_PASSWORD,
        EMPTY_PASSWORD_FIX,
        findings,
    );
    assert(views(findings@) =~= views(old(findings)@) + login_findings(
        file@,
        directive_views(ds@),
    ));
}

/// Applies the rules on cryptography.
fn check_crypto(file: &str, ds: &[Directive], findings: &mut Vec<Finding>)
    ensures
        views(final(findings)@) == views(old(findings)@) + crypto_findings(
            file@,
            directive_views(ds@),
        ),
{
    check_protocol(file, ds, findings);
    check_weak(
        file,
        ds,
        "ciphers",
        &WEAK_CIPHERS,
        "SSHD006",
        CIPHERS_HEAD,
        CIPHERS_TAIL,
        CIPHERS_FIX,
        findings,
    );
    check_weak(
        file,
        ds,
        "macs",
        &WEAK_MACS,
        "SSHD007",
        MACS_HEAD,
        MACS_TAIL,
        MACS_FIX,
        findings,
    );
    check_weak(
        file,
        ds,
        "kexalgorithms",
        &WEAK_KEX,
        "SSHD008",
        KEX_HEAD,
        KEX_TAIL,
        KEX_FIX,
        findings,
    );
    assert(views(findings@) =~= views(old(findings)@) + crypto_findings(
        file@,
        directive_views(ds@),
    ));
}

/// Applies the rules on sessions.
fn check_session(file: &str, ds: &[Directive], findings: &mut Vec<Finding>)
    ensures
        views(final(findings)@) == views(old(findings)@) + session_findings(
            file@,
            directive_views(ds@),
        ),
{
    check_yes(
        file,
        ds,
        "x11forwarding",
        "SSHD009",
        Severity::Low,
        X11,
        X11_FIX,
        findings,
    );
    check_yes(
        file,
        ds,
        "allowtcpforwarding",
        "SSHD010",
        Severity::Low,
        TCP,
        TCP_FIX,
        findings,
    );
    check_auth_tries(file, ds, findings);
    check_yes(
        file,
        ds,
        "permituserenvironment",
        "SSHD012",
        Severity::Medium,
        USER_ENV,
        USER_ENV_FIX,
        findings,
    );
    check_value(
        file,
        ds,
        "usepam",
        "no",
        "SSHD013",
        Severity::Medium,
        PAM,
        PAM_FIX,
        findings,
    );
    check_alive(file, ds, findings);
    assert(views(findings@) =~= views(old(findings)@) + session_findings(
        file@,
        directive_views(ds@),
    ));
}

/// Parses and audits `content`, emitting one finding per violated rule.
/// Directives inside a `Match` block are excluded from all checks.
///
/// # Errors
/// Returns an error if `content` cannot be parsed (see [`parse`]).
pub fn audit(file: &str, content: &str) -> (r: Result<Vec<Finding>, String>)
    ensures
        match audited(file@, content@) {
            Ok(fs) => r is Ok && views(r->Ok_0@) == fs,
            Err(m) => r is Err && r->Err_0@ == m,
        },
{
    let directives = match parse(content) {
        Ok(directives) => directives,
        Err(message) => {
            return Err(message);
        },
    };
    let ds = directives.as_slice();
    let mut findings: Vec<Finding> = Vec::new();
    check_login(file, ds, &mut findings);
    check_crypto(file, ds, &mut findings);
    check_session(file, ds, &mut findings);
    assert(views(findings@) =~= rule_findings(file@, directive_views(ds@)));
    Ok(order::sort(findings))
}

} // verus!
