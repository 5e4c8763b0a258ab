//! Which findings an audit of an `sshd_config` file holds: for each rule, the
//! setting that it reports and the words in which it does.

use super::text::{is_word, law_joined_texts_are_split_again};
use crate::finding::{FindingView, Severity, SourceKind};
use crate::order;
use crate::parsers::sshd;
use crate::parsers::sshd::DirectiveView;
use crate::text;
use vstd::prelude::*;

verus! {

/// Whether the directive at `i` is the one that sets `keyword`: the first with
/// that keyword outside of a `Match` block.
pub open spec fn takes_effect(ds: Seq<DirectiveView>, keyword: Seq<char>, i: int) -> bool {
    &&& 0 <= i < ds.len()
    &&& ds[i].keyword == keyword
    &&& !ds[i].in_match
    &&& forall|j: int| 0 <= j < i && !(#[trigger] ds[j]).in_match ==> ds[j].keyword != keyword
}

/// Whether `keyword` is set nowhere outside of a `Match` block.
pub open spec fn unset(ds: Seq<DirectiveView>, keyword: Seq<char>) -> bool {
    forall|j: int| 0 <= j < ds.len() && !(#[trigger] ds[j]).in_match ==> ds[j].keyword != keyword
}

/// A finding on a directive.
pub open spec fn on(
    file: Seq<char>,
    d: DirectiveView,
    rule_id: Seq<char>,
    severity: Severity,
    consequence: Seq<char>,
    fix: Seq<char>,
) -> FindingView {
    FindingView {
        rule_id,
        severity,
        source: SourceKind::Sshd,
        file,
        line: d.line,
        evidence: d.raw,
        consequence,
        fix,
    }
}

/// A finding on what a file leaves out.
pub open spec fn on_absence(
    file: Seq<char>,
    evidence: Seq<char>,
    rule_id: Seq<char>,
    severity: Severity,
    consequence: Seq<char>,
    fix: Seq<char>,
) -> FindingView {
    FindingView {
        rule_id,
        severity,
        source: SourceKind::Sshd,
        file,
        line: 0,
        evidence,
        consequence,
        fix,
    }
}


/// Whether a name in lower case is that of a weak cipher.
pub open spec fn weak_cipher(name: Seq<char>) -> bool {
    ||| name == "3des-cbc"@
    ||| name == "arcfour"@
    ||| name == "arcfour128"@
    ||| name == "arcfour256"@
    ||| name == "blowfish-cbc"@
    ||| name == "cast128-cbc"@
    ||| name == "des-cbc"@
    ||| name == "aes128-cbc"@
    ||| name == "aes192-cbc"@
    ||| name == "aes256-cbc"@
    ||| name == "rijndael-cbc@lysator.liu.se"@
}

/// Whether a name in lower case is that of a weak message authentication code.
pub open spec fn weak_mac(name: Seq<char>) -> bool {
    ||| name == "hmac-md5"@
    ||| name == "hmac-md5-96"@
    ||| name == "hmac-sha1-96"@
    ||| name == "hmac-ripemd160"@
    ||| name == "umac-64@openssh.com"@
}

/// Whether a name in lower case is that of a weak key exchange.
pub open spec fn weak_kex(name: Seq<char>) -> bool {
    ||| name == "diffie-hellman-group1-sha1"@
    ||| name == "diffie-hellman-group14-sha1"@
    ||| name == "diffie-hellman-group-exchange-sha1"@
}

/// The entries of a list of algorithms, in order: a sign at the head of the
/// list is no part of them, nor is white space around them.
pub open spec fn entries(args: Seq<char>) -> Seq<Seq<char>> {
    let list = text::split_seq(text::stripped_start(args, seq!['+', '-', '^']), ',');
    Seq::new(list.len(), |i: int| text::trimmed(list[i]))
}

/// The entries of a list that are weak in the sense of `weak`, in order.
pub open spec fn weak_ones(args: Seq<char>, weak: spec_fn(Seq<char>) -> bool) -> Seq<Seq<char>> {
    entries(args).filter(|a: Seq<char>| weak(text::lowered(a)))
}

/// Root may log in with any credential, with a key, or it is left open.
pub open spec fn reports_root_login(
    file: Seq<char>,
    ds: Seq<DirectiveView>,
    f: FindingView,
) -> bool {
    ||| exists|i: int| #[trigger]
        takes_effect(ds, "permitrootlogin"@, i) && text::lowered(ds[i].args) == "yes"@ && f == on(
            file,
            ds[i],
            "SSHD001"@,
            Severity::Critical,
            "An attacker who obtains or brute-forces any valid credential (password or key) can log in directly as root, skipping privilege escalation entirely."@,
            "Set 'PermitRootLogin no' and use sudo with a named account for administrative access."@,
        )
    ||| exists|i: int| #[trigger]
        takes_effect(ds, "permitrootlogin"@, i) && (text::lowered(ds[i].args)
            == "without-password"@ || text::lowered(ds[i].args) == "prohibit-password"@) && f == on(
            file,
            ds[i],
            "SSHD002"@,
            Severity::High,
            "Root login is still permitted via public key. A stolen or weakly-protected root private key grants full root access with no additional factor."@,
            "Set 'PermitRootLogin no' and use sudo with a named account for administrative access."@,
        )
    ||| unset(ds, "permitrootlogin"@) && f == on_absence(
        file,
        "(PermitRootLogin not set)"@,
        "SSHD001"@,
        Severity::Medium,
        "OpenSSH defaults to 'prohibit-password', which still allows direct root key login. Root logins are unaudited and bypass per-user accountability."@,
        "Add 'PermitRootLogin no' explicitly."@,
    )
}

/// Passwords are accepted.
pub open spec fn reports_password(
    file: Seq<char>,
    ds: Seq<DirectiveView>,
    f: FindingView,
) -> bool {
    exists|i: int| #[trigger]
        takes_effect(ds, "passwordauthentication"@, i) && is_word(ds[i].args, "yes"@) && f == on(
            file,
            ds[i],
            "SSHD003"@,
            Severity::High,
            "Passwords are guessable and phishable; enabling password auth exposes the server to credential-stuffing and brute-force login attempts."@,
            "Set 'PasswordAuthentication no' and rely on key-based or certificate-based authentication."@,
        )
}

/// Empty passwords are accepted.
pub open spec fn reports_empty_password(
    file: Seq<char>,
    ds: Seq<DirectiveView>,
    f: FindingView,
) -> bool {
    exists|i: int| #[trigger]
        takes_effect(ds, "permitemptypasswords"@, i) && is_word(ds[i].args, "yes"@) && f == on(
            file,
            ds[i],
            "SSHD004"@,
            Severity::Critical,
            "Any account with a blank password can be logged into by anyone, with no credential needed at all."@,
            "Set 'PermitEmptyPasswords no'."@,
        )
}

/// Protocol 1 is one of those that are spoken.
pub open spec fn reports_protocol(
    file: Seq<char>,
    ds: Seq<DirectiveView>,
    f: FindingView,
) -> bool {
    exists|i: int, k: int|
        #![trigger takes_effect(ds, "protocol"@, i), text::split_seq(ds[i].args, ',')[k]]
        takes_effect(ds, "protocol"@, i) && 0 <= k < text::split_seq(ds[i].args, ',').len()
            && text::trimmed(text::split_seq(ds[i].args, ',')[k]) == seq!['1'] && f == on(
            file,
            ds[i],
            "SSHD005"@,
            Severity::Critical,
            "SSH protocol 1 has known cryptographic weaknesses (including trivial MITM attacks) and has been removed from modern OpenSSH entirely."@,
            "Remove the Protocol directive (or set 'Protocol 2') so only SSHv2 is used."@,
        )
}

/// A weak cipher is listed.
pub open spec fn reports_ciphers(
    file: Seq<char>,
    ds: Seq<DirectiveView>,
    f: FindingView,
) -> bool {
    exists|i: int| #[trigger]
        takes_effect(ds, "ciphers"@, i) && weak_ones(
            ds[i].args,
            |a: Seq<char>| weak_cipher(a),
        ).len() > 0 && f == on(
            file,
            ds[i],
            "SSHD006"@,
            Severity::High,
            "Weak/legacy cipher(s) enabled ("@ + text::joined(
                weak_ones(ds[i].args, |a: Seq<char>| weak_cipher(a)),
                ", "@,
            ) + "); CBC-mode and RC4 ciphers are vulnerable to known plaintext-recovery attacks."@,
            "Restrict Ciphers to AEAD ciphers, e.g. 'Ciphers chacha20-poly1305@openssh.com,aes256-gcm@openssh.com,aes128-gcm@openssh.com'."@,
        )
}

/// A weak message authentication code is listed.
pub open spec fn reports_macs(
    file: Seq<char>,
    ds: Seq<DirectiveView>,
    f: FindingView,
) -> bool {
    exists|i: int| #[trigger]
        takes_effect(ds, "macs"@, i) && weak_ones(
            ds[i].args,
            |a: Seq<char>| weak_mac(a),
        ).len() > 0 && f == on(
            file,
            ds[i],
            "SSHD007"@,
            Severity::High,
            "Weak MAC(s) enabled ("@ + text::joined(
                weak_ones(ds[i].args, |a: Seq<char>| weak_mac(a)),
                ", "@,
            ) + "); MD5/SHA1-96/truncated MACs are vulnerable to collision and forgery attacks that can allow traffic tampering."@,
            "Restrict MACs to ETM/SHA2 variants, e.g. 'MACs hmac-sha2-512-etm@openssh.com,hmac-sha2-256-etm@openssh.com'."@,
        )
}

/// A weak key exchange is listed.
pub open spec fn reports_kex(
    file: Seq<char>,
    ds: Seq<DirectiveView>,
    f: FindingView,
) -> bool {
    exists|i: int| #[trigger]
        takes_effect(ds, "kexalgorithms"@, i) && weak_ones(
            ds[i].args,
            |a: Seq<char>| weak_kex(a),
        ).len() > 0 && f == on(
            file,
            ds[i],
            "SSHD008"@,
            Severity::High,
            "Weak key exchange algorithm(s) enabled ("@ + text::joined(
                weak_ones(ds[i].args, |a: Seq<char>| weak_kex(a)),
                ", "@,
            ) + "); SHA-1-based and small DH groups are vulnerable to Logjam-style attacks that weaken forward secrecy."@,
            "Restrict KexAlgorithms to modern groups, e.g. 'KexAlgorithms curve25519-sha256,diffie-hellman-group16-sha512'."@,
        )
}

/// X11 is forwarded.
pub open spec fn reports_x11(
    file: Seq<char>,
    ds: Seq<DirectiveView>,
    f: FindingView,
) -> bool {
    exists|i: int| #[trigger]
        takes_effect(ds, "x11forwarding"@, i) && is_word(ds[i].args, "yes"@) && f == on(
            file,
            ds[i],
            "SSHD009"@,
            Severity::Low,
            "X11 forwarding increases attack surface: a compromised client's X server can be reached and abused (X11 has weak isolation between clients)."@,
            "Set 'X11Forwarding no' unless remote GUI access is a hard requirement."@,
        )
}

/// TCP is forwarded.
pub open spec fn reports_tcp(
    file: Seq<char>,
    ds: Seq<DirectiveView>,
    f: FindingView,
) -> bool {
    exists|i: int| #[trigger]
        takes_effect(ds, "allowtcpforwarding"@, i) && is_word(ds[i].args, "yes"@) && f == on(
            file,
            ds[i],
            "SSHD010"@,
            Severity::Low,
            "TCP forwarding lets any authenticated user pivot the server into an arbitrary SOCKS/port proxy, bypassing network firewalls."@,
            "Set 'AllowTcpForwarding no' (or 'local' if only local forwarding is needed) unless port forwarding is a required use case."@,
        )
}

/// More than four attempts are allowed, or the number is left open.
pub open spec fn reports_auth_tries(
    file: Seq<char>,
    ds: Seq<DirectiveView>,
    f: FindingView,
) -> bool {
    ||| exists|i: int| #[trigger]
        takes_effect(ds, "maxauthtries"@, i) && text::unsigned_value(text::trimmed(ds[i].args)) is Some
            && text::unsigned_value(text::trimmed(ds[i].args))->Some_0 >= 5 && f == on(
            file,
            ds[i],
            "SSHD011"@,
            Severity::Low,
            "A high MaxAuthTries permits many authentication attempts per connection, making online brute-force attacks cheaper."@,
            "Lower MaxAuthTries to 3 or 4."@,
        )
    ||| unset(ds, "maxauthtries"@) && f == on_absence(
        file,
        "(MaxAuthTries not set)"@,
        "SSHD011"@,
        Severity::Low,
        "OpenSSH's default of 6 permits many authentication attempts per connection, making online brute-force attacks cheaper."@,
        "Add 'MaxAuthTries 3' to cut off brute-force attempts earlier."@,
    )
}

/// Users may set their environment.
pub open spec fn reports_user_env(
    file: Seq<char>,
    ds: Seq<DirectiveView>,
    f: FindingView,
) -> bool {
    exists|i: int| #[trigger]
        takes_effect(ds, "permituserenvironment"@, i) && is_word(ds[i].args, "yes"@) && f == on(
            file,
            ds[i],
            "SSHD012"@,
            Severity::Medium,
            "Users can set arbitrary environment variables (e.g. LD_PRELOAD) for their sessions via ~/.ssh/environment, which can be abused for privilege escalation or bypassing restricted commands."@,
            "Set 'PermitUserEnvironment no'."@,
        )
}

/// PAM is switched off.
pub open spec fn reports_pam(
    file: Seq<char>,
    ds: Seq<DirectiveView>,
    f: FindingView,
) -> bool {
    exists|i: int| #[trigger]
        takes_effect(ds, "usepam"@, i) && is_word(ds[i].args, "no"@) && f == on(
            file,
            ds[i],
            "SSHD013"@,
            Severity::Medium,
            "Disabling PAM skips account/session controls such as password expiry, lockouts and centrally-managed access restrictions."@,
            "Set 'UsePAM yes' unless you have a specific, understood reason not to."@,
        )
}

/// Idle sessions are left alone.
pub open spec fn reports_alive(
    file: Seq<char>,
    ds: Seq<DirectiveView>,
    f: FindingView,
) -> bool {
    unset(ds, "clientaliveinterval"@) && f == on_absence(
        file,
        "(ClientAliveInterval not set)"@,
        "SSHD014"@,
        Severity::Info,
        "Idle sessions (e.g. abandoned on a shared or stolen device) stay authenticated indefinitely instead of being dropped."@,
        "Add 'ClientAliveInterval 300' and 'ClientAliveCountMax 2' to drop unresponsive sessions."@,
    )
}

/// Whether a finding is one that the directives of a file call for.
pub open spec fn called_for(file: Seq<char>, ds: Seq<DirectiveView>, f: FindingView) -> bool {
    ||| reports_root_login(file, ds, f)
    ||| reports_password(file, ds, f)
    ||| reports_empty_password(file, ds, f)
    ||| reports_protocol(file, ds, f)
    ||| reports_ciphers(file, ds, f)
    ||| reports_macs(file, ds, f)
    ||| reports_kex(file, ds, f)
    ||| reports_x11(file, ds, f)
    ||| reports_tcp(file, ds, f)
    ||| reports_auth_tries(file, ds, f)
    ||| reports_user_env(file, ds, f)
    ||| reports_pam(file, ds, f)
    ||| reports_alive(file, ds, f)
}

proof fn lemma_first_takes_effect(ds: Seq<DirectiveView>, keyword: Seq<char>)
    ensures
        match sshd::first_global(ds, keyword) {
            Some(d) => exists|i: int| #[trigger] takes_effect(ds, keyword, i) && ds[i] == d,
            None => unset(ds, keyword),
        },
    decreases ds.len(),
{
    if ds.len() > 0 {
        if !ds[0].in_match && ds[0].keyword == keyword {
            assert(takes_effect(ds, keyword, 0));
        } else {
            let rest = ds.drop_first();
            lemma_first_takes_effect(rest, keyword);
            match sshd::first_global(rest, keyword) {
                Some(d) => {
                    let i = choose|i: int| #[trigger] takes_effect(rest, keyword, i) && rest[i] == d;
                    assert forall|j: int| 0 <= j < i + 1 && !(#[trigger] ds[j]).in_match implies
                        ds[j].keyword != keyword by {
                        if j > 0 {
                            assert(rest[j - 1] == ds[j]);
                        }
                    }
                    assert(takes_effect(ds, keyword, i + 1));
                    assert(ds[i + 1] == d);
                },
                None => {
                    assert forall|j: int| 0 <= j < ds.len() && !(#[trigger] ds[j]).in_match implies
                        ds[j].keyword != keyword by {
                        if j > 0 {
                            assert(rest[j - 1] == ds[j]);
                        }
                    }
                },
            }
        }
    }
}

/// At most one directive sets a keyword, and none where it is unset.
pub proof fn law_one_directive_takes_effect(
    ds: Seq<DirectiveView>,
    keyword: Seq<char>,
    i: int,
    j: int,
)
    requires
        takes_effect(ds, keyword, i),
    ensures
        takes_effect(ds, keyword, j) ==> i == j,
        !unset(ds, keyword),
{
}

proof fn lemma_root_login(file: Seq<char>, ds: Seq<DirectiveView>, f: FindingView)
    ensures
        sshd::root_login_rule(file, ds).contains(f) <==> reports_root_login(file, ds, f),
{
    let r = sshd::root_login_rule(file, ds);
    assert(r.len() == 1 ==> (r.contains(f) <==> f == r[0])) by {
        assert(r.len() == 1 ==> r.contains(r[0]));
    }
    lemma_first_takes_effect(ds, "permitrootlogin"@);
    reveal_strlit("yes");
    reveal_strlit("without-password");
    reveal_strlit("prohibit-password");
    assert("yes"@.len() != "without-password"@.len());
    assert("yes"@.len() != "prohibit-password"@.len());
}

proof fn lemma_password(file: Seq<char>, ds: Seq<DirectiveView>, f: FindingView)
    ensures
        sshd::password_rule(file, ds).contains(f) <==> reports_password(file, ds, f),
{
    let r = sshd::password_rule(file, ds);
    assert(r.len() == 1 ==> (r.contains(f) <==> f == r[0])) by {
        assert(r.len() == 1 ==> r.contains(r[0]));
    }
    lemma_first_takes_effect(ds, "passwordauthentication"@);
    reveal_strlit("yes");
    assert(text::lowered("yes"@) =~= "yes"@);
}

proof fn lemma_empty_password(file: Seq<char>, ds: Seq<DirectiveView>, f: FindingView)
    ensures
        sshd::empty_password_rule(file, ds).contains(f) <==> reports_empty_password(file, ds, f),
{
    let r = sshd::empty_password_rule(file, ds);
    assert(r.len() == 1 ==> (r.contains(f) <==> f == r[0])) by {
        assert(r.len() == 1 ==> r.contains(r[0]));
    }
    lemma_first_takes_effect(ds, "permitemptypasswords"@);
    reveal_strlit("yes");
    assert(text::lowered("yes"@) =~= "yes"@);
}

proof fn lemma_protocol(file: Seq<char>, ds: Seq<DirectiveView>, f: FindingView)
    ensures
        sshd::protocol_rule(file, ds).contains(f) <==> reports_protocol(file, ds, f),
{
    let r = sshd::protocol_rule(file, ds);
    assert(r.len() == 1 ==> (r.contains(f) <==> f == r[0])) by {
        assert(r.len() == 1 ==> r.contains(r[0]));
    }
    lemma_first_takes_effect(ds, "protocol"@);
    reveal_strlit("1");
    assert("1"@ =~= seq!['1']);
}

proof fn lemma_cipher_names(a: Seq<char>)
    ensures
        text::listed(sshd::WEAK_CIPHERS@, a) == weak_cipher(text::lowered(a)),
{
    let list = sshd::WEAK_CIPHERS@;
    reveal_strlit("3des-cbc");
    assert(text::lowered("3des-cbc"@) =~= "3des-cbc"@);
    assert(list[0]@ == "3des-cbc"@);
    reveal_strlit("arcfour");
    assert(text::lowered("arcfour"@) =~= "arcfour"@);
    assert(list[1]@ == "arcfour"@);
    reveal_strlit("arcfour128");
    assert(text::lowered("arcfour128"@) =~= "arcfour128"@);
    assert(list[2]@ == "arcfour128"@);
    reveal_strlit("arcfour256");
    assert(text::lowered("arcfour256"@) =~= "arcfour256"@);
    assert(list[3]@ == "arcfour256"@);
    reveal_strlit("blowfish-cbc");
    assert(text::lowered("blowfish-cbc"@) =~= "blowfish-cbc"@);
    assert(list[4]@ == "blowfish-cbc"@);
    reveal_strlit("cast128-cbc");
    assert(text::lowered("cast128-cbc"@) =~= "cast128-cbc"@);
    assert(list[5]@ == "cast128-cbc"@);
    reveal_strlit("des-cbc");
    assert(text::lowered("des-cbc"@) =~= "des-cbc"@);
    assert(list[6]@ == "des-cbc"@);
    reveal_strlit("aes128-cbc");
    assert(text::lowered("aes128-cbc"@) =~= "aes128-cbc"@);
    assert(list[7]@ == "aes128-cbc"@);
    reveal_strlit("aes192-cbc");
    assert(text::lowered("aes192-cbc"@) =~= "aes192-cbc"@);
    assert(list[8]@ == "aes192-cbc"@);
    reveal_strlit("aes256-cbc");
    assert(text::lowered("aes256-cbc"@) =~= "aes256-cbc"@);
    assert(list[9]@ == "aes256-cbc"@);
    reveal_strlit("rijndael-cbc@lysator.liu.se");
    assert(text::lowered("rijndael-cbc@lysator.liu.se"@) =~= "rijndael-cbc@lysator.liu.se"@);
    assert(list[10]@ == "rijndael-cbc@lysator.liu.se"@);
}

proof fn lemma_cipher(file: Seq<char>, ds: Seq<DirectiveView>, f: FindingView)
    ensures
        sshd::cipher_rule(file, ds).contains(f) <==> reports_ciphers(file, ds, f),
{
    let r = sshd::cipher_rule(file, ds);
    assert(r.len() == 1 ==> (r.contains(f) <==> f == r[0])) by {
        assert(r.len() == 1 ==> r.contains(r[0]));
    }
    lemma_first_takes_effect(ds, "ciphers"@);
    assert forall|a: Seq<char>| #[trigger] text::listed(sshd::WEAK_CIPHERS@, a) == weak_cipher(
        text::lowered(a),
    ) by {
        lemma_cipher_names(a);
    }
    assert forall|i: int| #[trigger] takes_effect(ds, "ciphers"@, i) implies weak_ones(
        ds[i].args,
        |a: Seq<char>| weak_cipher(a),
    ) == sshd::weak_entries(ds[i].args, sshd::WEAK_CIPHERS@) by {
        lemma_weak_entries(ds[i].args, sshd::WEAK_CIPHERS@, |a: Seq<char>| weak_cipher(a));
    }
}

proof fn lemma_mac_names(a: Seq<char>)
    ensures
        text::listed(sshd::WEAK_MACS@, a) == weak_mac(text::lowered(a)),
{
    let list = sshd::WEAK_MACS@;
    reveal_strlit("hmac-md5");
    assert(text::lowered("hmac-md5"@) =~= "hmac-md5"@);
    assert(list[0]@ == "hmac-md5"@);
    reveal_strlit("hmac-md5-96");
    assert(text::lowered("hmac-md5-96"@) =~= "hmac-md5-96"@);
    assert(list[1]@ == "hmac-md5-96"@);
    reveal_strlit("hmac-sha1-96");
    assert(text::lowered("hmac-sha1-96"@) =~= "hmac-sha1-96"@);
    assert(list[2]@ == "hmac-sha1-96"@);
    reveal_strlit("hmac-ripemd160");
    assert(text::lowered("hmac-ripemd160"@) =~= "hmac-ripemd160"@);
    assert(list[3]@ == "hmac-ripemd160"@);
    reveal_strlit("umac-64@openssh.com");
    assert(text::lowered("umac-64@openssh.com"@) =~= "umac-64@openssh.com"@);
    assert(list[4]@ == "umac-64@openssh.com"@);
}

proof fn lemma_mac(file: Seq<char>, ds: Seq<DirectiveView>, f: FindingView)
    ensures
        sshd::mac_rule(file, ds).contains(f) <==> reports_macs(file, ds, f),
{
    let r = sshd::mac_rule(file, ds);
    assert(r.len() == 1 ==> (r.contains(f) <==> f == r[0])) by {
        assert(r.len() == 1 ==> r.contains(r[0]));
    }
    lemma_first_takes_effect(ds, "macs"@);
    assert forall|a: Seq<char>| #[trigger] text::listed(sshd::WEAK_MACS@, a) == weak_mac(
        text::lowered(a),
    ) by {
        lemma_mac_names(a);
    }
    assert forall|i: int| #[trigger] takes_effect(ds, "macs"@, i) implies weak_ones(
        ds[i].args,
        |a: Seq<char>| weak_mac(a),
    ) == sshd::weak_entries(ds[i].args, sshd::WEAK_MACS@) by {
        lemma_weak_entries(ds[i].args, sshd::WEAK_MACS@, |a: Seq<char>| weak_mac(a));
    }
}

proof fn lemma_kex_names(a: Seq<char>)
    ensures
        text::listed(sshd::WEAK_KEX@, a) == weak_kex(text::lowered(a)),
{
    let list = sshd::WEAK_KEX@;
    reveal_strlit("diffie-hellman-group1-sha1");
    assert(text::lowered("diffie-hellman-group1-sha1"@) =~= "diffie-hellman-group1-sha1"@);
    assert(list[0]@ == "diffie-hellman-group1-sha1"@);
    reveal_strlit("diffie-hellman-group14-sha1");
    assert(text::lowered("diffie-hellman-group14-sha1"@) =~= "diffie-hellman-group14-sha1"@);
    assert(list[1]@ == "diffie-hellman-group14-sha1"@);
    reveal_strlit("diffie-hellman-group-exchange-sha1");
    assert(text::lowered("diffie-hellman-group-exchange-sha1"@) =~= "diffie-hellman-group-exchange-sha1"@);
    assert(list[2]@ == "diffie-hellman-group-exchange-sha1"@);
}

proof fn lemma_kex(file: Seq<char>, ds: Seq<DirectiveView>, f: FindingView)
    ensures
        sshd::kex_rule(file, ds).contains(f) <==> reports_kex(file, ds, f),
{
    let r = sshd::kex_rule(file, ds);
    assert(r.len() == 1 ==> (r.contains(f) <==> f == r[0])) by {
        assert(r.len() == 1 ==> r.contains(r[0]));
    }
    lemma_first_takes_effect(ds, "kexalgorithms"@);
    assert forall|a: Seq<char>| #[trigger] text::listed(sshd::WEAK_KEX@, a) == weak_kex(
        text::lowered(a),
    ) by {
        lemma_kex_names(a);
    }
    assert forall|i: int| #[trigger] takes_effect(ds, "kexalgorithms"@, i) implies weak_ones(
        ds[i].args,
        |a: Seq<char>| weak_kex(a),
    ) == sshd::weak_entries(ds[i].args, sshd::WEAK_KEX@) by {
        lemma_weak_entries(ds[i].args, sshd::WEAK_KEX@, |a: Seq<char>| weak_kex(a));
    }
}

proof fn lemma_x11(file: Seq<char>, ds: Seq<DirectiveView>, f: FindingView)
    ensures
        sshd::x11_rule(file, ds).contains(f) <==> reports_x11(file, ds, f),
{
    let r = sshd::x11_rule(file, ds);
    assert(r.len() == 1 ==> (r.contains(f) <==> f == r[0])) by {
        assert(r.len() == 1 ==> r.contains(r[0]));
    }
    lemma_first_takes_effect(ds, "x11forwarding"@);
    reveal_strlit("yes");
    assert(text::lowered("yes"@) =~= "yes"@);
}

proof fn lemma_tcp(file: Seq<char>, ds: Seq<DirectiveView>, f: FindingView)
    ensures
        sshd::tcp_rule(file, ds).contains(f) <==> reports_tcp(file, ds, f),
{
    let r = sshd::tcp_rule(file, ds);
    assert(r.len() == 1 ==> (r.contains(f) <==> f == r[0])) by {
        assert(r.len() == 1 ==> r.contains(r[0]));
    }
    lemma_first_takes_effect(ds, "allowtcpforwarding"@);
    reveal_strlit("yes");
    assert(text::lowered("yes"@) =~= "yes"@);
}

proof fn lemma_auth_tries(file: Seq<char>, ds: Seq<DirectiveView>, f: FindingView)
    ensures
        sshd::auth_tries_rule(file, ds).contains(f) <==> reports_auth_tries(file, ds, f),
{
    let r = sshd::auth_tries_rule(file, ds);
    assert(r.len() == 1 ==> (r.contains(f) <==> f == r[0])) by {
        assert(r.len() == 1 ==> r.contains(r[0]));
    }
    lemma_first_takes_effect(ds, "maxauthtries"@);
}

proof fn lemma_user_env(file: Seq<char>, ds: Seq<DirectiveView>, f: FindingView)
    ensures
        sshd::user_env_rule(file, ds).contains(f) <==> reports_user_env(file, ds, f),
{
    let r = sshd::user_env_rule(file, ds);
    assert(r.len() == 1 ==> (r.contains(f) <==> f == r[0])) by {
        assert(r.len() == 1 ==> r.contains(r[0]));
    }
    lemma_first_takes_effect(ds, "permituserenvironment"@);
    reveal_strlit("yes");
    assert(text::lowered("yes"@) =~= "yes"@);
}

proof fn lemma_pam(file: Seq<char>, ds: Seq<DirectiveView>, f: FindingView)
    ensures
        sshd::pam_rule(file, ds).contains(f) <==> reports_pam(file, ds, f),
{
    let r = sshd::pam_rule(file, ds);
    assert(r.len() == 1 ==> (r.contains(f) <==> f == r[0])) by {
        assert(r.len() == 1 ==> r.contains(r[0]));
    }
    lemma_first_takes_effect(ds, "usepam"@);
    reveal_strlit("no");
    assert(text::lowered("no"@) =~= "no"@);
}

proof fn lemma_alive(file: Seq<char>, ds: Seq<DirectiveView>, f: FindingView)
    ensures
        sshd::alive_rule(file, ds).contains(f) <==> reports_alive(file, ds, f),
{
    let r = sshd::alive_rule(file, ds);
    assert(r.len() == 1 ==> (r.contains(f) <==> f == r[0])) by {
        assert(r.len() == 1 ==> r.contains(r[0]));
    }
    lemma_first_takes_effect(ds, "clientaliveinterval"@);
}

proof fn lemma_weak_entries(args: Seq<char>, list: Seq<&str>, weak: spec_fn(Seq<char>) -> bool)
    requires
        forall|a: Seq<char>| #[trigger] text::listed(list, a) == weak(text::lowered(a)),
    ensures
        weak_ones(args, weak) == sshd::weak_entries(args, list),
{
    let parts = text::split_seq(text::stripped_start(args, seq!['+', '-', '^']), ',');
    assert(entries(args) =~= parts.map_values(|p: Seq<char>| text::trimmed(p)));
    let p = |a: Seq<char>| text::listed(list, a);
    let q = |a: Seq<char>| weak(text::lowered(a));
    assert forall|a: Seq<char>| #[trigger] p(a) == q(a) by {
        assert(text::listed(list, a) == weak(text::lowered(a)));
    }
    assert(p =~= q);
}

proof fn lemma_contains_add(a: Seq<FindingView>, b: Seq<FindingView>, f: FindingView)
    ensures
        (a + b).contains(f) <==> a.contains(f) || b.contains(f),
{
    if a.contains(f) {
        let i = choose|i: int| 0 <= i < a.len() && a[i] == f;
        assert((a + b)[i] == f);
    }
    if b.contains(f) {
        let i = choose|i: int| 0 <= i < b.len() && b[i] == f;
        assert((a + b)[a.len() + i] == f);
    }
}

proof fn lemma_login(file: Seq<char>, ds: Seq<DirectiveView>, f: FindingView)
    ensures
        sshd::login_findings(file, ds).contains(f) <==> {
            ||| reports_root_login(file, ds, f)
            ||| reports_password(file, ds, f)
            ||| reports_empty_password(file, ds, f)
        },
{
    lemma_root_login(file, ds, f);
    lemma_password(file, ds, f);
    lemma_empty_password(file, ds, f);
    lemma_contains_add(
        sshd::root_login_rule(file, ds),
        sshd::password_rule(file, ds),
        f,
    );
    lemma_contains_add(
        sshd::root_login_rule(file, ds)
            + sshd::password_rule(file, ds),
        sshd::empty_password_rule(file, ds),
        f,
    );
}

proof fn lemma_crypto(file: Seq<char>, ds: Seq<DirectiveView>, f: FindingView)
    ensures
        sshd::crypto_findings(file, ds).contains(f) <==> {
            ||| reports_protocol(file, ds, f)
            ||| reports_ciphers(file, ds, f)
            ||| reports_macs(file, ds, f)
            ||| reports_kex(file, ds, f)
        },
{
    lemma_protocol(file, ds, f);
    lemma_cipher(file, ds, f);
    lemma_mac(file, ds, f);
    lemma_kex(file, ds, f);
    lemma_contains_add(
        sshd::protocol_rule(file, ds),
        sshd::cipher_rule(file, ds),
        f,
    );
    lemma_contains_add(
        sshd::protocol_rule(file, ds)
            + sshd::cipher_rule(file, ds),
        sshd::mac_rule(file, ds),
        f,
    );
    lemma_contains_add(
        sshd::protocol_rule(file, ds)
            + sshd::cipher_rule(file, ds)
            + sshd::mac_rule(file, ds),
        sshd::kex_rule(file, ds),
        f,
    );
}

proof fn lemma_session(file: Seq<char>, ds: Seq<DirectiveView>, f: FindingView)
    ensures
        sshd::session_findings(file, ds).contains(f) <==> {
            ||| reports_x11(file, ds, f)
            ||| reports_tcp(file, ds, f)
            ||| reports_auth_tries(file, ds, f)
            ||| reports_user_env(file, ds, f)
            ||| reports_pam(file, ds, f)
            ||| reports_alive(file, ds, f)
        },
{
    lemma_x11(file, ds, f);
    lemma_tcp(file, ds, f);
    lemma_auth_tries(file, ds, f);
    lemma_user_env(file, ds, f);
    lemma_pam(file, ds, f);
    lemma_alive(file, ds, f);
    lemma_contains_add(
        sshd::x11_rule(file, ds),
        sshd::tcp_rule(file, ds),
        f,
    );
    lemma_contains_add(
        sshd::x11_rule(file, ds)
            + sshd::tcp_rule(file, ds),
        sshd::auth_tries_rule(file, ds),
        f,
    );
    lemma_contains_add(
        sshd::x11_rule(file, ds)
            + sshd::tcp_rule(file, ds)
            + sshd::auth_tries_rule(file, ds),
        sshd::user_env_rule(file, ds),
        f,
    );
    lemma_contains_add(
        sshd::x11_rule(file, ds)
            + sshd::tcp_rule(file, ds)
            + sshd::auth_tries_rule(file, ds)
            + sshd::user_env_rule(file, ds),
        sshd::pam_rule(file, ds),
        f,
    );
    lemma_contains_add(
        sshd::x11_rule(file, ds)
            + sshd::tcp_rule(file, ds)
            + sshd::auth_tries_rule(file, ds)
            + sshd::user_env_rule(file, ds)
            + sshd::pam_rule(file, ds),
        sshd::alive_rule(file, ds),
        f,
    );
}

/// An audit holds a finding exactly when the directives of the file call for
/// it: a setting counts where it is first made outside of a `Match` block, its
/// rule says which values are reported, and the finding repeats the line.
pub proof fn law_audit_holds_what_is_called_for(file: Seq<char>, content: Seq<char>, f: FindingView)
    requires
        sshd::audited(file, content) is Ok,
    ensures
        sshd::parsed_content(content) is Ok,
        sshd::audited(file, content)->Ok_0.contains(f) <==> called_for(
            file,
            sshd::parsed_content(content)->Ok_0,
            f,
        ),
{
    let ds = sshd::parsed_content(content)->Ok_0;
    let l = sshd::login_findings(file, ds);
    let c = sshd::crypto_findings(file, ds);
    let s = sshd::session_findings(file, ds);
    lemma_login(file, ds, f);
    lemma_crypto(file, ds, f);
    lemma_session(file, ds, f);
    lemma_contains_add(l, c, f);
    lemma_contains_add(l + c, s, f);
    order::lemma_sort_holds(sshd::rule_findings(file, ds), f);
}

/// Whether the arguments write a list: a sign or none, and the entries with
/// commas between them.
pub open spec fn is_list(args: Seq<char>, sign: Seq<char>, list: Seq<Seq<char>>) -> bool {
    &&& forall|j: int| 0 <= j < sign.len() ==> seq!['+', '-', '^'].contains(#[trigger] sign[j])
    &&& list.len() > 0
    &&& forall|j: int| 0 <= j < list.len() ==> !(#[trigger] list[j]).contains(',')
    &&& list[0].len() > 0 && !seq!['+', '-', '^'].contains(list[0][0])
    &&& args == sign + text::joined(list, seq![','])
}

proof fn lemma_joined_head(list: Seq<Seq<char>>, sep: Seq<char>)
    requires
        list.len() > 0,
        list[0].len() > 0,
    ensures
        text::joined(list, sep).len() > 0,
        text::joined(list, sep)[0] == list[0][0],
    decreases list.len(),
{
    if list.len() > 1 {
        lemma_joined_head(list.drop_last(), sep);
    }
}

proof fn lemma_strip_sign(sign: Seq<char>, t: Seq<char>)
    requires
        forall|j: int| 0 <= j < sign.len() ==> seq!['+', '-', '^'].contains(#[trigger] sign[j]),
        t.len() > 0,
        !seq!['+', '-', '^'].contains(t[0]),
    ensures
        text::stripped_start(sign + t, seq!['+', '-', '^']) == t,
    decreases sign.len(),
{
    if sign.len() > 0 {
        assert((sign + t)[0] == sign[0]);
        assert((sign + t).drop_first() =~= sign.drop_first() + t);
        lemma_strip_sign(sign.drop_first(), t);
    } else {
        assert(sign + t =~= t);
    }
}

proof fn lemma_entry_is_found(
    args: Seq<char>,
    sign: Seq<char>,
    list: Seq<Seq<char>>,
    k: int,
    weak: spec_fn(Seq<char>) -> bool,
)
    requires
        is_list(args, sign, list),
        0 <= k < list.len(),
        weak(text::lowered(text::trimmed(list[k]))),
    ensures
        weak_ones(args, weak).len() > 0,
{
    let t = text::joined(list, seq![',']);
    lemma_joined_head(list, seq![',']);
    lemma_strip_sign(sign, t);
    law_joined_texts_are_split_again(list, ',');
    let pred = |a: Seq<char>| weak(text::lowered(a));
    let e = entries(args);
    assert(e[k] == text::trimmed(list[k]));
    assert(pred(e[k]));
    e.lemma_filter_contains(pred, k);
}

/// Every weak cipher in the list that takes effect is reported on the line of
/// the list: whichever it is, wherever it stands in the list, in any case.
pub proof fn law_weak_ciphers_are_reported(
    file: Seq<char>,
    content: Seq<char>,
    i: int,
    sign: Seq<char>,
    list: Seq<Seq<char>>,
    k: int,
)
    requires
        sshd::audited(file, content) is Ok,
        takes_effect(sshd::parsed_content(content)->Ok_0, "ciphers"@, i),
        is_list(sshd::parsed_content(content)->Ok_0[i].args, sign, list),
        0 <= k < list.len(),
        weak_cipher(text::lowered(text::trimmed(list[k]))),
    ensures
        exists|n: int|
            0 <= n < sshd::audited(file, content)->Ok_0.len() && (
            #[trigger] sshd::audited(file, content)->Ok_0[n]).rule_id == "SSHD006"@ && sshd::audited(
                file,
                content,
            )->Ok_0[n].line == sshd::parsed_content(content)->Ok_0[i].line,
{
    let ds = sshd::parsed_content(content)->Ok_0;
    let weak = |a: Seq<char>| weak_cipher(a);
    lemma_entry_is_found(ds[i].args, sign, list, k, weak);
    let r = sshd::cipher_rule(file, ds);
    lemma_first_takes_effect(ds, "ciphers"@);
    assert forall|a: Seq<char>| #[trigger] text::listed(
        sshd::WEAK_CIPHERS@,
        a,
    ) == weak(text::lowered(a)) by {
        lemma_cipher_names(a);
    }
    lemma_weak_entries(ds[i].args, sshd::WEAK_CIPHERS@, weak);
    let f = r[0];
    assert(r.contains(f));
    lemma_cipher(file, ds, f);
    law_audit_holds_what_is_called_for(file, content, f);
    let fs = sshd::audited(file, content)->Ok_0;
    let n = choose|n: int| 0 <= n < fs.len() && fs[n] == f;
    assert(fs[n].rule_id == "SSHD006"@);
}

/// Every weak message authentication code in the list that takes effect is reported on the line of
/// the list: whichever it is, wherever it stands in the list, in any case.
pub proof fn law_weak_macs_are_reported(
    file: Seq<char>,
    content: Seq<char>,
    i: int,
    sign: Seq<char>,
    list: Seq<Seq<char>>,
    k: int,
)
    requires
        sshd::audited(file, content) is Ok,
        takes_effect(sshd::parsed_content(content)->Ok_0, "macs"@, i),
        is_list(sshd::parsed_content(content)->Ok_0[i].args, sign, list),
        0 <= k < list.len(),
        weak_mac(text::lowered(text::trimmed(list[k]))),
    ensures
        exists|n: int|
            0 <= n < sshd::audited(file, content)->Ok_0.len() && (
            #[trigger] sshd::audited(file, content)->Ok_0[n]).rule_id == "SSHD007"@ && sshd::audited(
                file,
                content,
            )->Ok_0[n].line == sshd::parsed_content(content)->Ok_0[i].line,
{
    let ds = sshd::parsed_content(content)->Ok_0;
    let weak = |a: Seq<char>| weak_mac(a);
    lemma_entry_is_found(ds[i].args, sign, list, k, weak);
    let r = sshd::mac_rule(file, ds);
    lemma_first_takes_effect(ds, "macs"@);
    assert forall|a: Seq<char>| #[trigger] text::listed(
        sshd::WEAK_MACS@,
        a,
    ) == weak(text::lowered(a)) by {
        lemma_mac_names(a);
    }
    lemma_weak_entries(ds[i].args, sshd::WEAK_MACS@, weak);
    let f = r[0];
    assert(r.contains(f));
    lemma_mac(file, ds, f);
    law_audit_holds_what_is_called_for(file, content, f);
    let fs = sshd::audited(file, content)->Ok_0;
    let n = choose|n: int| 0 <= n < fs.len() && fs[n] == f;
    assert(fs[n].rule_id == "SSHD007"@);
}

/// Every weak key exchange in the list that takes effect is reported on the line of
/// the list: whichever it is, wherever it stands in the list, in any case.
pub proof fn law_weak_key_exchanges_are_reported(
    file: Seq<char>,
    content: Seq<char>,
    i: int,
    sign: Seq<char>,
    list: Seq<Seq<char>>,
    k: int,
)
    requires
        sshd::audited(file, content) is Ok,
        takes_effect(sshd::parsed_content(content)->Ok_0, "kexalgorithms"@, i),
        is_list(sshd::parsed_content(content)->Ok_0[i].args, sign, list),
        0 <= k < list.len(),
        weak_kex(text::lowered(text::trimmed(list[k]))),
    ensures
        exists|n: int|
            0 <= n < sshd::audited(file, content)->Ok_0.len() && (
            #[trigger] sshd::audited(file, content)->Ok_0[n]).rule_id == "SSHD008"@ && sshd::audited(
                file,
                content,
            )->Ok_0[n].line == sshd::parsed_content(content)->Ok_0[i].line,
{
    let ds = sshd::parsed_content(content)->Ok_0;
    let weak = |a: Seq<char>| weak_kex(a);
    lemma_entry_is_found(ds[i].args, sign, list, k, weak);
    let r = sshd::kex_rule(file, ds);
    lemma_first_takes_effect(ds, "kexalgorithms"@);
    assert forall|a: Seq<char>| #[trigger] text::listed(
        sshd::WEAK_KEX@,
        a,
    ) == weak(text::lowered(a)) by {
        lemma_kex_names(a);
    }
    lemma_weak_entries(ds[i].args, sshd::WEAK_KEX@, weak);
    let f = r[0];
    assert(r.contains(f));
    lemma_kex(file, ds, f);
    law_audit_holds_what_is_called_for(file, content, f);
    let fs = sshd::audited(file, content)->Ok_0;
    let n = choose|n: int| 0 <= n < fs.len() && fs[n] == f;
    assert(fs[n].rule_id == "SSHD008"@);
}

} // verus!
