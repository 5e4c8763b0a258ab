//! What holds of every audit of an `sshd_config` file.

use crate::finding::{FindingView, SourceKind};
use crate::laws::{
    all_labelled, all_moved, lemma_all_add, lemma_at_most_one, lemma_labelled_add,
    lemma_labelled_again, lemma_labelled_sorted, lemma_moved_add, lemma_moved_sorted, lemma_numbers,
    lemma_of_rule_add, moved_line, number, of_rule, sshd_documented,
};
use crate::order;
use crate::parsers::sshd::{
    alive_rule, audited, auth_tries_rule, cipher_rule, crypto_findings, directive,
    empty_password_rule, first_global, kex_rule, login_findings, mac_rule, pam_rule, parsed,
    parsed_content, password_rule, protocol_rule, quote_count, root_login_rule, rule_findings,
    session_findings, tcp_rule, uncommented, unterminated, user_env_rule, x11_rule, DirectiveView,
};
use crate::text;
use vstd::prelude::*;

verus! {

/// The directives that stand outside every `Match` block.
pub open spec fn globals(ds: Seq<DirectiveView>) -> Seq<DirectiveView> {
    ds.filter(|d: DirectiveView| !d.in_match)
}

/// What a line says: its text without the comment and the white space around
/// it.
pub open spec fn said(line: Seq<char>) -> Seq<char> {
    text::trimmed(uncommented(line))
}

/// Whether a line opens a `Match` block.
pub open spec fn is_match_line(line: Seq<char>) -> bool {
    said(line).len() > 0 && directive(said(line), 0, false).keyword == "match"@
}

/// Whether a line has an unterminated quote.
pub open spec fn has_open_quote(line: Seq<char>) -> bool {
    quote_count(said(line)) % 2 != 0
}

proof fn lemma_globals_prepend(d: DirectiveView, ds: Seq<DirectiveView>)
    ensures
        globals(seq![d] + ds) == (if d.in_match {
            globals(ds)
        } else {
            seq![d] + globals(ds)
        }),
{
    let pred = |d: DirectiveView| !d.in_match;
    Seq::filter_distributes_over_add(seq![d], ds, pred);
    reveal_with_fuel(Seq::filter, 2);
    assert(seq![d].drop_last() =~= Seq::<DirectiveView>::empty());
    assert(Seq::<DirectiveView>::empty() + globals(ds) =~= globals(ds));
    assert(seq![d].filter(pred) =~= (if d.in_match {
        Seq::<DirectiveView>::empty()
    } else {
        seq![d]
    }));
}

proof fn lemma_first_global_of_globals(ds: Seq<DirectiveView>, keyword: Seq<char>)
    ensures
        first_global(globals(ds), keyword) == first_global(ds, keyword),
    decreases ds.len(),
{
    if ds.len() == 0 {
        reveal(Seq::filter);
    } else {
        let rest = ds.drop_first();
        lemma_first_global_of_globals(rest, keyword);
        lemma_globals_prepend(ds[0], rest);
        assert(ds =~= seq![ds[0]] + rest);
        if !ds[0].in_match {
            assert((seq![ds[0]] + globals(rest)).drop_first() =~= globals(rest));
        }
    }
}

/// What stands in a `Match` block is not reported: the findings are those on
/// the directives outside.
pub proof fn law_match_directives_are_not_reported(file: Seq<char>, ds: Seq<DirectiveView>)
    ensures
        rule_findings(file, ds) == rule_findings(file, globals(ds)),
{
    assert(login_findings(file, ds) == login_findings(file, globals(ds))) by {
        lemma_first_global_of_globals(ds, "permitrootlogin"@);
        lemma_first_global_of_globals(ds, "passwordauthentication"@);
        lemma_first_global_of_globals(ds, "permitemptypasswords"@);
    }
    assert(crypto_findings(file, ds) == crypto_findings(file, globals(ds))) by {
        lemma_first_global_of_globals(ds, "protocol"@);
        lemma_first_global_of_globals(ds, "ciphers"@);
        lemma_first_global_of_globals(ds, "macs"@);
        lemma_first_global_of_globals(ds, "kexalgorithms"@);
    }
    assert(session_findings(file, ds) == session_findings(file, globals(ds))) by {
        lemma_first_global_of_globals(ds, "x11forwarding"@);
        lemma_first_global_of_globals(ds, "allowtcpforwarding"@);
        lemma_first_global_of_globals(ds, "maxauthtries"@);
        lemma_first_global_of_globals(ds, "permituserenvironment"@);
        lemma_first_global_of_globals(ds, "usepam"@);
        lemma_first_global_of_globals(ds, "clientaliveinterval"@);
    }
}

proof fn lemma_inside_match(lines: Seq<Seq<char>>, i: int)
    requires
        parsed(lines, i, true) is Ok,
    ensures
        globals(parsed(lines, i, true)->Ok_0) == Seq::<DirectiveView>::empty(),
    decreases lines.len() - i,
{
    if i >= lines.len() {
        reveal(Seq::filter);
    } else {
        lemma_inside_match(lines, i + 1);
        let t = said(lines[i]);
        if t.len() > 0 {
            let d = directive(t, (i + 1) as nat, true);
            lemma_globals_prepend(d, parsed(lines, i + 1, true)->Ok_0);
        }
    }
}

proof fn lemma_up_to_match(
    head: Seq<Seq<char>>,
    tail: Seq<Seq<char>>,
    i: int,
    in_match: bool,
)
    requires
        0 <= i <= head.len(),
        tail.len() > 0,
        is_match_line(tail[0]),
        parsed(head + tail, i, in_match) is Ok,
    ensures
        parsed(head, i, in_match) is Ok,
        globals(parsed(head, i, in_match)->Ok_0) == globals(
            parsed(head + tail, i, in_match)->Ok_0,
        ),
    decreases head.len() - i,
{
    let lines = head + tail;
    let t = said(lines[i]);
    if i == head.len() {
        assert(lines[i] == tail[0]);
        let d = directive(t, (i + 1) as nat, in_match);
        assert(d.keyword == directive(t, 0, false).keyword);
        lemma_inside_match(lines, i + 1);
        lemma_globals_prepend(d, parsed(lines, i + 1, true)->Ok_0);
        reveal(Seq::filter);
        assert(parsed(head, i, in_match)->Ok_0 =~= Seq::empty());
    } else {
        assert(lines[i] == head[i]);
        if t.len() == 0 {
            lemma_up_to_match(head, tail, i + 1, in_match);
        } else {
            let d = directive(t, (i + 1) as nat, in_match);
            lemma_up_to_match(head, tail, i + 1, d.in_match);
            lemma_globals_prepend(d, parsed(lines, i + 1, d.in_match)->Ok_0);
            lemma_globals_prepend(d, parsed(head, i + 1, d.in_match)->Ok_0);
        }
    }
}

/// A `Match` line ends the global part of a file: a file that is audited at
/// all gives the findings that the lines above the `Match` line give alone,
/// whatever stands below it.
pub proof fn law_match_line_ends_global_scope(
    file: Seq<char>,
    content: Seq<char>,
    above: Seq<char>,
    below: Seq<Seq<char>>,
    match_line: Seq<char>,
)
    requires
        text::line_seq(content) == text::line_seq(above) + (seq![match_line] + below),
        is_match_line(match_line),
        audited(file, content) is Ok,
    ensures
        audited(file, content) == audited(file, above),
{
    let head = text::line_seq(above);
    let tail = seq![match_line] + below;
    lemma_up_to_match(head, tail, 0, false);
    law_match_directives_are_not_reported(file, parsed_content(content)->Ok_0);
    law_match_directives_are_not_reported(file, parsed_content(above)->Ok_0);
}

proof fn lemma_login_once(file: Seq<char>, ds: Seq<DirectiveView>, rule_id: Seq<char>)
    ensures
        of_rule(login_findings(file, ds), rule_id).len() <= 1,
        of_rule(login_findings(file, ds), rule_id).len() == 1 ==> 1 <= number(rule_id) <= 4,
{
    lemma_numbers();
    let a = root_login_rule(file, ds);
    let own = if a.len() == 1 {
        a[0].rule_id
    } else {
        "SSHD001"@
    };
    lemma_at_most_one(a, own, rule_id);
    let b = password_rule(file, ds);
    lemma_at_most_one(b, "SSHD003"@, rule_id);
    let c = empty_password_rule(file, ds);
    lemma_at_most_one(c, "SSHD004"@, rule_id);
    lemma_of_rule_add(a, b, rule_id);
    lemma_of_rule_add(a + b, c, rule_id);
}

proof fn lemma_crypto_once(file: Seq<char>, ds: Seq<DirectiveView>, rule_id: Seq<char>)
    ensures
        of_rule(crypto_findings(file, ds), rule_id).len() <= 1,
        of_rule(crypto_findings(file, ds), rule_id).len() == 1 ==> 5 <= number(rule_id) <= 8,
{
    lemma_numbers();
    let a = protocol_rule(file, ds);
    lemma_at_most_one(a, "SSHD005"@, rule_id);
    let b = cipher_rule(file, ds);
    lemma_at_most_one(b, "SSHD006"@, rule_id);
    let c = mac_rule(file, ds);
    lemma_at_most_one(c, "SSHD007"@, rule_id);
    let d = kex_rule(file, ds);
    lemma_at_most_one(d, "SSHD008"@, rule_id);
    lemma_of_rule_add(a, b, rule_id);
    lemma_of_rule_add(a + b, c, rule_id);
    lemma_of_rule_add(a + b + c, d, rule_id);
}

proof fn lemma_session_once(file: Seq<char>, ds: Seq<DirectiveView>, rule_id: Seq<char>)
    ensures
        of_rule(session_findings(file, ds), rule_id).len() <= 1,
        of_rule(session_findings(file, ds), rule_id).len() == 1 ==> 9 <= number(rule_id) <= 14,
{
    lemma_numbers();
    let a = x11_rule(file, ds);
    lemma_at_most_one(a, "SSHD009"@, rule_id);
    let b = tcp_rule(file, ds);
    lemma_at_most_one(b, "SSHD010"@, rule_id);
    let c = auth_tries_rule(file, ds);
    lemma_at_most_one(c, "SSHD011"@, rule_id);
    let d = user_env_rule(file, ds);
    lemma_at_most_one(d, "SSHD012"@, rule_id);
    let e = pam_rule(file, ds);
    lemma_at_most_one(e, "SSHD013"@, rule_id);
    let f = alive_rule(file, ds);
    lemma_at_most_one(f, "SSHD014"@, rule_id);
    lemma_of_rule_add(a, b, rule_id);
    lemma_of_rule_add(a + b, c, rule_id);
    lemma_of_rule_add(a + b + c, d, rule_id);
    lemma_of_rule_add(a + b + c + d, e, rule_id);
    lemma_of_rule_add(a + b + c + d + e, f, rule_id);
}

/// Each rule is reported at most once.
pub proof fn law_each_rule_is_reported_once(
    file: Seq<char>,
    content: Seq<char>,
    rule_id: Seq<char>,
)
    requires
        audited(file, content) is Ok,
    ensures
        of_rule(audited(file, content)->Ok_0, rule_id).len() <= 1,
{
    let ds = parsed_content(content)->Ok_0;
    order::lemma_sort_keeps_count(
        rule_findings(file, ds),
        |f: FindingView| f.rule_id == rule_id,
    );
    lemma_login_once(file, ds, rule_id);
    lemma_crypto_once(file, ds, rule_id);
    lemma_session_once(file, ds, rule_id);
    let a = login_findings(file, ds);
    let b = crypto_findings(file, ds);
    let c = session_findings(file, ds);
    lemma_of_rule_add(a, b, rule_id);
    lemma_of_rule_add(a + b, c, rule_id);
}

/// Whether a directive says what its line says, and stands above every `Match`
/// line if it is global.
spec fn placed(d: DirectiveView, lines: Seq<Seq<char>>) -> bool {
    &&& 1 <= d.line <= lines.len()
    &&& d.raw == said(lines[d.line - 1])
    &&& !d.in_match ==> above_match(lines, d.line as int)
}

/// Whether none of the first `n` lines opens a `Match` block.
pub open spec fn above_match(lines: Seq<Seq<char>>, n: int) -> bool {
    forall|k: int| 0 <= k < n ==> !is_match_line(#[trigger] lines[k])
}

proof fn lemma_placed(lines: Seq<Seq<char>>, i: int, in_match: bool)
    requires
        0 <= i <= lines.len(),
        parsed(lines, i, in_match) is Ok,
        !in_match ==> above_match(lines, i),
    ensures
        forall|k: int|
            0 <= k < parsed(lines, i, in_match)->Ok_0.len() ==> placed(
                #[trigger] parsed(lines, i, in_match)->Ok_0[k],
                lines,
            ),
    decreases lines.len() - i,
{
    if i < lines.len() {
        let t = said(lines[i]);
        if t.len() == 0 {
            lemma_placed(lines, i + 1, in_match);
        } else {
            let d = directive(t, (i + 1) as nat, in_match);
            assert(d.keyword == directive(t, 0, false).keyword);
            lemma_placed(lines, i + 1, d.in_match);
            let rest = parsed(lines, i + 1, d.in_match)->Ok_0;
            let all = parsed(lines, i, in_match)->Ok_0;
            assert(all == seq![d] + rest);
            assert(placed(d, lines));
            assert forall|k: int| 0 <= k < all.len() implies placed(#[trigger] all[k], lines) by {
                if k > 0 {
                    assert(all[k] == rest[k - 1]);
                }
            }
        }
    }
}

proof fn lemma_first_global_is_one(ds: Seq<DirectiveView>, keyword: Seq<char>)
    requires
        first_global(ds, keyword) is Some,
    ensures
        ds.contains(first_global(ds, keyword)->0),
        !(first_global(ds, keyword)->0).in_match,
    decreases ds.len(),
{
    if !(!ds[0].in_match && ds[0].keyword == keyword) {
        let rest = ds.drop_first();
        lemma_first_global_is_one(rest, keyword);
        let k = choose|k: int| 0 <= k < rest.len() && rest[k] == first_global(rest, keyword)->0;
        assert(ds[k + 1] == rest[k]);
    }
}

/// Whether a finding is one that an audit of the given lines may report: it
/// names the file, it has the severity that its rule is documented with, and
/// it either concerns the file as a whole or shows the line that it points
/// to, which stands above every `Match` line.
pub open spec fn sound(f: FindingView, file: Seq<char>, lines: Seq<Seq<char>>) -> bool {
    &&& f.file == file
    &&& f.source == SourceKind::Sshd
    &&& sshd_documented(f.rule_id, f.severity)
    &&& f.line == 0 || {
        &&& 1 <= f.line <= lines.len()
        &&& f.evidence == said(lines[f.line - 1])
        &&& above_match(lines, f.line as int)
    }
}

proof fn lemma_sound(
    s: Seq<FindingView>,
    file: Seq<char>,
    ds: Seq<DirectiveView>,
    lines: Seq<Seq<char>>,
    keyword: Seq<char>,
)
    requires
        forall|k: int| 0 <= k < ds.len() ==> placed(#[trigger] ds[k], lines),
        s.len() <= 1,
        s.len() == 1 ==> {
            &&& s[0].file == file
            &&& s[0].source == SourceKind::Sshd
            &&& sshd_documented(s[0].rule_id, s[0].severity)
            &&& match first_global(ds, keyword) {
                Some(d) => s[0].line == d.line && s[0].evidence == d.raw,
                None => s[0].line == 0,
            }
        },
    ensures
        s.all(|f: FindingView| sound(f, file, lines)),
{
    if s.len() == 1 && first_global(ds, keyword) is Some {
        lemma_first_global_is_one(ds, keyword);
    }
}

proof fn lemma_login_sound(file: Seq<char>, ds: Seq<DirectiveView>, lines: Seq<Seq<char>>)
    requires
        forall|k: int| 0 <= k < ds.len() ==> placed(#[trigger] ds[k], lines),
    ensures
        login_findings(file, ds).all(|f: FindingView| sound(f, file, lines)),
{
    let pred = |f: FindingView| sound(f, file, lines);
    let a = root_login_rule(file, ds);
    lemma_sound(a, file, ds, lines, "permitrootlogin"@);
    let b = password_rule(file, ds);
    lemma_sound(b, file, ds, lines, "passwordauthentication"@);
    let c = empty_password_rule(file, ds);
    lemma_sound(c, file, ds, lines, "permitemptypasswords"@);
    lemma_all_add(a, b, pred);
    lemma_all_add(a + b, c, pred);
}

proof fn lemma_crypto_sound(file: Seq<char>, ds: Seq<DirectiveView>, lines: Seq<Seq<char>>)
    requires
        forall|k: int| 0 <= k < ds.len() ==> placed(#[trigger] ds[k], lines),
    ensures
        crypto_findings(file, ds).all(|f: FindingView| sound(f, file, lines)),
{
    let pred = |f: FindingView| sound(f, file, lines);
    let a = protocol_rule(file, ds);
    lemma_sound(a, file, ds, lines, "protocol"@);
    let b = cipher_rule(file, ds);
    lemma_sound(b, file, ds, lines, "ciphers"@);
    let c = mac_rule(file, ds);
    lemma_sound(c, file, ds, lines, "macs"@);
    let d = kex_rule(file, ds);
    lemma_sound(d, file, ds, lines, "kexalgorithms"@);
    lemma_all_add(a, b, pred);
    lemma_all_add(a + b, c, pred);
    lemma_all_add(a + b + c, d, pred);
}

proof fn lemma_session_sound(file: Seq<char>, ds: Seq<DirectiveView>, lines: Seq<Seq<char>>)
    requires
        forall|k: int| 0 <= k < ds.len() ==> placed(#[trigger] ds[k], lines),
    ensures
        session_findings(file, ds).all(|f: FindingView| sound(f, file, lines)),
{
    let pred = |f: FindingView| sound(f, file, lines);
    let a = x11_rule(file, ds);
    lemma_sound(a, file, ds, lines, "x11forwarding"@);
    let b = tcp_rule(file, ds);
    lemma_sound(b, file, ds, lines, "allowtcpforwarding"@);
    let c = auth_tries_rule(file, ds);
    lemma_sound(c, file, ds, lines, "maxauthtries"@);
    let d = user_env_rule(file, ds);
    lemma_sound(d, file, ds, lines, "permituserenvironment"@);
    let e = pam_rule(file, ds);
    lemma_sound(e, file, ds, lines, "usepam"@);
    let f = alive_rule(file, ds);
    lemma_sound(f, file, ds, lines, "clientaliveinterval"@);
    lemma_all_add(a, b, pred);
    lemma_all_add(a + b, c, pred);
    lemma_all_add(a + b + c, d, pred);
    lemma_all_add(a + b + c + d, e, pred);
    lemma_all_add(a + b + c + d + e, f, pred);
}

/// Every finding names the audited file, has the severity that its rule is
/// documented with, and shows the line that it points to, if it points to
/// one. No finding points to a `Match` line or to a line below one.
pub proof fn law_findings_are_sound(file: Seq<char>, content: Seq<char>)
    requires
        audited(file, content) is Ok,
    ensures
        audited(file, content)->Ok_0.all(
            |f: FindingView| sound(f, file, text::line_seq(content)),
        ),
{
    let lines = text::line_seq(content);
    let ds = parsed_content(content)->Ok_0;
    let pred = |f: FindingView| sound(f, file, lines);
    lemma_placed(lines, 0, false);
    lemma_login_sound(file, ds, lines);
    lemma_crypto_sound(file, ds, lines);
    lemma_session_sound(file, ds, lines);
    let a = login_findings(file, ds);
    let b = crypto_findings(file, ds);
    let c = session_findings(file, ds);
    lemma_all_add(a, b, pred);
    lemma_all_add(a + b, c, pred);
    order::lemma_sort_keeps_all(rule_findings(file, ds), pred);
}

proof fn lemma_open_quote(lines: Seq<Seq<char>>, i: int, in_match: bool)
    requires
        0 <= i <= lines.len(),
    ensures
        parsed(lines, i, in_match) is Ok <==> forall|k: int|
            i <= k < lines.len() ==> !has_open_quote(#[trigger] lines[k]),
        forall|k: int|
            i <= k < lines.len() && has_open_quote(#[trigger] lines[k]) && (forall|j: int|
                i <= j < k ==> !has_open_quote(#[trigger] lines[j])) ==> parsed(
                lines,
                i,
                in_match,
            ) == Err::<Seq<DirectiveView>, Seq<char>>(unterminated((k + 1) as nat)),
    decreases lines.len() - i,
{
    if i < lines.len() {
        let t = said(lines[i]);
        let d = directive(t, (i + 1) as nat, in_match);
        if t.len() == 0 {
            lemma_open_quote(lines, i + 1, in_match);
        } else {
            lemma_open_quote(lines, i + 1, d.in_match);
        }
    }
}

/// An audit fails exactly when some line has an unterminated quote, and the
/// error names the first such line.
pub proof fn law_audit_fails_on_open_quote(file: Seq<char>, content: Seq<char>, first: int)
    ensures
        audited(file, content) is Ok <==> forall|k: int|
            0 <= k < text::line_seq(content).len() ==> !has_open_quote(
                #[trigger] text::line_seq(content)[k],
            ),
        0 <= first < text::line_seq(content).len() && has_open_quote(
            text::line_seq(content)[first],
        ) && (forall|j: int|
            0 <= j < first ==> !has_open_quote(#[trigger] text::line_seq(content)[j]))
            ==> audited(file, content) == Err::<Seq<FindingView>, Seq<char>>(
            unterminated((first + 1) as nat),
        ),
{
    lemma_open_quote(text::line_seq(content), 0, false);
}

/// A directive as it is when a line is put in behind the first `n`.
spec fn moved_directive(d: DirectiveView, n: nat) -> DirectiveView {
    DirectiveView { line: moved_line(d.line, n), ..d }
}

/// Directives as they are when a line is put in behind the first `n`.
spec fn moved_directives(ds: Seq<DirectiveView>, n: nat) -> Seq<DirectiveView> {
    ds.map_values(|d: DirectiveView| moved_directive(d, n))
}

proof fn lemma_moved_first_global(ds: Seq<DirectiveView>, keyword: Seq<char>, n: nat)
    ensures
        first_global(moved_directives(ds, n), keyword) == match first_global(ds, keyword) {
            Some(d) => Some(moved_directive(d, n)),
            None => None,
        },
    decreases ds.len(),
{
    if ds.len() > 0 {
        lemma_moved_first_global(ds.drop_first(), keyword, n);
        assert(moved_directives(ds, n).drop_first() =~= moved_directives(ds.drop_first(), n));
    }
}

proof fn lemma_moved_login(file: Seq<char>, ds: Seq<DirectiveView>, n: nat)
    ensures
        login_findings(file, moved_directives(ds, n)) == all_moved(login_findings(file, ds), n),
{
    let ms = moved_directives(ds, n);
    let a = root_login_rule(file, ds);
    lemma_moved_first_global(ds, "permitrootlogin"@, n);
    assert(root_login_rule(file, ms) =~= all_moved(a, n));
    let b = password_rule(file, ds);
    lemma_moved_first_global(ds, "passwordauthentication"@, n);
    assert(password_rule(file, ms) =~= all_moved(b, n));
    let c = empty_password_rule(file, ds);
    lemma_moved_first_global(ds, "permitemptypasswords"@, n);
    assert(empty_password_rule(file, ms) =~= all_moved(c, n));
    lemma_moved_add(a, b, n);
    lemma_moved_add(a + b, c, n);
}

proof fn lemma_moved_crypto(file: Seq<char>, ds: Seq<DirectiveView>, n: nat)
    ensures
        crypto_findings(file, moved_directives(ds, n)) == all_moved(crypto_findings(file, ds), n),
{
    let ms = moved_directives(ds, n);
    let a = protocol_rule(file, ds);
    lemma_moved_first_global(ds, "protocol"@, n);
    assert(protocol_rule(file, ms) =~= all_moved(a, n));
    let b = cipher_rule(file, ds);
    lemma_moved_first_global(ds, "ciphers"@, n);
    assert(cipher_rule(file, ms) =~= all_moved(b, n));
    let c = mac_rule(file, ds);
    lemma_moved_first_global(ds, "macs"@, n);
    assert(mac_rule(file, ms) =~= all_moved(c, n));
    let d = kex_rule(file, ds);
    lemma_moved_first_global(ds, "kexalgorithms"@, n);
    assert(kex_rule(file, ms) =~= all_moved(d, n));
    lemma_moved_add(a, b, n);
    lemma_moved_add(a + b, c, n);
    lemma_moved_add(a + b + c, d, n);
}

proof fn lemma_moved_session(file: Seq<char>, ds: Seq<DirectiveView>, n: nat)
    ensures
        session_findings(file, moved_directives(ds, n)) == all_moved(session_findings(file, ds), n),
{
    let ms = moved_directives(ds, n);
    let a = x11_rule(file, ds);
    lemma_moved_first_global(ds, "x11forwarding"@, n);
    assert(x11_rule(file, ms) =~= all_moved(a, n));
    let b = tcp_rule(file, ds);
    lemma_moved_first_global(ds, "allowtcpforwarding"@, n);
    assert(tcp_rule(file, ms) =~= all_moved(b, n));
    let c = auth_tries_rule(file, ds);
    lemma_moved_first_global(ds, "maxauthtries"@, n);
    assert(auth_tries_rule(file, ms) =~= all_moved(c, n));
    let d = user_env_rule(file, ds);
    lemma_moved_first_global(ds, "permituserenvironment"@, n);
    assert(user_env_rule(file, ms) =~= all_moved(d, n));
    let e = pam_rule(file, ds);
    lemma_moved_first_global(ds, "usepam"@, n);
    assert(pam_rule(file, ms) =~= all_moved(e, n));
    let f = alive_rule(file, ds);
    lemma_moved_first_global(ds, "clientaliveinterval"@, n);
    assert(alive_rule(file, ms) =~= all_moved(f, n));
    lemma_moved_add(a, b, n);
    lemma_moved_add(a + b, c, n);
    lemma_moved_add(a + b + c, d, n);
    lemma_moved_add(a + b + c + d, e, n);
    lemma_moved_add(a + b + c + d + e, f, n);
}

proof fn lemma_parsed_behind(
    lines: Seq<Seq<char>>,
    comment: Seq<char>,
    n: int,
    i: int,
    in_match: bool,
)
    requires
        0 <= n <= i <= lines.len(),
        parsed(lines, i, in_match) is Ok,
    ensures
        parsed(lines.insert(n, comment), i + 1, in_match) == Ok::<Seq<DirectiveView>, Seq<char>>(
            moved_directives(parsed(lines, i, in_match)->Ok_0, n as nat),
        ),
    decreases lines.len() - i,
{
    let longer = lines.insert(n, comment);
    if i < lines.len() {
        assert(longer[i + 1] == lines[i]);
        let t = said(lines[i]);
        if t.len() == 0 {
            lemma_parsed_behind(lines, comment, n, i + 1, in_match);
        } else {
            let d = directive(t, (i + 1) as nat, in_match);
            let rest = parsed(lines, i + 1, d.in_match)->Ok_0;
            lemma_parsed_behind(lines, comment, n, i + 1, d.in_match);
            assert(moved_directives(seq![d] + rest, n as nat) =~= seq![
                directive(t, (i + 2) as nat, in_match),
            ] + moved_directives(rest, n as nat));
        }
    } else {
        assert(moved_directives(Seq::empty(), n as nat) =~= Seq::empty());
    }
}

proof fn lemma_parsed_around(
    lines: Seq<Seq<char>>,
    comment: Seq<char>,
    n: int,
    i: int,
    in_match: bool,
)
    requires
        0 <= i <= n <= lines.len(),
        said(comment).len() == 0,
        parsed(lines, i, in_match) is Ok,
    ensures
        parsed(lines.insert(n, comment), i, in_match) == Ok::<Seq<DirectiveView>, Seq<char>>(
            moved_directives(parsed(lines, i, in_match)->Ok_0, n as nat),
        ),
    decreases n - i,
{
    let longer = lines.insert(n, comment);
    if i == n {
        lemma_parsed_behind(lines, comment, n, i, in_match);
        assert(longer[i] == comment);
    } else {
        assert(longer[i] == lines[i]);
        let t = said(lines[i]);
        if t.len() == 0 {
            lemma_parsed_around(lines, comment, n, i + 1, in_match);
        } else {
            let d = directive(t, (i + 1) as nat, in_match);
            let rest = parsed(lines, i + 1, d.in_match)->Ok_0;
            lemma_parsed_around(lines, comment, n, i + 1, d.in_match);
            assert(moved_directives(seq![d] + rest, n as nat) =~= seq![d] + moved_directives(
                rest,
                n as nat,
            ));
        }
    }
}

/// A blank line or a comment, wherever it is put in, changes nothing but the
/// numbers of the lines below it.
pub proof fn law_comments_are_ignored(
    file: Seq<char>,
    content: Seq<char>,
    longer: Seq<char>,
    n: nat,
    comment: Seq<char>,
)
    requires
        n <= text::line_seq(content).len(),
        text::line_seq(longer) == text::line_seq(content).insert(n as int, comment),
        said(comment).len() == 0,
        audited(file, content) is Ok,
    ensures
        audited(file, longer) == Ok::<Seq<FindingView>, Seq<char>>(
            all_moved(audited(file, content)->Ok_0, n),
        ),
{
    let ds = parsed_content(content)->Ok_0;
    lemma_parsed_around(text::line_seq(content), comment, n as int, 0, false);
    lemma_moved_login(file, ds, n);
    lemma_moved_crypto(file, ds, n);
    lemma_moved_session(file, ds, n);
    let a = login_findings(file, ds);
    let b = crypto_findings(file, ds);
    let c = session_findings(file, ds);
    lemma_moved_add(a, b, n);
    lemma_moved_add(a + b, c, n);
    lemma_moved_sorted(rule_findings(file, ds), n);
}

proof fn lemma_labelled_login(
    file: Seq<char>,
    other: Seq<char>,
    ds: Seq<DirectiveView>,
)
    ensures
        login_findings(other, ds) == all_labelled(login_findings(file, ds), other),
{
    let a = root_login_rule(file, ds);
    assert(root_login_rule(other, ds) =~= all_labelled(a, other));
    let b = password_rule(file, ds);
    assert(password_rule(other, ds) =~= all_labelled(b, other));
    let c = empty_password_rule(file, ds);
    assert(empty_password_rule(other, ds) =~= all_labelled(c, other));
    lemma_labelled_add(a, b, other);
    lemma_labelled_add(a + b, c, other);
}

proof fn lemma_labelled_crypto(
    file: Seq<char>,
    other: Seq<char>,
    ds: Seq<DirectiveView>,
)
    ensures
        crypto_findings(other, ds) == all_labelled(crypto_findings(file, ds), other),
{
    let a = protocol_rule(file, ds);
    assert(protocol_rule(other, ds) =~= all_labelled(a, other));
    let b = cipher_rule(file, ds);
    assert(cipher_rule(other, ds) =~= all_labelled(b, other));
    let c = mac_rule(file, ds);
    assert(mac_rule(other, ds) =~= all_labelled(c, other));
    let d = kex_rule(file, ds);
    assert(kex_rule(other, ds) =~= all_labelled(d, other));
    lemma_labelled_add(a, b, other);
    lemma_labelled_add(a + b, c, other);
    lemma_labelled_add(a + b + c, d, other);
}

proof fn lemma_labelled_session(
    file: Seq<char>,
    other: Seq<char>,
    ds: Seq<DirectiveView>,
)
    ensures
        session_findings(other, ds) == all_labelled(session_findings(file, ds), other),
{
    let a = x11_rule(file, ds);
    assert(x11_rule(other, ds) =~= all_labelled(a, other));
    let b = tcp_rule(file, ds);
    assert(tcp_rule(other, ds) =~= all_labelled(b, other));
    let c = auth_tries_rule(file, ds);
    assert(auth_tries_rule(other, ds) =~= all_labelled(c, other));
    let d = user_env_rule(file, ds);
    assert(user_env_rule(other, ds) =~= all_labelled(d, other));
    let e = pam_rule(file, ds);
    assert(pam_rule(other, ds) =~= all_labelled(e, other));
    let f = alive_rule(file, ds);
    assert(alive_rule(other, ds) =~= all_labelled(f, other));
    lemma_labelled_add(a, b, other);
    lemma_labelled_add(a + b, c, other);
    lemma_labelled_add(a + b + c, d, other);
    lemma_labelled_add(a + b + c + d, e, other);
    lemma_labelled_add(a + b + c + d + e, f, other);
}

proof fn lemma_labelled_rules(file: Seq<char>, other: Seq<char>, ds: Seq<DirectiveView>)
    ensures
        rule_findings(other, ds) == all_labelled(rule_findings(file, ds), other),
{
    lemma_labelled_login(file, other, ds);
    lemma_labelled_crypto(file, other, ds);
    lemma_labelled_session(file, other, ds);
    let a = login_findings(file, ds);
    let b = crypto_findings(file, ds);
    let c = session_findings(file, ds);
    lemma_labelled_add(a, b, other);
    lemma_labelled_add(a + b, c, other);
}

pub(crate) proof fn lemma_file_is_a_label(file: Seq<char>, other: Seq<char>, content: Seq<char>)
    ensures
        audited(other, content) == match audited(file, content) {
            Ok(fs) => Ok(all_labelled(fs, other)),
            Err(m) => Err(m),
        },
{
    if let Ok(ds) = parsed_content(content) {
        lemma_labelled_rules(file, file, ds);
        lemma_labelled_again(rule_findings(file, ds), file);
        lemma_labelled_rules(file, other, ds);
        lemma_labelled_sorted(rule_findings(file, ds), file, other);
    }
}

} // verus!
