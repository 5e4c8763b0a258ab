//! Which findings an audit of an nginx configuration holds: for each statement
//! of the file, wherever it stands, the rules that it breaks and the words in
//! which they report it.

use super::text::{holds, is_word, lemma_holds};
use super::{
    lemma_numbers, lemma_times_add, lemma_times_contains, lemma_times_small, lemma_times_sorted,
    number, one_if, times,
};
use crate::finding::{FindingView, Severity, SourceKind};
use crate::parsers::nginx;
use crate::parsers::nginx::{BlockView, CtxView, DirectiveView, ItemView};
use crate::text;
use vstd::prelude::*;

verus! {

/// A statement of a file, and the blocks that it stands in, outermost first.
pub struct Place {
    pub above: Seq<BlockView>,
    pub item: ItemView,
}

/// Every statement beneath a list of statements, at any depth.
pub open spec fn places(items: Seq<ItemView>, above: Seq<BlockView>) -> Seq<Place>
    decreases items,
{
    if items.len() == 0 {
        Seq::empty()
    } else {
        places(items.drop_last(), above) + places_of(items.last(), above)
    }
}

/// A statement, and every statement beneath it.
pub open spec fn places_of(item: ItemView, above: Seq<BlockView>) -> Seq<Place>
    decreases item,
{
    match item {
        ItemView::Directive(_) => seq![Place { above, item }],
        ItemView::Block(b) => seq![Place { above, item }] + places(b.children, above.push(b)),
    }
}

/// A finding on a line.
pub open spec fn on(
    file: Seq<char>,
    line: nat,
    evidence: Seq<char>,
    rule_id: Seq<char>,
    severity: Severity,
    consequence: Seq<char>,
    fix: Seq<char>,
) -> FindingView {
    FindingView {
        rule_id,
        severity,
        source: SourceKind::Nginx,
        file,
        line,
        evidence,
        consequence,
        fix,
    }
}

/// Whether a name in lower case is that of an outdated protocol.
pub open spec fn weak_protocol(name: Seq<char>) -> bool {
    ||| name == "tlsv1"@
    ||| name == "tlsv1.1"@
    ||| name == "sslv2"@
    ||| name == "sslv3"@
}

/// The weak names that occur in a list of ciphers, in any case.
pub open spec fn weak_names(args: Seq<char>) -> Seq<Seq<char>> {
    seq!["rc4"@, "md5"@, "3des"@, "null"@, "export"@, "des-cbc3"@].filter(
        |name: Seq<char>| holds(text::lowered(args), name),
    )
}

/// Whether a directive is one that `if` supports.
pub open spec fn safe_in_if(name: Seq<char>) -> bool {
    ||| name == "return"@
    ||| name == "rewrite"@
    ||| name == "break"@
    ||| name == "set"@
}

/// Whether a directive sends the client on to HTTPS.
pub open spec fn sends_to_https(d: DirectiveView) -> bool {
    let a = text::lowered(d.args);
    ||| d.keyword == "return"@ && (holds(a, "301"@) || holds(a, "302"@)) && holds(a, "https"@)
    ||| d.keyword == "rewrite"@ && holds(a, "https"@)
}

/// Whether a directive makes its server speak TLS.
pub open spec fn speaks_tls(d: DirectiveView) -> bool {
    ||| d.keyword == "ssl_certificate"@
    ||| d.keyword == "listen"@ && holds(text::lowered(d.args), "ssl"@)
}

/// Whether a directive adds the header with a name in lower case.
pub open spec fn adds_header(d: DirectiveView, name: Seq<char>) -> bool {
    let words = text::word_seq(d.args);
    d.keyword == "add_header"@ && words.len() > 0 && text::lowered(words[0]) == name
}

/// Whether a directive hands the `Host` header on.
pub open spec fn hands_host_on(d: DirectiveView) -> bool {
    let words = text::word_seq(d.args);
    d.keyword == "proxy_set_header"@ && words.len() > 0 && text::lowered(words[0]) == "host"@
}

/// Whether a directive with a property stands directly in a block.
pub open spec fn has_own(b: BlockView, p: spec_fn(DirectiveView) -> bool) -> bool {
    exists|k: int|
        0 <= k < b.children.len() && (#[trigger] b.children[k]) is Directive && p(
            b.children[k]->Directive_0,
        )
}

/// Whether a directive with a property stands beneath a list of statements, at
/// any depth.
pub open spec fn has_beneath(
    items: Seq<ItemView>,
    above: Seq<BlockView>,
    p: spec_fn(DirectiveView) -> bool,
) -> bool {
    exists|k: int|
        0 <= k < places(items, above).len() && (#[trigger] places(items, above)[k]).item is Directive
            && p(places(items, above)[k].item->Directive_0)
}

/// Whether a directive with a property stands directly in one of some blocks.
pub open spec fn any_has_own(
    blocks: Seq<BlockView>,
    p: spec_fn(DirectiveView) -> bool,
) -> bool {
    exists|j: int| 0 <= j < blocks.len() && has_own(#[trigger] blocks[j], p)
}

/// Whether the statement at `k` is the first directive of its name in a block.
pub open spec fn first_own(b: BlockView, keyword: Seq<char>, k: int) -> bool {
    &&& 0 <= k < b.children.len()
    &&& b.children[k] is Directive
    &&& b.children[k]->Directive_0.keyword == keyword
    &&& forall|j: int|
        0 <= j < k && (#[trigger] b.children[j]) is Directive
            ==> b.children[j]->Directive_0.keyword != keyword
}

/// Whether a header is added in a server: in a block around it, in the server
/// itself, or in any block beneath it.
pub open spec fn server_adds(above: Seq<BlockView>, b: BlockView, name: Seq<char>) -> bool {
    ||| any_has_own(above.push(b), |d: DirectiveView| adds_header(d, name))
    ||| has_beneath(b.children, above.push(b), |d: DirectiveView| adds_header(d, name))
}

/// Files in a directory are listed.
pub open spec fn calls_autoindex(file: Seq<char>, d: DirectiveView, f: FindingView) -> bool {
    d.keyword == "autoindex"@ && is_word(d.args, "on"@) && f == on(
        file,
        d.line,
        d.raw,
        "NGX001"@,
        Severity::High,
        "Directory listing is enabled: any request to a directory without an index file returns a full file listing, exposing filenames (backups, source, credentials) an attacker would otherwise have to guess."@,
        "Remove the directive or set 'autoindex off;'."@,
    )
}

/// The version is told.
pub open spec fn calls_server_tokens(file: Seq<char>, d: DirectiveView, f: FindingView) -> bool {
    d.keyword == "server_tokens"@ && is_word(d.args, "on"@) && f == on(
        file,
        d.line,
        d.raw,
        "NGX002"@,
        Severity::Low,
        "The nginx version number is disclosed in the Server header and default error pages, helping an attacker match known CVEs to your exact build."@,
        "Set 'server_tokens off;'."@,
    )
}

/// A request may be of any size.
pub open spec fn calls_body_size(file: Seq<char>, d: DirectiveView, f: FindingView) -> bool {
    d.keyword == "client_max_body_size"@ && text::trimmed(d.args) == seq!['0'] && f == on(
        file,
        d.line,
        d.raw,
        "NGX009"@,
        Severity::Medium,
        "Request body size is unbounded, letting a client stream an arbitrarily large upload and exhaust disk, memory or bandwidth (a low-effort denial of service)."@,
        "Set an explicit upper bound, e.g. 'client_max_body_size 10m;'."@,
    )
}

/// An outdated protocol is spoken.
pub open spec fn calls_protocols(file: Seq<char>, d: DirectiveView, f: FindingView) -> bool {
    d.keyword == "ssl_protocols"@ && (exists|k: int|
        0 <= k < text::word_seq(d.args).len() && weak_protocol(
            text::lowered(#[trigger] text::word_seq(d.args)[k]),
        )) && f == on(
        file,
        d.line,
        d.raw,
        "NGX004"@,
        Severity::High,
        "TLSv1/TLSv1.1/SSLv2/SSLv3 have known cryptographic weaknesses (POODLE, BEAST, weak ciphers) and allow protocol-downgrade attacks against clients."@,
        "Set 'ssl_protocols TLSv1.2 TLSv1.3;'."@,
    )
}

/// A weak cipher is allowed.
pub open spec fn calls_ciphers(file: Seq<char>, d: DirectiveView, f: FindingView) -> bool {
    d.keyword == "ssl_ciphers"@ && weak_names(d.args).len() > 0 && f == on(
        file,
        d.line,
        d.raw,
        "NGX005"@,
        Severity::High,
        "Weak cipher token(s) allowed ("@ + text::joined(weak_names(d.args), ", "@)
            + "); these are vulnerable to known plaintext-recovery or downgrade attacks."@,
        "Use a modern cipher suite, e.g. 'ssl_ciphers ECDHE-ECDSA-AES128-GCM-SHA256:ECDHE-RSA-AES128-GCM-SHA256;' with 'ssl_prefer_server_ciphers off;'."@,
    )
}

/// An `if` holds more than it supports.
pub open spec fn calls_if(file: Seq<char>, b: BlockView, f: FindingView) -> bool {
    b.name == "if"@ && has_own(b, |d: DirectiveView| !safe_in_if(d.keyword)) && f == on(
        file,
        b.line,
        b.raw,
        "NGX011"@,
        Severity::Medium,
        "nginx 'if' in a location context only reliably supports return/rewrite/break/set. Any other directive inside it (proxy_pass, add_header, etc.) can behave unpredictably, which has previously been used to bypass intended access or header controls."@,
        "Move the logic out of 'if' using nginx's built-in variables/maps, or restrict the if body to return/rewrite."@,
    )
}

/// Whether a text ends with a slash.
pub open spec fn ends_with_slash(s: Seq<char>) -> bool {
    s.len() > 0 && s.last() == '/'
}

/// A path may climb out of an alias.
pub open spec fn calls_alias(file: Seq<char>, b: BlockView, f: FindingView) -> bool {
    b.name == "location"@ && exists|k: int| #[trigger]
        first_own(b, "alias"@, k) && {
            let d = b.children[k]->Directive_0;
            let place = text::trimmed(b.args);
            let target = text::trimmed(d.args);
            &&& !ends_with_slash(place)
            &&& !ends_with_slash(target)
            &&& forall|j: int| 0 <= j < place.len() ==> place[j] != '~'
            &&& f == on(
                file,
                d.line,
                d.raw,
                "NGX012"@,
                Severity::High,
                "Without a trailing slash on both the location prefix and the alias target, nginx's prefix matching lets a crafted path (e.g. appending '../') escape the intended directory and read files elsewhere on disk."@,
                "Add a trailing slash to both, e.g. 'location "@ + place + "/ { alias "@ + target
                    + "/; }'."@,
            )
        }
}

/// A request is handed on without its host.
pub open spec fn calls_proxy(
    file: Seq<char>,
    above: Seq<BlockView>,
    b: BlockView,
    f: FindingView,
) -> bool {
    b.name == "location"@ && !any_has_own(above.push(b), |d: DirectiveView| hands_host_on(d))
        && exists|k: int| #[trigger]
        first_own(b, "proxy_pass"@, k) && f == on(
            file,
            b.children[k]->Directive_0.line,
            b.children[k]->Directive_0.raw,
            "NGX010"@,
            Severity::Medium,
            "Without forwarding the original Host header, the backend sees nginx's upstream address instead of the real request host, which can break host-based routing, generate wrong absolute URLs, or bypass backend virtual-host security checks."@,
            "Add 'proxy_set_header Host $host;' in this location (or an ancestor server/http block)."@,
        )
}

/// A server neither speaks TLS nor sends its clients on to HTTPS.
pub open spec fn calls_plaintext(
    file: Seq<char>,
    above: Seq<BlockView>,
    b: BlockView,
    f: FindingView,
) -> bool {
    &&& b.name == "server"@
    &&& !has_own(b, |d: DirectiveView| speaks_tls(d))
    &&& !has_beneath(b.children, above.push(b), |d: DirectiveView| sends_to_https(d))
    &&& f == on(
        file,
        b.line,
        b.raw,
        "NGX003"@,
        Severity::Medium,
        "Plaintext HTTP is served with no redirect to HTTPS, so credentials and session cookies can be sent or intercepted in cleartext by any on-path attacker."@,
        "Add 'return 301 https://$host$request_uri;' in this server block (or terminate TLS here)."@,
    )
}

/// The type of an answer may be guessed.
pub open spec fn calls_nosniff(
    file: Seq<char>,
    above: Seq<BlockView>,
    b: BlockView,
    f: FindingView,
) -> bool {
    b.name == "server"@ && !server_adds(above, b, "x-content-type-options"@) && f == on(
        file,
        b.line,
        b.raw,
        "NGX006"@,
        Severity::Low,
        "Without 'nosniff', browsers may MIME-sniff a response into an executable context (e.g. treating an uploaded file as HTML/JS), enabling stored XSS from user-supplied content."@,
        "Add 'add_header "@ + "X-Content-Type-Options"@ + " "@ + "nosniff"@
            + ";' (at http, server, or this location level)."@,
    )
}

/// An answer may be framed.
pub open spec fn calls_framing(
    file: Seq<char>,
    above: Seq<BlockView>,
    b: BlockView,
    f: FindingView,
) -> bool {
    b.name == "server"@ && !server_adds(above, b, "x-frame-options"@) && f == on(
        file,
        b.line,
        b.raw,
        "NGX007"@,
        Severity::Low,
        "Without this header, the response can be framed by another site, enabling clickjacking attacks that trick users into acting on this site unknowingly."@,
        "Add 'add_header "@ + "X-Frame-Options"@ + " "@ + "DENY"@
            + ";' (at http, server, or this location level)."@,
    )
}

/// A server that speaks TLS does not hold its clients to it.
pub open spec fn calls_hsts(
    file: Seq<char>,
    above: Seq<BlockView>,
    b: BlockView,
    f: FindingView,
) -> bool {
    b.name == "server"@ && has_own(b, |d: DirectiveView| speaks_tls(d)) && !server_adds(
        above,
        b,
        "strict-transport-security"@,
    ) && f == on(
        file,
        b.line,
        b.raw,
        "NGX008"@,
        Severity::Low,
        "Without HSTS, a browser will happily fall back to plaintext HTTP on this host, leaving a window for SSL-stripping attacks even though TLS is available."@,
        "Add 'add_header Strict-Transport-Security \"max-age=63072000; includeSubDomains\" always;'."@,
    )
}

/// Whether a directive calls for a finding.
pub open spec fn directive_calls_for(file: Seq<char>, d: DirectiveView, f: FindingView) -> bool {
    ||| calls_autoindex(file, d, f)
    ||| calls_server_tokens(file, d, f)
    ||| calls_body_size(file, d, f)
    ||| calls_protocols(file, d, f)
    ||| calls_ciphers(file, d, f)
}

/// Whether a block that stands in others calls for a finding.
pub open spec fn block_calls_for(
    file: Seq<char>,
    above: Seq<BlockView>,
    b: BlockView,
    f: FindingView,
) -> bool {
    ||| calls_if(file, b, f)
    ||| calls_alias(file, b, f)
    ||| calls_proxy(file, above, b, f)
    ||| calls_plaintext(file, above, b, f)
    ||| calls_nosniff(file, above, b, f)
    ||| calls_framing(file, above, b, f)
    ||| calls_hsts(file, above, b, f)
}

/// Whether a statement calls for a finding.
pub open spec fn calls_for(file: Seq<char>, p: Place, f: FindingView) -> bool {
    match p.item {
        ItemView::Directive(d) => directive_calls_for(file, d, f),
        ItemView::Block(b) => block_calls_for(file, p.above, b, f),
    }
}

/// The number of statements that call for a finding.
pub open spec fn callers(ps: Seq<Place>, file: Seq<char>, f: FindingView) -> nat {
    ps.filter(|p: Place| calls_for(file, p, f)).len()
}

proof fn lemma_callers_add(a: Seq<Place>, b: Seq<Place>, file: Seq<char>, f: FindingView)
    ensures
        callers(a + b, file, f) == callers(a, file, f) + callers(b, file, f),
{
    Seq::filter_distributes_over_add(a, b, |p: Place| calls_for(file, p, f));
}

proof fn lemma_callers_one(p: Place, file: Seq<char>, f: FindingView)
    ensures
        callers(seq![p], file, f) == (if calls_for(file, p, f) {
            1nat
        } else {
            0nat
        }),
        callers(Seq::empty(), file, f) == 0,
{
    reveal_with_fuel(Seq::filter, 2);
    assert(seq![p].drop_last() =~= Seq::<Place>::empty());
}

proof fn lemma_https(d: DirectiveView)
    ensures
        nginx::directive_redirects(d) == sends_to_https(d),
        nginx::enables_tls(d) == speaks_tls(d),
{
    let a = text::lowered(d.args);
    lemma_holds(a, "301"@);
    lemma_holds(a, "302"@);
    lemma_holds(a, "https"@);
    lemma_holds(a, "ssl"@);
}

proof fn lemma_host(d: DirectiveView)
    ensures
        nginx::forwards_host(d) == hands_host_on(d),
{
    reveal_strlit("host");
    assert(text::lowered("host"@) =~= "host"@);
}

proof fn lemma_own(items: Seq<ItemView>, d: DirectiveView)
    ensures
        nginx::own(items).contains(d) <==> items.contains(ItemView::Directive(d)),
    decreases items.len(),
{
    if items.len() > 0 {
        let front = items.drop_last();
        let last = items.last();
        lemma_own(front, d);
        assert(items =~= front.push(last));
        if front.contains(ItemView::Directive(d)) {
            let k = choose|k: int| 0 <= k < front.len() && front[k] == ItemView::Directive(d);
            assert(items[k] == ItemView::Directive(d));
        }
        if last == ItemView::Directive(d) {
            assert(items[items.len() - 1] == ItemView::Directive(d));
        }
        if items.contains(ItemView::Directive(d)) && last != ItemView::Directive(d) {
            let k = choose|k: int| 0 <= k < items.len() && items[k] == ItemView::Directive(d);
            assert(front[k] == ItemView::Directive(d));
        }
        match last {
            ItemView::Directive(e) => {
                let o = nginx::own(front);
                let p = o.push(e);
                if o.contains(d) {
                    let k = choose|k: int| 0 <= k < o.len() && o[k] == d;
                    assert(p[k] == d);
                }
                if e == d {
                    assert(p[o.len() as int] == d);
                }
                if p.contains(d) && e != d {
                    let k = choose|k: int| 0 <= k < p.len() && p[k] == d;
                    assert(o[k] == d);
                }
            },
            ItemView::Block(_) => {},
        }
    }
}

proof fn lemma_has_own(b: BlockView, p: spec_fn(DirectiveView) -> bool)
    ensures
        has_own(b, p) <==> exists|i: int|
            0 <= i < nginx::own(b.children).len() && p(#[trigger] nginx::own(b.children)[i]),
{
    let o = nginx::own(b.children);
    if has_own(b, p) {
        let k = choose|k: int|
            0 <= k < b.children.len() && (#[trigger] b.children[k]) is Directive && p(
                b.children[k]->Directive_0,
            );
        let d = b.children[k]->Directive_0;
        assert(b.children[k] == ItemView::Directive(d));
        lemma_own(b.children, d);
        let i = choose|i: int| 0 <= i < o.len() && o[i] == d;
        assert(p(o[i]));
    }
    if exists|i: int| 0 <= i < o.len() && p(#[trigger] o[i]) {
        let i = choose|i: int| 0 <= i < o.len() && p(#[trigger] o[i]);
        lemma_own(b.children, o[i]);
        let k = choose|k: int|
            0 <= k < b.children.len() && b.children[k] == ItemView::Directive(o[i]);
        assert(b.children[k] is Directive && p(b.children[k]->Directive_0));
    }
}

proof fn lemma_tls_server(b: BlockView)
    ensures
        nginx::tls_server(b) == has_own(b, |d: DirectiveView| speaks_tls(d)),
{
    let p = |d: DirectiveView| speaks_tls(d);
    lemma_has_own(b, p);
    let o = nginx::own(b.children);
    assert forall|i: int| 0 <= i < o.len() implies nginx::enables_tls(#[trigger] o[i]) == p(o[i]) by {
        lemma_https(o[i]);
    }
}

proof fn lemma_forwards(b: BlockView)
    ensures
        nginx::any_forwards_host(nginx::own(b.children)) == has_own(
            b,
            |d: DirectiveView| hands_host_on(d),
        ),
{
    let p = |d: DirectiveView| hands_host_on(d);
    lemma_has_own(b, p);
    let o = nginx::own(b.children);
    assert forall|i: int| 0 <= i < o.len() implies nginx::forwards_host(#[trigger] o[i]) == p(
        o[i],
    ) by {
        lemma_host(o[i]);
    }
}

proof fn lemma_headers_of(ds: Seq<DirectiveView>, name: Seq<char>)
    ensures
        nginx::headers_of(ds).contains(name) <==> exists|i: int|
            0 <= i < ds.len() && adds_header(#[trigger] ds[i], name),
    decreases ds.len(),
{
    if ds.len() > 0 {
        let front = ds.drop_last();
        lemma_headers_of(front, name);
        if exists|i: int| 0 <= i < front.len() && adds_header(#[trigger] front[i], name) {
            let i = choose|i: int| 0 <= i < front.len() && adds_header(#[trigger] front[i], name);
            assert(adds_header(ds[i], name));
        }
        if exists|i: int| 0 <= i < ds.len() && adds_header(#[trigger] ds[i], name) {
            let i = choose|i: int| 0 <= i < ds.len() && adds_header(#[trigger] ds[i], name);
            if i < front.len() {
                assert(front[i] == ds[i]);
            }
        }
        assert(ds[ds.len() - 1] == ds.last());
        assert(nginx::added_header(ds.last()) == Some(name) <==> adds_header(ds.last(), name));
    }
}

proof fn lemma_own_headers(b: BlockView, name: Seq<char>)
    ensures
        nginx::headers_of(nginx::own(b.children)).contains(name) == has_own(
            b,
            |d: DirectiveView| adds_header(d, name),
        ),
{
    let p = |d: DirectiveView| adds_header(d, name);
    lemma_has_own(b, p);
    lemma_headers_of(nginx::own(b.children), name);
    let o = nginx::own(b.children);
    assert forall|i: int| 0 <= i < o.len() implies adds_header(#[trigger] o[i], name) == p(
        o[i],
    ) by {}
}

proof fn lemma_beneath_add(
    a: Seq<Place>,
    b: Seq<Place>,
    p: spec_fn(DirectiveView) -> bool,
)
    ensures
        (exists|k: int|
            0 <= k < (a + b).len() && (#[trigger] (a + b)[k]).item is Directive && p(
                (a + b)[k].item->Directive_0,
            )) <==> {
            ||| exists|k: int|
                0 <= k < a.len() && (#[trigger] a[k]).item is Directive && p(a[k].item->Directive_0)
            ||| exists|k: int|
                0 <= k < b.len() && (#[trigger] b[k]).item is Directive && p(b[k].item->Directive_0)
        },
{
    let c = a + b;
    if exists|k: int|
        0 <= k < c.len() && (#[trigger] c[k]).item is Directive && p(c[k].item->Directive_0) {
        let k = choose|k: int|
            0 <= k < c.len() && (#[trigger] c[k]).item is Directive && p(c[k].item->Directive_0);
        if k < a.len() {
            assert(c[k] == a[k]);
        } else {
            assert(c[k] == b[k - a.len()]);
        }
    }
    if exists|k: int|
        0 <= k < a.len() && (#[trigger] a[k]).item is Directive && p(a[k].item->Directive_0) {
        let k = choose|k: int|
            0 <= k < a.len() && (#[trigger] a[k]).item is Directive && p(a[k].item->Directive_0);
        assert(c[k] == a[k]);
    }
    if exists|k: int|
        0 <= k < b.len() && (#[trigger] b[k]).item is Directive && p(b[k].item->Directive_0) {
        let k = choose|k: int|
            0 <= k < b.len() && (#[trigger] b[k]).item is Directive && p(b[k].item->Directive_0);
        assert(c[a.len() + k] == b[k]);
    }
}

/// Whether a directive with a property is beneath a statement, or is it.
spec fn of_item(item: ItemView, above: Seq<BlockView>, p: spec_fn(DirectiveView) -> bool) -> bool {
    match item {
        ItemView::Directive(d) => p(d),
        ItemView::Block(b) => has_beneath(b.children, above.push(b), p),
    }
}

proof fn lemma_has_beneath(
    items: Seq<ItemView>,
    above: Seq<BlockView>,
    p: spec_fn(DirectiveView) -> bool,
)
    ensures
        items.len() == 0 ==> !has_beneath(items, above, p),
        items.len() > 0 ==> (has_beneath(items, above, p) <==> {
            ||| has_beneath(items.drop_last(), above, p)
            ||| of_item(items.last(), above, p)
        }),
{
    if items.len() > 0 {
        reveal_with_fuel(places, 2);
        let a = places(items.drop_last(), above);
        let b = places_of(items.last(), above);
        lemma_beneath_add(a, b, p);
        assert(places(items, above) == a + b);
        match items.last() {
            ItemView::Directive(d) => {
                assert(b =~= seq![Place { above, item: items.last() }]);
                assert(b[0].item == ItemView::Directive(d));
            },
            ItemView::Block(bl) => {
                let one = seq![Place { above, item: items.last() }];
                assert(b == one + places(bl.children, above.push(bl)));
                lemma_beneath_add(one, places(bl.children, above.push(bl)), p);
                assert(one[0].item is Block);
            },
        }
    }
}

proof fn lemma_redirects(items: Seq<ItemView>, above: Seq<BlockView>)
    ensures
        nginx::redirects(items) == has_beneath(items, above, |d: DirectiveView| sends_to_https(d)),
    decreases items,
{
    let p = |d: DirectiveView| sends_to_https(d);
    lemma_has_beneath(items, above, p);
    if items.len() > 0 {
        lemma_redirects(items.drop_last(), above);
        lemma_item_redirects(items.last(), above);
    }
}

proof fn lemma_item_redirects(item: ItemView, above: Seq<BlockView>)
    ensures
        nginx::item_redirects(item) == of_item(item, above, |d: DirectiveView| sends_to_https(d)),
    decreases item,
{
    match item {
        ItemView::Directive(d) => lemma_https(d),
        ItemView::Block(b) => lemma_redirects(b.children, above.push(b)),
    }
}

proof fn lemma_deep_headers(items: Seq<ItemView>, above: Seq<BlockView>, name: Seq<char>)
    ensures
        nginx::deep_headers(items).contains(name) == has_beneath(
            items,
            above,
            |d: DirectiveView| adds_header(d, name),
        ),
    decreases items,
{
    let p = |d: DirectiveView| adds_header(d, name);
    lemma_has_beneath(items, above, p);
    if items.len() > 0 {
        lemma_deep_headers(items.drop_last(), above, name);
        lemma_item_headers(items.last(), above, name);
    }
}

proof fn lemma_item_headers(item: ItemView, above: Seq<BlockView>, name: Seq<char>)
    ensures
        nginx::item_headers(item).contains(name) == of_item(
            item,
            above,
            |d: DirectiveView| adds_header(d, name),
        ),
    decreases item,
{
    match item {
        ItemView::Directive(d) => {
            assert(nginx::added_header(d) == Some(name) <==> adds_header(d, name));
        },
        ItemView::Block(b) => lemma_deep_headers(b.children, above.push(b), name),
    }
}

/// Whether what is inherited is what the blocks around a statement set.
pub open spec fn inherited(ctx: CtxView, above: Seq<BlockView>) -> bool {
    &&& forall|name: Seq<char>| #[trigger]
        ctx.headers.contains(name) <==> any_has_own(
            above,
            |d: DirectiveView| adds_header(d, name),
        )
    &&& ctx.proxy_host_set <==> any_has_own(above, |d: DirectiveView| hands_host_on(d))
}

proof fn lemma_any_has_own_push(
    above: Seq<BlockView>,
    b: BlockView,
    p: spec_fn(DirectiveView) -> bool,
)
    ensures
        any_has_own(above.push(b), p) <==> any_has_own(above, p) || has_own(b, p),
{
    let all = above.push(b);
    if any_has_own(all, p) {
        let j = choose|j: int| 0 <= j < all.len() && has_own(#[trigger] all[j], p);
        if j < above.len() {
            assert(all[j] == above[j]);
        }
    }
    if any_has_own(above, p) {
        let j = choose|j: int| 0 <= j < above.len() && has_own(#[trigger] above[j], p);
        assert(has_own(all[j], p));
    }
    if has_own(b, p) {
        assert(has_own(all[above.len() as int], p));
    }
}

proof fn lemma_inherited(ctx: CtxView, above: Seq<BlockView>, b: BlockView)
    requires
        inherited(ctx, above),
    ensures
        inherited(nginx::inner_ctx(b, ctx), above.push(b)),
{
    let inner = nginx::inner_ctx(b, ctx);
    assert forall|name: Seq<char>| #[trigger]
        inner.headers.contains(name) <==> any_has_own(
            above.push(b),
            |d: DirectiveView| adds_header(d, name),
        ) by {
        lemma_any_has_own_push(above, b, |d: DirectiveView| adds_header(d, name));
        lemma_own_headers(b, name);
        assert(ctx.headers.contains(name) <==> any_has_own(
            above,
            |d: DirectiveView| adds_header(d, name),
        ));
    }
    lemma_any_has_own_push(above, b, |d: DirectiveView| hands_host_on(d));
    lemma_forwards(b);
}

proof fn lemma_first_named_push(ds: Seq<DirectiveView>, d: DirectiveView, keyword: Seq<char>)
    ensures
        nginx::first_named(ds.push(d), keyword) == (match nginx::first_named(ds, keyword) {
            Some(e) => Some(e),
            None => if d.keyword == keyword {
                Some(d)
            } else {
                None
            },
        }),
    decreases ds.len(),
{
    if ds.len() > 0 {
        assert(ds.push(d).drop_first() =~= ds.drop_first().push(d));
        lemma_first_named_push(ds.drop_first(), d, keyword);
    } else {
        assert(ds.push(d).drop_first() =~= Seq::<DirectiveView>::empty());
        reveal_with_fuel(nginx::first_named, 2);
    }
}

/// `first_own` of a list of statements.
spec fn first_among(items: Seq<ItemView>, keyword: Seq<char>, k: int) -> bool {
    &&& 0 <= k < items.len()
    &&& items[k] is Directive
    &&& items[k]->Directive_0.keyword == keyword
    &&& forall|j: int|
        0 <= j < k && (#[trigger] items[j]) is Directive ==> items[j]->Directive_0.keyword
            != keyword
}

proof fn lemma_first_among(items: Seq<ItemView>, keyword: Seq<char>)
    ensures
        match nginx::first_named(nginx::own(items), keyword) {
            Some(d) => exists|k: int| #[trigger]
                first_among(items, keyword, k) && items[k] == ItemView::Directive(d),
            None => forall|k: int|
                0 <= k < items.len() && (#[trigger] items[k]) is Directive
                    ==> items[k]->Directive_0.keyword != keyword,
        },
    decreases items.len(),
{
    if items.len() > 0 {
        let front = items.drop_last();
        lemma_first_among(front, keyword);
        match items.last() {
            ItemView::Directive(d) => lemma_first_named_push(nginx::own(front), d, keyword),
            ItemView::Block(_) => {},
        }
        match nginx::first_named(nginx::own(front), keyword) {
            Some(d) => {
                let k = choose|k: int| #[trigger]
                    first_among(front, keyword, k) && front[k] == ItemView::Directive(d);
                assert forall|j: int| 0 <= j < k && (#[trigger] items[j]) is Directive implies
                    items[j]->Directive_0.keyword != keyword by {
                    assert(items[j] == front[j]);
                }
                assert(items[k] == front[k]);
                assert(first_among(items, keyword, k));
            },
            None => {
                let n = items.len() - 1;
                assert forall|j: int| 0 <= j < n && (#[trigger] items[j]) is Directive implies
                    items[j]->Directive_0.keyword != keyword by {
                    assert(items[j] == front[j]);
                }
                if items[n] is Directive && items[n]->Directive_0.keyword == keyword {
                    assert(first_among(items, keyword, n));
                }
            },
        }
    }
}

proof fn lemma_first_own(b: BlockView, keyword: Seq<char>)
    ensures
        match nginx::first_named(nginx::own(b.children), keyword) {
            Some(d) => exists|k: int| #[trigger]
                first_own(b, keyword, k) && b.children[k] == ItemView::Directive(d),
            None => forall|k: int| !#[trigger] first_own(b, keyword, k),
        },
{
    lemma_first_among(b.children, keyword);
    match nginx::first_named(nginx::own(b.children), keyword) {
        Some(d) => {
            let k = choose|k: int| #[trigger]
                first_among(b.children, keyword, k) && b.children[k] == ItemView::Directive(d);
            assert(first_own(b, keyword, k));
        },
        None => {},
    }
}

proof fn lemma_weak_protocol(name: Seq<char>)
    ensures
        text::among(nginx::WEAK_SSL_PROTOCOLS@, name) == weak_protocol(name),
{
    assert(nginx::WEAK_SSL_PROTOCOLS@[0]@ == "tlsv1"@);
    assert(nginx::WEAK_SSL_PROTOCOLS@[1]@ == "tlsv1.1"@);
    assert(nginx::WEAK_SSL_PROTOCOLS@[2]@ == "sslv2"@);
    assert(nginx::WEAK_SSL_PROTOCOLS@[3]@ == "sslv3"@);
}

proof fn lemma_safe_in_if(name: Seq<char>)
    ensures
        text::among(nginx::SAFE_IN_IF@, name) == safe_in_if(name),
{
    assert(nginx::SAFE_IN_IF@[0]@ == "return"@);
    assert(nginx::SAFE_IN_IF@[1]@ == "rewrite"@);
    assert(nginx::SAFE_IN_IF@[2]@ == "break"@);
    assert(nginx::SAFE_IN_IF@[3]@ == "set"@);
}

proof fn lemma_weak_tokens(args: Seq<char>, toks: Seq<&str>)
    ensures
        nginx::weak_tokens(args, toks) == toks.map_values(|t: &str| t@).filter(
            |name: Seq<char>| holds(text::lowered(args), name),
        ),
    decreases toks.len(),
{
    let p = |name: Seq<char>| holds(text::lowered(args), name);
    let all = toks.map_values(|t: &str| t@);
    reveal(Seq::filter);
    if toks.len() > 0 {
        let front = toks.drop_last();
        lemma_weak_tokens(args, front);
        lemma_holds(text::lowered(args), toks.last()@);
        assert(all.drop_last() =~= front.map_values(|t: &str| t@));
        assert(all.last() == toks.last()@);
        assert(p(all.last()) == holds(text::lowered(args), toks.last()@));
    }
}

proof fn lemma_weak_names(args: Seq<char>)
    ensures
        nginx::weak_tokens(args, nginx::WEAK_CIPHER_TOKENS@) == weak_names(args),
{
    lemma_weak_tokens(args, nginx::WEAK_CIPHER_TOKENS@);
    assert(nginx::WEAK_CIPHER_TOKENS@[0]@ == "rc4"@);
    assert(nginx::WEAK_CIPHER_TOKENS@[1]@ == "md5"@);
    assert(nginx::WEAK_CIPHER_TOKENS@[2]@ == "3des"@);
    assert(nginx::WEAK_CIPHER_TOKENS@[3]@ == "null"@);
    assert(nginx::WEAK_CIPHER_TOKENS@[4]@ == "export"@);
    assert(nginx::WEAK_CIPHER_TOKENS@[5]@ == "des-cbc3"@);
    assert(nginx::WEAK_CIPHER_TOKENS@.map_values(|t: &str| t@) =~= seq!["rc4"@, "md5"@, "3des"@, "null"@, "export"@, "des-cbc3"@]);
}

proof fn lemma_first_unsafe(ds: Seq<DirectiveView>)
    ensures
        nginx::first_unsafe(ds) is Some <==> exists|i: int|
            0 <= i < ds.len() && !safe_in_if((#[trigger] ds[i]).keyword),
    decreases ds.len(),
{
    if ds.len() > 0 {
        lemma_safe_in_if(ds[0].keyword);
        let rest = ds.drop_first();
        lemma_first_unsafe(rest);
        if exists|i: int| 0 <= i < ds.len() && !safe_in_if((#[trigger] ds[i]).keyword) {
            let i = choose|i: int| 0 <= i < ds.len() && !safe_in_if((#[trigger] ds[i]).keyword);
            if i > 0 {
                assert(rest[i - 1] == ds[i]);
            }
        }
        if exists|i: int| 0 <= i < rest.len() && !safe_in_if((#[trigger] rest[i]).keyword) {
            let i = choose|i: int| 0 <= i < rest.len() && !safe_in_if((#[trigger] rest[i]).keyword);
            assert(ds[i + 1] == rest[i]);
        }
    }
}

proof fn lemma_unsafe_in_if(b: BlockView)
    ensures
        nginx::first_unsafe(nginx::own(b.children)) is Some == has_own(
            b,
            |d: DirectiveView| !safe_in_if(d.keyword),
        ),
{
    let p = |d: DirectiveView| !safe_in_if(d.keyword);
    let o = nginx::own(b.children);
    lemma_has_own(b, p);
    lemma_first_unsafe(o);
    assert forall|i: int| 0 <= i < o.len() implies p(#[trigger] o[i]) == !safe_in_if(
        o[i].keyword,
    ) by {}
}

proof fn lemma_directive(file: Seq<char>, d: DirectiveView, f: FindingView)
    ensures
        times(nginx::directive_findings(file, d), f) == one_if(calls_autoindex(file, d, f))
            + one_if(calls_server_tokens(file, d, f)) + one_if(calls_body_size(file, d, f)),
{
    reveal_strlit("on");
    reveal_strlit("0");
    assert(text::lowered("on"@) =~= "on"@);
    assert("0"@ =~= seq!['0']);
    let a = crate::finding::if_violated(
        d.keyword == "autoindex"@ && nginx::says(d.args, "on"@),
        nginx::report(
            "NGX001"@,
            Severity::High,
            file,
            d.line,
            d.raw,
            nginx::AUTOINDEX@,
            nginx::AUTOINDEX_FIX@,
        ),
    );
    let b = crate::finding::if_violated(
        d.keyword == "server_tokens"@ && nginx::says(d.args, "on"@),
        nginx::report(
            "NGX002"@,
            Severity::Low,
            file,
            d.line,
            d.raw,
            nginx::SERVER_TOKENS@,
            nginx::SERVER_TOKENS_FIX@,
        ),
    );
    let c = crate::finding::if_violated(
        d.keyword == "client_max_body_size"@ && text::trimmed(d.args) == "0"@,
        nginx::report(
            "NGX009"@,
            Severity::Medium,
            file,
            d.line,
            d.raw,
            nginx::BODY_SIZE@,
            nginx::BODY_SIZE_FIX@,
        ),
    );
    assert(nginx::directive_findings(file, d) == a + b + c);
    lemma_times_add(a + b, c, f);
    lemma_times_add(a, b, f);
    lemma_times_small(f, f);
    if a.len() > 0 {
        lemma_times_small(a[0], f);
    }
    if b.len() > 0 {
        lemma_times_small(b[0], f);
    }
    if c.len() > 0 {
        lemma_times_small(c[0], f);
    }
}

proof fn lemma_tls(file: Seq<char>, d: DirectiveView, f: FindingView)
    ensures
        times(nginx::tls_findings(file, d), f) == one_if(calls_protocols(file, d, f)) + one_if(
            calls_ciphers(file, d, f),
        ),
{
    let words = text::word_seq(d.args);
    assert forall|k: int| 0 <= k < words.len() implies text::among(
        nginx::WEAK_SSL_PROTOCOLS@,
        text::lowered(#[trigger] words[k]),
    ) == weak_protocol(text::lowered(words[k])) by {
        lemma_weak_protocol(text::lowered(words[k]));
    }
    assert(nginx::names_weak_protocol(d.args) == exists|k: int|
        0 <= k < text::word_seq(d.args).len() && weak_protocol(
            text::lowered(#[trigger] text::word_seq(d.args)[k]),
        ));
    lemma_weak_names(d.args);
    let a = crate::finding::if_violated(
        d.keyword == "ssl_protocols"@ && nginx::names_weak_protocol(d.args),
        nginx::report(
            "NGX004"@,
            Severity::High,
            file,
            d.line,
            d.raw,
            nginx::PROTOCOLS@,
            nginx::PROTOCOLS_FIX@,
        ),
    );
    let b = crate::finding::if_violated(
        d.keyword == "ssl_ciphers"@ && nginx::weak_tokens(
            d.args,
            nginx::WEAK_CIPHER_TOKENS@,
        ).len() > 0,
        nginx::report(
            "NGX005"@,
            Severity::High,
            file,
            d.line,
            d.raw,
            nginx::CIPHERS_HEAD@ + text::joined(
                nginx::weak_tokens(d.args, nginx::WEAK_CIPHER_TOKENS@),
                ", "@,
            ) + nginx::CIPHERS_TAIL@,
            nginx::CIPHERS_FIX@,
        ),
    );
    assert(nginx::tls_findings(file, d) == a + b);
    lemma_times_add(a, b, f);
    lemma_times_small(f, f);
    if a.len() > 0 {
        lemma_times_small(a[0], f);
    }
    if b.len() > 0 {
        lemma_times_small(b[0], f);
    }
}

proof fn lemma_if(file: Seq<char>, b: BlockView, f: FindingView)
    ensures
        times(nginx::if_findings(file, b), f) == one_if(calls_if(file, b, f)),
{
    lemma_unsafe_in_if(b);
    lemma_times_small(f, f);
    let r = nginx::if_findings(file, b);
    if r.len() > 0 {
        lemma_times_small(r[0], f);
    }
}

proof fn lemma_slash(s: Seq<char>)
    ensures
        text::ends(s, "/"@) == ends_with_slash(s),
{
    reveal_strlit("/");
    if s.len() > 0 {
        assert(s.subrange(s.len() - 1, s.len() as int) =~= seq![s.last()]);
        assert("/"@ =~= seq!['/']);
        assert(seq![s.last()][0] == s.last());
        assert("/"@[0] == '/');
    }
}

proof fn lemma_alias(file: Seq<char>, b: BlockView, f: FindingView)
    requires
        b.name == "location"@,
    ensures
        times(nginx::alias_findings(file, b), f) == one_if(calls_alias(file, b, f)),
{
    lemma_first_own(b, "alias"@);
    lemma_times_small(f, f);
    let r = nginx::alias_findings(file, b);
    if r.len() > 0 {
        lemma_times_small(r[0], f);
    }
    lemma_slash(text::trimmed(b.args));
    match nginx::first_named(nginx::own(b.children), "alias"@) {
        Some(d) => {
            lemma_slash(text::trimmed(d.args));
            let k = choose|k: int| #[trigger]
                first_own(b, "alias"@, k) && b.children[k] == ItemView::Directive(d);
            assert forall|j: int| #[trigger] first_own(b, "alias"@, j) implies j == k by {
                if j < k {
                    assert(b.children[j] is Directive);
                } else if k < j {
                    assert(b.children[k] is Directive);
                }
            }
            let place = text::trimmed(b.args);
            assert(place.contains('~') <==> !(forall|j: int|
                0 <= j < place.len() ==> place[j] != '~'));
        },
        None => {},
    }
}

proof fn lemma_proxy(
    file: Seq<char>,
    above: Seq<BlockView>,
    b: BlockView,
    ctx: CtxView,
    f: FindingView,
)
    requires
        b.name == "location"@,
        inherited(ctx, above.push(b)),
    ensures
        times(nginx::proxy_findings(file, b, ctx), f) == one_if(calls_proxy(file, above, b, f)),
{
    lemma_first_own(b, "proxy_pass"@);
    lemma_times_small(f, f);
    let r = nginx::proxy_findings(file, b, ctx);
    if r.len() > 0 {
        lemma_times_small(r[0], f);
    }
    match nginx::first_named(nginx::own(b.children), "proxy_pass"@) {
        Some(d) => {
            let k = choose|k: int| #[trigger]
                first_own(b, "proxy_pass"@, k) && b.children[k] == ItemView::Directive(d);
            assert forall|j: int| #[trigger] first_own(b, "proxy_pass"@, j) implies j == k by {
                if j < k {
                    assert(b.children[j] is Directive);
                } else if k < j {
                    assert(b.children[k] is Directive);
                }
            }
        },
        None => {},
    }
}

proof fn lemma_server_adds(
    above: Seq<BlockView>,
    b: BlockView,
    ctx: CtxView,
    name: Seq<char>,
)
    requires
        inherited(ctx, above.push(b)),
    ensures
        nginx::server_headers(b, ctx).contains(name) == server_adds(above, b, name),
{
    lemma_deep_headers(b.children, above.push(b), name);
    assert(ctx.headers.contains(name) <==> any_has_own(
        above.push(b),
        |d: DirectiveView| adds_header(d, name),
    ));
}

#[verifier::spinoff_prover]
proof fn lemma_server(
    file: Seq<char>,
    above: Seq<BlockView>,
    b: BlockView,
    ctx: CtxView,
    f: FindingView,
)
    requires
        b.name == "server"@,
        inherited(ctx, above.push(b)),
    ensures
        times(nginx::server_findings(file, b, ctx), f) == one_if(
            calls_plaintext(file, above, b, f),
        ) + one_if(calls_nosniff(file, above, b, f)) + one_if(calls_framing(file, above, b, f))
            + one_if(calls_hsts(file, above, b, f)),
{
    let have = nginx::server_headers(b, ctx);
    lemma_tls_server(b);
    lemma_redirects(b.children, above.push(b));
    lemma_server_adds(above, b, ctx, "x-content-type-options"@);
    lemma_server_adds(above, b, ctx, "x-frame-options"@);
    lemma_server_adds(above, b, ctx, "strict-transport-security"@);
    let p = crate::finding::if_violated(
        !nginx::tls_server(b) && !nginx::redirects(b.children),
        nginx::report(
            "NGX003"@,
            Severity::Medium,
            file,
            b.line,
            b.raw,
            nginx::PLAINTEXT@,
            nginx::PLAINTEXT_FIX@,
        ),
    );
    let n = nginx::header_findings(
        file,
        b,
        have,
        "NGX006"@,
        "x-content-type-options"@,
        "X-Content-Type-Options"@,
    );
    let x = nginx::header_findings(
        file,
        b,
        have,
        "NGX007"@,
        "x-frame-options"@,
        "X-Frame-Options"@,
    );
    let h = crate::finding::if_violated(
        nginx::tls_server(b) && !have.contains("strict-transport-security"@),
        nginx::report(
            "NGX008"@,
            Severity::Low,
            file,
            b.line,
            b.raw,
            nginx::HSTS@,
            nginx::HSTS_FIX@,
        ),
    );
    assert(nginx::server_findings(file, b, ctx) == p + n + x + h);
    lemma_times_add(p + n + x, h, f);
    lemma_times_add(p + n, x, f);
    lemma_times_add(p, n, f);
    lemma_times_small(f, f);
    if p.len() > 0 {
        lemma_times_small(p[0], f);
    }
    if n.len() > 0 {
        lemma_times_small(n[0], f);
    }
    if x.len() > 0 {
        lemma_times_small(x[0], f);
    }
    if h.len() > 0 {
        lemma_times_small(h[0], f);
    }
    reveal_strlit("x-content-type-options");
    reveal_strlit("x-frame-options");
    assert("x-content-type-options"@.len() != "x-frame-options"@.len());
}

proof fn lemma_directive_once(file: Seq<char>, d: DirectiveView, f: FindingView)
    ensures
        one_if(directive_calls_for(file, d, f)) == one_if(calls_autoindex(file, d, f)) + one_if(
            calls_server_tokens(file, d, f),
        ) + one_if(calls_body_size(file, d, f)) + one_if(calls_protocols(file, d, f)) + one_if(
            calls_ciphers(file, d, f),
        ),
{
    lemma_numbers();
    let n = number(f.rule_id);
}

proof fn lemma_block_once(file: Seq<char>, above: Seq<BlockView>, b: BlockView, f: FindingView)
    ensures
        one_if(block_calls_for(file, above, b, f)) == one_if(calls_if(file, b, f)) + one_if(
            calls_alias(file, b, f),
        ) + one_if(calls_proxy(file, above, b, f)) + one_if(calls_plaintext(file, above, b, f))
            + one_if(calls_nosniff(file, above, b, f)) + one_if(calls_framing(file, above, b, f))
            + one_if(calls_hsts(file, above, b, f)),
{
    lemma_numbers();
    let n = number(f.rule_id);
}

proof fn lemma_block(
    file: Seq<char>,
    above: Seq<BlockView>,
    b: BlockView,
    ctx: CtxView,
    f: FindingView,
)
    requires
        inherited(ctx, above.push(b)),
    ensures
        times(nginx::block_findings(file, b, ctx), f) == times(
            nginx::all_tls_findings(file, nginx::own(b.children)),
            f,
        ) + one_if(block_calls_for(file, above, b, f)),
{
    let t = nginx::all_tls_findings(file, nginx::own(b.children));
    let i = nginx::if_findings(file, b);
    let l = nginx::location_findings(file, b, ctx);
    let s = nginx::server_findings(file, b, ctx);
    assert(nginx::block_findings(file, b, ctx) == t + i + l + s);
    lemma_times_add(t + i + l, s, f);
    lemma_times_add(t + i, l, f);
    lemma_times_add(t, i, f);
    lemma_times_small(f, f);
    lemma_if(file, b, f);
    lemma_block_once(file, above, b, f);
    if b.name == "location"@ {
        lemma_alias(file, b, f);
        lemma_proxy(file, above, b, ctx, f);
        lemma_times_add(nginx::alias_findings(file, b), nginx::proxy_findings(file, b, ctx), f);
        reveal_strlit("location");
        reveal_strlit("server");
        assert("location"@.len() != "server"@.len());
    }
    if b.name == "server"@ {
        lemma_server(file, above, b, ctx, f);
    }
}

proof fn lemma_walked(
    file: Seq<char>,
    items: Seq<ItemView>,
    above: Seq<BlockView>,
    ctx: CtxView,
    f: FindingView,
)
    requires
        inherited(ctx, above),
    ensures
        times(nginx::all_tls_findings(file, nginx::own(items)), f) + times(
            nginx::walked(file, items, ctx),
            f,
        ) == callers(places(items, above), file, f),
    decreases items,
{
    reveal_with_fuel(places, 2);
    reveal_with_fuel(nginx::walked, 2);
    lemma_times_small(f, f);
    if items.len() == 0 {
        assert(places(items, above) =~= Seq::<Place>::empty());
        lemma_callers_one(Place { above, item: items.last() }, file, f);
    } else {
        let front = items.drop_last();
        let last = items.last();
        lemma_walked(file, front, above, ctx, f);
        lemma_item(file, last, above, ctx, f);
        lemma_times_add(
            nginx::walked(file, front, ctx),
            nginx::item_findings(file, last, ctx),
            f,
        );
        lemma_callers_add(places(front, above), places_of(last, above), file, f);
        match last {
            ItemView::Directive(d) => {
                let o = nginx::own(front);
                assert(o.push(d).drop_last() =~= o);
                lemma_times_add(
                    nginx::all_tls_findings(file, o),
                    nginx::tls_findings(file, d),
                    f,
                );
            },
            ItemView::Block(_) => {},
        }
    }
}

proof fn lemma_item(
    file: Seq<char>,
    item: ItemView,
    above: Seq<BlockView>,
    ctx: CtxView,
    f: FindingView,
)
    requires
        inherited(ctx, above),
    ensures
        match item {
            ItemView::Directive(d) => times(nginx::item_findings(file, item, ctx), f) + times(
                nginx::tls_findings(file, d),
                f,
            ),
            ItemView::Block(_) => times(nginx::item_findings(file, item, ctx), f),
        } == callers(places_of(item, above), file, f),
    decreases item,
{
    let place = Place { above, item };
    lemma_callers_one(place, file, f);
    match item {
        ItemView::Directive(d) => {
            lemma_directive(file, d, f);
            lemma_tls(file, d, f);
            lemma_directive_once(file, d, f);
        },
        ItemView::Block(b) => {
            let inner = nginx::inner_ctx(b, ctx);
            lemma_inherited(ctx, above, b);
            lemma_block(file, above, b, inner, f);
            lemma_walked(file, b.children, above.push(b), inner, f);
            lemma_times_add(
                nginx::block_findings(file, b, inner),
                nginx::walked(file, b.children, inner),
                f,
            );
            lemma_callers_add(seq![place], places(b.children, above.push(b)), file, f);
        },
    }
}

/// An audit holds each finding as often as there are statements in the file,
/// at any depth, that call for it; so it holds no finding that none calls for.
pub proof fn law_audit_holds_what_is_called_for(file: Seq<char>, content: Seq<char>, f: FindingView)
    requires
        nginx::audited(file, content) is Ok,
    ensures
        nginx::parsed_content(content) is Ok,
        times(nginx::audited(file, content)->Ok_0, f) == callers(
            places(nginx::parsed_content(content)->Ok_0, Seq::empty()),
            file,
            f,
        ),
{
    let items = nginx::parsed_content(content)->Ok_0;
    lemma_tree(file, items, f);
    lemma_times_sorted(nginx::tree_findings(file, items), f);
}

proof fn lemma_tree(file: Seq<char>, items: Seq<ItemView>, f: FindingView)
    ensures
        times(nginx::tree_findings(file, items), f) == callers(
            places(items, Seq::empty()),
            file,
            f,
        ),
{
    let none = Seq::<BlockView>::empty();
    assert(inherited(nginx::no_ctx(), none));
    lemma_walked(file, items, none, nginx::no_ctx(), f);
    lemma_times_add(
        nginx::all_tls_findings(file, nginx::own(items)),
        nginx::walked(file, items, nginx::no_ctx()),
        f,
    );
}

/// A walk over some statements holds each finding as often as they call for it,
/// but for those on the TLS settings that stand directly among them.
pub proof fn law_walk_holds_what_is_called_for(
    file: Seq<char>,
    items: Seq<ItemView>,
    above: Seq<BlockView>,
    ctx: CtxView,
    f: FindingView,
)
    requires
        inherited(ctx, above),
        f.rule_id != "NGX004"@,
        f.rule_id != "NGX005"@,
    ensures
        times(nginx::walked(file, items, ctx), f) == callers(places(items, above), file, f),
{
    lemma_walked(file, items, above, ctx, f);
    lemma_no_tls(file, nginx::own(items), f);
}

proof fn lemma_no_tls(file: Seq<char>, ds: Seq<DirectiveView>, f: FindingView)
    requires
        f.rule_id != "NGX004"@,
        f.rule_id != "NGX005"@,
    ensures
        times(nginx::all_tls_findings(file, ds), f) == 0,
    decreases ds.len(),
{
    lemma_times_small(f, f);
    if ds.len() > 0 {
        lemma_no_tls(file, ds.drop_last(), f);
        lemma_tls(file, ds.last(), f);
        lemma_times_add(
            nginx::all_tls_findings(file, ds.drop_last()),
            nginx::tls_findings(file, ds.last()),
            f,
        );
    }
}

proof fn lemma_callers_exist(ps: Seq<Place>, file: Seq<char>, f: FindingView)
    ensures
        callers(ps, file, f) > 0 <==> exists|k: int|
            0 <= k < ps.len() && calls_for(file, #[trigger] ps[k], f),
{
    let p = |q: Place| calls_for(file, q, f);
    let r = ps.filter(p);
    assert(r.len() == callers(ps, file, f));
    if r.len() > 0 {
        ps.lemma_filter_pred(p, 0);
        assert(r.contains(r[0]));
        ps.lemma_filter_contains_rev(p, r[0]);
        let k = choose|k: int| 0 <= k < ps.len() && ps[k] == r[0];
        assert(calls_for(file, ps[k], f));
    }
    if exists|k: int| 0 <= k < ps.len() && calls_for(file, #[trigger] ps[k], f) {
        let k = choose|k: int| 0 <= k < ps.len() && calls_for(file, #[trigger] ps[k], f);
        ps.lemma_filter_contains(p, k);
    }
}

/// An audit holds a finding exactly when some statement of the file calls for
/// it.
pub proof fn law_findings_have_their_statement(file: Seq<char>, content: Seq<char>, f: FindingView)
    requires
        nginx::audited(file, content) is Ok,
    ensures
        nginx::audited(file, content)->Ok_0.contains(f) <==> exists|k: int|
            0 <= k < places(nginx::parsed_content(content)->Ok_0, Seq::empty()).len() && calls_for(
                file,
                #[trigger] places(nginx::parsed_content(content)->Ok_0, Seq::empty())[k],
                f,
            ),
{
    law_audit_holds_what_is_called_for(file, content, f);
    lemma_times_contains(nginx::audited(file, content)->Ok_0, f);
    lemma_callers_exist(places(nginx::parsed_content(content)->Ok_0, Seq::empty()), file, f);
}

/// Whether a place is that of a server that has neither a certificate nor a
/// TLS listener of its own, and beneath which no redirect to HTTPS stands at
/// any depth.
pub open spec fn stays_plaintext(p: Place) -> bool {
    &&& p.item is Block
    &&& p.item->Block_0.name == "server"@
    &&& !has_own(p.item->Block_0, |d: DirectiveView| speaks_tls(d))
    &&& !has_beneath(
        p.item->Block_0.children,
        p.above.push(p.item->Block_0),
        |d: DirectiveView| sends_to_https(d),
    )
}

/// Plain text is reported on a line exactly when a server that stays with it
/// begins there; so a server with a redirect beneath it, at whatever depth, is
/// not reported.
pub proof fn law_plaintext_is_reported_without_redirect(
    file: Seq<char>,
    content: Seq<char>,
    f: FindingView,
)
    requires
        nginx::audited(file, content) is Ok,
        nginx::audited(file, content)->Ok_0.contains(f),
    ensures
        f.rule_id == "NGX003"@ ==> exists|k: int|
            0 <= k < places(nginx::parsed_content(content)->Ok_0, Seq::empty()).len()
                && stays_plaintext(
                #[trigger] places(nginx::parsed_content(content)->Ok_0, Seq::empty())[k],
            ) && f.line == places(
                nginx::parsed_content(content)->Ok_0,
                Seq::empty(),
            )[k].item->Block_0.line && f.evidence == places(
                nginx::parsed_content(content)->Ok_0,
                Seq::empty(),
            )[k].item->Block_0.raw,
{
    let ps = places(nginx::parsed_content(content)->Ok_0, Seq::empty());
    law_findings_have_their_statement(file, content, f);
    let k = choose|k: int| 0 <= k < ps.len() && calls_for(file, #[trigger] ps[k], f);
    lemma_numbers();
    if f.rule_id == "NGX003"@ {
        assert(number(f.rule_id) == number("NGX003"@));
        assert(stays_plaintext(ps[k]));
    }
}

/// Every server that stays with plain text is reported.
pub proof fn law_plaintext_servers_are_reported(file: Seq<char>, content: Seq<char>, k: int)
    requires
        nginx::audited(file, content) is Ok,
        0 <= k < places(nginx::parsed_content(content)->Ok_0, Seq::empty()).len(),
        stays_plaintext(places(nginx::parsed_content(content)->Ok_0, Seq::empty())[k]),
    ensures
        exists|n: int|
            0 <= n < nginx::audited(file, content)->Ok_0.len() && (#[trigger] nginx::audited(
                file,
                content,
            )->Ok_0[n]).rule_id == "NGX003"@ && nginx::audited(file, content)->Ok_0[n].line
                == places(
                nginx::parsed_content(content)->Ok_0,
                Seq::empty(),
            )[k].item->Block_0.line,
{
    let p = places(nginx::parsed_content(content)->Ok_0, Seq::empty())[k];
    let b = p.item->Block_0;
    let f = on(
        file,
        b.line,
        b.raw,
        "NGX003"@,
        Severity::Medium,
        "Plaintext HTTP is served with no redirect to HTTPS, so credentials and session cookies can be sent or intercepted in cleartext by any on-path attacker."@,
        "Add 'return 301 https://$host$request_uri;' in this server block (or terminate TLS here)."@,
    );
    assert(calls_plaintext(file, p.above, b, f));
    assert(calls_for(file, p, f));
    law_findings_have_their_statement(file, content, f);
    let fs = nginx::audited(file, content)->Ok_0;
    let n = choose|n: int| 0 <= n < fs.len() && fs[n] == f;
    assert(fs[n].rule_id == "NGX003"@);
}

} // verus!
