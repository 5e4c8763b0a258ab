//! Which findings an audit of a Dockerfile holds: for the file and for each of
//! its instructions, the rules that it breaks and the words in which they
//! report it.

use super::text::{blank, holds, lemma_blank, lemma_holds};
use super::{
    lemma_numbers, lemma_times_add, lemma_times_contains, lemma_times_small, lemma_times_sorted,
    number, one_if, times,
};
use crate::finding::{if_violated, FindingView, Severity, SourceKind};
use crate::parsers::dockerfile;
use crate::parsers::dockerfile::InstructionView;
use crate::text;
use vstd::prelude::*;

verus! {

/// A finding on an instruction.
pub open spec fn on(
    file: Seq<char>,
    i: InstructionView,
    rule_id: Seq<char>,
    severity: Severity,
    consequence: Seq<char>,
    fix: Seq<char>,
) -> FindingView {
    FindingView {
        rule_id,
        severity,
        source: SourceKind::Dockerfile,
        file,
        line: i.line,
        evidence: i.raw,
        consequence,
        fix,
    }
}

/// A finding on what a file leaves out.
pub open spec fn on_absence(
    file: Seq<char>,
    evidence: Seq<char>,
    rule_id: Seq<char>,
    severity: Severity,
    consequence: Seq<char>,
    fix: Seq<char>,
) -> FindingView {
    FindingView {
        rule_id,
        severity,
        source: SourceKind::Dockerfile,
        file,
        line: 0,
        evidence,
        consequence,
        fix,
    }
}

/// Whether a file has no instruction of a name.
pub open spec fn lacks(ins: Seq<InstructionView>, keyword: Seq<char>) -> bool {
    forall|j: int| 0 <= j < ins.len() ==> (#[trigger] ins[j]).keyword != keyword
}

/// Whether the instruction at `i` is the last of its name.
pub open spec fn last_of(ins: Seq<InstructionView>, keyword: Seq<char>, i: int) -> bool {
    &&& 0 <= i < ins.len()
    &&& ins[i].keyword == keyword
    &&& forall|j: int| i < j < ins.len() ==> (#[trigger] ins[j]).keyword != keyword
}

/// Whether the user that is named, up to a colon, is root.
pub open spec fn is_root(args: Seq<char>) -> bool {
    exists|user: Seq<char>, rest: Seq<char>|
        args == #[trigger] (user + rest) && !user.contains(':') && (rest.len() == 0 || rest[0]
            == ':') && (text::trimmed(user) == "root"@ || text::trimmed(user) == seq!['0'])
}

/// The process runs as root.
pub open spec fn calls_user(file: Seq<char>, ins: Seq<InstructionView>, f: FindingView) -> bool {
    ||| lacks(ins, "USER"@) && f == on_absence(
        file,
        "(no USER instruction)"@,
        "DOCK001"@,
        Severity::High,
        "The container runs as root by default. A compromise of the containerized process (e.g. via a code injection bug) grants the attacker root inside the container and a much shorter path to breaking out to the host."@,
        "Add a non-root user and switch to it, e.g. 'RUN useradd -m app' then 'USER app'."@,
    )
    ||| exists|i: int| #[trigger]
        last_of(ins, "USER"@, i) && is_root(ins[i].args) && f == on(
            file,
            ins[i],
            "DOCK001"@,
            Severity::High,
            "The container explicitly runs as root. A compromise of the containerized process grants the attacker root inside the container and a much shorter path to breaking out to the host."@,
            "Create and switch to a non-root user, e.g. 'RUN useradd -m app' then 'USER app'."@,
        )
}

/// Nothing checks on the process.
pub open spec fn calls_healthcheck(
    file: Seq<char>,
    ins: Seq<InstructionView>,
    f: FindingView,
) -> bool {
    lacks(ins, "HEALTHCHECK"@) && f == on_absence(
        file,
        "(no HEALTHCHECK instruction)"@,
        "DOCK008"@,
        Severity::Info,
        "Without a HEALTHCHECK, orchestrators cannot detect that the process inside the container has hung or is unresponsive, so traffic keeps being routed to a dead instance."@,
        "Add a HEALTHCHECK instruction, e.g. 'HEALTHCHECK CMD curl -f http://localhost/health || exit 1'."@,
    )
}

/// Whether an instruction copies the whole build context.
pub open spec fn copies_everything(i: InstructionView) -> bool {
    let a = text::trimmed(i.args);
    &&& i.keyword == "COPY"@
    &&& {
        ||| a == ". ."@
        ||| a == "./ ./"@
        ||| exists|rest: Seq<char>| a == #[trigger] (". . "@ + rest)
    }
}

/// Whether an instruction installs or downloads something.
pub open spec fn fetches(i: InstructionView) -> bool {
    let lower = text::lowered(i.args);
    i.keyword == "RUN"@ && (holds(lower, "install"@) || holds(lower, "download"@))
}

/// Whether the instruction at `i` is the first with a property.
pub open spec fn first_with(
    ins: Seq<InstructionView>,
    p: spec_fn(InstructionView) -> bool,
    i: int,
) -> bool {
    &&& 0 <= i < ins.len()
    &&& p(ins[i])
    &&& forall|j: int| 0 <= j < i ==> !p(#[trigger] ins[j])
}

/// The build context is copied before anything is installed.
pub open spec fn calls_copy(file: Seq<char>, ins: Seq<InstructionView>, f: FindingView) -> bool {
    exists|i: int, j: int|
        #![trigger ins[i], ins[j]]
        first_with(ins, |x: InstructionView| copies_everything(x), i) && first_with(
            ins,
            |x: InstructionView| fetches(x),
            j,
        ) && ins[i].line < ins[j].line && f == on(
            file,
            ins[i],
            "DOCK010"@,
            Severity::Info,
            "Copying the entire build context before installing dependencies invalidates Docker's layer cache on every source-code change, forcing a full dependency reinstall on nearly every build."@,
            "Copy only the dependency manifest first (e.g. 'COPY package.json .'), run the install, then 'COPY . .' for the rest of the source."@,
        )
}

/// Whether a word is an option.
pub open spec fn is_option(word: Seq<char>) -> bool {
    word.len() >= 2 && word[0] == '-' && word[1] == '-'
}

/// Whether an image is the one that is built on: the first word that is no
/// option, or nothing where there is none.
pub open spec fn built_on(args: Seq<char>, image: Seq<char>) -> bool {
    let words = text::word_seq(args);
    ||| exists|k: int|
        0 <= k < words.len() && image == #[trigger] words[k] && !is_option(image) && forall|j: int|
            0 <= j < k ==> is_option(#[trigger] words[j])
    ||| image.len() == 0 && forall|j: int| 0 <= j < words.len() ==> is_option(#[trigger] words[j])
}

/// Whether a text is what stands behind the last slash of an image, or all of
/// it.
pub open spec fn is_tail(image: Seq<char>, tail: Seq<char>) -> bool {
    !tail.contains('/') && exists|front: Seq<char>|
        image == #[trigger] (front + tail) && (front.len() == 0 || front.last() == '/')
}

/// The base image is not pinned.
pub open spec fn calls_from(file: Seq<char>, i: InstructionView, f: FindingView) -> bool {
    i.keyword == "FROM"@ && exists|image: Seq<char>, tail: Seq<char>|
        #![trigger built_on(i.args, image), is_tail(image, tail)]
        built_on(i.args, image) && is_tail(image, tail) && image != "scratch"@ && {
            ||| !tail.contains(':') && f == on(
                file,
                i,
                "DOCK002"@,
                Severity::Medium,
                "No tag means Docker resolves ':latest' at build time, so the exact base image contents are not reproducible and can silently change (including picking up new vulnerabilities) between builds."@,
                "Pin an explicit version tag, e.g. 'FROM debian:12.5' (ideally pin by digest for full reproducibility)."@,
            )
            ||| (exists|name: Seq<char>| tail == #[trigger] (name + ":latest"@)) && f == on(
                file,
                i,
                "DOCK002"@,
                Severity::Medium,
                "':latest' is a moving target: the exact base image contents are not reproducible and can silently change (including picking up new vulnerabilities) between builds."@,
                "Pin an explicit version tag, e.g. 'FROM debian:12.5' (ideally pin by digest for full reproducibility)."@,
            )
        }
}

/// A file is fetched without a check.
pub open spec fn calls_add(file: Seq<char>, i: InstructionView, f: FindingView) -> bool {
    let lower = text::lowered(i.args);
    i.keyword == "ADD"@ && (holds(lower, "http://"@) || holds(lower, "https://"@)) && f == on(
        file,
        i,
        "DOCK003"@,
        Severity::Medium,
        "ADD fetches the URL with no integrity check and unpacks archives automatically; a compromised or MITM'd URL can inject arbitrary files into the image without any verification step."@,
        "Use 'RUN curl -fsSL <url> -o file && sha256sum -c ...' (or COPY a locally vetted file) so the download is checksummed."@,
    )
}

/// What an installation leaves out, if anything.
pub open spec fn left_out(lower: Seq<char>) -> Option<Seq<char>> {
    let lean = holds(lower, "--no-install-recommends"@);
    let clean = holds(lower, "rm -rf /var/lib/apt/lists"@) || holds(lower, "apt-get clean"@);
    if lean && clean {
        None
    } else if lean {
        Some("apt list cleanup ('rm -rf /var/lib/apt/lists/*')"@)
    } else if clean {
        Some("'--no-install-recommends'"@)
    } else {
        Some("'--no-install-recommends' and apt list cleanup"@)
    }
}

/// An installation leaves more behind than it needs to.
pub open spec fn calls_apt(file: Seq<char>, i: InstructionView, f: FindingView) -> bool {
    let lower = text::lowered(i.args);
    &&& i.keyword == "RUN"@
    &&& holds(lower, "apt-get install"@) || holds(lower, "apt install"@)
    &&& left_out(lower) is Some
    &&& f == on(
        file,
        i,
        "DOCK005"@,
        Severity::Low,
        "Missing "@ + left_out(lower)->Some_0 + ": this pulls in extra packages and leaves apt's package index cached in the image layer, growing the attack surface (more installed software) and image size unnecessarily."@,
        "Use 'apt-get install -y --no-install-recommends <pkgs> && rm -rf /var/lib/apt/lists/*' in the same RUN layer."@,
    )
}

/// Whether a character may be part of the name of a command.
pub open spec fn in_name(c: char) -> bool {
    ||| 'a' <= c <= 'z'
    ||| 'A' <= c <= 'Z'
    ||| '0' <= c <= '9'
    ||| c == '_'
    ||| c == '-'
}

/// Whether a text holds another with no name going on behind it.
pub open spec fn holds_name(s: Seq<char>, part: Seq<char>) -> bool {
    exists|x: Seq<char>, y: Seq<char>|
        s == #[trigger] (x + part + y) && (y.len() == 0 || !in_name(y[0]))
}

/// A download is run unseen.
pub open spec fn calls_pipe(file: Seq<char>, i: InstructionView, f: FindingView) -> bool {
    let lower = text::lowered(i.args);
    &&& i.keyword == "RUN"@
    &&& holds(lower, "curl"@) || holds(lower, "wget"@)
    &&& {
        ||| holds_name(lower, "| sh"@)
        ||| holds_name(lower, "|sh"@)
        ||| holds_name(lower, "| bash"@)
        ||| holds_name(lower, "|bash"@)
    }
    &&& f == on(
        file,
        i,
        "DOCK006"@,
        Severity::High,
        "Piping a remote download straight into a shell executes whatever that server returns with no integrity check or review; a compromised endpoint or MITM gives an attacker arbitrary code execution during the build."@,
        "Download to a file, verify its checksum/signature, then execute it, e.g. 'curl -fsSL url -o install.sh && sha256sum -c install.sh.sha256 && sh install.sh'."@,
    )
}

/// A build asks for all privileges.
pub open spec fn calls_privileged(file: Seq<char>, i: InstructionView, f: FindingView) -> bool {
    i.keyword == "RUN"@ && holds(text::lowered(i.args), "--privileged"@) && f == on(
        file,
        i,
        "DOCK007"@,
        Severity::High,
        "A '--privileged' reference inside the build suggests the resulting image expects (or was tested with) full host device/capability access, which effectively disables container isolation for anything using it."@,
        "Avoid requiring '--privileged'; grant only the specific capabilities needed via '--cap-add'."@,
    )
}

/// A build step asks for root, which it has.
pub open spec fn calls_sudo(file: Seq<char>, i: InstructionView, f: FindingView) -> bool {
    i.keyword == "RUN"@ && (exists|k: int|
        0 <= k < text::word_seq(text::lowered(i.args)).len() && #[trigger] text::word_seq(
            text::lowered(i.args),
        )[k] == "sudo"@) && f == on(
        file,
        i,
        "DOCK009"@,
        Severity::Low,
        "'sudo' inside a build step is redundant (build steps already run as root by default) and if it lingers into the runtime image it lets a non-root USER trivially regain root."@,
        "Remove 'sudo'; run the command directly as root during build, and if a non-root runtime user needs elevated actions, grant a narrow, explicit mechanism instead."@,
    )
}

/// Whether an instruction calls for a finding, other than by a secret.
pub open spec fn calls_for(file: Seq<char>, i: InstructionView, f: FindingView) -> bool {
    ||| calls_from(file, i, f)
    ||| calls_add(file, i, f)
    ||| calls_apt(file, i, f)
    ||| calls_pipe(file, i, f)
    ||| calls_privileged(file, i, f)
    ||| calls_sudo(file, i, f)
}

/// A variable that an instruction sets.
pub struct Setting {
    pub by: InstructionView,
    pub key: Seq<char>,
    pub value: Seq<char>,
}

/// The variables that an instruction sets.
pub open spec fn settings_of(i: InstructionView) -> Seq<Setting> {
    if i.keyword == "ENV"@ || i.keyword == "ARG"@ {
        let vars = dockerfile::variables(i.args);
        Seq::new(vars.len(), |k: int| Setting { by: i, key: vars[k].0, value: vars[k].1 })
    } else {
        Seq::empty()
    }
}

/// The variables that a file sets.
pub open spec fn settings(ins: Seq<InstructionView>) -> Seq<Setting>
    decreases ins.len(),
{
    if ins.len() == 0 {
        Seq::empty()
    } else {
        settings(ins.drop_last()) + settings_of(ins.last())
    }
}

/// Whether a name in lower case holds a word for a secret.
pub open spec fn tells_of_secret(name: Seq<char>) -> bool {
    ||| holds(name, "password"@)
    ||| holds(name, "passwd"@)
    ||| holds(name, "secret"@)
    ||| holds(name, "token"@)
    ||| holds(name, "apikey"@)
    ||| holds(name, "api_key"@)
    ||| holds(name, "access_key"@)
    ||| holds(name, "accesskey"@)
    ||| holds(name, "private_key"@)
    ||| holds(name, "privatekey"@)
    ||| holds(name, "auth_token"@)
    ||| holds(name, "client_secret"@)
}

/// A secret is kept in the image.
pub open spec fn calls_secret(file: Seq<char>, s: Setting, f: FindingView) -> bool {
    tells_of_secret(text::lowered(s.key)) && !blank(s.value) && f == on(
        file,
        s.by,
        "DOCK004"@,
        Severity::Critical,
        "Values baked into ENV/ARG are permanently embedded in the image layer history and readable via 'docker history'/'docker inspect' by anyone with pull access, even after a later layer removes them."@,
        "Pass the secret at runtime (env var, mounted file, or orchestrator secret store) or use a BuildKit '--mount=type=secret', never ENV/ARG."@,
    )
}

/// Whether a file as a whole calls for a finding.
pub open spec fn file_calls_for(
    file: Seq<char>,
    ins: Seq<InstructionView>,
    f: FindingView,
) -> bool {
    ||| calls_user(file, ins, f)
    ||| calls_healthcheck(file, ins, f)
    ||| calls_copy(file, ins, f)
}

/// Calling for a finding.
pub open spec fn calling(file: Seq<char>, f: FindingView) -> spec_fn(InstructionView) -> bool {
    |i: InstructionView| calls_for(file, i, f)
}

/// Calling for a finding by a secret.
pub open spec fn telling(file: Seq<char>, f: FindingView) -> spec_fn(Setting) -> bool {
    |s: Setting| calls_secret(file, s, f)
}

proof fn lemma_last_named(ins: Seq<InstructionView>, keyword: Seq<char>)
    ensures
        match dockerfile::last_named(ins, keyword) {
            Some(d) => exists|i: int| #[trigger] last_of(ins, keyword, i) && ins[i] == d,
            None => lacks(ins, keyword),
        },
    decreases ins.len(),
{
    if ins.len() > 0 {
        let front = ins.drop_last();
        if ins.last().keyword == keyword {
            assert(last_of(ins, keyword, ins.len() - 1));
        } else {
            lemma_last_named(front, keyword);
            match dockerfile::last_named(front, keyword) {
                Some(d) => {
                    let i = choose|i: int| #[trigger] last_of(front, keyword, i) && front[i] == d;
                    assert forall|j: int| i < j < ins.len() implies (#[trigger] ins[j]).keyword
                        != keyword by {
                        if j < front.len() {
                            assert(front[j] == ins[j]);
                        }
                    }
                    assert(last_of(ins, keyword, i));
                },
                None => {
                    assert forall|j: int| 0 <= j < ins.len() implies (#[trigger] ins[j]).keyword
                        != keyword by {
                        if j < front.len() {
                            assert(front[j] == ins[j]);
                        }
                    }
                },
            }
        }
    }
}

proof fn lemma_root(args: Seq<char>)
    ensures
        dockerfile::names_root(args) == is_root(args),
{
    reveal_strlit("0");
    assert("0"@ =~= seq!['0']);
    let n = text::char_index(args, ':');
    text::lemma_char_index(args, ':');
    let user = args.take(n);
    let rest = args.skip(n);
    assert(args =~= user + rest);
    assert(!user.contains(':'));
    if is_root(args) {
        let (u, r) = choose|u: Seq<char>, r: Seq<char>|
            args == #[trigger] (u + r) && !u.contains(':') && (r.len() == 0 || r[0] == ':') && (
            text::trimmed(u) == "root"@ || text::trimmed(u) == seq!['0']);
        if r.len() > 0 {
            assert(args[u.len() as int] == ':');
        }
        if n < u.len() {
            assert(u[n] == args[n]);
        } else if n > u.len() {
            assert(args[u.len() as int] != ':');
        }
        assert(u =~= user);
    }
}

proof fn lemma_user(file: Seq<char>, ins: Seq<InstructionView>, f: FindingView)
    ensures
        times(dockerfile::user_rule(file, ins), f) == one_if(calls_user(file, ins, f)),
{
    lemma_last_named(ins, "USER"@);
    let r = dockerfile::user_rule(file, ins);
    lemma_times_small(f, f);
    if r.len() > 0 {
        lemma_times_small(r[0], f);
    }
    match dockerfile::last_named(ins, "USER"@) {
        Some(d) => {
            lemma_root(d.args);
            let i = choose|i: int| #[trigger] last_of(ins, "USER"@, i) && ins[i] == d;
            assert(ins[i].keyword == "USER"@);
        },
        None => {},
    }
}

proof fn lemma_healthcheck(file: Seq<char>, ins: Seq<InstructionView>, f: FindingView)
    ensures
        times(dockerfile::healthcheck_rule(file, ins), f) == one_if(
            calls_healthcheck(file, ins, f),
        ),
{
    lemma_last_named(ins, "HEALTHCHECK"@);
    let r = dockerfile::healthcheck_rule(file, ins);
    lemma_times_small(f, f);
    if r.len() > 0 {
        lemma_times_small(r[0], f);
    }
    match dockerfile::last_named(ins, "HEALTHCHECK"@) {
        Some(d) => {
            let i = choose|i: int| #[trigger] last_of(ins, "HEALTHCHECK"@, i) && ins[i] == d;
            assert(ins[i].keyword == "HEALTHCHECK"@);
        },
        None => {},
    }
}

proof fn lemma_copies(i: InstructionView)
    ensures
        dockerfile::copies_all(i) == copies_everything(i),
{
    let a = text::trimmed(i.args);
    let p = ". . "@;
    if text::begins(a, p) {
        assert(a =~= p + a.skip(p.len() as int));
    }
    if exists|rest: Seq<char>| a == #[trigger] (p + rest) {
        let rest = choose|rest: Seq<char>| a == #[trigger] (p + rest);
        assert(a.subrange(0, p.len() as int) =~= p);
    }
}

proof fn lemma_fetches(i: InstructionView)
    ensures
        dockerfile::installs(i) == fetches(i),
{
    let lower = text::lowered(i.args);
    lemma_holds(lower, "install"@);
    lemma_holds(lower, "download"@);
}

proof fn lemma_first_copy(ins: Seq<InstructionView>)
    ensures
        match dockerfile::first_copy_all(ins) {
            Some(d) => exists|i: int|
                0 <= i < ins.len() && #[trigger] ins[i] == d && first_with(
                    ins,
                    |x: InstructionView| copies_everything(x),
                    i,
                ),
            None => forall|i: int| 0 <= i < ins.len() ==> !copies_everything(#[trigger] ins[i]),
        },
    decreases ins.len(),
{
    let p = |x: InstructionView| copies_everything(x);
    if ins.len() > 0 {
        lemma_copies(ins[0]);
        let rest = ins.drop_first();
        if dockerfile::copies_all(ins[0]) {
            assert(first_with(ins, p, 0));
        } else {
            lemma_first_copy(rest);
            match dockerfile::first_copy_all(rest) {
                Some(d) => {
                    let i = choose|i: int|
                        0 <= i < rest.len() && #[trigger] rest[i] == d && first_with(rest, p, i);
                    assert forall|j: int| 0 <= j < i + 1 implies !p(#[trigger] ins[j]) by {
                        if j > 0 {
                            assert(rest[j - 1] == ins[j]);
                        }
                    }
                    assert(ins[i + 1] == d);
                    assert(first_with(ins, p, i + 1));
                },
                None => {
                    assert forall|i: int| 0 <= i < ins.len() implies !copies_everything(
                        #[trigger] ins[i],
                    ) by {
                        if i > 0 {
                            assert(rest[i - 1] == ins[i]);
                        }
                    }
                },
            }
        }
    }
}

proof fn lemma_first_fetch(ins: Seq<InstructionView>)
    ensures
        match dockerfile::first_install(ins) {
            Some(line) => exists|i: int|
                0 <= i < ins.len() && (#[trigger] ins[i]).line == line && first_with(
                    ins,
                    |x: InstructionView| fetches(x),
                    i,
                ),
            None => forall|i: int| 0 <= i < ins.len() ==> !fetches(#[trigger] ins[i]),
        },
    decreases ins.len(),
{
    let p = |x: InstructionView| fetches(x);
    if ins.len() > 0 {
        lemma_fetches(ins[0]);
        let rest = ins.drop_first();
        if dockerfile::installs(ins[0]) {
            assert(first_with(ins, p, 0));
        } else {
            lemma_first_fetch(rest);
            match dockerfile::first_install(rest) {
                Some(line) => {
                    let i = choose|i: int|
                        0 <= i < rest.len() && (#[trigger] rest[i]).line == line && first_with(
                            rest,
                            p,
                            i,
                        );
                    assert forall|j: int| 0 <= j < i + 1 implies !p(#[trigger] ins[j]) by {
                        if j > 0 {
                            assert(rest[j - 1] == ins[j]);
                        }
                    }
                    assert(ins[i + 1] == rest[i]);
                    assert(first_with(ins, p, i + 1));
                },
                None => {
                    assert forall|i: int| 0 <= i < ins.len() implies !fetches(
                        #[trigger] ins[i],
                    ) by {
                        if i > 0 {
                            assert(rest[i - 1] == ins[i]);
                        }
                    }
                },
            }
        }
    }
}

proof fn lemma_copy(file: Seq<char>, ins: Seq<InstructionView>, f: FindingView)
    ensures
        times(dockerfile::cache_rule(file, ins), f) == one_if(calls_copy(file, ins, f)),
{
    let p = |x: InstructionView| copies_everything(x);
    let q = |x: InstructionView| fetches(x);
    lemma_first_copy(ins);
    lemma_first_fetch(ins);
    let r = dockerfile::cache_rule(file, ins);
    lemma_times_small(f, f);
    if r.len() > 0 {
        lemma_times_small(r[0], f);
    }
    match (dockerfile::first_copy_all(ins), dockerfile::first_install(ins)) {
        (Some(d), Some(line)) => {
            let i = choose|i: int|
                0 <= i < ins.len() && #[trigger] ins[i] == d && first_with(ins, p, i);
            let j = choose|j: int|
                0 <= j < ins.len() && (#[trigger] ins[j]).line == line && first_with(ins, q, j);
            assert(first_with(ins, p, i) && first_with(ins, q, j));
            assert forall|k: int| first_with(ins, p, k) implies k == i by {
                assert(p(ins[k]) && p(ins[i]));
            }
            assert forall|k: int| first_with(ins, q, k) implies k == j by {
                assert(q(ins[k]) && q(ins[j]));
            }
            assert(calls_copy(file, ins, f) ==> first_with(ins, p, i));
        },
        _ => {
            if calls_copy(file, ins, f) {
                let (i, j) = choose|i: int, j: int|
                    #![trigger ins[i], ins[j]]
                    first_with(ins, p, i) && first_with(ins, q, j) && ins[i].line < ins[j].line;
                assert(p(ins[i]) && q(ins[j]));
                assert(copies_everything(ins[i]) && fetches(ins[j]));
            }
        },
    }
}

proof fn lemma_option(word: Seq<char>)
    ensures
        dockerfile::is_flag(word) == is_option(word),
{
    reveal_strlit("--");
    let p = "--"@;
    assert(p.len() == 2 && p[0] == '-' && p[1] == '-');
    if word.len() >= 2 {
        let s = word.subrange(0, 2);
        assert(s[0] == word[0] && s[1] == word[1]);
        if is_option(word) {
            assert(s =~= p);
        }
    }
}

proof fn lemma_first_plain(words: Seq<Seq<char>>)
    ensures
        ({
            let image = dockerfile::first_plain(words);
            ||| exists|k: int|
                0 <= k < words.len() && image == #[trigger] words[k] && !is_option(image)
                    && forall|j: int| 0 <= j < k ==> is_option(#[trigger] words[j])
            ||| image.len() == 0 && forall|j: int|
                0 <= j < words.len() ==> is_option(#[trigger] words[j])
        }),
    decreases words.len(),
{
    if words.len() > 0 {
        lemma_option(words[0]);
        let image = dockerfile::first_plain(words);
        if !is_option(words[0]) {
            assert(image == words[0]);
        } else {
            let rest = words.drop_first();
            lemma_first_plain(rest);
            if exists|k: int|
                0 <= k < rest.len() && image == #[trigger] rest[k] && !is_option(image)
                    && forall|j: int| 0 <= j < k ==> is_option(#[trigger] rest[j]) {
                let k = choose|k: int|
                    0 <= k < rest.len() && image == #[trigger] rest[k] && !is_option(image)
                        && forall|j: int| 0 <= j < k ==> is_option(#[trigger] rest[j]);
                assert(words[k + 1] == image);
                assert forall|j: int| 0 <= j < k + 1 implies is_option(#[trigger] words[j]) by {
                    if j > 0 {
                        assert(rest[j - 1] == words[j]);
                    }
                }
            } else {
                assert forall|j: int| 0 <= j < words.len() implies is_option(
                    #[trigger] words[j],
                ) by {
                    if j > 0 {
                        assert(rest[j - 1] == words[j]);
                    }
                }
            }
        }
    }
}

proof fn lemma_built_on(args: Seq<char>, image: Seq<char>)
    ensures
        built_on(args, image) <==> image == dockerfile::base_image(args),
{
    let words = text::word_seq(args);
    lemma_first_plain(words);
    let it = dockerfile::base_image(args);
    assert(built_on(args, it));
    if built_on(args, image) {
        if exists|k: int|
            0 <= k < words.len() && image == #[trigger] words[k] && !is_option(image)
                && forall|j: int| 0 <= j < k ==> is_option(#[trigger] words[j]) {
            let k = choose|k: int|
                0 <= k < words.len() && image == #[trigger] words[k] && !is_option(image)
                    && forall|j: int| 0 <= j < k ==> is_option(#[trigger] words[j]);
            assert(!is_option(words[k]));
            let m = choose|m: int|
                0 <= m < words.len() && it == #[trigger] words[m] && !is_option(it)
                    && forall|j: int| 0 <= j < m ==> is_option(#[trigger] words[j]);
            assert(it == words[m] && !is_option(words[m]));
            assert(k == m);
        } else {
            assert(forall|j: int| 0 <= j < words.len() ==> is_option(#[trigger] words[j]));
            assert(it.len() == 0);
            assert(image =~= it);
        }
    }
}

proof fn lemma_last_piece(s: Seq<char>, c: char)
    ensures
        ({
            let tail = text::split_seq(s, c).last();
            &&& text::split_seq(s, c).len() > 0
            &&& !tail.contains(c)
            &&& tail.len() <= s.len()
            &&& s.skip(s.len() - tail.len()) == tail
            &&& tail.len() < s.len() ==> s[s.len() - tail.len() - 1] == c
        }),
    decreases s.len(),
{
    let n = text::char_index(s, c);
    text::lemma_char_index(s, c);
    if n < s.len() {
        let rest = s.skip(n + 1);
        lemma_last_piece(rest, c);
        let tail = text::split_seq(rest, c).last();
        assert(text::split_seq(s, c).last() == tail);
        assert(s.skip(s.len() - tail.len()) =~= rest.skip(rest.len() - tail.len()));
        if tail.len() < rest.len() {
            assert(s[s.len() - tail.len() - 1] == rest[rest.len() - tail.len() - 1]);
        }
    } else {
        assert(s.skip(0) =~= s);
    }
}

proof fn lemma_tail(image: Seq<char>, tail: Seq<char>)
    ensures
        is_tail(image, tail) <==> tail == dockerfile::image_tail(image),
{
    let it = dockerfile::image_tail(image);
    lemma_last_piece(image, '/');
    let n = image.len() - it.len();
    assert(image =~= image.take(n) + it);
    assert(is_tail(image, it));
    if is_tail(image, tail) {
        let front = choose|front: Seq<char>|
            image == #[trigger] (front + tail) && (front.len() == 0 || front.last() == '/');
        if front.len() > n {
            assert(image[front.len() - 1] == '/');
            assert(it[front.len() - 1 - n] == image[front.len() - 1]);
            assert(it.contains('/'));
        } else if front.len() < n {
            assert(image[n - 1] == '/');
            assert(tail[n - 1 - front.len()] == image[n - 1]);
            assert(tail.contains('/'));
        }
        assert(tail =~= it);
    }
}

proof fn lemma_latest(tail: Seq<char>)
    ensures
        text::ends(tail, ":latest"@) <==> exists|name: Seq<char>|
            tail == #[trigger] (name + ":latest"@),
        text::ends(tail, ":latest"@) ==> tail.contains(':'),
{
    let p = ":latest"@;
    reveal_strlit(":latest");
    assert(p.len() == 7 && p[0] == ':');
    if text::ends(tail, p) {
        let n = tail.len() - p.len();
        assert(tail =~= tail.take(n) + tail.subrange(n, n + p.len()));
        assert(tail.subrange(n, n + p.len())[0] == tail[n]);
        assert(tail[n] == ':');
    }
    if exists|name: Seq<char>| tail == #[trigger] (name + p) {
        let name = choose|name: Seq<char>| tail == #[trigger] (name + p);
        let n = tail.len() - p.len();
        assert(tail.subrange(n, n + p.len()) =~= p);
    }
}

proof fn lemma_from(file: Seq<char>, i: InstructionView, f: FindingView)
    requires
        i.keyword == "FROM"@,
    ensures
        times(dockerfile::from_findings(file, i), f) == one_if(calls_from(file, i, f)),
{
    let image = dockerfile::base_image(i.args);
    let tail = dockerfile::image_tail(image);
    lemma_built_on(i.args, image);
    lemma_tail(image, tail);
    lemma_latest(tail);
    assert forall|m: Seq<char>| #[trigger] built_on(i.args, m) implies m == image by {
        lemma_built_on(i.args, m);
    }
    assert forall|t: Seq<char>| #[trigger] is_tail(image, t) implies t == tail by {
        lemma_tail(image, t);
    }
    let r = dockerfile::from_findings(file, i);
    lemma_times_small(f, f);
    if r.len() > 0 {
        lemma_times_small(r[0], f);
    }
    assert(built_on(i.args, image) && is_tail(image, tail));
}

proof fn lemma_add(file: Seq<char>, i: InstructionView, f: FindingView)
    requires
        i.keyword == "ADD"@,
    ensures
        times(dockerfile::add_findings(file, i), f) == one_if(calls_add(file, i, f)),
{
    let lower = text::lowered(i.args);
    lemma_holds(lower, "http://"@);
    lemma_holds(lower, "https://"@);
    let r = dockerfile::add_findings(file, i);
    lemma_times_small(f, f);
    if r.len() > 0 {
        lemma_times_small(r[0], f);
    }
}

proof fn lemma_holds_name(s: Seq<char>, part: Seq<char>)
    ensures
        dockerfile::occurs_as_name(s, part) == holds_name(s, part),
{
    let n = part.len() as int;
    if dockerfile::occurs_as_name(s, part) {
        let i = choose|i: int| dockerfile::ends_name_at(s, part, i);
        assert(s =~= s.take(i) + s.subrange(i, i + n) + s.skip(i + n));
        assert(s == s.take(i) + part + s.skip(i + n));
        if i + n < s.len() {
            assert(s.skip(i + n)[0] == s[i + n]);
        }
    }
    if holds_name(s, part) {
        let (x, y) = choose|x: Seq<char>, y: Seq<char>|
            s == #[trigger] (x + part + y) && (y.len() == 0 || !in_name(y[0]));
        let i = x.len() as int;
        assert(s.subrange(i, i + n) =~= part);
        if i + n < s.len() {
            assert(s[i + n] == y[0]);
        }
        assert(dockerfile::ends_name_at(s, part, i));
    }
}

proof fn lemma_apt(file: Seq<char>, i: InstructionView, f: FindingView)
    requires
        i.keyword == "RUN"@,
    ensures
        ({
            let lower = text::lowered(i.args);
            times(
                if_violated(
                    dockerfile::bloats(lower),
                    dockerfile::report(
                        "DOCK005"@,
                        Severity::Low,
                        file,
                        i.line,
                        i.raw,
                        "Missing "@ + dockerfile::apt_missing(lower) + dockerfile::APT_TAIL@,
                        dockerfile::APT_FIX@,
                    ),
                ),
                f,
            ) == one_if(calls_apt(file, i, f))
        }),
{
    let lower = text::lowered(i.args);
    lemma_holds(lower, "apt-get install"@);
    lemma_holds(lower, "apt install"@);
    lemma_holds(lower, "--no-install-recommends"@);
    lemma_holds(lower, "rm -rf /var/lib/apt/lists"@);
    lemma_holds(lower, "apt-get clean"@);
    let g = dockerfile::report(
        "DOCK005"@,
        Severity::Low,
        file,
        i.line,
        i.raw,
        "Missing "@ + dockerfile::apt_missing(lower) + dockerfile::APT_TAIL@,
        dockerfile::APT_FIX@,
    );
    lemma_times_small(g, f);
}

proof fn lemma_pipe(file: Seq<char>, i: InstructionView, f: FindingView)
    requires
        i.keyword == "RUN"@,
    ensures
        times(
            if_violated(
                dockerfile::pipes_to_shell(text::lowered(i.args)),
                dockerfile::report(
                    "DOCK006"@,
                    Severity::High,
                    file,
                    i.line,
                    i.raw,
                    dockerfile::PIPE_SHELL@,
                    dockerfile::PIPE_SHELL_FIX@,
                ),
            ),
            f,
        ) == one_if(calls_pipe(file, i, f)),
{
    let lower = text::lowered(i.args);
    lemma_holds(lower, "curl"@);
    lemma_holds(lower, "wget"@);
    lemma_holds_name(lower, "| sh"@);
    lemma_holds_name(lower, "|sh"@);
    lemma_holds_name(lower, "| bash"@);
    lemma_holds_name(lower, "|bash"@);
    let g = dockerfile::report(
        "DOCK006"@,
        Severity::High,
        file,
        i.line,
        i.raw,
        dockerfile::PIPE_SHELL@,
        dockerfile::PIPE_SHELL_FIX@,
    );
    lemma_times_small(g, f);
}

proof fn lemma_run(file: Seq<char>, i: InstructionView, f: FindingView)
    requires
        i.keyword == "RUN"@,
    ensures
        times(dockerfile::run_findings(file, i), f) == one_if(calls_apt(file, i, f)) + one_if(
            calls_pipe(file, i, f),
        ) + one_if(calls_privileged(file, i, f)) + one_if(calls_sudo(file, i, f)),
{
    let lower = text::lowered(i.args);
    lemma_apt(file, i, f);
    lemma_pipe(file, i, f);
    lemma_holds(lower, "--privileged"@);
    let words = text::word_seq(lower);
    assert(words.contains("sudo"@) <==> exists|k: int|
        0 <= k < text::word_seq(text::lowered(i.args)).len() && #[trigger] text::word_seq(
            text::lowered(i.args),
        )[k] == "sudo"@);
    let a = if_violated(
        dockerfile::bloats(lower),
        dockerfile::report(
            "DOCK005"@,
            Severity::Low,
            file,
            i.line,
            i.raw,
            "Missing "@ + dockerfile::apt_missing(lower) + dockerfile::APT_TAIL@,
            dockerfile::APT_FIX@,
        ),
    );
    let b = if_violated(
        dockerfile::pipes_to_shell(lower),
        dockerfile::report(
            "DOCK006"@,
            Severity::High,
            file,
            i.line,
            i.raw,
            dockerfile::PIPE_SHELL@,
            dockerfile::PIPE_SHELL_FIX@,
        ),
    );
    let c = if_violated(
        text::occurs(lower, "--privileged"@),
        dockerfile::report(
            "DOCK007"@,
            Severity::High,
            file,
            i.line,
            i.raw,
            dockerfile::PRIVILEGED@,
            dockerfile::PRIVILEGED_FIX@,
        ),
    );
    let d = if_violated(
        dockerfile::uses_sudo(lower),
        dockerfile::report(
            "DOCK009"@,
            Severity::Low,
            file,
            i.line,
            i.raw,
            dockerfile::SUDO@,
            dockerfile::SUDO_FIX@,
        ),
    );
    assert(dockerfile::run_findings(file, i) == a + b + c + d);
    lemma_times_add(a + b + c, d, f);
    lemma_times_add(a + b, c, f);
    lemma_times_add(a, b, f);
    lemma_times_small(f, f);
    if c.len() > 0 {
        lemma_times_small(c[0], f);
    }
    if d.len() > 0 {
        lemma_times_small(d[0], f);
    }
}

proof fn lemma_once(file: Seq<char>, i: InstructionView, f: FindingView)
    ensures
        one_if(calls_for(file, i, f)) == one_if(calls_from(file, i, f)) + one_if(
            calls_add(file, i, f),
        ) + one_if(calls_apt(file, i, f)) + one_if(calls_pipe(file, i, f)) + one_if(
            calls_privileged(file, i, f),
        ) + one_if(calls_sudo(file, i, f)),
{
    lemma_numbers();
    let n = number(f.rule_id);
}

proof fn lemma_hints(name: Seq<char>, key: Seq<char>)
    requires
        name == text::lowered(key),
    ensures
        dockerfile::hints_secret(key) == tells_of_secret(name),
{
    lemma_holds(name, "password"@);
    lemma_holds(name, "passwd"@);
    lemma_holds(name, "secret"@);
    lemma_holds(name, "token"@);
    lemma_holds(name, "apikey"@);
    lemma_holds(name, "api_key"@);
    lemma_holds(name, "access_key"@);
    lemma_holds(name, "accesskey"@);
    lemma_holds(name, "private_key"@);
    lemma_holds(name, "privatekey"@);
    lemma_holds(name, "auth_token"@);
    lemma_holds(name, "client_secret"@);
    assert(dockerfile::SECRET_KEY_HINTS@[0]@ == "password"@);
    assert(dockerfile::SECRET_KEY_HINTS@[1]@ == "passwd"@);
    assert(dockerfile::SECRET_KEY_HINTS@[2]@ == "secret"@);
    assert(dockerfile::SECRET_KEY_HINTS@[3]@ == "token"@);
    assert(dockerfile::SECRET_KEY_HINTS@[4]@ == "apikey"@);
    assert(dockerfile::SECRET_KEY_HINTS@[5]@ == "api_key"@);
    assert(dockerfile::SECRET_KEY_HINTS@[6]@ == "access_key"@);
    assert(dockerfile::SECRET_KEY_HINTS@[7]@ == "accesskey"@);
    assert(dockerfile::SECRET_KEY_HINTS@[8]@ == "private_key"@);
    assert(dockerfile::SECRET_KEY_HINTS@[9]@ == "privatekey"@);
    assert(dockerfile::SECRET_KEY_HINTS@[10]@ == "auth_token"@);
    assert(dockerfile::SECRET_KEY_HINTS@[11]@ == "client_secret"@);
}

proof fn lemma_secrets(
    file: Seq<char>,
    i: InstructionView,
    vars: Seq<(Seq<char>, Seq<char>)>,
    f: FindingView,
)
    ensures
        times(dockerfile::secret_findings(file, i, vars), f) == Seq::new(
            vars.len(),
            |k: int| Setting { by: i, key: vars[k].0, value: vars[k].1 },
        ).filter(telling(file, f)).len(),
    decreases vars.len(),
{
    reveal(Seq::filter);
    let all = Seq::new(
        vars.len(),
        |k: int| Setting { by: i, key: vars[k].0, value: vars[k].1 },
    );
    lemma_times_small(f, f);
    if vars.len() > 0 {
        let front = vars.drop_last();
        lemma_secrets(file, i, front, f);
        assert(all.drop_last() =~= Seq::new(
            front.len(),
            |k: int| Setting { by: i, key: front[k].0, value: front[k].1 },
        ));
        let last = vars.last();
        lemma_hints(text::lowered(last.0), last.0);
        lemma_blank(last.1);
        let g = dockerfile::report(
            "DOCK004"@,
            Severity::Critical,
            file,
            i.line,
            i.raw,
            dockerfile::SECRET@,
            dockerfile::SECRET_FIX@,
        );
        lemma_times_add(
            dockerfile::secret_findings(file, i, front),
            if_violated(dockerfile::bakes_secret(last), g),
            f,
        );
        lemma_times_small(g, f);
        assert(telling(file, f)(all.last()) == (dockerfile::bakes_secret(last) && g == f));
    } else {
        assert(all.len() == 0);
    }
}

proof fn lemma_keywords()
    ensures
        "FROM"@ != "ADD"@,
        "FROM"@ != "ENV"@,
        "FROM"@ != "ARG"@,
        "FROM"@ != "RUN"@,
        "ADD"@ != "ENV"@,
        "ADD"@ != "ARG"@,
        "ADD"@ != "RUN"@,
        "ENV"@ != "RUN"@,
        "ARG"@ != "RUN"@,
{
    reveal_strlit("FROM");
    reveal_strlit("ADD");
    reveal_strlit("ENV");
    reveal_strlit("ARG");
    reveal_strlit("RUN");
    assert("FROM"@.len() == 4);
    assert("ADD"@[0] == 'A' && "ADD"@[1] == 'D' && "ADD"@.len() == 3);
    assert("ENV"@[0] == 'E' && "ENV"@.len() == 3);
    assert("ARG"@[0] == 'A' && "ARG"@[1] == 'R' && "ARG"@.len() == 3);
    assert("RUN"@[0] == 'R' && "RUN"@.len() == 3);
}

proof fn lemma_instruction(file: Seq<char>, i: InstructionView, f: FindingView)
    ensures
        times(dockerfile::instruction_findings(file, i), f) == one_if(calls_for(file, i, f))
            + settings_of(i).filter(telling(file, f)).len(),
{
    lemma_keywords();
    lemma_once(file, i, f);
    lemma_times_small(f, f);
    assert(Seq::<Setting>::empty().filter(telling(file, f)).len() == 0) by {
        reveal(Seq::filter);
    }
    if i.keyword == "FROM"@ {
        lemma_from(file, i, f);
    } else if i.keyword == "ADD"@ {
        lemma_add(file, i, f);
    } else if i.keyword == "ENV"@ || i.keyword == "ARG"@ {
        lemma_secrets(file, i, dockerfile::variables(i.args), f);
    } else if i.keyword == "RUN"@ {
        lemma_run(file, i, f);
    }
}

proof fn lemma_each(file: Seq<char>, ins: Seq<InstructionView>, f: FindingView)
    ensures
        times(dockerfile::each_findings(file, ins), f) == ins.filter(calling(file, f)).len()
            + settings(ins).filter(telling(file, f)).len(),
    decreases ins.len(),
{
    reveal(Seq::filter);
    lemma_times_small(f, f);
    if ins.len() > 0 {
        let front = ins.drop_last();
        lemma_each(file, front, f);
        lemma_instruction(file, ins.last(), f);
        lemma_times_add(
            dockerfile::each_findings(file, front),
            dockerfile::instruction_findings(file, ins.last()),
            f,
        );
        Seq::filter_distributes_over_add(
            settings(front),
            settings_of(ins.last()),
            telling(file, f),
        );
        assert(calling(file, f)(ins.last()) == calls_for(file, ins.last(), f));
    }
}

proof fn lemma_file_once(file: Seq<char>, ins: Seq<InstructionView>, f: FindingView)
    ensures
        one_if(file_calls_for(file, ins, f)) == one_if(calls_user(file, ins, f)) + one_if(
            calls_healthcheck(file, ins, f),
        ) + one_if(calls_copy(file, ins, f)),
{
    lemma_numbers();
    let n = number(f.rule_id);
}

/// An audit holds each finding as often as the file, its instructions and the
/// variables that they set call for it, and holds no other.
pub proof fn law_audit_holds_what_is_called_for(file: Seq<char>, content: Seq<char>, f: FindingView)
    requires
        dockerfile::audited(file, content) is Ok,
    ensures
        dockerfile::parsed_content(content) is Ok,
        times(dockerfile::audited(file, content)->Ok_0, f) == ({
            let ins = dockerfile::parsed_content(content)->Ok_0;
            one_if(file_calls_for(file, ins, f)) + ins.filter(calling(file, f)).len() + settings(
                ins,
            ).filter(telling(file, f)).len()
        }),
{
    let ins = dockerfile::parsed_content(content)->Ok_0;
    let u = dockerfile::user_rule(file, ins);
    let h = dockerfile::healthcheck_rule(file, ins);
    let e = dockerfile::each_findings(file, ins);
    let c = dockerfile::cache_rule(file, ins);
    lemma_user(file, ins, f);
    lemma_healthcheck(file, ins, f);
    lemma_each(file, ins, f);
    lemma_copy(file, ins, f);
    lemma_file_once(file, ins, f);
    lemma_times_add(u + h + e, c, f);
    lemma_times_add(u + h, e, f);
    lemma_times_add(u, h, f);
    lemma_times_sorted(dockerfile::rule_findings(file, ins), f);
}

proof fn lemma_setting_is_listed(ins: Seq<InstructionView>, i: int, k: int)
    requires
        0 <= i < ins.len(),
        ins[i].keyword == "ENV"@ || ins[i].keyword == "ARG"@,
        0 <= k < dockerfile::variables(ins[i].args).len(),
    ensures
        settings(ins).contains(
            Setting {
                by: ins[i],
                key: dockerfile::variables(ins[i].args)[k].0,
                value: dockerfile::variables(ins[i].args)[k].1,
            },
        ),
    decreases ins.len(),
{
    let front = ins.drop_last();
    let s = Setting {
        by: ins[i],
        key: dockerfile::variables(ins[i].args)[k].0,
        value: dockerfile::variables(ins[i].args)[k].1,
    };
    let all = settings(ins);
    let tail = settings_of(ins.last());
    if i == ins.len() - 1 {
        assert(tail[k] == s);
        assert(all[settings(front).len() + k] == s);
    } else {
        assert(front[i] == ins[i]);
        lemma_setting_is_listed(front, i, k);
        let n = choose|n: int| 0 <= n < settings(front).len() && settings(front)[n] == s;
        assert(all[n] == s);
    }
}

/// A variable whose name holds a word for a secret, with anything before and
/// behind it and in any case, is reported on the line of the instruction that
/// sets it, unless it is set to nothing but white space.
pub proof fn law_secrets_are_reported(
    file: Seq<char>,
    content: Seq<char>,
    i: int,
    k: int,
    before: Seq<char>,
    hint: Seq<char>,
    behind: Seq<char>,
)
    requires
        dockerfile::audited(file, content) is Ok,
        0 <= i < dockerfile::parsed_content(content)->Ok_0.len(),
        dockerfile::parsed_content(content)->Ok_0[i].keyword == "ENV"@
            || dockerfile::parsed_content(content)->Ok_0[i].keyword == "ARG"@,
        0 <= k < dockerfile::variables(dockerfile::parsed_content(content)->Ok_0[i].args).len(),
        text::lowered(
            dockerfile::variables(dockerfile::parsed_content(content)->Ok_0[i].args)[k].0,
        ) == before + hint + behind,
        is_hint(hint),
        !blank(dockerfile::variables(dockerfile::parsed_content(content)->Ok_0[i].args)[k].1),
    ensures
        exists|n: int|
            0 <= n < dockerfile::audited(file, content)->Ok_0.len() && (
            #[trigger] dockerfile::audited(file, content)->Ok_0[n]).rule_id == "DOCK004"@
                && dockerfile::audited(file, content)->Ok_0[n].line == dockerfile::parsed_content(
                content,
            )->Ok_0[i].line,
{
    let ins = dockerfile::parsed_content(content)->Ok_0;
    let pair = dockerfile::variables(ins[i].args)[k];
    let s = Setting { by: ins[i], key: pair.0, value: pair.1 };
    let f = on(
        file,
        ins[i],
        "DOCK004"@,
        Severity::Critical,
        "Values baked into ENV/ARG are permanently embedded in the image layer history and readable via 'docker history'/'docker inspect' by anyone with pull access, even after a later layer removes them."@,
        "Pass the secret at runtime (env var, mounted file, or orchestrator secret store) or use a BuildKit '--mount=type=secret', never ENV/ARG."@,
    );
    let name = text::lowered(pair.0);
    assert(holds(name, hint));
    assert(tells_of_secret(name));
    assert(calls_secret(file, s, f));
    lemma_setting_is_listed(ins, i, k);
    let all = settings(ins);
    let m = choose|m: int| 0 <= m < all.len() && all[m] == s;
    assert(telling(file, f)(all[m]));
    all.lemma_filter_contains(telling(file, f), m);
    law_audit_holds_what_is_called_for(file, content, f);
    let fs = dockerfile::audited(file, content)->Ok_0;
    lemma_times_contains(fs, f);
    let n = choose|n: int| 0 <= n < fs.len() && fs[n] == f;
    assert(fs[n].rule_id == "DOCK004"@);
}

/// Whether a text is a word for a secret.
pub open spec fn is_hint(name: Seq<char>) -> bool {
    ||| name == "password"@
    ||| name == "passwd"@
    ||| name == "secret"@
    ||| name == "token"@
    ||| name == "apikey"@
    ||| name == "api_key"@
    ||| name == "access_key"@
    ||| name == "accesskey"@
    ||| name == "private_key"@
    ||| name == "privatekey"@
    ||| name == "auth_token"@
    ||| name == "client_secret"@
}

} // verus!
