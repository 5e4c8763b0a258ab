//! Parser and rule set for `Dockerfile`s.
//!
//! Dockerfiles are line-oriented (`INSTRUCTION args...`) with backslash line
//! continuation and `#` comments. The parser joins continued lines, records
//! the line each instruction started on, and ignores comments.

use crate::finding::{add_finding, if_violated, views, Finding, FindingView, Severity, SourceKind};
use crate::order;
use crate::parsers::{lemma_prepend_nothing, lemma_prepend_one, prepended};
use crate::text;
use vstd::prelude::*;
use vstd::slice::slice_subrange;

verus! {

/// One instruction of a Dockerfile.
#[derive(Debug)]
pub struct Instruction {
    /// Upper-cased keyword.
    pub keyword: String,
    pub args: String,
    /// The 1-based line it started on.
    pub line: usize,
    pub raw: String,
}

/// What an instruction says.
#[verifier::ext_equal]
pub struct InstructionView {
    pub keyword: Seq<char>,
    pub args: Seq<char>,
    pub line: nat,
    pub raw: Seq<char>,
}

impl View for Instruction {
    type V = InstructionView;

    open spec fn view(&self) -> InstructionView {
        InstructionView {
            keyword: self.keyword@,
            args: self.args@,
            line: self.line as nat,
            raw: self.raw@,
        }
    }
}

impl Clone for Instruction {
    fn clone(&self) -> (r: Instruction)
        ensures
            r@ == self@,
    {
        Instruction {
            keyword: self.keyword.clone(),
            args: self.args.clone(),
            line: self.line,
            raw: self.raw.clone(),
        }
    }
}

/// What the instructions of a list say.
pub open spec fn instruction_views(s: Seq<Instruction>) -> Seq<InstructionView> {
    s.map_values(|i: Instruction| i@)
}

/// Whether a line is a comment: its first character that is not blank is `#`.
pub open spec fn is_comment(line: Seq<char>) -> bool {
    let t = text::trimmed(line);
    t.len() > 0 && t[0] == '#'
}

/// Whether a line holds no instruction: it is blank or a comment.
pub open spec fn skipped(line: Seq<char>) -> bool {
    text::trimmed(line).len() == 0 || is_comment(line)
}

/// Whether a line goes on on the next one.
pub open spec fn goes_on(line: Seq<char>) -> bool {
    line.len() > 0 && line.last() == '\\'
}

/// A line and its continuation in one.
pub open spec fn continued_by(line: Seq<char>, next: Seq<char>) -> Seq<char> {
    text::trimmed_end(line.drop_last().push(' ') + text::trimmed(next))
}

/// `line`, which ends on line `i` of the file, with the lines that continue
/// it, and the position of the last of them. Comments between them are left
/// out. None if the file ends where another line should follow.
pub open spec fn whole_line(lines: Seq<Seq<char>>, line: Seq<char>, i: int) -> Option<
    (Seq<char>, int),
>
    decreases lines.len() - i,
{
    if !goes_on(line) {
        Some((line, i))
    } else if i + 1 >= lines.len() {
        None
    } else if is_comment(lines[i + 1]) {
        whole_line(lines, line, i + 1)
    } else {
        whole_line(lines, continued_by(line, lines[i + 1]), i + 1)
    }
}

/// The instruction that a trimmed line writes: a keyword, up to the first
/// white space, and its arguments.
pub open spec fn instruction(t: Seq<char>, line: nat) -> InstructionView {
    let n = text::space_index(t);
    InstructionView {
        keyword: text::uppered(t.take(n)),
        args: if n < t.len() {
            text::trimmed(t.skip(n + 1))
        } else {
            Seq::empty()
        },
        line,
        raw: t,
    }
}

/// An error message about a line.
pub open spec fn line_error(line: nat, what: Seq<char>) -> Seq<char> {
    "line "@ + text::decimal_text(line) + what
}

/// A joined line ends on or behind the line where it began.
pub proof fn lemma_whole_line_advances(lines: Seq<Seq<char>>, line: Seq<char>, i: int)
    requires
        i < lines.len(),
    ensures
        whole_line(lines, line, i) matches Some((_, last)) ==> i <= last < lines.len(),
    decreases lines.len() - i,
{
    if goes_on(line) && i + 1 < lines.len() {
        if is_comment(lines[i + 1]) {
            lemma_whole_line_advances(lines, line, i + 1);
        } else {
            lemma_whole_line_advances(lines, continued_by(line, lines[i + 1]), i + 1);
        }
    }
}

/// The instructions written from line `i` on, or the first error.
pub open spec fn parsed(lines: Seq<Seq<char>>, i: int) -> Result<Seq<InstructionView>, Seq<char>>
    decreases lines.len() - i,
{
    if i >= lines.len() {
        Ok(Seq::empty())
    } else if skipped(lines[i]) {
        parsed(lines, i + 1)
    } else {
        proof {
            lemma_whole_line_advances(lines, text::trimmed_end(lines[i]), i);
        }
        match whole_line(lines, text::trimmed_end(lines[i]), i) {
            None => Err(
                line_error(
                    (i + 1) as nat,
                    ": line continuation ('\\\\') with no following line"@,
                ),
            ),
            Some((whole, last)) => {
                let t = text::trimmed(whole);
                if t.len() == 0 {
                    Err(line_error((i + 1) as nat, ": empty instruction"@))
                } else {
                    prepended(seq![instruction(t, (i + 1) as nat)], parsed(lines, last + 1))
                }
            },
        }
    }
}

/// The instructions of a whole file.
pub open spec fn parsed_content(content: Seq<char>) -> Result<Seq<InstructionView>, Seq<char>> {
    parsed(text::line_seq(content), 0)
}

/// An error message about a line.
fn error_at(line: usize, what: &str) -> (r: String)
    ensures
        r@ == line_error(line as nat, what@),
{
    let mut message = "line ".to_owned();
    message.append(text::decimal(line).as_str());
    message.append(what);
    message
}

/// Joins the line at `i` with the lines that continue it.
fn join_lines(lines: &Vec<&[char]>, i: usize) -> (r: Option<(Vec<char>, usize)>)
    requires
        i < lines@.len(),
    ensures
        match whole_line(
            text::texts(lines@),
            text::trimmed_end(text::texts(lines@)[i as int]),
            i as int,
        ) {
            Some((whole, last)) => r matches Some((w, l)) && w@ == whole && l == last && i <= last
                < lines@.len(),
            None => r is None,
        },
{
    let ghost ls = text::texts(lines@);
    let mut joined: Vec<char> = Vec::new();
    joined.extend_from_slice(text::trim_end(lines[i]));
    assert(joined@ =~= text::trimmed_end(ls[i as int]));
    let mut last: usize = i;
    while joined.len() > 0 && joined[joined.len() - 1] == '\\'
        invariant
            ls == text::texts(lines@),
            i <= last < lines@.len(),
            whole_line(ls, text::trimmed_end(ls[i as int]), i as int) == whole_line(
                ls,
                joined@,
                last as int,
            ),
        decreases lines@.len() - last,
    {
        let ghost before = joined@;
        assert(goes_on(before));
        if last == lines.len() - 1 {
            return None;
        }
        last += 1;
        let next = text::trim(lines[last]);
        assert(next@ == text::trimmed(ls[last as int]));
        if next.len() == 0 || next[0] != '#' {
            let _ = joined.pop();
            joined.push(' ');
            joined.extend_from_slice(next);
            assert(joined@ =~= before.drop_last().push(' ') + next@);
            let mut cut: Vec<char> = Vec::new();
            cut.extend_from_slice(text::trim_end(joined.as_slice()));
            assert(cut@ =~= continued_by(before, ls[last as int]));
            joined = cut;
        }
    }
    Some((joined, last))
}

/// Reads the instruction on a trimmed line.
fn parse_instruction(t: &[char], line: usize) -> (r: Instruction)
    ensures
        r@ == instruction(t@, line as nat),
{
    let n: usize = text::find_space(t);
    assert(t@.take(n as int) =~= t@.subrange(0, n as int));
    let keyword = text::to_upper(slice_subrange(t, 0, n));
    let args = if n < t.len() {
        assert(t@.skip(n + 1) =~= t@.subrange(n + 1, t@.len() as int));
        text::string_of(text::trim(slice_subrange(t, n + 1, t.len())))
    } else {
        String::new()
    };
    Instruction {
        keyword: text::string_of(keyword.as_slice()),
        args,
        line,
        raw: text::string_of(t),
    }
}

/// Parses a Dockerfile into instructions, joining backslash-continued lines
/// and recording the line number the instruction started on. Comments are
/// ignored, between instructions and within them.
///
/// # Errors
/// Returns an error if a line continuation has no following line, or an
/// instruction line is empty after trimming.
pub fn parse(content: &str) -> (r: Result<Vec<Instruction>, String>)
    ensures
        match parsed_content(content@) {
            Ok(ins) => r is Ok && instruction_views(r->Ok_0@) == ins,
            Err(m) => r is Err && r->Err_0@ == m,
        },
{
    let chars = text::chars_of(content);
    let lines = text::lines(chars.as_slice());
    let ghost ls = text::line_seq(content@);
    let mut instructions: Vec<Instruction> = Vec::new();
    let mut i: usize = 0;
    proof {
        assert(instruction_views(instructions@) =~= Seq::empty());
        lemma_prepend_nothing(parsed(ls, 0));
    }
    while i < lines.len()
        invariant
            i <= lines@.len(),
            ls == text::texts(lines@),
            ls == text::line_seq(content@),
            parsed(ls, 0) == prepended(
                instruction_views(instructions@),
                parsed(ls, i as int),
            ),
        decreases lines@.len() - i,
    {
        let ghost seen = instruction_views(instructions@);
        assert(ls[i as int] == lines@[i as int]@);
        let trimmed = text::trim(lines[i]);
        if trimmed.len() == 0 || trimmed[0] == '#' {
            i += 1;
        } else {
            match join_lines(&lines, i) {
                None => {
                    return Err(
                        error_at(i + 1, ": line continuation ('\\\\') with no following line"),
                    );
                },
                Some((whole, last)) => {
                    let t = text::trim(whole.as_slice());
                    if t.len() == 0 {
                        return Err(error_at(i + 1, ": empty instruction"));
                    }
                    let ins = parse_instruction(t, i + 1);
                    let ghost iv = ins@;
                    instructions.push(ins);
                    proof {
                        assert(instruction_views(instructions@) =~= seen.push(iv));
                        lemma_prepend_one(seen, iv, parsed(ls, last + 1));
                    }
                    i = last + 1;
                },
            }
        }
    }
    assert(instruction_views(instructions@) + Seq::<InstructionView>::empty()
        =~= instruction_views(instructions@));
    Ok(instructions)
}

/// Parts of variable names that stand for secrets.
pub const SECRET_KEY_HINTS: [&'static str; 12] = [
    "password",
    "passwd",
    "secret",
    "token",
    "apikey",
    "api_key",
    "access_key",
    "accesskey",
    "private_key",
    "privatekey",
    "auth_token",
    "client_secret",
];

pub const NO_USER: &'static str = "The container runs as root by default. A compromise of the containerized process (e.g. via a code injection bug) grants the attacker root inside the container and a much shorter path to breaking out to the host.";

pub const NO_USER_FIX: &'static str = "Add a non-root user and switch to it, e.g. 'RUN useradd -m app' then 'USER app'.";

pub const ROOT_USER: &'static str = "The container explicitly runs as root. A compromise of the containerized process grants the attacker root inside the container and a much shorter path to breaking out to the host.";

pub const ROOT_USER_FIX: &'static str = "Create and switch to a non-root user, e.g. 'RUN useradd -m app' then 'USER app'.";

pub const NO_HEALTHCHECK: &'static str = "Without a HEALTHCHECK, orchestrators cannot detect that the process inside the container has hung or is unresponsive, so traffic keeps being routed to a dead instance.";

pub const NO_HEALTHCHECK_FIX: &'static str = "Add a HEALTHCHECK instruction, e.g. 'HEALTHCHECK CMD curl -f http://localhost/health || exit 1'.";

pub const NO_TAG: &'static str = "No tag means Docker resolves ':latest' at build time, so the exact base image contents are not reproducible and can silently change (including picking up new vulnerabilities) between builds.";

pub const LATEST_TAG: &'static str = "':latest' is a moving target: the exact base image contents are not reproducible and can silently change (including picking up new vulnerabilities) between builds.";

pub const TAG_FIX: &'static str = "Pin an explicit version tag, e.g. 'FROM debian:12.5' (ideally pin by digest for full reproducibility).";

pub const ADD_URL: &'static str = "ADD fetches the URL with no integrity check and unpacks archives automatically; a compromised or MITM'd URL can inject arbitrary files into the image without any verification step.";

pub const ADD_URL_FIX: &'static str = "Use 'RUN curl -fsSL <url> -o file && sha256sum -c ...' (or COPY a locally vetted file) so the download is checksummed.";

pub const SECRET: &'static str = "Values baked into ENV/ARG are permanently embedded in the image layer history and readable via 'docker history'/'docker inspect' by anyone with pull access, even after a later layer removes them.";

pub const SECRET_FIX: &'static str = "Pass the secret at runtime (env var, mounted file, or orchestrator secret store) or use a BuildKit '--mount=type=secret', never ENV/ARG.";

pub const APT_BOTH: &'static str = "'--no-install-recommends' and apt list cleanup";

pub const APT_RECOMMENDS: &'static str = "'--no-install-recommends'";

pub const APT_CLEANUP: &'static str = "apt list cleanup ('rm -rf /var/lib/apt/lists/*')";

pub const APT_TAIL: &'static str = ": this pulls in extra packages and leaves apt's package index cached in the image layer, growing the attack surface (more installed software) and image size unnecessarily.";

pub const APT_FIX: &'static str = "Use 'apt-get install -y --no-install-recommends <pkgs> && rm -rf /var/lib/apt/lists/*' in the same RUN layer.";

pub const PIPE_SHELL: &'static str = "Piping a remote download straight into a shell executes whatever that server returns with no integrity check or review; a compromised endpoint or MITM gives an attacker arbitrary code execution during the build.";

pub const PIPE_SHELL_FIX: &'static str = "Download to a file, verify its checksum/signature, then execute it, e.g. 'curl -fsSL url -o install.sh && sha256sum -c install.sh.sha256 && sh install.sh'.";

pub const PRIVILEGED: &'static str = "A '--privileged' reference inside the build suggests the resulting image expects (or was tested with) full host device/capability access, which effectively disables container isolation for anything using it.";

pub const PRIVILEGED_FIX: &'static str = "Avoid requiring '--privileged'; grant only the specific capabilities needed via '--cap-add'.";

pub const SUDO: &'static str = "'sudo' inside a build step is redundant (build steps already run as root by default) and if it lingers into the runtime image it lets a non-root USER trivially regain root.";

pub const SUDO_FIX: &'static str = "Remove 'sudo'; run the command directly as root during build, and if a non-root runtime user needs elevated actions, grant a narrow, explicit mechanism instead.";

pub const COPY_ALL: &'static str = "Copying the entire build context before installing dependencies invalidates Docker's layer cache on every source-code change, forcing a full dependency reinstall on nearly every build.";

pub const COPY_ALL_FIX: &'static str = "Copy only the dependency manifest first (e.g. 'COPY package.json .'), run the install, then 'COPY . .' for the rest of the source.";

/// A finding in a Dockerfile.
pub open spec fn report(
    rule_id: Seq<char>,
    severity: Severity,
    file: Seq<char>,
    line: nat,
    evidence: Seq<char>,
    consequence: Seq<char>,
    fix: Seq<char>,
) -> FindingView {
    FindingView {
        rule_id,
        severity,
        source: SourceKind::Dockerfile,
        file,
        line,
        evidence,
        consequence,
        fix,
    }
}

/// The pieces of `s` between white space that stands outside quotes, after
/// the part `piece` of a piece and inside the quotes `quote`, if any. The
/// quotes stay in the pieces.
pub open spec fn pieces_from(s: Seq<char>, piece: Seq<char>, quote: Option<char>) -> Seq<Seq<char>>
    decreases s.len(),
{
    if s.len() == 0 {
        if piece.len() > 0 {
            seq![piece]
        } else {
            Seq::empty()
        }
    } else {
        let c = s[0];
        let rest = s.drop_first();
        if quote is None && (c == '"' || c == '\'') {
            pieces_from(rest, piece.push(c), Some(c))
        } else if quote == Some(c) {
            pieces_from(rest, piece.push(c), None)
        } else if text::is_white_space(c) && quote is None {
            if piece.len() > 0 {
                seq![piece] + pieces_from(rest, Seq::empty(), None)
            } else {
                pieces_from(rest, Seq::empty(), None)
            }
        } else {
            pieces_from(rest, piece.push(c), quote)
        }
    }
}

/// The pieces of `s` between white space that stands outside quotes.
pub open spec fn pieces(s: Seq<char>) -> Seq<Seq<char>> {
    pieces_from(s, Seq::empty(), None)
}

/// `s` without the occurrences of `c` at both ends.
pub open spec fn unquoted(s: Seq<char>, c: char) -> Seq<char> {
    text::stripped_end(text::stripped_start(s, seq![c]), seq![c])
}

/// The `KEY=VALUE` pair that a piece writes, if it holds a `=`.
pub open spec fn pair_in(piece: Seq<char>) -> Option<(Seq<char>, Seq<char>)> {
    let n = text::char_index(piece, '=');
    if n < piece.len() {
        Some((piece.take(n), unquoted(unquoted(piece.skip(n + 1), '"'), '\'')))
    } else {
        None
    }
}

/// The pairs that pieces write.
pub open spec fn pairs_in(ps: Seq<Seq<char>>) -> Seq<(Seq<char>, Seq<char>)>
    decreases ps.len(),
{
    if ps.len() == 0 {
        Seq::empty()
    } else {
        match pair_in(ps.last()) {
            Some(pair) => pairs_in(ps.drop_last()).push(pair),
            None => pairs_in(ps.drop_last()),
        }
    }
}

/// The variables that the arguments of `ENV` or `ARG` set: `KEY=VALUE` pairs,
/// or a single `KEY VALUE` where there is no `=` in the first piece.
pub open spec fn variables(args: Seq<char>) -> Seq<(Seq<char>, Seq<char>)> {
    let ps = pieces(args);
    let n = text::space_index(args);
    if ps.len() > 0 && ps[0].contains('=') {
        pairs_in(ps)
    } else if n < args.len() {
        seq![(args.take(n), text::trimmed(args.skip(n + 1)))]
    } else {
        Seq::empty()
    }
}

/// The last instruction with the given keyword.
pub open spec fn last_named(ins: Seq<InstructionView>, keyword: Seq<char>) -> Option<
    InstructionView,
>
    decreases ins.len(),
{
    if ins.len() == 0 {
        None
    } else if ins.last().keyword == keyword {
        Some(ins.last())
    } else {
        last_named(ins.drop_last(), keyword)
    }
}

/// Whether the argument of `USER` names root, by name or number.
pub open spec fn names_root(args: Seq<char>) -> bool {
    let user = text::trimmed(args.take(text::char_index(args, ':')));
    user == "root"@ || user == "0"@
}

/// The image is not to run as root.
pub open spec fn user_rule(file: Seq<char>, ins: Seq<InstructionView>) -> Seq<FindingView> {
    match last_named(ins, "USER"@) {
        None => seq![
            report(
                "DOCK001"@,
                Severity::High,
                file,
                0,
                "(no USER instruction)"@,
                NO_USER@,
                NO_USER_FIX@,
            ),
        ],
        Some(i) => if_violated(
            names_root(i.args),
            report("DOCK001"@, Severity::High, file, i.line, i.raw, ROOT_USER@, ROOT_USER_FIX@),
        ),
    }
}

/// There is to be a `HEALTHCHECK`.
pub open spec fn healthcheck_rule(file: Seq<char>, ins: Seq<InstructionView>) -> Seq<FindingView> {
    if_violated(
        last_named(ins, "HEALTHCHECK"@) is None,
        report(
            "DOCK008"@,
            Severity::Info,
            file,
            0,
            "(no HEALTHCHECK instruction)"@,
            NO_HEALTHCHECK@,
            NO_HEALTHCHECK_FIX@,
        ),
    )
}

/// Whether an argument is a flag.
pub open spec fn is_flag(word: Seq<char>) -> bool {
    text::begins(word, "--"@)
}

/// The first word that is not a flag, or nothing.
pub open spec fn first_plain(words: Seq<Seq<char>>) -> Seq<char>
    decreases words.len(),
{
    if words.len() == 0 {
        Seq::empty()
    } else if is_flag(words[0]) {
        first_plain(words.drop_first())
    } else {
        words[0]
    }
}

/// The base image that the arguments of `FROM` name: the first that is not a
/// flag.
pub open spec fn base_image(args: Seq<char>) -> Seq<char> {
    first_plain(text::word_seq(args))
}

/// The name and tag of an image: what stands behind the last slash.
pub open spec fn image_tail(image: Seq<char>) -> Seq<char> {
    text::split_seq(image, '/').last()
}

/// A base image is to have a tag, and not `latest`. The empty image `scratch`
/// has none.
pub open spec fn from_findings(file: Seq<char>, i: InstructionView) -> Seq<FindingView> {
    let image = base_image(i.args);
    if image == "scratch"@ {
        Seq::empty()
    } else if !image_tail(image).contains(':') {
        seq![report("DOCK002"@, Severity::Medium, file, i.line, i.raw, NO_TAG@, TAG_FIX@)]
    } else {
        if_violated(
            text::ends(image_tail(image), ":latest"@),
            report("DOCK002"@, Severity::Medium, file, i.line, i.raw, LATEST_TAG@, TAG_FIX@),
        )
    }
}

/// `ADD` is not to fetch a URL.
pub open spec fn add_findings(file: Seq<char>, i: InstructionView) -> Seq<FindingView> {
    let lower = text::lowered(i.args);
    if_violated(
        text::occurs(lower, "http://"@) || text::occurs(lower, "https://"@),
        report("DOCK003"@, Severity::Medium, file, i.line, i.raw, ADD_URL@, ADD_URL_FIX@),
    )
}

/// Whether a name looks like that of a secret.
pub open spec fn hints_secret(key: Seq<char>) -> bool {
    exists|k: int|
        0 <= k < SECRET_KEY_HINTS@.len() && text::occurs(
            text::lowered(key),
            (#[trigger] SECRET_KEY_HINTS@[k])@,
        )
}

/// Whether a variable bakes in a secret: its name looks like that of a secret
/// and its value is not blank.
pub open spec fn bakes_secret(pair: (Seq<char>, Seq<char>)) -> bool {
    hints_secret(pair.0) && text::trimmed(pair.1).len() > 0
}

/// No variable is to bake in a secret; each that does is reported.
pub open spec fn secret_findings(
    file: Seq<char>,
    i: InstructionView,
    pairs: Seq<(Seq<char>, Seq<char>)>,
) -> Seq<FindingView>
    decreases pairs.len(),
{
    if pairs.len() == 0 {
        Seq::empty()
    } else {
        secret_findings(file, i, pairs.drop_last()) + if_violated(
            bakes_secret(pairs.last()),
            report("DOCK004"@, Severity::Critical, file, i.line, i.raw, SECRET@, SECRET_FIX@),
        )
    }
}

/// Whether a command suppresses recommended packages.
pub open spec fn no_recommends(lower: Seq<char>) -> bool {
    text::occurs(lower, "--no-install-recommends"@)
}

/// Whether a command removes what the package manager cached.
pub open spec fn cleans(lower: Seq<char>) -> bool {
    text::occurs(lower, "rm -rf /var/lib/apt/lists"@) || text::occurs(lower, "apt-get clean"@)
}

/// What an `apt-get install` lacks.
pub open spec fn apt_missing(lower: Seq<char>) -> Seq<char> {
    if no_recommends(lower) {
        APT_CLEANUP@
    } else if cleans(lower) {
        APT_RECOMMENDS@
    } else {
        APT_BOTH@
    }
}

/// Whether a command installs packages and leaves something behind.
pub open spec fn bloats(lower: Seq<char>) -> bool {
    &&& text::occurs(lower, "apt-get install"@) || text::occurs(lower, "apt install"@)
    &&& !no_recommends(lower) || !cleans(lower)
}

/// Whether a character can go on the name of a command.
pub open spec fn goes_on_name(c: char) -> bool {
    'a' <= c <= 'z' || 'A' <= c <= 'Z' || '0' <= c <= '9' || c == '_' || c == '-'
}

/// Whether `pat` stands at position `i` and no longer name does.
pub open spec fn ends_name_at(s: Seq<char>, pat: Seq<char>, i: int) -> bool {
    &&& text::stands_at(s, pat, i)
    &&& i + pat.len() < s.len() ==> !goes_on_name(s[i + pat.len()])
}

/// Whether `pat` occurs somewhere as the end of a name.
pub open spec fn occurs_as_name(s: Seq<char>, pat: Seq<char>) -> bool {
    exists|i: int| ends_name_at(s, pat, i)
}

/// Whether a command pipes a download into a shell.
pub open spec fn pipes_to_shell(lower: Seq<char>) -> bool {
    &&& text::occurs(lower, "curl"@) || text::occurs(lower, "wget"@)
    &&& occurs_as_name(lower, "| sh"@) || occurs_as_name(lower, "|sh"@) || occurs_as_name(
        lower,
        "| bash"@,
    ) || occurs_as_name(lower, "|bash"@)
}

/// Whether `sudo` is one of the words of a command.
pub open spec fn uses_sudo(lower: Seq<char>) -> bool {
    text::word_seq(lower).contains("sudo"@)
}

/// The findings on a `RUN` instruction.
pub open spec fn run_findings(file: Seq<char>, i: InstructionView) -> Seq<FindingView> {
    let lower = text::lowered(i.args);
    if_violated(
        bloats(lower),
        report(
            "DOCK005"@,
            Severity::Low,
            file,
            i.line,
            i.raw,
            "Missing "@ + apt_missing(lower) + APT_TAIL@,
            APT_FIX@,
        ),
    ) + if_violated(
        pipes_to_shell(lower),
        report("DOCK006"@, Severity::High, file, i.line, i.raw, PIPE_SHELL@, PIPE_SHELL_FIX@),
    ) + if_violated(
        text::occurs(lower, "--privileged"@),
        report("DOCK007"@, Severity::High, file, i.line, i.raw, PRIVILEGED@, PRIVILEGED_FIX@),
    ) + if_violated(
        uses_sudo(lower),
        report("DOCK009"@, Severity::Low, file, i.line, i.raw, SUDO@, SUDO_FIX@),
    )
}

/// The findings on one instruction.
pub open spec fn instruction_findings(file: Seq<char>, i: InstructionView) -> Seq<FindingView> {
    if i.keyword == "FROM"@ {
        from_findings(file, i)
    } else if i.keyword == "ADD"@ {
        add_findings(file, i)
    } else if i.keyword == "ENV"@ || i.keyword == "ARG"@ {
        secret_findings(file, i, variables(i.args))
    } else if i.keyword == "RUN"@ {
        run_findings(file, i)
    } else {
        Seq::empty()
    }
}

/// The findings on the instructions one by one.
pub open spec fn each_findings(file: Seq<char>, ins: Seq<InstructionView>) -> Seq<FindingView>
    decreases ins.len(),
{
    if ins.len() == 0 {
        Seq::empty()
    } else {
        each_findings(file, ins.drop_last()) + instruction_findings(file, ins.last())
    }
}

/// Whether an instruction installs or downloads dependencies.
pub open spec fn installs(i: InstructionView) -> bool {
    let lower = text::lowered(i.args);
    i.keyword == "RUN"@ && (text::occurs(lower, "install"@) || text::occurs(lower, "download"@))
}

/// Whether an instruction copies the entire build context.
pub open spec fn copies_all(i: InstructionView) -> bool {
    let a = text::trimmed(i.args);
    i.keyword == "COPY"@ && (a == ". ."@ || text::begins(a, ". . "@) || a == "./ ./"@)
}

/// The line of the first instruction that installs dependencies.
pub open spec fn first_install(ins: Seq<InstructionView>) -> Option<nat>
    decreases ins.len(),
{
    if ins.len() == 0 {
        None
    } else if installs(ins[0]) {
        Some(ins[0].line)
    } else {
        first_install(ins.drop_first())
    }
}

/// The first instruction that copies the entire build context.
pub open spec fn first_copy_all(ins: Seq<InstructionView>) -> Option<InstructionView>
    decreases ins.len(),
{
    if ins.len() == 0 {
        None
    } else if copies_all(ins[0]) {
        Some(ins[0])
    } else {
        first_copy_all(ins.drop_first())
    }
}

/// The build context is not to be copied before dependencies are installed.
pub open spec fn cache_rule(file: Seq<char>, ins: Seq<InstructionView>) -> Seq<FindingView> {
    match (first_copy_all(ins), first_install(ins)) {
        (Some(copy), Some(install)) => if_violated(
            copy.line < install,
            report(
                "DOCK010"@,
                Severity::Info,
                file,
                copy.line,
                copy.raw,
                COPY_ALL@,
                COPY_ALL_FIX@,
            ),
        ),
        _ => Seq::empty(),
    }
}

/// The findings of all rules on the instructions of a file.
pub open spec fn rule_findings(file: Seq<char>, ins: Seq<InstructionView>) -> Seq<FindingView> {
    user_rule(file, ins) + healthcheck_rule(file, ins) + each_findings(file, ins) + cache_rule(
        file,
        ins,
    )
}

/// The outcome of an audit: the findings in order, or the parse error.
pub open spec fn audited(file: Seq<char>, content: Seq<char>) -> Result<
    Seq<FindingView>,
    Seq<char>,
> {
    match parsed_content(content) {
        Ok(ins) => Ok(order::sorted(rule_findings(file, ins))),
        Err(m) => Err(m),
    }
}

/// A finding in a Dockerfile.
fn mk(
    rule_id: &str,
    severity: Severity,
    file: &str,
    line: usize,
    evidence: &str,
    consequence: &str,
    fix: &str,
) -> (r: Finding)
    ensures
        r@ == report(rule_id@, severity, file@, line as nat, evidence@, consequence@, fix@),
{
    Finding::new(rule_id, severity, SourceKind::Dockerfile, file, line, evidence, consequence, fix)
}

/// Appends a string.
fn push_string(out: &mut Vec<String>, s: String)
    ensures
        text::string_texts(final(out)@) == text::string_texts(old(out)@).push(s@),
{
    let ghost before = text::string_texts(out@);
    let ghost added = s@;
    out.push(s);
    assert(text::string_texts(out@) =~= before.push(added));
}

/// The pieces of a text between white space that stands outside quotes.
pub fn split_respecting_quotes(t: &[char]) -> (r: Vec<String>)
    ensures
        text::string_texts(r@) == pieces(t@),
{
    let ghost s = t@;
    let mut out: Vec<String> = Vec::new();
    let mut piece: Vec<char> = Vec::new();
    let mut quote: Option<char> = None;
    let mut i: usize = 0;
    proof {
        assert(s.skip(0) =~= s);
        assert(piece@ =~= Seq::empty());
        assert(text::string_texts(out@) + pieces(s) =~= pieces(s));
    }
    while i < t.len()
        invariant
            s == t@,
            i <= s.len(),
            text::string_texts(out@) + pieces_from(s.skip(i as int), piece@, quote) == pieces(s),
        decreases s.len() - i,
    {
        let c = t[i];
        let ghost seen = text::string_texts(out@);
        let ghost here = s.skip(i as int);
        proof {
            assert(here[0] == c);
            assert(here.drop_first() =~= s.skip(i + 1));
        }
        match quote {
            None => {
                if c == '"' || c == '\'' {
                    quote = Some(c);
                    piece.push(c);
                } else if text::white_space(c) {
                    if piece.len() > 0 {
                        let ghost done = piece@;
                        push_string(&mut out, text::string_of(piece.as_slice()));
                        piece.clear();
                        assert(piece@ =~= Seq::empty());
                        assert(text::string_texts(out@) + pieces_from(
                            s.skip(i + 1),
                            piece@,
                            quote,
                        ) =~= seen + pieces_from(here, done, quote));
                    } else {
                        assert(piece@ =~= Seq::empty());
                    }
                } else {
                    piece.push(c);
                }
            },
            Some(q) => {
                if c == q {
                    quote = None;
                }
                piece.push(c);
            },
        }
        i += 1;
    }
    let ghost seen = text::string_texts(out@);
    if piece.len() > 0 {
        push_string(&mut out, text::string_of(piece.as_slice()));
    }
    assert(text::string_texts(out@) =~= seen + pieces_from(s.skip(i as int), piece@, quote));
    out
}

/// The variables of a list of pairs.
pub open spec fn pair_views(ps: Seq<(String, String)>) -> Seq<(Seq<char>, Seq<char>)> {
    ps.map_values(|p: (String, String)| (p.0@, p.1@))
}

/// Appends a pair.
fn push_pair(out: &mut Vec<(String, String)>, key: String, value: String)
    ensures
        pair_views(final(out)@) == pair_views(old(out)@).push((key@, value@)),
{
    let ghost before = pair_views(out@);
    let ghost added = (key@, value@);
    out.push((key, value));
    assert(pair_views(out@) =~= before.push(added));
}

/// Drops the occurrences of `c` at both ends.
fn unquote(t: &[char], c: char) -> (r: &[char])
    ensures
        r@ == unquoted(t@, c),
{
    let set = [c];
    assert(set@ =~= seq![c]);
    text::strip_end(text::strip_start(t, &set), &set)
}

/// The variables that the arguments of `ENV` or `ARG` set.
pub fn env_arg_pairs(args: &str) -> (r: Vec<(String, String)>)
    ensures
        pair_views(r@) == variables(args@),
{
    let mut out: Vec<(String, String)> = Vec::new();
    assert(pair_views(out@) =~= Seq::empty());
    let chars = text::chars_of(args);
    let t = chars.as_slice();
    let n: usize = text::find_space(t);
    let ps = split_respecting_quotes(t);
    let ghost pv = pieces(args@);
    assert(pv.len() == ps@.len());
    assert(ps@.len() > 0 ==> pv[0] == ps@[0]@);
    if ps.len() > 0 && text::has_char(text::chars_of(ps[0].as_str()).as_slice(), '=') {
        let mut i: usize = 0;
        while i < ps.len()
            invariant
                i <= ps@.len(),
                pv == text::string_texts(ps@),
                pair_views(out@) == pairs_in(pv.take(i as int)),
            decreases ps@.len() - i,
        {
            proof {
                assert(pv.take(i + 1).drop_last() =~= pv.take(i as int));
                assert(pv.take(i + 1).last() == ps@[i as int]@);
            }
            let piece = text::chars_of(ps[i].as_str());
            let p = piece.as_slice();
            let n: usize = text::find_char(p, '=');
            if n < p.len() {
                let key = slice_subrange(p, 0, n);
                let value = slice_subrange(p, n + 1, p.len());
                assert(key@ =~= p@.take(n as int));
                assert(value@ =~= p@.skip(n + 1));
                push_pair(
                    &mut out,
                    text::string_of(key),
                    text::string_of(unquote(unquote(value, '"'), '\'')),
                );
            }
            i += 1;
        }
        assert(pv.take(i as int) =~= pv);
    } else if n < t.len() {
        let key = slice_subrange(t, 0, n);
        let value = slice_subrange(t, n + 1, t.len());
        assert(key@ =~= t@.take(n as int));
        assert(value@ =~= t@.skip(n + 1));
        push_pair(&mut out, text::string_of(key), text::string_of(text::trim(value)));
        assert(pair_views(out@) =~= variables(args@));
    }
    out
}

/// The last instruction with the given keyword.
fn find_last<'a>(ins: &'a Vec<Instruction>, keyword: &str) -> (r: Option<&'a Instruction>)
    ensures
        match last_named(instruction_views(ins@), keyword@) {
            Some(i) => r is Some && r->0@ == i,
            None => r is None,
        },
{
    let ghost iv = instruction_views(ins@);
    let mut n: usize = ins.len();
    assert(iv.take(n as int) =~= iv);
    while n > 0
        invariant
            n <= ins@.len(),
            iv == instruction_views(ins@),
            last_named(iv, keyword@) == last_named(iv.take(n as int), keyword@),
        decreases n,
    {
        assert(iv.take(n as int).last() == ins@[n - 1]@);
        assert(iv.take(n as int).drop_last() =~= iv.take(n - 1));
        if text::str_eq(ins[n - 1].keyword.as_str(), keyword) {
            return Some(&ins[n - 1]);
        }
        n -= 1;
    }
    None
}

/// Checks which user the image runs as.
fn check_user(file: &str, ins: &Vec<Instruction>, findings: &mut Vec<Finding>)
    ensures
        views(final(findings)@) == views(old(findings)@) + user_rule(
            file@,
            instruction_views(ins@),
        ),
{
    match find_last(ins, "USER") {
        None => {
            add_finding(
                findings,
                mk(
                    "DOCK001",
                    Severity::High,
                    file,
                    0,
                    "(no USER instruction)",
                    NO_USER,
                    NO_USER_FIX,
                ),
            );
        },
        Some(i) => {
            let chars = text::chars_of(i.args.as_str());
            let t = chars.as_slice();
            let n: usize = text::find_char(t, ':');
            let name = slice_subrange(t, 0, n);
            assert(name@ =~= t@.take(n as int));
            let user = text::trim(name);
            if text::is_str(user, "root") || text::is_str(user, "0") {
                add_finding(
                    findings,
                    mk(
                        "DOCK001",
                        Severity::High,
                        file,
                        i.line,
                        i.raw.as_str(),
                        ROOT_USER,
                        ROOT_USER_FIX,
                    ),
                );
            }
        },
    }
}

/// Checks that there is a `HEALTHCHECK`.
fn check_healthcheck(file: &str, ins: &Vec<Instruction>, findings: &mut Vec<Finding>)
    ensures
        views(final(findings)@) == views(old(findings)@) + healthcheck_rule(
            file@,
            instruction_views(ins@),
        ),
{
    if find_last(ins, "HEALTHCHECK").is_none() {
        add_finding(
            findings,
            mk(
                "DOCK008",
                Severity::Info,
                file,
                0,
                "(no HEALTHCHECK instruction)",
                NO_HEALTHCHECK,
                NO_HEALTHCHECK_FIX,
            ),
        );
    }
}

/// The first word that is not a flag, or nothing.
fn find_plain<'a>(words: &Vec<&'a [char]>) -> (r: &'a [char])
    ensures
        r@ == first_plain(text::texts(words@)),
{
    let ghost ws = text::texts(words@);
    let mut k: usize = 0;
    assert(ws.skip(0) =~= ws);
    while k < words.len()
        invariant
            k <= words@.len(),
            ws == text::texts(words@),
            first_plain(ws) == first_plain(ws.skip(k as int)),
        decreases words@.len() - k,
    {
        assert(ws.skip(k as int)[0] == words@[k as int]@);
        assert(ws.skip(k as int).drop_first() =~= ws.skip(k + 1));
        if !text::starts_with(words[k], "--") {
            return words[k];
        }
        k += 1;
    }
    let none: &'a [char] = &[];
    assert(none@ =~= Seq::empty());
    none
}

/// Checks the base image of a `FROM` instruction.
fn check_from(file: &str, i: &Instruction, findings: &mut Vec<Finding>)
    ensures
        views(final(findings)@) == views(old(findings)@) + from_findings(file@, i@),
{
    let chars = text::chars_of(i.args.as_str());
    let words = text::words(chars.as_slice());
    let image = find_plain(&words);
    if !text::is_str(image, "scratch") {
        let parts = text::split(image, '/');
        assert(text::texts(parts@).len() == parts@.len());
        let tail = parts[parts.len() - 1];
        assert(tail@ == image_tail(image@));
        if !text::has_char(tail, ':') {
            add_finding(
                findings,
                mk("DOCK002", Severity::Medium, file, i.line, i.raw.as_str(), NO_TAG, TAG_FIX),
            );
        } else if text::ends_with(tail, ":latest") {
            add_finding(
                findings,
                mk("DOCK002", Severity::Medium, file, i.line, i.raw.as_str(), LATEST_TAG, TAG_FIX),
            );
        }
    }
}

/// Checks an `ADD` instruction.
fn check_add(file: &str, i: &Instruction, findings: &mut Vec<Finding>)
    ensures
        views(final(findings)@) == views(old(findings)@) + add_findings(file@, i@),
{
    let lower = text::to_lower(text::chars_of(i.args.as_str()).as_slice());
    let l = lower.as_slice();
    if text::contains(l, "http://") || text::contains(l, "https://") {
        add_finding(
            findings,
            mk("DOCK003", Severity::Medium, file, i.line, i.raw.as_str(), ADD_URL, ADD_URL_FIX),
        );
    }
}

/// Whether a name looks like that of a secret.
fn looks_secret(key: &str) -> (r: bool)
    ensures
        r == hints_secret(key@),
{
    let lower = text::to_lower(text::chars_of(key).as_slice());
    let hints = SECRET_KEY_HINTS;
    let mut k: usize = 0;
    while k < hints.len()
        invariant
            k <= hints@.len(),
            hints == SECRET_KEY_HINTS,
            lower@ == text::lowered(key@),
            forall|j: int| 0 <= j < k ==> !text::occurs(lower@, (#[trigger] hints@[j])@),
        decreases hints@.len() - k,
    {
        if text::contains(lower.as_slice(), hints[k]) {
            return true;
        }
        k += 1;
    }
    false
}

/// Checks the variables of an `ENV` or `ARG` instruction.
fn check_secrets(file: &str, i: &Instruction, findings: &mut Vec<Finding>)
    ensures
        views(final(findings)@) == views(old(findings)@) + secret_findings(
            file@,
            i@,
            variables(i@.args),
        ),
{
    let pairs = env_arg_pairs(i.args.as_str());
    let ghost pv = pair_views(pairs@);
    let ghost before = views(findings@);
    let mut k: usize = 0;
    assert(before + secret_findings(file@, i@, pv.take(0)) =~= before);
    while k < pairs.len()
        invariant
            k <= pairs@.len(),
            pv == pair_views(pairs@),
            views(findings@) == before + secret_findings(file@, i@, pv.take(k as int)),
        decreases pairs@.len() - k,
    {
        proof {
            assert(pv.take(k + 1).drop_last() =~= pv.take(k as int));
            assert(pv.take(k + 1).last() == (pairs@[k as int].0@, pairs@[k as int].1@));
        }
        let value = text::chars_of(pairs[k].1.as_str());
        if looks_secret(pairs[k].0.as_str()) && text::trim(value.as_slice()).len() > 0 {
            add_finding(
                findings,
                mk("DOCK004", Severity::Critical, file, i.line, i.raw.as_str(), SECRET, SECRET_FIX),
            );
        }
        assert(views(findings@) =~= before + secret_findings(file@, i@, pv.take(k + 1)));
        k += 1;
    }
    assert(pv.take(k as int) =~= pv);
}

/// Whether `sudo` is one of the words of a command.
fn has_sudo(lower: &[char]) -> (r: bool)
    ensures
        r == uses_sudo(lower@),
{
    let words = text::words(lower);
    let ghost ws = text::word_seq(lower@);
    let mut k: usize = 0;
    while k < words.len()
        invariant
            k <= words@.len(),
            ws == text::texts(words@),
            ws == text::word_seq(lower@),
            forall|j: int| 0 <= j < k ==> ws[j] != "sudo"@,
        decreases words@.len() - k,
    {
        assert(ws[k as int] == words@[k as int]@);
        if text::is_str(words[k], "sudo") {
            return true;
        }
        k += 1;
    }
    false
}

/// Checks that an `apt-get install` is clean.
fn check_apt(file: &str, i: &Instruction, l: &[char], findings: &mut Vec<Finding>)
    requires
        l@ == text::lowered(i@.args),
    ensures
        views(final(findings)@) == views(old(findings)@) + if_violated(
            bloats(l@),
            report(
                "DOCK005"@,
                Severity::Low,
                file@,
                i@.line,
                i@.raw,
                "Missing "@ + apt_missing(l@) + APT_TAIL@,
                APT_FIX@,
            ),
        ),
{
    if text::contains(l, "apt-get install") || text::contains(l, "apt install") {
        let bare = text::contains(l, "--no-install-recommends");
        let clean = text::contains(l, "rm -rf /var/lib/apt/lists") || text::contains(
            l,
            "apt-get clean",
        );
        if !bare || !clean {
            let missing = if bare {
                APT_CLEANUP
            } else if clean {
                APT_RECOMMENDS
            } else {
                APT_BOTH
            };
            let mut consequence = "Missing ".to_owned();
            consequence.append(missing);
            consequence.append(APT_TAIL);
            add_finding(
                findings,
                mk(
                    "DOCK005",
                    Severity::Low,
                    file,
                    i.line,
                    i.raw.as_str(),
                    consequence.as_str(),
                    APT_FIX,
                ),
            );
        }
    }
}

/// Whether `pat` occurs somewhere as the end of a name.
fn has_name(t: &[char], pat: &str) -> (r: bool)
    ensures
        r == occurs_as_name(t@, pat@),
{
    let p = text::chars_of(pat);
    let m: usize = p.len();
    let mut i: usize = 0;
    while i < t.len()
        invariant
            i <= t@.len(),
            m == p@.len(),
            p@ == pat@,
            forall|j: int| 0 <= j < i ==> !ends_name_at(t@, pat@, j),
        decreases t@.len() - i,
    {
        let rest = slice_subrange(t, i, t.len());
        if text::starts_with(rest, pat) {
            assert(rest@.subrange(0, m as int) =~= t@.subrange(i as int, i + m));
            if i + m == t.len() {
                assert(ends_name_at(t@, pat@, i as int));
                return true;
            }
            let c = t[i + m];
            if !(('a' <= c && c <= 'z') || ('A' <= c && c <= 'Z') || ('0' <= c && c <= '9') || c
                == '_' || c == '-') {
                assert(ends_name_at(t@, pat@, i as int));
                return true;
            }
        } else {
            assert(i + m <= t@.len() ==> rest@.subrange(0, m as int) =~= t@.subrange(
                i as int,
                i + m,
            ));
        }
        i += 1;
    }
    if m == 0 {
        assert(t@.subrange(i as int, i as int) =~= pat@);
        assert(ends_name_at(t@, pat@, i as int));
    }
    m == 0
}

/// Checks a `RUN` instruction.
fn check_run(file: &str, i: &Instruction, findings: &mut Vec<Finding>)
    ensures
        views(final(findings)@) == views(old(findings)@) + run_findings(file@, i@),
{
    let lower = text::to_lower(text::chars_of(i.args.as_str()).as_slice());
    let l = lower.as_slice();
    check_apt(file, i, l, findings);
    if (text::contains(l, "curl") || text::contains(l, "wget")) && (has_name(l, "| sh")
        || has_name(l, "|sh") || has_name(l, "| bash") || has_name(l, "|bash")) {
        add_finding(
            findings,
            mk(
                "DOCK006",
                Severity::High,
                file,
                i.line,
                i.raw.as_str(),
                PIPE_SHELL,
                PIPE_SHELL_FIX,
            ),
        );
    }
    if text::contains(l, "--privileged") {
        add_finding(
            findings,
            mk(
                "DOCK007",
                Severity::High,
                file,
                i.line,
                i.raw.as_str(),
                PRIVILEGED,
                PRIVILEGED_FIX,
            ),
        );
    }
    if has_sudo(l) {
        add_finding(
            findings,
            mk("DOCK009", Severity::Low, file, i.line, i.raw.as_str(), SUDO, SUDO_FIX),
        );
    }
    assert(views(findings@) =~= views(old(findings)@) + run_findings(file@, i@));
}

/// Checks one instruction.
fn check_instruction(file: &str, i: &Instruction, findings: &mut Vec<Finding>)
    ensures
        views(final(findings)@) == views(old(findings)@) + instruction_findings(file@, i@),
{
    let keyword = i.keyword.as_str();
    if text::str_eq(keyword, "FROM") {
        check_from(file, i, findings);
    } else if text::str_eq(keyword, "ADD") {
        check_add(file, i, findings);
    } else if text::str_eq(keyword, "ENV") || text::str_eq(keyword, "ARG") {
        check_secrets(file, i, findings);
    } else if text::str_eq(keyword, "RUN") {
        check_run(file, i, findings);
    }
}

/// Checks the instructions one by one.
fn check_each(file: &str, ins: &Vec<Instruction>, findings: &mut Vec<Finding>)
    ensures
        views(final(findings)@) == views(old(findings)@) + each_findings(
            file@,
            instruction_views(ins@),
        ),
{
    let ghost iv = instruction_views(ins@);
    let ghost before = views(findings@);
    let mut k: usize = 0;
    assert(before + each_findings(file@, iv.take(0)) =~= before);
    while k < ins.len()
        invariant
            k <= ins@.len(),
            iv == instruction_views(ins@),
            views(findings@) == before + each_findings(file@, iv.take(k as int)),
        decreases ins@.len() - k,
    {
        assert(iv.take(k + 1).drop_last() =~= iv.take(k as int));
        assert(iv.take(k + 1).last() == ins@[k as int]@);
        check_instruction(file, &ins[k], findings);
        assert(views(findings@) =~= before + each_findings(file@, iv.take(k + 1)));
        k += 1;
    }
    assert(iv.take(k as int) =~= iv);
}

/// Whether an instruction installs or downloads dependencies.
fn is_install(i: &Instruction) -> (r: bool)
    ensures
        r == installs(i@),
{
    let lower = text::to_lower(text::chars_of(i.args.as_str()).as_slice());
    let l = lower.as_slice();
    text::str_eq(i.keyword.as_str(), "RUN") && (text::contains(l, "install") || text::contains(
        l,
        "download",
    ))
}

/// Whether an instruction copies the entire build context.
fn is_copy_all(i: &Instruction) -> (r: bool)
    ensures
        r == copies_all(i@),
{
    let chars = text::chars_of(i.args.as_str());
    let a = text::trim(chars.as_slice());
    text::str_eq(i.keyword.as_str(), "COPY") && (text::is_str(a, ". .") || text::starts_with(
        a,
        ". . ",
    ) || text::is_str(a, "./ ./"))
}

/// Checks that dependencies are installed before the build context is copied.
fn check_cache(file: &str, ins: &Vec<Instruction>, findings: &mut Vec<Finding>)
    ensures
        views(final(findings)@) == views(old(findings)@) + cache_rule(
            file@,
            instruction_views(ins@),
        ),
{
    let ghost iv = instruction_views(ins@);
    let mut copy: Option<&Instruction> = None;
    let mut install: Option<usize> = None;
    let mut k: usize = 0;
    assert(iv.skip(0) =~= iv);
    while k < ins.len()
        invariant
            k <= ins@.len(),
            iv == instruction_views(ins@),
            match copy {
                Some(i) => first_copy_all(iv) == Some(i@),
                None => first_copy_all(iv) == first_copy_all(iv.skip(k as int)),
            },
            match install {
                Some(line) => first_install(iv) == Some(line as nat),
                None => first_install(iv) == first_install(iv.skip(k as int)),
            },
        decreases ins@.len() - k,
    {
        proof {
            assert(iv.skip(k as int)[0] == ins@[k as int]@);
            assert(iv.skip(k as int).drop_first() =~= iv.skip(k + 1));
        }
        if copy.is_none() && is_copy_all(&ins[k]) {
            copy = Some(&ins[k]);
        }
        if install.is_none() && is_install(&ins[k]) {
            install = Some(ins[k].line);
        }
        k += 1;
    }
    if let (Some(copied), Some(install_line)) = (copy, install) {
        if copied.line < install_line {
            add_finding(
                findings,
                mk(
                    "DOCK010",
                    Severity::Info,
                    file,
                    copied.line,
                    copied.raw.as_str(),
                    COPY_ALL,
                    COPY_ALL_FIX,
                ),
            );
        }
    }
}

/// Parses and audits `content`, returning every rule violation found.
///
/// # Errors
/// Returns an error if `content` cannot be parsed (see [`parse`]).
pub fn audit(file: &str, content: &str) -> (r: Result<Vec<Finding>, String>)
    ensures
        match audited(file@, content@) {
            Ok(fs) => r is Ok && views(r->Ok_0@) == fs,
            Err(m) => r is Err && r->Err_0@ == m,
        },
{
    let instructions = match parse(content) {
        Ok(instructions) => instructions,
        Err(message) => {
            return Err(message);
        },
    };
    let mut findings: Vec<Finding> = Vec::new();
    check_user(file, &instructions, &mut findings);
    check_healthcheck(file, &instructions, &mut findings);
    check_each(file, &instructions, &mut findings);
    check_cache(file, &instructions, &mut findings);
    assert(views(findings@) =~= rule_findings(file@, instruction_views(instructions@)));
    Ok(order::sort(findings))
}

} // verus!
