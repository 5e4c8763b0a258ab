//! The configuration formats that can be audited.

use crate::text;
use vstd::prelude::*;

pub mod dockerfile;
pub mod nginx;
pub mod sshd;

verus! {

/// Which parser applies to a file, decided from its name.
#[derive(Debug, Clone, Copy, PartialEq, Eq, Structural)]
pub enum FileKind {
    Sshd,
    Nginx,
    Dockerfile,
}

/// Whether the extension of a file name is `conf`. A dot at the very
/// beginning of a name starts no extension.
pub open spec fn has_conf_extension(name: Seq<char>) -> bool {
    name.len() > 5 && text::ends(name, ".conf"@)
}

/// Whether a lower-cased file name is that of a Dockerfile: `dockerfile`,
/// `dockerfile.*` or `*.dockerfile`.
pub open spec fn names_dockerfile(lower: Seq<char>) -> bool {
    lower == "dockerfile"@ || text::begins(lower, "dockerfile."@) || text::ends(
        lower,
        ".dockerfile"@,
    )
}

/// The kind of the file with the given name.
pub open spec fn kind_of_name(name: Seq<char>) -> Option<FileKind> {
    let lower = text::lowered(name);
    if text::occurs(lower, "sshd_config"@) {
        Some(FileKind::Sshd)
    } else if names_dockerfile(lower) {
        Some(FileKind::Dockerfile)
    } else if has_conf_extension(name) || text::occurs(lower, "nginx"@) {
        Some(FileKind::Nginx)
    } else {
        None
    }
}

/// The kind of the file with the given name, if it has one.
pub open spec fn kind_of(name: Option<Seq<char>>) -> Option<FileKind> {
    match name {
        Some(n) => kind_of_name(n),
        None => None,
    }
}

/// Whether some piece of a path is the name of a file of the given kind.
pub open spec fn detected_in(path: Seq<char>, kind: FileKind) -> bool {
    exists|name: Seq<char>| #[trigger]
        text::occurs(path, name) && kind_of_name(name) == Some(kind)
}

/// Whether a path has the same parts on Unix and on Windows: it holds no
/// backslash, its second character is no colon, and it does not begin with two
/// slashes.
pub open spec fn is_portable(path: Seq<char>) -> bool {
    &&& !path.contains('\\')
    &&& !(path.len() > 1 && path[1] == ':')
    &&& !text::begins(path, "//"@)
}

/// The parts of a path between its slashes, without empty ones and `.`.
pub open spec fn path_parts(path: Seq<char>) -> Seq<Seq<char>> {
    text::split_seq(path, '/').filter(|part: Seq<char>| part.len() > 0 && part != "."@)
}

/// The name of the file that a portable path leads to: its last part, unless
/// it has none or ends with `..`.
pub open spec fn file_name_of(path: Seq<char>) -> Option<Seq<char>> {
    let parts = path_parts(path);
    if parts.len() == 0 || parts.last() == ".."@ {
        None
    } else {
        Some(parts.last())
    }
}

/// The final component of a path, by `std::path::Path::file_name`, with what
/// is not Unicode in it replaced by `OsStr::to_string_lossy`. It is a piece of
/// the path; on a portable path it is the last part. Which piece it is on
/// other paths, if there is one, depends on the platform and is not stated.
#[verifier::external_body]
fn file_name(path: &str) -> (r: Option<String>)
    ensures
        is_portable(path@) ==> match file_name_of(path@) {
            Some(name) => r is Some && r->0@ == name,
            None => r is None,
        },
        r is Some ==> text::occurs(path@, r->0@),
{
    std::path::Path::new(path).file_name().map(|name| name.to_string_lossy().into_owned())
}

/// The kind of the file with the given name.
#[must_use]
pub fn detect_name(name: &str) -> (r: Option<FileKind>)
    ensures
        r == kind_of_name(name@),
{
    let chars = text::chars_of(name);
    let lower = text::to_lower(chars.as_slice());
    let l = lower.as_slice();
    if text::contains(l, "sshd_config") {
        Some(FileKind::Sshd)
    } else if text::is_str(l, "dockerfile") || text::starts_with(l, "dockerfile.")
        || text::ends_with(l, ".dockerfile") {
        Some(FileKind::Dockerfile)
    } else if (chars.len() > 5 && text::ends_with(chars.as_slice(), ".conf")) || text::contains(
        l,
        "nginx",
    ) {
        Some(FileKind::Nginx)
    } else {
        None
    }
}

/// The kind of the file with the given name, if it has one.
#[must_use]
pub fn detect_found(name: Option<String>) -> (r: Option<FileKind>)
    ensures
        r == kind_of(
            match name {
                Some(n) => Some(n@),
                None => None,
            },
        ),
{
    match name {
        Some(n) => detect_name(n.as_str()),
        None => None,
    }
}

/// Guesses the config type from a file's name. Returns `None` for files that
/// cannot be audited.
#[must_use]
pub fn detect(path: &str) -> (r: Option<FileKind>)
    ensures
        is_portable(path@) ==> r == kind_of(file_name_of(path@)),
        r is Some ==> detected_in(path@, r->0),
{
    let name = file_name(path);
    assert(name is Some ==> text::occurs(path@, name->0@));
    detect_found(name)
}

/// A parse result with `head` in front of what it holds.
pub open spec fn prepended<T>(head: Seq<T>, rest: Result<Seq<T>, Seq<char>>) -> Result<
    Seq<T>,
    Seq<char>,
> {
    match rest {
        Ok(items) => Ok(head + items),
        Err(m) => Err(m),
    }
}

pub(crate) proof fn lemma_prepend_nothing<T>(rest: Result<Seq<T>, Seq<char>>)
    ensures
        prepended(Seq::empty(), rest) == rest,
{
    if rest is Ok {
        assert(Seq::<T>::empty() + rest->Ok_0 =~= rest->Ok_0);
    }
}

pub(crate) proof fn lemma_prepend_one<T>(head: Seq<T>, item: T, rest: Result<Seq<T>, Seq<char>>)
    ensures
        prepended(head, prepended(seq![item], rest)) == prepended(head.push(item), rest),
{
    if rest is Ok {
        assert(head + (seq![item] + rest->Ok_0) =~= head.push(item) + rest->Ok_0);
    }
}

pub(crate) proof fn lemma_prepend_twice<T>(
    first: Seq<T>,
    second: Seq<T>,
    rest: Result<Seq<T>, Seq<char>>,
)
    ensures
        prepended(first, prepended(second, rest)) == prepended(first + second, rest),
{
    if rest is Ok {
        assert(first + (second + rest->Ok_0) =~= (first + second) + rest->Ok_0);
    }
}

} // verus!
