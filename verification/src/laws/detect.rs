//! Which names are recognized.

use super::text::{holds, law_occurrences, law_splitting, lemma_holds, lemma_split_last};
use crate::parsers::{
    detected_in, file_name_of, has_conf_extension, is_portable, kind_of, kind_of_name,
    names_dockerfile, FileKind,
};
use crate::text;
use vstd::prelude::*;

verus! {

proof fn lemma_occurs_longer(s: Seq<char>, longer: Seq<char>, at: int, pat: Seq<char>, i: int)
    requires
        text::stands_at(s, longer, at),
        text::stands_at(longer, pat, i),
    ensures
        text::occurs(s, pat),
{
    assert(s.subrange(at + i, at + i + pat.len()) =~= pat) by {
        assert forall|k: int| 0 <= k < pat.len() implies s[at + i + k] == pat[k] by {
            assert(longer.subrange(i, i + pat.len())[k] == longer[i + k]);
            assert(s.subrange(at, at + longer.len())[i + k] == s[at + i + k]);
        }
    }
    assert(text::stands_at(s, pat, at + i));
}

/// `sshd_config` and `sshd_config.*` are recognized, in any ASCII case.
pub proof fn law_sshd_names_are_detected(name: Seq<char>)
    requires
        text::lowered(name) == "sshd_config"@ || text::begins(
            text::lowered(name),
            "sshd_config."@,
        ),
    ensures
        kind_of_name(name) == Some(FileKind::Sshd),
{
    let lower = text::lowered(name);
    if lower == "sshd_config"@ {
        assert(lower.subrange(0, lower.len() as int) =~= lower);
        assert(text::stands_at(lower, "sshd_config"@, 0));
    } else {
        reveal_strlit("sshd_config");
        reveal_strlit("sshd_config.");
        assert("sshd_config."@.subrange(0, 11) =~= "sshd_config"@);
        lemma_occurs_longer(lower, "sshd_config."@, 0, "sshd_config"@, 0);
    }
}

/// Whether a name holds `sshd_config`, in any ASCII case.
pub open spec fn says_sshd(name: Seq<char>) -> bool {
    holds(text::lowered(name), "sshd_config"@)
}

/// Whether a name is `Dockerfile`, `Dockerfile.*` or `*.dockerfile`, in any
/// ASCII case.
pub open spec fn says_dockerfile(name: Seq<char>) -> bool {
    ||| text::lowered(name) == "dockerfile"@
    ||| exists|x: Seq<char>| text::lowered(name) == #[trigger] ("dockerfile."@ + x)
    ||| exists|x: Seq<char>| text::lowered(name) == #[trigger] (x + ".dockerfile"@)
}

/// Whether a name is `*.conf`, with something before the dot, or holds `nginx`
/// in any ASCII case.
pub open spec fn says_nginx(name: Seq<char>) -> bool {
    ||| exists|x: Seq<char>| x.len() > 0 && name == #[trigger] (x + ".conf"@)
    ||| holds(text::lowered(name), "nginx"@)
}

proof fn lemma_says(name: Seq<char>)
    ensures
        text::occurs(text::lowered(name), "sshd_config"@) == says_sshd(name),
        names_dockerfile(text::lowered(name)) == says_dockerfile(name),
        (has_conf_extension(name) || text::occurs(text::lowered(name), "nginx"@)) == says_nginx(
            name,
        ),
{
    let lower = text::lowered(name);
    lemma_holds(lower, "sshd_config"@);
    lemma_holds(lower, "nginx"@);
    reveal_strlit(".conf");
    assert(".conf"@.len() == 5);
    let none = Seq::<char>::empty();
    law_occurrences(lower, none, "dockerfile."@, none);
    law_occurrences(lower, none, ".dockerfile"@, none);
    law_occurrences(name, none, ".conf"@, none);
    if exists|x: Seq<char>| lower == #[trigger] ("dockerfile."@ + x) {
        let x = choose|x: Seq<char>| lower == #[trigger] ("dockerfile."@ + x);
        law_occurrences(lower, none, "dockerfile."@, x);
    }
    if exists|x: Seq<char>| lower == #[trigger] (x + ".dockerfile"@) {
        let x = choose|x: Seq<char>| lower == #[trigger] (x + ".dockerfile"@);
        law_occurrences(lower, x, ".dockerfile"@, none);
    }
    if exists|x: Seq<char>| name == #[trigger] (x + ".conf"@) {
        let x = choose|x: Seq<char>| name == #[trigger] (x + ".conf"@);
        law_occurrences(name, x, ".conf"@, none);
    }
    if has_conf_extension(name) {
        let x = choose|x: Seq<char>| name == #[trigger] (x + ".conf"@);
        assert(x.len() > 0);
    }
}

/// A name is that of an `sshd_config` file exactly when it holds `sshd_config`,
/// in any ASCII case.
pub proof fn law_sshd_names(name: Seq<char>)
    ensures
        kind_of_name(name) == Some(FileKind::Sshd) <==> says_sshd(name),
        kind_of_name(name) == Some(FileKind::Sshd) <==> text::occurs(
            text::lowered(name),
            "sshd_config"@,
        ),
{
    lemma_says(name);
}

/// A name is that of a Dockerfile exactly when it is `Dockerfile`,
/// `Dockerfile.*` or `*.dockerfile`, in any ASCII case, and does not hold
/// `sshd_config`.
pub proof fn law_dockerfile_names(name: Seq<char>)
    ensures
        kind_of_name(name) == Some(FileKind::Dockerfile) <==> says_dockerfile(name) && !says_sshd(
            name,
        ),
        kind_of_name(name) == Some(FileKind::Dockerfile) <==> names_dockerfile(
            text::lowered(name),
        ) && !text::occurs(text::lowered(name), "sshd_config"@),
{
    lemma_says(name);
}

/// A name is that of an nginx configuration exactly when it is `*.conf` or
/// holds `nginx`, and is neither that of a Dockerfile nor holds `sshd_config`.
pub proof fn law_nginx_names(name: Seq<char>)
    ensures
        kind_of_name(name) == Some(FileKind::Nginx) <==> says_nginx(name) && !says_dockerfile(name)
            && !says_sshd(name),
        kind_of_name(name) == Some(FileKind::Nginx) <==> (has_conf_extension(name) || text::occurs(
            text::lowered(name),
            "nginx"@,
        )) && !names_dockerfile(text::lowered(name)) && !text::occurs(
            text::lowered(name),
            "sshd_config"@,
        ),
{
    lemma_says(name);
}

/// Every other name is left alone.
pub proof fn law_other_names(name: Seq<char>)
    ensures
        kind_of_name(name) is None <==> !says_nginx(name) && !says_dockerfile(name) && !says_sshd(
            name,
        ),
        kind_of(None) is None,
        kind_of(Some(name)) == kind_of_name(name),
{
    lemma_says(name);
}

/// Whatever stands before it, a name that ends in `.conf` is recognized, and as
/// that of an nginx configuration unless it holds `sshd_config` or is that of a
/// Dockerfile.
pub proof fn law_conf_names_are_detected(front: Seq<char>)
    requires
        front.len() > 0,
    ensures
        kind_of_name(front + ".conf"@) is Some,
        !says_sshd(front + ".conf"@) && !says_dockerfile(front + ".conf"@) ==> kind_of_name(
            front + ".conf"@,
        ) == Some(FileKind::Nginx),
{
    let name = front + ".conf"@;
    lemma_says(name);
    assert(says_nginx(name));
}

/// The last part of a path is its name, whatever leads to it, with or without
/// slashes behind it.
pub proof fn law_last_part_is_the_name(dir: Seq<char>, name: Seq<char>)
    requires
        name.len() > 0,
        !name.contains('/'),
        name != seq!['.'],
        name != seq!['.', '.'],
    ensures
        file_name_of(name) == Some(name),
        file_name_of(dir + seq!['/'] + name) == Some(name),
        file_name_of(dir + seq!['/'] + name + seq!['/']) == Some(name),
{
    reveal_strlit(".");
    reveal_strlit("..");
    assert("."@ =~= seq!['.']);
    assert(".."@ =~= seq!['.', '.']);
    let keep = |part: Seq<char>| part.len() > 0 && part != "."@;
    let none = Seq::<char>::empty();
    law_splitting(name, '/', none);
    law_splitting(none, '/', none);
    lemma_split_last(dir, '/', name);
    lemma_split_last(dir + seq!['/'] + name, '/', none);
    assert(keep(name));
    lemma_filter_last(Seq::empty(), name, keep);
    assert(Seq::<Seq<char>>::empty() + seq![name] =~= seq![name]);
    lemma_filter_last(text::split_seq(dir, '/'), name, keep);
    let parts = text::split_seq(dir + seq!['/'] + name, '/');
    assert(parts == text::split_seq(dir, '/') + seq![name]);
    lemma_filter_skips_last(parts, none, keep);
    let slashed = dir + seq!['/'] + name + seq!['/'];
    assert(slashed + none =~= slashed);
    assert(text::split_seq(slashed, '/') == parts + seq![none]);
}

proof fn lemma_filter_last(
    front: Seq<Seq<char>>,
    last: Seq<char>,
    keep: spec_fn(Seq<char>) -> bool,
)
    requires
        keep(last),
    ensures
        (front + seq![last]).filter(keep).len() > 0,
        (front + seq![last]).filter(keep).last() == last,
{
    reveal(Seq::filter);
    assert((front + seq![last]).drop_last() =~= front);
    assert((front + seq![last]).last() == last);
}

proof fn lemma_filter_skips_last(
    front: Seq<Seq<char>>,
    last: Seq<char>,
    keep: spec_fn(Seq<char>) -> bool,
)
    requires
        !keep(last),
    ensures
        (front + seq![last]).filter(keep) == front.filter(keep),
{
    reveal(Seq::filter);
    assert((front + seq![last]).drop_last() =~= front);
    assert((front + seq![last]).last() == last);
}

/// A path that ends in `..` or has no part at all has no name; a slash and a
/// part `.` at the end are passed over.
pub proof fn law_paths_without_name(dir: Seq<char>)
    ensures
        file_name_of(Seq::empty()) is None,
        file_name_of(seq!['/']) is None,
        file_name_of(seq!['.', '.']) is None,
        file_name_of(dir + seq!['/'] + seq!['.', '.']) is None,
        file_name_of(dir + seq!['/'] + seq!['.']) == file_name_of(dir),
        file_name_of(dir + seq!['/']) == file_name_of(dir),
{
    reveal_strlit(".");
    reveal_strlit("..");
    assert("."@ =~= seq!['.']);
    assert(".."@ =~= seq!['.', '.']);
    let keep = |part: Seq<char>| part.len() > 0 && part != "."@;
    let none = Seq::<char>::empty();
    let up = seq!['.', '.'];
    let here = seq!['.'];
    law_splitting(none, '/', none);
    law_splitting(up, '/', none);
    law_splitting(here, '/', none);
    assert(none + seq!['/'] + none =~= seq!['/']);
    let nothing = Seq::<Seq<char>>::empty();
    lemma_filter_skips_last(nothing, none, keep);
    assert(nothing + seq![none] =~= seq![none]);
    lemma_filter_skips_last(seq![none], none, keep);
    assert(nothing.filter(keep).len() == 0) by {
        reveal(Seq::filter);
    }
    assert(text::split_seq(none, '/') == seq![none]);
    assert(text::split_seq(seq!['/'], '/') == seq![none] + seq![none]);
    assert(up.len() == 2 && "."@.len() == 1);
    assert(keep(up));
    lemma_filter_last(nothing, up, keep);
    assert(nothing + seq![up] =~= seq![up]);
    lemma_split_last(dir, '/', up);
    lemma_filter_last(text::split_seq(dir, '/'), up, keep);
    lemma_split_last(dir, '/', here);
    lemma_filter_skips_last(text::split_seq(dir, '/'), here, keep);
    lemma_split_last(dir, '/', none);
    assert(dir + seq!['/'] + none =~= dir + seq!['/']);
    lemma_filter_skips_last(text::split_seq(dir, '/'), none, keep);
}

/// A path means the same everywhere unless it has a backslash in it, a colon as
/// its second character, or two slashes at its head.
pub proof fn law_portable_paths(path: Seq<char>)
    ensures
        is_portable(path) <==> {
            &&& forall|i: int| 0 <= i < path.len() ==> path[i] != '\\'
            &&& path.len() >= 2 ==> path[1] != ':'
            &&& path.len() >= 2 ==> path[0] != '/' || path[1] != '/'
        },
{
    reveal_strlit("//");
    let p = "//"@;
    assert(p.len() == 2 && p[0] == '/' && p[1] == '/');
    if path.len() >= 2 {
        let s = path.subrange(0, 2);
        assert(s[0] == path[0] && s[1] == path[1]);
        if path[0] == '/' && path[1] == '/' {
            assert(s =~= p);
        }
    }
    assert(path.contains('\\') <==> !(forall|i: int| 0 <= i < path.len() ==> path[i] != '\\'));
}

/// A kind is found in a path exactly when some piece of the path is a name of
/// that kind.
pub proof fn law_kinds_are_found_in_paths(path: Seq<char>, kind: FileKind)
    ensures
        detected_in(path, kind) <==> exists|name: Seq<char>| #[trigger]
            holds(path, name) && kind_of_name(name) == Some(kind),
{
    if detected_in(path, kind) {
        let name = choose|name: Seq<char>| #[trigger]
            text::occurs(path, name) && kind_of_name(name) == Some(kind);
        lemma_holds(path, name);
        assert(holds(path, name));
    }
    if exists|name: Seq<char>| #[trigger] holds(path, name) && kind_of_name(name) == Some(kind) {
        let name = choose|name: Seq<char>| #[trigger]
            holds(path, name) && kind_of_name(name) == Some(kind);
        lemma_holds(path, name);
    }
}

/// Only a path that holds `sshd_config`, in any ASCII case, leads to an
/// `sshd_config` file.
pub proof fn law_sshd_paths_say_so(path: Seq<char>)
    requires
        detected_in(path, FileKind::Sshd),
    ensures
        text::occurs(text::lowered(path), "sshd_config"@),
{
    let name = choose|name: Seq<char>| #[trigger]
        text::occurs(path, name) && kind_of_name(name) == Some(FileKind::Sshd);
    let at = choose|i: int| text::stands_at(path, name, i);
    let i = choose|i: int| text::stands_at(text::lowered(name), "sshd_config"@, i);
    assert(text::lowered(path).subrange(at, at + name.len()) =~= text::lowered(
        path.subrange(at, at + name.len()),
    ));
    lemma_occurs_longer(text::lowered(path), text::lowered(name), at, "sshd_config"@, i);
}

} // verus!
