//! What holds of audits as a whole.

use crate::finding::{FindingView, Severity};
use crate::order;
use vstd::prelude::*;

pub mod detect;
pub mod dockerfile;
pub mod dockerfile_reading;
pub mod dockerfile_rules;
pub mod filter;
pub mod nginx;
pub mod nginx_reading;
pub mod nginx_rules;
pub mod output;
pub mod sarif;
pub mod sshd;
pub mod sshd_reading;
pub mod sshd_rules;
pub mod text;

verus! {

/// The findings of a rule.
pub open spec fn of_rule(fs: Seq<FindingView>, rule_id: Seq<char>) -> Seq<FindingView> {
    fs.filter(|f: FindingView| f.rule_id == rule_id)
}

/// Being one given finding.
pub open spec fn being(f: FindingView) -> spec_fn(FindingView) -> bool {
    |g: FindingView| g == f
}

/// How often a finding occurs in a list.
pub open spec fn times(fs: Seq<FindingView>, f: FindingView) -> nat {
    fs.filter(being(f)).len()
}

/// One for what holds, and nothing for what does not.
pub open spec fn one_if(b: bool) -> nat {
    if b {
        1
    } else {
        0
    }
}

/// Whether a rule of `sshd_config` reports at a severity.
pub open spec fn sshd_documented(rule_id: Seq<char>, severity: Severity) -> bool {
    ||| rule_id == "SSHD001"@ && (severity == Severity::Critical || severity == Severity::Medium)
    ||| rule_id == "SSHD002"@ && severity == Severity::High
    ||| rule_id == "SSHD003"@ && severity == Severity::High
    ||| rule_id == "SSHD004"@ && severity == Severity::Critical
    ||| rule_id == "SSHD005"@ && severity == Severity::Critical
    ||| rule_id == "SSHD006"@ && severity == Severity::High
    ||| rule_id == "SSHD007"@ && severity == Severity::High
    ||| rule_id == "SSHD008"@ && severity == Severity::High
    ||| rule_id == "SSHD009"@ && severity == Severity::Low
    ||| rule_id == "SSHD010"@ && severity == Severity::Low
    ||| rule_id == "SSHD011"@ && severity == Severity::Low
    ||| rule_id == "SSHD012"@ && severity == Severity::Medium
    ||| rule_id == "SSHD013"@ && severity == Severity::Medium
    ||| rule_id == "SSHD014"@ && severity == Severity::Info
}

/// Whether an nginx rule reports at a severity.
pub open spec fn nginx_documented(rule_id: Seq<char>, severity: Severity) -> bool {
    ||| rule_id == "NGX001"@ && severity == Severity::High
    ||| rule_id == "NGX002"@ && severity == Severity::Low
    ||| rule_id == "NGX003"@ && severity == Severity::Medium
    ||| rule_id == "NGX004"@ && severity == Severity::High
    ||| rule_id == "NGX005"@ && severity == Severity::High
    ||| rule_id == "NGX006"@ && severity == Severity::Low
    ||| rule_id == "NGX007"@ && severity == Severity::Low
    ||| rule_id == "NGX008"@ && severity == Severity::Low
    ||| rule_id == "NGX009"@ && severity == Severity::Medium
    ||| rule_id == "NGX010"@ && severity == Severity::Medium
    ||| rule_id == "NGX011"@ && severity == Severity::Medium
    ||| rule_id == "NGX012"@ && severity == Severity::High
}

/// Whether a Dockerfile rule reports at a severity.
pub open spec fn dockerfile_documented(rule_id: Seq<char>, severity: Severity) -> bool {
    ||| rule_id == "DOCK001"@ && severity == Severity::High
    ||| rule_id == "DOCK002"@ && severity == Severity::Medium
    ||| rule_id == "DOCK003"@ && severity == Severity::Medium
    ||| rule_id == "DOCK004"@ && severity == Severity::Critical
    ||| rule_id == "DOCK005"@ && severity == Severity::Low
    ||| rule_id == "DOCK006"@ && severity == Severity::High
    ||| rule_id == "DOCK007"@ && severity == Severity::High
    ||| rule_id == "DOCK008"@ && severity == Severity::Info
    ||| rule_id == "DOCK009"@ && severity == Severity::Low
    ||| rule_id == "DOCK010"@ && severity == Severity::Info
}

/// The number in the id of a rule: what its last two characters say.
pub open spec fn number(rule_id: Seq<char>) -> int {
    let n = rule_id.len();
    (rule_id[n - 2] as int - '0' as int) * 10 + (rule_id[n - 1] as int - '0' as int)
}

pub(crate) proof fn lemma_numbers()
    ensures
        number("SSHD001"@) == 1,
        number("SSHD002"@) == 2,
        number("SSHD003"@) == 3,
        number("SSHD004"@) == 4,
        number("SSHD005"@) == 5,
        number("SSHD006"@) == 6,
        number("SSHD007"@) == 7,
        number("SSHD008"@) == 8,
        number("SSHD009"@) == 9,
        number("SSHD010"@) == 10,
        number("SSHD011"@) == 11,
        number("SSHD012"@) == 12,
        number("SSHD013"@) == 13,
        number("SSHD014"@) == 14,
        number("NGX001"@) == 1,
        number("NGX002"@) == 2,
        number("NGX003"@) == 3,
        number("NGX004"@) == 4,
        number("NGX005"@) == 5,
        number("NGX006"@) == 6,
        number("NGX007"@) == 7,
        number("NGX008"@) == 8,
        number("NGX009"@) == 9,
        number("NGX010"@) == 10,
        number("NGX011"@) == 11,
        number("NGX012"@) == 12,
        number("DOCK001"@) == 1,
        number("DOCK002"@) == 2,
        number("DOCK003"@) == 3,
        number("DOCK004"@) == 4,
        number("DOCK005"@) == 5,
        number("DOCK006"@) == 6,
        number("DOCK007"@) == 7,
        number("DOCK008"@) == 8,
        number("DOCK009"@) == 9,
        number("DOCK010"@) == 10,
{
    reveal_strlit("SSHD001");
    reveal_strlit("SSHD002");
    reveal_strlit("SSHD003");
    reveal_strlit("SSHD004");
    reveal_strlit("SSHD005");
    reveal_strlit("SSHD006");
    reveal_strlit("SSHD007");
    reveal_strlit("SSHD008");
    reveal_strlit("SSHD009");
    reveal_strlit("SSHD010");
    reveal_strlit("SSHD011");
    reveal_strlit("SSHD012");
    reveal_strlit("SSHD013");
    reveal_strlit("SSHD014");
    reveal_strlit("NGX001");
    reveal_strlit("NGX002");
    reveal_strlit("NGX003");
    reveal_strlit("NGX004");
    reveal_strlit("NGX005");
    reveal_strlit("NGX006");
    reveal_strlit("NGX007");
    reveal_strlit("NGX008");
    reveal_strlit("NGX009");
    reveal_strlit("NGX010");
    reveal_strlit("NGX011");
    reveal_strlit("NGX012");
    reveal_strlit("DOCK001");
    reveal_strlit("DOCK002");
    reveal_strlit("DOCK003");
    reveal_strlit("DOCK004");
    reveal_strlit("DOCK005");
    reveal_strlit("DOCK006");
    reveal_strlit("DOCK007");
    reveal_strlit("DOCK008");
    reveal_strlit("DOCK009");
    reveal_strlit("DOCK010");
}

pub(crate) proof fn lemma_all_add(
    a: Seq<FindingView>,
    b: Seq<FindingView>,
    pred: spec_fn(FindingView) -> bool,
)
    requires
        a.all(pred),
        b.all(pred),
    ensures
        (a + b).all(pred),
{
    assert forall|i: int| 0 <= i < (a + b).len() implies #[trigger] pred((a + b)[i]) by {
        if i < a.len() {
            assert((a + b)[i] == a[i]);
        } else {
            assert((a + b)[i] == b[i - a.len()]);
        }
    }
}

pub(crate) proof fn lemma_times_add(a: Seq<FindingView>, b: Seq<FindingView>, f: FindingView)
    ensures
        times(a + b, f) == times(a, f) + times(b, f),
{
    Seq::filter_distributes_over_add(a, b, being(f));
}

pub(crate) proof fn lemma_times_small(g: FindingView, f: FindingView)
    ensures
        times(seq![g], f) == (if g == f {
            1nat
        } else {
            0nat
        }),
        times(Seq::empty(), f) == 0,
{
    reveal_with_fuel(Seq::filter, 2);
    assert(seq![g].drop_last() =~= Seq::<FindingView>::empty());
}

pub(crate) proof fn lemma_times_sorted(fs: Seq<FindingView>, f: FindingView)
    ensures
        times(order::sorted(fs), f) == times(fs, f),
{
    order::lemma_sort_keeps_count(fs, being(f));
}

pub(crate) proof fn lemma_times_contains(fs: Seq<FindingView>, f: FindingView)
    ensures
        times(fs, f) > 0 <==> fs.contains(f),
{
    let p = being(f);
    let r = fs.filter(p);
    if r.len() > 0 {
        fs.lemma_filter_pred(p, 0);
        assert(r.contains(r[0]));
        fs.lemma_filter_contains_rev(p, r[0]);
    }
    if fs.contains(f) {
        let i = choose|i: int| 0 <= i < fs.len() && fs[i] == f;
        fs.lemma_filter_contains(p, i);
    }
}

pub(crate) proof fn lemma_of_rule_add(
    a: Seq<FindingView>,
    b: Seq<FindingView>,
    rule_id: Seq<char>,
)
    ensures
        of_rule(a + b, rule_id) == of_rule(a, rule_id) + of_rule(b, rule_id),
{
    Seq::filter_distributes_over_add(a, b, |f: FindingView| f.rule_id == rule_id);
}

pub(crate) proof fn lemma_of_rule_one(f: FindingView, rule_id: Seq<char>)
    ensures
        of_rule(seq![f], rule_id).len() == (if f.rule_id == rule_id {
            1nat
        } else {
            0nat
        }),
{
    reveal_with_fuel(Seq::filter, 2);
    assert(seq![f].drop_last() =~= Seq::<FindingView>::empty());
}

pub(crate) proof fn lemma_of_rule_none(rule_id: Seq<char>)
    ensures
        of_rule(Seq::empty(), rule_id).len() == 0,
{
    reveal(Seq::filter);
}

/// Whether no finding is of the given rule.
pub open spec fn none_of(fs: Seq<FindingView>, rule_id: Seq<char>) -> bool {
    fs.all(|f: FindingView| f.rule_id != rule_id)
}

pub(crate) proof fn lemma_none_add(a: Seq<FindingView>, b: Seq<FindingView>, rule_id: Seq<char>)
    requires
        none_of(a, rule_id),
        none_of(b, rule_id),
    ensures
        none_of(a + b, rule_id),
{
    lemma_all_add(a, b, |f: FindingView| f.rule_id != rule_id);
}

pub(crate) proof fn lemma_none_counts_nothing(fs: Seq<FindingView>, rule_id: Seq<char>)
    requires
        none_of(fs, rule_id),
    ensures
        of_rule(fs, rule_id).len() == 0,
    decreases fs.len(),
{
    reveal(Seq::filter);
    if fs.len() > 0 {
        let pred = |f: FindingView| f.rule_id != rule_id;
        assert(pred(fs[fs.len() - 1]));
        assert forall|i: int| 0 <= i < fs.drop_last().len() implies #[trigger] pred(
            fs.drop_last()[i],
        ) by {
            assert(pred(fs[i]));
        }
        lemma_none_counts_nothing(fs.drop_last(), rule_id);
    }
}

pub(crate) proof fn lemma_at_most_one(s: Seq<FindingView>, own: Seq<char>, rule_id: Seq<char>)
    requires
        s.len() <= 1,
        s.len() == 1 ==> s[0].rule_id == own,
    ensures
        of_rule(s, rule_id).len() <= 1,
        of_rule(s, rule_id).len() == 1 ==> rule_id == own,
{
    if s.len() == 0 {
        assert(s =~= Seq::empty());
        lemma_of_rule_none(rule_id);
    } else {
        assert(s =~= seq![s[0]]);
        lemma_of_rule_one(s[0], rule_id);
    }
}

/// The line that line `line` becomes when one is put in behind the first `n`.
pub open spec fn moved_line(line: nat, n: nat) -> nat {
    if line > n {
        line + 1
    } else {
        line
    }
}

/// A finding as it is when a line is put in behind the first `n`.
pub open spec fn moved(f: FindingView, n: nat) -> FindingView {
    FindingView { line: moved_line(f.line, n), ..f }
}

/// Findings as they are when a line is put in behind the first `n`.
pub open spec fn all_moved(fs: Seq<FindingView>, n: nat) -> Seq<FindingView> {
    fs.map_values(|f: FindingView| moved(f, n))
}

pub(crate) proof fn lemma_moved_add(a: Seq<FindingView>, b: Seq<FindingView>, n: nat)
    ensures
        all_moved(a + b, n) == all_moved(a, n) + all_moved(b, n),
{
    assert(all_moved(a + b, n) =~= all_moved(a, n) + all_moved(b, n));
}

proof fn lemma_moved_inserted(x: FindingView, s: Seq<FindingView>, n: nat)
    ensures
        all_moved(order::inserted(x, s), n) == order::inserted(moved(x, n), all_moved(s, n)),
    decreases s.len(),
{
    if s.len() > 0 {
        let t = s.drop_first();
        lemma_moved_inserted(x, t, n);
        assert(all_moved(s, n).drop_first() =~= all_moved(t, n));
        assert(all_moved(s, n)[0] == moved(s[0], n));
        assert(moved(s[0], n).before(moved(x, n)) == s[0].before(x));
        lemma_moved_add(seq![s[0]], order::inserted(x, t), n);
        assert(all_moved(seq![s[0]], n) =~= seq![moved(s[0], n)]);
    }
    lemma_moved_add(seq![x], s, n);
    assert(all_moved(seq![x], n) =~= seq![moved(x, n)]);
}

pub(crate) proof fn lemma_moved_sorted(s: Seq<FindingView>, n: nat)
    ensures
        all_moved(order::sorted(s), n) == order::sorted(all_moved(s, n)),
    decreases s.len(),
{
    if s.len() == 0 {
        assert(all_moved(s, n) =~= s);
    } else {
        lemma_moved_sorted(s.drop_first(), n);
        lemma_moved_inserted(s[0], order::sorted(s.drop_first()), n);
        assert(all_moved(s, n).drop_first() =~= all_moved(s.drop_first(), n));
    }
}

/// A finding under the label `file`.
pub open spec fn labelled(f: FindingView, file: Seq<char>) -> FindingView {
    FindingView { file, ..f }
}

/// Findings under the label `file`.
pub open spec fn all_labelled(fs: Seq<FindingView>, file: Seq<char>) -> Seq<FindingView> {
    fs.map_values(|f: FindingView| labelled(f, file))
}

pub(crate) proof fn lemma_labelled_add(a: Seq<FindingView>, b: Seq<FindingView>, file: Seq<char>)
    ensures
        all_labelled(a + b, file) == all_labelled(a, file) + all_labelled(b, file),
{
    assert(all_labelled(a + b, file) =~= all_labelled(a, file) + all_labelled(b, file));
}

proof fn lemma_labelled_inserted(
    x: FindingView,
    s: Seq<FindingView>,
    file: Seq<char>,
    other: Seq<char>,
)
    requires
        x.file == file,
        s.all(|f: FindingView| f.file == file),
    ensures
        all_labelled(order::inserted(x, s), other) == order::inserted(
            labelled(x, other),
            all_labelled(s, other),
        ),
    decreases s.len(),
{
    let pred = |f: FindingView| f.file == file;
    if s.len() > 0 {
        let t = s.drop_first();
        assert(pred(s[0]));
        assert forall|i: int| 0 <= i < t.len() implies #[trigger] pred(t[i]) by {
            assert(pred(s[i + 1]));
        }
        lemma_labelled_inserted(x, t, file, other);
        assert(all_labelled(s, other).drop_first() =~= all_labelled(t, other));
        assert(all_labelled(s, other)[0] == labelled(s[0], other));
        assert(labelled(s[0], other).before(labelled(x, other)) == s[0].before(x));
        lemma_labelled_add(seq![s[0]], order::inserted(x, t), other);
        assert(all_labelled(seq![s[0]], other) =~= seq![labelled(s[0], other)]);
    }
    lemma_labelled_add(seq![x], s, other);
    assert(all_labelled(seq![x], other) =~= seq![labelled(x, other)]);
}

pub(crate) proof fn lemma_labelled_sorted(
    s: Seq<FindingView>,
    file: Seq<char>,
    other: Seq<char>,
)
    requires
        s.all(|f: FindingView| f.file == file),
    ensures
        all_labelled(order::sorted(s), other) == order::sorted(all_labelled(s, other)),
    decreases s.len(),
{
    let pred = |f: FindingView| f.file == file;
    if s.len() == 0 {
        assert(all_labelled(s, other) =~= s);
    } else {
        let t = s.drop_first();
        assert(pred(s[0]));
        assert forall|i: int| 0 <= i < t.len() implies #[trigger] pred(t[i]) by {
            assert(pred(s[i + 1]));
        }
        lemma_labelled_sorted(t, file, other);
        order::lemma_sort_keeps_all(t, pred);
        lemma_labelled_inserted(s[0], order::sorted(t), file, other);
        assert(all_labelled(s, other).drop_first() =~= all_labelled(t, other));
    }
}

/// Findings that are labelled `file` already stay as they are.
pub(crate) proof fn lemma_labelled_again(s: Seq<FindingView>, file: Seq<char>)
    requires
        s == all_labelled(s, file),
    ensures
        s.all(|f: FindingView| f.file == file),
{
    assert forall|i: int| 0 <= i < s.len() implies (#[trigger] s[i]).file == file by {
        assert(all_labelled(s, file)[i] == labelled(s[i], file));
    }
}

} // verus!
