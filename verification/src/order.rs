//! The order in which findings are reported.

use crate::finding::{views, Finding, FindingView};
use crate::text;
use vstd::prelude::*;

verus! {

/// `s` with `x` put in front of the first finding that does not come before
/// it.
pub open spec fn inserted(x: FindingView, s: Seq<FindingView>) -> Seq<FindingView>
    decreases s.len(),
{
    if s.len() > 0 && s[0].before(x) {
        seq![s[0]] + inserted(x, s.drop_first())
    } else {
        seq![x] + s
    }
}

/// The findings of `s` in order; those at the same place keep the order that
/// they have in `s`.
pub open spec fn sorted(s: Seq<FindingView>) -> Seq<FindingView>
    decreases s.len(),
{
    if s.len() == 0 {
        s
    } else {
        inserted(s[0], sorted(s.drop_first()))
    }
}

/// Whether no finding of `s` comes before an earlier one.
pub open spec fn ordered(s: Seq<FindingView>) -> bool {
    forall|i: int, j: int| 0 <= i < j < s.len() ==> !s[j].before(s[i])
}

/// The findings of `s` that stand at the place of `p`, in the order of `s`.
pub open spec fn at_place(s: Seq<FindingView>, p: FindingView) -> Seq<FindingView> {
    s.filter(|f: FindingView| f.same_place(p))
}

/// Puts `x` in front of the first finding that does not come before it.
fn insert(x: Finding, findings: &mut Vec<Finding>)
    ensures
        views(final(findings)@) == inserted(x@, views(old(findings)@)),
{
    let mut i: usize = 0;
    let ghost s = views(findings@);
    assert(s.skip(0) =~= s);
    assert(s.take(0) + inserted(x@, s.skip(0)) =~= inserted(x@, s));
    while i < findings.len() && findings[i].comes_before(&x)
        invariant
            i <= findings@.len(),
            s == views(findings@),
            s.take(i as int) + inserted(x@, s.skip(i as int)) == inserted(x@, s),
        decreases findings@.len() - i,
    {
        proof {
            assert(s.skip(i as int).drop_first() =~= s.skip(i + 1));
            assert(s.skip(i as int)[0] == s[i as int]);
            assert(s.take(i + 1) + inserted(x@, s.skip(i + 1)) =~= s.take(i as int) + inserted(
                x@,
                s.skip(i as int),
            ));
        }
        i += 1;
    }
    assert(inserted(x@, s.skip(i as int)) =~= seq![x@] + s.skip(i as int)) by {
        if i < findings@.len() {
            assert(s.skip(i as int)[0] == s[i as int]);
        }
    }
    let ghost xv = x@;
    findings.insert(i, x);
    assert(views(findings@) =~= s.take(i as int) + (seq![xv] + s.skip(i as int)));
}

/// Puts findings in order, keeping the order of those at the same place.
pub fn sort(findings: Vec<Finding>) -> (r: Vec<Finding>)
    ensures
        views(r@) == sorted(views(findings@)),
{
    let ghost s = views(findings@);
    let mut rest = findings;
    let mut out: Vec<Finding> = Vec::new();
    assert(s.skip(s.len() as int) =~= views(out@));
    while rest.len() > 0
        invariant
            rest@.len() <= s.len(),
            views(rest@) == s.take(rest@.len() as int),
            views(out@) == sorted(s.skip(rest@.len() as int)),
        decreases rest@.len(),
    {
        let ghost n = rest@.len() as int;
        let ghost before = views(rest@);
        assert(before.last() == s[n - 1]);
        match rest.pop() {
            Some(f) => {
                assert(f@ == s[n - 1]);
                assert(s.skip(n - 1).drop_first() =~= s.skip(n));
                assert(s.skip(n - 1)[0] == s[n - 1]);
                assert(views(rest@) =~= s.take(n - 1));
                insert(f, &mut out);
            },
            None => {},
        }
    }
    assert(s.skip(0) =~= s);
    out
}

/// The order of findings is total up to their place: of two findings exactly
/// one comes before the other, unless they stand at the same place.
pub proof fn law_order_is_total(a: FindingView, b: FindingView)
    ensures
        !(a.before(b) && b.before(a)),
        a.same_place(b) <==> !a.before(b) && !b.before(a),
{
    text::lemma_text_less_total(a.file, b.file);
    text::lemma_text_less_total(a.rule_id, b.rule_id);
}

/// The order of findings is transitive.
pub proof fn law_order_is_transitive(a: FindingView, b: FindingView, c: FindingView)
    requires
        a.before(b),
        b.before(c),
    ensures
        a.before(c),
{
    if a.severity == b.severity && b.severity == c.severity {
        if a.file != b.file && b.file != c.file {
            text::lemma_text_less_transitive(a.file, b.file, c.file);
            text::lemma_text_less_total(a.file, b.file);
        }
        if a.rule_id != b.rule_id && b.rule_id != c.rule_id && text::text_less(
            a.rule_id,
            b.rule_id,
        ) && text::text_less(b.rule_id, c.rule_id) {
            text::lemma_text_less_transitive(a.rule_id, b.rule_id, c.rule_id);
        }
        text::lemma_text_less_total(a.rule_id, b.rule_id);
        text::lemma_text_less_total(b.rule_id, c.rule_id);
    }
}

proof fn lemma_inserted_ordered(x: FindingView, s: Seq<FindingView>)
    requires
        ordered(s),
    ensures
        ordered(inserted(x, s)),
        inserted(x, s).to_multiset() =~= s.to_multiset().insert(x),
        inserted(x, s).len() == s.len() + 1,
        forall|i: int| 0 <= i <= s.len() ==> #[trigger] inserted(x, s)[i] == x || s.contains(inserted(x, s)[i]),
    decreases s.len(),
{
    broadcast use vstd::seq_lib::group_to_multiset_ensures;

    if s.len() > 0 && s[0].before(x) {
        let t = s.drop_first();
        let r = inserted(x, t);
        lemma_inserted_ordered(x, t);
        let out = inserted(x, s);
        assert(out == seq![s[0]] + r);
        law_order_is_total(s[0], x);
        assert forall|i: int| 0 <= i <= s.len() implies #[trigger] out[i] == x || s.contains(out[i]) by {
            if i == 0 {
                assert(s.contains(s[0]));
            } else {
                assert(out[i] == r[i - 1]);
                if r[i - 1] != x {
                    let k = choose|k: int| 0 <= k < t.len() && t[k] == r[i - 1];
                    assert(s[k + 1] == out[i]);
                }
            }
        }
        assert forall|i: int, j: int| 0 <= i < j < out.len() implies !out[j].before(out[i]) by {
            if i == 0 {
                assert(out[j] == r[j - 1]);
                if r[j - 1] != x {
                    let k = choose|k: int| 0 <= k < t.len() && t[k] == r[j - 1];
                    assert(s[k + 1] == out[j]);
                }
            } else {
                assert(out[i] == r[i - 1] && out[j] == r[j - 1]);
            }
        }
        assert(s =~= seq![s[0]] + t);
        lemma_prepend_multiset(s[0], t);
        lemma_prepend_multiset(s[0], r);
        assert(out.to_multiset() =~= s.to_multiset().insert(x));
    } else {
        let out = inserted(x, s);
        assert(out == seq![x] + s);
        assert forall|i: int, j: int| 0 <= i < j < out.len() implies !out[j].before(out[i]) by {
            assert(out[j] == s[j - 1]);
            if i == 0 {
                if s[j - 1].before(x) {
                    if j > 1 {
                        assert(!s[j - 1].before(s[0]));
                        law_order_is_total(s[j - 1], s[0]);
                        law_order_is_total(s[0], x);
                        if s[0].before(s[j - 1]) {
                            law_order_is_transitive(s[0], s[j - 1], x);
                        }
                    }
                }
            } else {
                assert(out[i] == s[i - 1]);
            }
        }
        assert forall|i: int| 0 <= i <= s.len() implies #[trigger] out[i] == x || s.contains(out[i]) by {
            if i > 0 {
                assert(out[i] == s[i - 1]);
            }
        }
        lemma_prepend_multiset(x, s);
    }
}

proof fn lemma_prepend_multiset(x: FindingView, s: Seq<FindingView>)
    ensures
        (seq![x] + s).to_multiset() =~= s.to_multiset().insert(x),
{
    broadcast use vstd::seq_lib::group_to_multiset_ensures;

    assert(seq![x] + s =~= s.insert(0, x));
    vstd::seq_lib::to_multiset_insert(s, 0, x);
}

/// Sorting reports the same findings, each as many times as before.
pub proof fn law_sort_keeps_findings(s: Seq<FindingView>)
    ensures
        sorted(s).to_multiset() == s.to_multiset(),
        sorted(s).len() == s.len(),
    decreases s.len(),
{
    if s.len() > 0 {
        let t = s.drop_first();
        law_sort_keeps_findings(t);
        law_sort_orders(t);
        lemma_inserted_ordered(s[0], sorted(t));
        lemma_prepend_multiset(s[0], t);
        assert(s =~= seq![s[0]] + t);
    }
}

/// Sorted findings are in order: none comes before an earlier one.
pub proof fn law_sort_orders(s: Seq<FindingView>)
    ensures
        ordered(sorted(s)),
    decreases s.len(),
{
    if s.len() > 0 {
        law_sort_orders(s.drop_first());
        lemma_inserted_ordered(s[0], sorted(s.drop_first()));
    }
}

proof fn lemma_inserted_at_place(x: FindingView, s: Seq<FindingView>, p: FindingView)
    ensures
        at_place(inserted(x, s), p) == (if x.same_place(p) {
            seq![x] + at_place(s, p)
        } else {
            at_place(s, p)
        }),
    decreases s.len(),
{
    let pred = |f: FindingView| f.same_place(p);
    if s.len() > 0 && s[0].before(x) {
        let t = s.drop_first();
        lemma_inserted_at_place(x, t, p);
        assert(s =~= seq![s[0]] + t);
        lemma_prepend_at_place(s[0], t, p);
        lemma_prepend_at_place(s[0], inserted(x, t), p);
        law_order_is_total(s[0], x);
    } else {
        lemma_prepend_at_place(x, s, p);
    }
}

proof fn lemma_prepend_at_place(x: FindingView, s: Seq<FindingView>, p: FindingView)
    ensures
        at_place(seq![x] + s, p) == (if x.same_place(p) {
            seq![x] + at_place(s, p)
        } else {
            at_place(s, p)
        }),
{
    let pred = |f: FindingView| f.same_place(p);
    Seq::filter_distributes_over_add(seq![x], s, pred);
    reveal_with_fuel(Seq::filter, 2);
    assert(seq![x].drop_last() =~= Seq::<FindingView>::empty());
    assert(at_place(seq![x], p) =~= (if x.same_place(p) {
        seq![x]
    } else {
        Seq::empty()
    }));
    assert(Seq::<FindingView>::empty() + at_place(s, p) =~= at_place(s, p));
}

/// Sorting is stable: the findings at any one place keep their order.
pub proof fn law_sort_is_stable(s: Seq<FindingView>, p: FindingView)
    ensures
        at_place(sorted(s), p) == at_place(s, p),
    decreases s.len(),
{
    if s.len() > 0 {
        let t = s.drop_first();
        law_sort_is_stable(t, p);
        lemma_inserted_at_place(s[0], sorted(t), p);
        lemma_prepend_at_place(s[0], t, p);
        assert(s =~= seq![s[0]] + t);
    }
}

proof fn lemma_prepend_filter_len(
    x: FindingView,
    s: Seq<FindingView>,
    pred: spec_fn(FindingView) -> bool,
)
    ensures
        (seq![x] + s).filter(pred).len() == s.filter(pred).len() + (if pred(x) {
            1nat
        } else {
            0nat
        }),
{
    Seq::filter_distributes_over_add(seq![x], s, pred);
    reveal_with_fuel(Seq::filter, 2);
    assert(seq![x].drop_last() =~= Seq::<FindingView>::empty());
}

proof fn lemma_inserted_filter_len(
    x: FindingView,
    s: Seq<FindingView>,
    pred: spec_fn(FindingView) -> bool,
)
    ensures
        inserted(x, s).filter(pred).len() == (seq![x] + s).filter(pred).len(),
    decreases s.len(),
{
    lemma_prepend_filter_len(x, s, pred);
    if s.len() > 0 && s[0].before(x) {
        let t = s.drop_first();
        lemma_inserted_filter_len(x, t, pred);
        assert(s =~= seq![s[0]] + t);
        lemma_prepend_filter_len(s[0], t, pred);
        lemma_prepend_filter_len(s[0], inserted(x, t), pred);
        lemma_prepend_filter_len(x, t, pred);
    }
}

/// As many findings of any kind leave sorting as enter it.
pub proof fn lemma_sort_keeps_count(s: Seq<FindingView>, pred: spec_fn(FindingView) -> bool)
    ensures
        sorted(s).filter(pred).len() == s.filter(pred).len(),
    decreases s.len(),
{
    if s.len() > 0 {
        let t = s.drop_first();
        lemma_sort_keeps_count(t, pred);
        lemma_inserted_filter_len(s[0], sorted(t), pred);
        lemma_prepend_filter_len(s[0], sorted(t), pred);
        lemma_prepend_filter_len(s[0], t, pred);
        assert(s =~= seq![s[0]] + t);
    }
}

/// Sorting keeps each finding and adds none.
pub proof fn lemma_sort_holds(s: Seq<FindingView>, f: FindingView)
    ensures
        sorted(s).contains(f) <==> s.contains(f),
{
    broadcast use vstd::seq_lib::group_to_multiset_ensures;

    law_sort_keeps_findings(s);
    assert(sorted(s).to_multiset().count(f) == s.to_multiset().count(f));
}

/// Whatever holds of every finding holds of every sorted finding.
pub proof fn lemma_sort_keeps_all(s: Seq<FindingView>, pred: spec_fn(FindingView) -> bool)
    requires
        s.all(pred),
    ensures
        sorted(s).all(pred),
{
    broadcast use vstd::seq_lib::group_to_multiset_ensures;

    law_sort_keeps_findings(s);
    let r = sorted(s);
    assert forall|i: int| 0 <= i < r.len() implies #[trigger] pred(r[i]) by {
        assert(r.to_multiset().contains(r[i]));
        assert(s.contains(r[i]));
    }
}

} // verus!
