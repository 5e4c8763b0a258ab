//! What holds of the rules that a SARIF document lists.

use crate::finding::FindingView;
use crate::output::sarif::{entered, place, rule_table, start_line};
use crate::text;
use vstd::prelude::*;

verus! {

/// Whether the ids of findings rise strictly.
pub open spec fn rising(table: Seq<FindingView>) -> bool {
    forall|i: int, j: int|
        0 <= i < j < table.len() ==> text::text_less(
            (#[trigger] table[i]).rule_id,
            (#[trigger] table[j]).rule_id,
        )
}

/// Whether `f` is the first finding of its rule.
pub open spec fn is_first_of_rule(f: FindingView, fs: Seq<FindingView>) -> bool {
    exists|i: int|
        0 <= i < fs.len() && fs[i] == f && forall|j: int|
            0 <= j < i ==> (#[trigger] fs[j]).rule_id != f.rule_id
}

/// Whether some finding is of the given rule.
pub open spec fn has_rule(fs: Seq<FindingView>, id: Seq<char>) -> bool {
    exists|i: int| 0 <= i < fs.len() && (#[trigger] fs[i]).rule_id == id
}

proof fn lemma_place(table: Seq<FindingView>, id: Seq<char>, i: int)
    requires
        0 <= i <= table.len(),
        forall|k: int| 0 <= k < i ==> text::text_less((#[trigger] table[k]).rule_id, id),
    ensures
        i <= place(table, id, i) <= table.len(),
        forall|k: int|
            0 <= k < place(table, id, i) ==> text::text_less((#[trigger] table[k]).rule_id, id),
        place(table, id, i) < table.len() ==> !text::text_less(
            table[place(table, id, i)].rule_id,
            id,
        ),
    decreases table.len() - i,
{
    if i < table.len() && text::text_less(table[i].rule_id, id) {
        lemma_place(table, id, i + 1);
    }
}

proof fn lemma_entered(table: Seq<FindingView>, f: FindingView)
    requires
        rising(table),
    ensures
        rising(entered(table, f)),
        forall|id: Seq<char>|
            #![trigger has_rule(entered(table, f), id)]
            has_rule(entered(table, f), id) <==> has_rule(table, id) || id == f.rule_id,
        has_rule(table, f.rule_id) ==> entered(table, f) == table,
        forall|k: int|
            0 <= k < entered(table, f).len() ==> #[trigger] entered(table, f)[k] == f
                || table.contains(entered(table, f)[k]),
{
    let id = f.rule_id;
    lemma_place(table, id, 0);
    let at = place(table, id, 0);
    let out = entered(table, f);
    if at < table.len() && table[at].rule_id == id {
        assert(has_rule(table, id));
    } else {
        if at < table.len() {
            text::lemma_text_less_total(table[at].rule_id, id);
        }
        assert forall|k: int| at <= k < table.len() implies text::text_less(
            id,
            (#[trigger] table[k]).rule_id,
        ) by {
            if k > at {
                text::lemma_text_less_transitive(id, table[at].rule_id, table[k].rule_id);
            }
        }
        assert forall|i: int, j: int| 0 <= i < j < out.len() implies text::text_less(
            (#[trigger] out[i]).rule_id,
            (#[trigger] out[j]).rule_id,
        ) by {
            if i < at {
                assert(out[i] == table[i]);
            } else if i > at {
                assert(out[i] == table[i - 1]);
            }
            if j < at {
                assert(out[j] == table[j]);
            } else if j > at {
                assert(out[j] == table[j - 1]);
            }
        }
        assert forall|x: Seq<char>| #![trigger has_rule(out, x)]
            has_rule(out, x) <==> has_rule(table, x) || x == id by {
            assert(out[at] == f);
            if has_rule(table, x) {
                let k = choose|k: int| 0 <= k < table.len() && (#[trigger] table[k]).rule_id == x;
                if k < at {
                    assert(out[k] == table[k]);
                } else {
                    assert(out[k + 1] == table[k]);
                }
            }
            if has_rule(out, x) && x != id {
                let k = choose|k: int| 0 <= k < out.len() && (#[trigger] out[k]).rule_id == x;
                if k < at {
                    assert(out[k] == table[k]);
                } else {
                    assert(out[k] == table[k - 1]);
                }
            }
        }
        if has_rule(table, id) {
            let k = choose|k: int| 0 <= k < table.len() && (#[trigger] table[k]).rule_id == id;
            text::lemma_text_less_total(table[k].rule_id, id);
        }
        assert forall|k: int| 0 <= k < out.len() implies #[trigger] out[k] == f || table.contains(
            out[k],
        ) by {
            if k < at {
                assert(out[k] == table[k]);
            } else if k > at {
                assert(out[k] == table[k - 1]);
            }
        }
    }
}

/// The rules of a document rise strictly by id, so that no rule is listed
/// twice.
pub proof fn law_rules_rise(fs: Seq<FindingView>)
    ensures
        rising(rule_table(fs)),
    decreases fs.len(),
{
    if fs.len() > 0 {
        law_rules_rise(fs.drop_last());
        lemma_entered(rule_table(fs.drop_last()), fs.last());
    }
}

/// A rule is listed exactly when there is a result of it.
pub proof fn law_rules_are_those_of_results(fs: Seq<FindingView>, id: Seq<char>)
    ensures
        has_rule(rule_table(fs), id) <==> has_rule(fs, id),
    decreases fs.len(),
{
    if fs.len() > 0 {
        let head = fs.drop_last();
        law_rules_are_those_of_results(head, id);
        law_rules_rise(head);
        lemma_entered(rule_table(head), fs.last());
        if has_rule(fs, id) && id != fs.last().rule_id {
            let k = choose|k: int| 0 <= k < fs.len() && (#[trigger] fs[k]).rule_id == id;
            assert(head[k] == fs[k]);
        }
        if has_rule(head, id) {
            let k = choose|k: int| 0 <= k < head.len() && (#[trigger] head[k]).rule_id == id;
            assert(fs[k] == head[k]);
        }
        if id == fs.last().rule_id {
            assert(fs[fs.len() - 1].rule_id == id);
        }
    }
}

/// A rule is described by the first of its findings.
pub proof fn law_rules_are_described_by_first_finding(fs: Seq<FindingView>, k: int)
    requires
        0 <= k < rule_table(fs).len(),
    ensures
        is_first_of_rule(rule_table(fs)[k], fs),
    decreases fs.len(),
{
    let head = fs.drop_last();
    let table = rule_table(head);
    let last = fs.last();
    let f = rule_table(fs)[k];
    law_rules_rise(head);
    lemma_entered(table, last);
    if table.contains(f) {
        let j = choose|j: int| 0 <= j < table.len() && table[j] == f;
        law_rules_are_described_by_first_finding(head, j);
        let i = choose|i: int|
            0 <= i < head.len() && head[i] == f && forall|j: int|
                0 <= j < i ==> (#[trigger] head[j]).rule_id != f.rule_id;
        assert(fs[i] == f);
        assert forall|j: int| 0 <= j < i implies (#[trigger] fs[j]).rule_id != f.rule_id by {
            assert(head[j] == fs[j]);
        }
    } else {
        assert(f == last);
        if has_rule(table, last.rule_id) {
            assert(table.contains(rule_table(fs)[k]));
        }
        law_rules_are_those_of_results(head, last.rule_id);
        let i = fs.len() - 1;
        assert(fs[i] == f);
        assert forall|j: int| 0 <= j < i implies (#[trigger] fs[j]).rule_id != f.rule_id by {
            assert(head[j] == fs[j]);
        }
    }
}

/// Every result points to a line, counted from one.
pub proof fn law_results_point_to_lines(f: FindingView)
    ensures
        start_line(f.line) >= 1,
        f.line >= 1 ==> start_line(f.line) == f.line,
{
}

} // verus!
