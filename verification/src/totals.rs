use crate::forest::{depth, forest_rank, is_forest, lemma_forest_rank, lemma_walk_leaves, lemma_walk_ranks, on_walk};
use crate::usage::{is_usage_entry, is_usage_list, lists_before, unit, usage, usage_among, Usage};
use vstd::prelude::*;

verus! {

/// The number of times that the walk from `d` to its root adds one to the
/// count of an edge into a vertex below `m`.
pub open spec fn steps_counted(pred: Seq<usize>, d: int, m: nat) -> nat
    decreases m,
{
    if m == 0 {
        0
    } else {
        steps_counted(pred, d, (m - 1) as nat) + unit(on_walk(pred, d, m - 1))
    }
}

/// The sum of the depths of the vertices below `m`.
pub open spec fn total_depth(pred: Seq<usize>, m: nat) -> nat
    decreases m,
{
    if m == 0 {
        0
    } else {
        total_depth(pred, (m - 1) as nat) + depth(pred, m - 1)
    }
}

/// The sum, over the edges into the vertices below `m`, of the number of
/// walks from vertices below `k` that step along the edge.
pub open spec fn total_usage_among(pred: Seq<usize>, m: nat, k: nat) -> nat
    decreases m,
{
    if m == 0 {
        0
    } else {
        total_usage_among(pred, (m - 1) as nat, k) + usage_among(pred, m - 1, k)
    }
}

/// The sum of the usage of all edges of the forest.
pub open spec fn total_usage(pred: Seq<usize>) -> nat {
    total_usage_among(pred, pred.len(), pred.len())
}

/// The sum of the counts in a usage list.
pub open spec fn list_total(list: Seq<Usage>) -> nat
    decreases list.len(),
{
    if list.len() == 0 {
        0
    } else {
        list_total(list.drop_last()) + list.last().1 as nat
    }
}

proof fn lemma_root_counts_no_step(pred: Seq<usize>, d: int, m: nat)
    requires
        is_forest(pred),
        0 <= d < pred.len(),
        pred[d] == d,
    ensures
        steps_counted(pred, d, m) == 0,
    decreases m,
{
    if m > 0 {
        lemma_root_counts_no_step(pred, d, (m - 1) as nat);
    }
}

proof fn lemma_one_more_step(pred: Seq<usize>, d: int, m: nat)
    requires
        is_forest(pred),
        0 <= d < pred.len(),
        pred[d] != d,
    ensures
        steps_counted(pred, d, m) == steps_counted(pred, pred[d] as int, m) + unit(d < m),
    decreases m,
{
    if m > 0 {
        lemma_one_more_step(pred, d, (m - 1) as nat);
        lemma_walk_leaves(pred, d);
    }
}

/// The walk from a vertex adds one to a count as often as it has steps: the
/// sum of what it adds to the counts of all edges is the depth of the vertex.
pub proof fn lemma_walk_counts_its_steps(pred: Seq<usize>, d: int)
    requires
        is_forest(pred),
        0 <= d < pred.len(),
    ensures
        steps_counted(pred, d, pred.len()) == depth(pred, d),
    decreases forest_rank(pred)[d],
{
    lemma_forest_rank(pred);
    if pred[d] == d {
        lemma_root_counts_no_step(pred, d, pred.len());
    } else {
        lemma_walk_counts_its_steps(pred, pred[d] as int);
        lemma_one_more_step(pred, d, pred.len());
    }
}

proof fn lemma_total_grows_by_walk(pred: Seq<usize>, m: nat, k: nat)
    ensures
        total_usage_among(pred, m, k + 1) == total_usage_among(pred, m, k) + steps_counted(
            pred,
            k as int,
            m,
        ),
    decreases m,
{
    if m > 0 {
        lemma_total_grows_by_walk(pred, (m - 1) as nat, k);
        assert(usage_among(pred, m - 1, k + 1) == usage_among(pred, m - 1, k) + unit(
            on_walk(pred, k as int, m - 1),
        ));
    }
}

proof fn lemma_total_of_no_walk(pred: Seq<usize>, m: nat)
    ensures
        total_usage_among(pred, m, 0) == 0,
    decreases m,
{
    if m > 0 {
        lemma_total_of_no_walk(pred, (m - 1) as nat);
    }
}

proof fn lemma_total_usage_among(pred: Seq<usize>, k: nat)
    requires
        is_forest(pred),
        k <= pred.len(),
    ensures
        total_usage_among(pred, pred.len(), k) == total_depth(pred, k),
    decreases k,
{
    if k == 0 {
        lemma_total_of_no_walk(pred, pred.len());
    } else {
        lemma_total_usage_among(pred, (k - 1) as nat);
        lemma_total_grows_by_walk(pred, pred.len(), (k - 1) as nat);
        lemma_walk_counts_its_steps(pred, k - 1);
    }
}

/// The usage of all edges adds up to the depths of all vertices: the number
/// of steps that the walks take together.
pub proof fn lemma_total_usage_is_total_depth(pred: Seq<usize>)
    requires
        is_forest(pred),
    ensures
        total_usage(pred) == total_depth(pred, pred.len()),
{
    lemma_total_usage_among(pred, pred.len());
}

/// No walk steps from a root, so the edge into a root is never used.
pub proof fn lemma_root_is_unused(pred: Seq<usize>, v: int, m: nat)
    requires
        is_forest(pred),
        0 <= v < pred.len(),
        pred[v] == v,
        m <= pred.len(),
    ensures
        usage_among(pred, v, m) == 0,
    decreases m,
{
    if m > 0 {
        lemma_root_is_unused(pred, v, (m - 1) as nat);
        if on_walk(pred, m - 1, v) {
            lemma_walk_ranks(pred, m - 1, v);
        }
    }
}

/// Whether one of the first `k` entries of `list` is the edge into `v`.
spec fn is_listed(list: Seq<Usage>, k: int, v: int) -> bool {
    exists|i: int| 0 <= i < k && (#[trigger] list[i]).0.1 == v
}

/// The usage of the edges into the vertices below `m` that are among the
/// first `k` entries of `list`.
spec fn listed_total(pred: Seq<usize>, list: Seq<Usage>, k: int, m: nat) -> nat
    decreases m,
{
    if m == 0 {
        0
    } else {
        listed_total(pred, list, k, (m - 1) as nat) + if is_listed(list, k, m - 1) {
            usage(pred, m - 1)
        } else {
            0
        }
    }
}

proof fn lemma_listed_total_grows(pred: Seq<usize>, list: Seq<Usage>, k: int, m: nat)
    requires
        is_usage_list(pred, list),
        0 <= k < list.len(),
    ensures
        listed_total(pred, list, k + 1, m) == listed_total(pred, list, k, m) + if list[k].0.1 < m {
            list[k].1 as nat
        } else {
            0
        },
    decreases m,
{
    if m > 0 {
        lemma_listed_total_grows(pred, list, k, (m - 1) as nat);
        let v = m - 1;
        assert(is_usage_entry(pred, list[k]));
        if list[k].0.1 == v {
            assert(is_listed(list, k + 1, v));
            if is_listed(list, k, v) {
                let i = choose|i: int| 0 <= i < k && (#[trigger] list[i]).0.1 == v;
                assert(is_usage_entry(pred, list[i]));
                assert(lists_before(list[i], list[k]));
            }
        } else {
            if is_listed(list, k + 1, v) {
                let i = choose|i: int| 0 <= i < k + 1 && (#[trigger] list[i]).0.1 == v;
                assert(is_listed(list, k, v));
            }
            if is_listed(list, k, v) {
                let i = choose|i: int| 0 <= i < k && (#[trigger] list[i]).0.1 == v;
                assert(is_listed(list, k + 1, v));
            }
        }
    }
}

proof fn lemma_nothing_listed(pred: Seq<usize>, list: Seq<Usage>, m: nat)
    ensures
        listed_total(pred, list, 0, m) == 0,
    decreases m,
{
    if m > 0 {
        lemma_nothing_listed(pred, list, (m - 1) as nat);
    }
}

proof fn lemma_listed_total_of_prefix(pred: Seq<usize>, list: Seq<Usage>, k: int)
    requires
        is_usage_list(pred, list),
        0 <= k <= list.len(),
    ensures
        listed_total(pred, list, k, pred.len()) == list_total(list.take(k)),
    decreases k,
{
    if k == 0 {
        lemma_nothing_listed(pred, list, pred.len());
    } else {
        lemma_listed_total_of_prefix(pred, list, k - 1);
        lemma_listed_total_grows(pred, list, k - 1, pred.len());
        assert(is_usage_entry(pred, list[k - 1]));
        assert(list.take(k).drop_last() == list.take(k - 1));
    }
}

proof fn lemma_all_listed(pred: Seq<usize>, list: Seq<Usage>, m: nat)
    requires
        is_forest(pred),
        is_usage_list(pred, list),
        m <= pred.len(),
    ensures
        listed_total(pred, list, list.len() as int, m) == total_usage_among(pred, m, pred.len()),
    decreases m,
{
    if m > 0 {
        lemma_all_listed(pred, list, (m - 1) as nat);
        let v = m - 1;
        if pred[v] == v {
            lemma_root_is_unused(pred, v, pred.len());
        } else {
            let i = choose|i: int| 0 <= i < list.len() && (#[trigger] list[i]).0.1 == v;
            assert(is_listed(list, list.len() as int, v));
        }
    }
}

/// The counts of a usage list add up to the usage of all edges, and so to
/// the number of steps that the walks from all vertices take together.
pub proof fn lemma_list_total_is_total_depth(pred: Seq<usize>, list: Seq<Usage>)
    requires
        is_forest(pred),
        is_usage_list(pred, list),
    ensures
        list_total(list) == total_usage(pred),
        list_total(list) == total_depth(pred, pred.len()),
{
    lemma_listed_total_of_prefix(pred, list, list.len() as int);
    lemma_all_listed(pred, list, pred.len());
    lemma_total_usage_is_total_depth(pred);
    assert(list.take(list.len() as int) == list);
}

/// `e` is one of the first `m` entries of `list`.
spec fn occurs(list: Seq<Usage>, m: int, e: Usage) -> bool {
    exists|j: int| 0 <= j < m && #[trigger] list[j] == e
}

/// Two lists in the order of `lists_before` whose first `k` and first `m`
/// entries are the same entries have them in the same places.
proof fn lemma_same_entries_same_list(a: Seq<Usage>, b: Seq<Usage>, k: int, m: int)
    requires
        0 <= k <= a.len(),
        0 <= m <= b.len(),
        forall|i: int, j: int| 0 <= i < j < a.len() ==> lists_before(#[trigger] a[i], #[trigger] a[j]),
        forall|i: int, j: int| 0 <= i < j < b.len() ==> lists_before(#[trigger] b[i], #[trigger] b[j]),
        forall|i: int| 0 <= i < k ==> occurs(b, m, #[trigger] a[i]),
        forall|j: int| 0 <= j < m ==> occurs(a, k, #[trigger] b[j]),
    ensures
        k == m,
        a.take(k) == b.take(m),
    decreases k,
{
    if k == 0 {
        if m > 0 {
            assert(occurs(a, k, b[0]));
        }
    } else if m == 0 {
        assert(occurs(b, m, a[0]));
    } else {
        let x = a[k - 1];
        let y = b[m - 1];
        assert(occurs(b, m, x));
        assert(occurs(a, k, y));
        let ja = choose|j: int| 0 <= j < m && #[trigger] b[j] == x;
        let ib = choose|i: int| 0 <= i < k && #[trigger] a[i] == y;
        if ja < m - 1 {
            assert(lists_before(b[ja], b[m - 1]));
        }
        if ib < k - 1 {
            assert(lists_before(a[ib], a[k - 1]));
        }
        assert(x == y);
        assert forall|i: int| 0 <= i < k - 1 implies occurs(b, m - 1, #[trigger] a[i]) by {
            assert(occurs(b, m, a[i]));
            let j = choose|j: int| 0 <= j < m && #[trigger] b[j] == a[i];
            assert(lists_before(a[i], a[k - 1]));
            assert(j < m - 1);
        }
        assert forall|j: int| 0 <= j < m - 1 implies occurs(a, k - 1, #[trigger] b[j]) by {
            assert(occurs(a, k, b[j]));
            let i = choose|i: int| 0 <= i < k && #[trigger] a[i] == b[j];
            assert(lists_before(b[j], b[m - 1]));
            assert(i < k - 1);
        }
        lemma_same_entries_same_list(a, b, k - 1, m - 1);
        assert(a.take(k) == a.take(k - 1).push(x));
        assert(b.take(m) == b.take(m - 1).push(y));
    }
}

/// Every entry of one usage list of a forest is an entry of every other.
proof fn lemma_lists_share_entries(pred: Seq<usize>, a: Seq<Usage>, b: Seq<Usage>)
    requires
        is_usage_list(pred, a),
        is_usage_list(pred, b),
    ensures
        forall|i: int| 0 <= i < a.len() ==> occurs(b, b.len() as int, #[trigger] a[i]),
{
    assert forall|i: int| 0 <= i < a.len() implies occurs(b, b.len() as int, #[trigger] a[i]) by {
        assert(is_usage_entry(pred, a[i]));
        let v = a[i].0.1 as int;
        assert(pred[v] != v);
        let j = choose|j: int| 0 <= j < b.len() && (#[trigger] b[j]).0.1 == v;
        assert(is_usage_entry(pred, b[j]));
        assert(b[j] == a[i]);
    }
}

/// A forest has one usage list: two lists of the same forest are equal, so
/// counting again gives the same list.
pub proof fn lemma_usage_list_is_unique(pred: Seq<usize>, a: Seq<Usage>, b: Seq<Usage>)
    requires
        is_usage_list(pred, a),
        is_usage_list(pred, b),
    ensures
        a == b,
{
    lemma_lists_share_entries(pred, a, b);
    lemma_lists_share_entries(pred, b, a);
    lemma_same_entries_same_list(a, b, a.len() as int, b.len() as int);
    assert(a.take(a.len() as int) == a);
    assert(b.take(b.len() as int) == b);
}

} // verus!
