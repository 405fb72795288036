use crate::forest::{
    descends, forest_rank, is_forest, lemma_forest_rank, lemma_walk_leaves, on_walk,
};
use crate::graph::Graph;
use crate::queue::{entry_le, Entry, MinQueue};
use vstd::multiset::{axiom_count_le_len, group_multiset_axioms};
use vstd::prelude::*;

verus! {

/// An edge of the forest, from a vertex's predecessor to the vertex, with
/// the number of walks that step along it.
pub type Usage = ((usize, usize), usize);

/// One if `b` holds, else zero.
pub open spec fn unit(b: bool) -> nat {
    if b {
        1
    } else {
        0
    }
}

/// The number of vertices below `m` whose walk to its root steps from `v` to
/// the predecessor of `v`.
pub open spec fn usage_among(pred: Seq<usize>, v: int, m: nat) -> nat
    decreases m,
{
    if m == 0 {
        0
    } else {
        usage_among(pred, v, (m - 1) as nat) + unit(on_walk(pred, m - 1, v))
    }
}

/// The number of walks that step from `v` to the predecessor of `v`, one walk
/// starting at each vertex.
pub open spec fn usage(pred: Seq<usize>, v: int) -> nat {
    usage_among(pred, v, pred.len())
}

/// The order of a usage list: by count, and among equal counts by the vertex
/// that the edge leads to.
pub open spec fn lists_before(a: Usage, b: Usage) -> bool {
    a.1 < b.1 || (a.1 == b.1 && a.0.1 < b.0.1)
}

/// `e` is the edge into a vertex that is not a root, with its usage.
pub open spec fn is_usage_entry(pred: Seq<usize>, e: Usage) -> bool {
    &&& e.0.1 < pred.len()
    &&& pred[e.0.1 as int] != e.0.1
    &&& e.0.0 == pred[e.0.1 as int]
    &&& e.1 == usage(pred, e.0.1 as int)
    &&& e.1 >= 1
}

/// `list` holds the edge into every vertex that is not a root, each once and
/// with its usage, in the order of `lists_before`.
pub open spec fn is_usage_list(pred: Seq<usize>, list: Seq<Usage>) -> bool {
    &&& forall|i: int| 0 <= i < list.len() ==> is_usage_entry(pred, #[trigger] list[i])
    &&& forall|v: int|
        0 <= v < pred.len() && #[trigger] pred[v] != v ==> exists|i: int|
            0 <= i < list.len() && (#[trigger] list[i]).0.1 == v
    &&& forall|i: int, j: int|
        0 <= i < j < list.len() ==> lists_before(#[trigger] list[i], #[trigger] list[j])
}

/// Among `m` walks at most `m` step along one edge.
pub proof fn lemma_usage_among_bound(pred: Seq<usize>, v: int, m: nat)
    ensures
        usage_among(pred, v, m) <= m,
    decreases m,
{
    if m > 0 {
        lemma_usage_among_bound(pred, v, (m - 1) as nat);
    }
}

/// The count of an edge does not fall as more walks are taken in.
pub proof fn lemma_usage_among_grows(pred: Seq<usize>, v: int, m: nat, k: nat)
    requires
        m <= k,
    ensures
        usage_among(pred, v, m) <= usage_among(pred, v, k),
    decreases k,
{
    if m < k {
        lemma_usage_among_grows(pred, v, m, (k - 1) as nat);
    }
}

/// The edge into a vertex that is not a root is used at least once: by the
/// walk that starts at that vertex.
pub proof fn lemma_usage_positive(pred: Seq<usize>, v: int)
    requires
        is_forest(pred),
        0 <= v < pred.len(),
        pred[v] != v,
    ensures
        usage(pred, v) >= 1,
{
    lemma_walk_leaves(pred, v);
    lemma_usage_among_grows(pred, v, (v + 1) as nat, pred.len());
    assert(usage_among(pred, v, (v + 1) as nat) >= 1);
}

/// For every vertex the number of walks that step from it to its
/// predecessor.
fn count_walks(pred: &Vec<usize>) -> (counts: Vec<usize>)
    requires
        is_forest(pred@),
    ensures
        counts@.len() == pred@.len(),
        forall|v: int| 0 <= v < pred@.len() ==> #[trigger] counts@[v] == usage(pred@, v),
{
    let n = pred.len();
    let ghost rank = forest_rank(pred@);
    proof {
        lemma_forest_rank(pred@);
    }
    let mut counts: Vec<usize> = Vec::with_capacity(n);
    let mut i: usize = 0;
    while i < n
        invariant
            i <= n,
            counts@.len() == i,
            forall|v: int| 0 <= v < i ==> #[trigger] counts@[v] == 0,
        decreases n - i,
    {
        counts.push(0);
        i += 1;
    }
    let mut d: usize = 0;
    while d < n
        invariant
            n == pred@.len(),
            d <= n,
            is_forest(pred@),
            rank == forest_rank(pred@),
            descends(pred@, rank),
            counts@.len() == n,
            forall|v: int| 0 <= v < n ==> #[trigger] counts@[v] == usage_among(pred@, v, d as nat),
        decreases n - d,
    {
        let mut x: usize = d;
        while pred[x] != x
            invariant
                n == pred@.len(),
                d < n,
                x < n,
                is_forest(pred@),
                rank == forest_rank(pred@),
                descends(pred@, rank),
                counts@.len() == n,
                forall|v: int|
                    0 <= v < n ==> #[trigger] counts@[v] + unit(on_walk(pred@, x as int, v))
                        == usage_among(pred@, v, d as nat) + unit(on_walk(pred@, d as int, v)),
            decreases rank[x as int],
        {
            let ghost before = counts@;
            proof {
                lemma_walk_leaves(pred@, x as int);
                lemma_usage_among_bound(pred@, x as int, d as nat);
                assert(before[x as int] + unit(on_walk(pred@, x as int, x as int)) == usage_among(
                    pred@,
                    x as int,
                    d as nat,
                ) + unit(on_walk(pred@, d as int, x as int)));
            }
            let seen = counts[x];
            counts.set(x, seen + 1);
            let next = pred[x];
            proof {
                assert forall|v: int| 0 <= v < n implies #[trigger] counts@[v] + unit(
                    on_walk(pred@, next as int, v),
                ) == usage_among(pred@, v, d as nat) + unit(on_walk(pred@, d as int, v)) by {
                    assert(before[v] + unit(on_walk(pred@, x as int, v)) == usage_among(
                        pred@,
                        v,
                        d as nat,
                    ) + unit(on_walk(pred@, d as int, v)));
                }
            }
            x = next;
        }
        proof {
            assert forall|v: int| 0 <= v < n implies #[trigger] counts@[v] == usage_among(
                pred@,
                v,
                (d + 1) as nat,
            ) by {
                assert(counts@[v] + unit(on_walk(pred@, x as int, v)) == usage_among(
                    pred@,
                    v,
                    d as nat,
                ) + unit(on_walk(pred@, d as int, v)));
            }
        }
        d += 1;
    }
    counts
}

/// The queue entry that orders a usage: its count, then the vertex that its
/// edge leads to.
spec fn key_of(e: Usage) -> Entry {
    (e.1 as u128, e.0.1)
}

/// The entry under which vertex `x` waits to be listed.
spec fn waiting_key(counts: Seq<usize>, x: int) -> Entry {
    (counts[x] as u128, x as usize)
}

/// Lists the edge into every vertex that is not a root with its count, the
/// least used first.
fn list_by_count(pred: &Vec<usize>, counts: &Vec<usize>) -> (list: Vec<Usage>)
    requires
        is_forest(pred@),
        counts@.len() == pred@.len(),
        forall|v: int| 0 <= v < pred@.len() ==> #[trigger] counts@[v] == usage(pred@, v),
    ensures
        is_usage_list(pred@, list@),
{
    let n = pred.len();
    let mut queue = MinQueue::new();
    let mut v: usize = 0;
    proof {
        broadcast use group_multiset_axioms;

    }
    while v < n
        invariant
            n == pred@.len(),
            n == counts@.len(),
            v <= n,
            queue.wf(),
            forall|e: Entry| #[trigger]
                queue@.count(e) > 0 ==> e.1 < v && pred@[e.1 as int] != e.1 && e == waiting_key(
                    counts@,
                    e.1 as int,
                ),
            forall|e: Entry| #[trigger] queue@.count(e) <= 1,
            forall|x: int|
                0 <= x < v && #[trigger] pred@[x] != x ==> queue@.count(waiting_key(counts@, x))
                    > 0,
        decreases n - v,
    {
        if pred[v] != v {
            proof {
                broadcast use group_multiset_axioms;

            }
            queue.push(counts[v] as u128, v);
        }
        v += 1;
    }
    let mut list: Vec<Usage> = Vec::new();
    loop
        invariant
            n == pred@.len(),
            n == counts@.len(),
            is_forest(pred@),
            forall|v: int| 0 <= v < pred@.len() ==> #[trigger] counts@[v] == usage(pred@, v),
            queue.wf(),
            forall|e: Entry| #[trigger]
                queue@.count(e) > 0 ==> e.1 < n && pred@[e.1 as int] != e.1 && e == waiting_key(
                    counts@,
                    e.1 as int,
                ),
            forall|e: Entry| #[trigger] queue@.count(e) <= 1,
            forall|i: int|
                0 <= i < list@.len() ==> is_usage_entry(pred@, #[trigger] list@[i]) && queue@.count(
                    key_of(list@[i]),
                ) == 0,
            forall|i: int, e: Entry|
                0 <= i < list@.len() && #[trigger] queue@.count(e) > 0 ==> entry_le(
                    key_of(#[trigger] list@[i]),
                    e,
                ),
            forall|i: int, j: int|
                0 <= i < j < list@.len() ==> lists_before(#[trigger] list@[i], #[trigger] list@[j]),
            forall|x: int|
                0 <= x < n && #[trigger] pred@[x] != x ==> queue@.count(waiting_key(counts@, x)) > 0
                    || exists|i: int| 0 <= i < list@.len() && (#[trigger] list@[i]).0.1 == x,
        ensures
            is_usage_list(pred@, list@),
        decreases queue@.len(),
    {
        let ghost waiting = queue@;
        let ghost listed = list@;
        let (count, x) = match queue.pop() {
            Some(e) => e,
            None => {
                proof {
                    assert forall|v: int| 0 <= v < pred@.len() && #[trigger] pred@[v] != v implies exists|
                        i: int,
                    |
                        0 <= i < list@.len() && (#[trigger] list@[i]).0.1 == v by {
                        axiom_count_le_len(waiting, waiting_key(counts@, v));
                    }
                }
                break ;
            },
        };
        proof {
            broadcast use group_multiset_axioms;

            axiom_count_le_len(waiting, (count, x));
            lemma_usage_positive(pred@, x as int);
        }
        let entry: Usage = ((pred[x], x), counts[x]);
        list.push(entry);
        proof {
            assert(key_of(entry) == (count, x));
            assert(list@.len() == listed.len() + 1);
            assert(list@[listed.len() as int] == entry);
            assert forall|i: int| 0 <= i < list@.len() implies is_usage_entry(
                pred@,
                #[trigger] list@[i],
            ) && queue@.count(key_of(list@[i])) == 0 by {
                if i < listed.len() {
                    assert(list@[i] == listed[i]);
                    assert(waiting.count(key_of(listed[i])) == 0);
                }
            }
            assert forall|i: int, e: Entry|
                0 <= i < list@.len() && #[trigger] queue@.count(e) > 0 implies entry_le(
                key_of(#[trigger] list@[i]),
                e,
            ) by {
                assert(waiting.count(e) > 0);
                if i < listed.len() {
                    assert(list@[i] == listed[i]);
                }
            }
            assert forall|i: int, j: int| 0 <= i < j < list@.len() implies lists_before(
                #[trigger] list@[i],
                #[trigger] list@[j],
            ) by {
                assert(list@[i] == listed[i]);
                if j < listed.len() {
                    assert(list@[j] == listed[j]);
                } else {
                    assert(waiting.count(key_of(listed[i])) == 0);
                    assert(entry_le(key_of(listed[i]), (count, x)));
                    assert(is_usage_entry(pred@, listed[i]));
                }
            }
            assert forall|y: int| 0 <= y < n && #[trigger] pred@[y] != y implies queue@.count(
                waiting_key(counts@, y),
            ) > 0 || exists|i: int| 0 <= i < list@.len() && (#[trigger] list@[i]).0.1 == y by {
                if y == x {
                    assert(list@[listed.len() as int].0.1 == y);
                } else if waiting.count(waiting_key(counts@, y)) > 0 {
                } else {
                    let i = choose|i: int| 0 <= i < listed.len() && (#[trigger] listed[i]).0.1 == y;
                    assert(list@[i] == listed[i]);
                }
            }
        }
    }
    list
}

impl Graph {
    /// How often each edge of the forest `pred` is used when one walk starts
    /// at every vertex and follows the predecessors to its root: the edge
    /// into each vertex that is not a root with the number of walks that step
    /// along it, the least used first.
    pub fn count_uses(&self, pred: &Vec<usize>) -> (uses: Vec<Usage>)
        requires
            pred@.len() == self.nodes().len(),
            is_forest(pred@),
        ensures
            is_usage_list(pred@, uses@),
    {
        let counts = count_walks(pred);
        list_by_count(pred, &counts)
    }
}

} // verus!
