use vstd::prelude::*;

verus! {

/// `rank` falls strictly from every vertex to its predecessor, but where a
/// vertex is its own predecessor.
pub open spec fn descends(pred: Seq<usize>, rank: Seq<nat>) -> bool {
    &&& rank.len() == pred.len()
    &&& forall|v: int|
        0 <= v < pred.len() && pred[v] != v ==> rank[pred[v] as int] < #[trigger] rank[v]
}

/// Every predecessor is a vertex, and following predecessors from any vertex
/// ends at a root: a vertex that is its own predecessor.
pub open spec fn is_forest(pred: Seq<usize>) -> bool {
    &&& forall|v: int| 0 <= v < pred.len() ==> #[trigger] pred[v] < pred.len()
    &&& exists|rank: Seq<nat>| descends(pred, rank)
}

/// Some rank that falls along the predecessors of a forest.
pub open spec fn forest_rank(pred: Seq<usize>) -> Seq<nat> {
    choose|rank: Seq<nat>| descends(pred, rank)
}

/// The number of steps from `v` to its root.
pub open spec fn depth(pred: Seq<usize>, v: int) -> nat
    decreases forest_rank(pred)[v],
    when is_forest(pred) && 0 <= v < pred.len()
{
    if pred[v] == v {
        0
    } else {
        1 + depth(pred, pred[v] as int)
    }
}

/// The walk from `d` to its root steps from `v` to the predecessor of `v`.
pub open spec fn on_walk(pred: Seq<usize>, d: int, v: int) -> bool
    decreases forest_rank(pred)[d],
    when is_forest(pred) && 0 <= d < pred.len()
{
    pred[d] != d && (d == v || on_walk(pred, pred[d] as int, v))
}

/// The rank of a forest falls along its predecessors.
pub proof fn lemma_forest_rank(pred: Seq<usize>)
    requires
        is_forest(pred),
    ensures
        descends(pred, forest_rank(pred)),
{
}

/// A walk only steps from vertices that rank no higher than where it began.
pub proof fn lemma_walk_ranks(pred: Seq<usize>, d: int, v: int)
    requires
        is_forest(pred),
        0 <= d < pred.len(),
        on_walk(pred, d, v),
    ensures
        0 <= v < pred.len(),
        pred[v] != v,
        forest_rank(pred)[v] <= forest_rank(pred)[d],
    decreases forest_rank(pred)[d],
{
    if d != v {
        lemma_walk_ranks(pred, pred[d] as int, v);
    }
}

/// A walk never comes back to a vertex it has left.
pub proof fn lemma_walk_leaves(pred: Seq<usize>, v: int)
    requires
        is_forest(pred),
        0 <= v < pred.len(),
        pred[v] != v,
    ensures
        on_walk(pred, v, v),
        !on_walk(pred, pred[v] as int, v),
{
    if on_walk(pred, pred[v] as int, v) {
        lemma_walk_ranks(pred, pred[v] as int, v);
    }
}

/// The number of vertices that no walk has marked yet.
spec fn unmarked(mark: Seq<usize>) -> nat
    decreases mark.len(),
{
    if mark.len() == 0 {
        0
    } else {
        unmarked(mark.drop_last()) + if mark.last() == 0 {
            1nat
        } else {
            0nat
        }
    }
}

proof fn lemma_unmarked_bound(mark: Seq<usize>)
    ensures
        unmarked(mark) <= mark.len(),
    decreases mark.len(),
{
    if mark.len() > 0 {
        lemma_unmarked_bound(mark.drop_last());
    }
}

proof fn lemma_mark_one(mark: Seq<usize>, x: int, id: usize)
    requires
        0 <= x < mark.len(),
        mark[x] == 0,
        id != 0,
    ensures
        unmarked(mark.update(x, id)) + 1 == unmarked(mark),
    decreases mark.len(),
{
    let next = mark.update(x, id);
    if x == mark.len() - 1 {
        assert(next.drop_last() == mark.drop_last());
    } else {
        lemma_mark_one(mark.drop_last(), x, id);
        assert(next.drop_last() == mark.drop_last().update(x, id));
    }
}

/// What the marks say while the walks are checked: every marked vertex but
/// `tip` that is no root has a marked predecessor, marked by an earlier walk
/// or later in the same walk.
spec fn marks_descend(pred: Seq<usize>, mark: Seq<usize>, place: Seq<nat>, tip: int) -> bool {
    forall|v: int|
        0 <= v < pred.len() && #[trigger] mark[v] != 0 && pred[v] != v && v != tip ==> {
            let u = pred[v] as int;
            &&& mark[u] != 0
            &&& mark[u] < mark[v] || (mark[u] == mark[v] && place[u] > place[v])
        }
}

/// Whether following predecessors from every vertex ends at a root, and
/// every predecessor is a vertex.
pub fn check_forest(pred: &Vec<usize>) -> (ok: bool)
    ensures
        ok == is_forest(pred@),
{
    let n = pred.len();
    let mut v: usize = 0;
    while v < n
        invariant
            n == pred@.len(),
            v <= n,
            forall|x: int| 0 <= x < v ==> #[trigger] pred@[x] < n,
        decreases n - v,
    {
        if pred[v] >= n {
            return false;
        }
        v += 1;
    }
    let mut mark: Vec<usize> = Vec::with_capacity(n);
    let mut i: usize = 0;
    while i < n
        invariant
            i <= n,
            mark@.len() == i,
            forall|x: int| 0 <= x < i ==> #[trigger] mark@[x] == 0,
        decreases n - i,
    {
        mark.push(0);
        i += 1;
    }
    let ghost mut place: Seq<nat> = Seq::new(n as nat, |x: int| 0nat);
    let mut start: usize = 0;
    while start < n
        invariant
            n == pred@.len(),
            n == mark@.len(),
            n == place.len(),
            start <= n,
            forall|x: int| 0 <= x < n ==> #[trigger] pred@[x] < n,
            forall|x: int| 0 <= x < n ==> #[trigger] mark@[x] <= start,
            forall|x: int| 0 <= x < n ==> #[trigger] place[x] <= n,
            forall|x: int| 0 <= x < start ==> #[trigger] mark@[x] != 0,
            marks_descend(pred@, mark@, place, -1),
        decreases n - start,
    {
        let id: usize = start + 1;
        let mut x: usize = start;
        let ghost mut tip: int = -1;
        let ghost mut steps: nat = 0;
        proof {
            lemma_unmarked_bound(mark@);
        }
        while mark[x] == 0 && pred[x] != x
            invariant
                n == pred@.len(),
                n == mark@.len(),
                n == place.len(),
                start < n,
                id == start + 1,
                x < n,
                forall|y: int| 0 <= y < n ==> #[trigger] pred@[y] < n,
                forall|y: int| 0 <= y < n ==> #[trigger] mark@[y] <= id,
                forall|y: int| 0 <= y < n ==> #[trigger] place[y] <= n,
                forall|y: int| 0 <= y < start ==> #[trigger] mark@[y] != 0,
                forall|y: int| 0 <= y < n && #[trigger] mark@[y] == id ==> place[y] < steps,
                steps + unmarked(mark@) <= n,
                tip == -1 ==> x == start && steps == 0,
                tip != -1 ==> 0 <= tip < n && mark@[tip] == id && pred@[tip] == x && pred@[tip]
                    != tip && place[tip] == steps - 1,
                x == start || mark@[start as int] != 0,
                marks_descend(pred@, mark@, place, tip),
                is_forest(pred@) ==> forall|y: int|
                    0 <= y < n && #[trigger] mark@[y] == id ==> forest_rank(pred@)[x as int]
                        < forest_rank(pred@)[y],
            decreases unmarked(mark@),
        {
            proof {
                lemma_mark_one(mark@, x as int, id);
                if is_forest(pred@) {
                    lemma_forest_rank(pred@);
                }
            }
            mark.set(x, id);
            proof {
                place = place.update(x as int, steps);
                steps = steps + 1;
                tip = x as int;
            }
            x = pred[x];
        }
        if mark[x] == id {
            proof {
                if is_forest(pred@) {
                    assert(forest_rank(pred@)[x as int] < forest_rank(pred@)[x as int]);
                }
            }
            return false;
        }
        if mark[x] == 0 {
            proof {
                lemma_mark_one(mark@, x as int, id);
            }
            mark.set(x, id);
            proof {
                place = place.update(x as int, steps);
            }
        }
        start += 1;
    }
    proof {
        let rank = Seq::new(n as nat, |x: int| (mark@[x] * (n + 1) + (n - place[x])) as nat);
        assert forall|y: int| 0 <= y < pred@.len() && pred@[y] != y implies rank[pred@[y] as int]
            < #[trigger] rank[y] by {
            let u = pred@[y] as int;
            assert(mark@[y] != 0);
            assert(mark@[u] != 0);
            if mark@[u] < mark@[y] {
                assert(mark@[u] * (n + 1) + (n - place[u]) < mark@[y] * (n + 1) + (n - place[y]))
                    by (nonlinear_arith)
                    requires
                        mark@[u] < mark@[y],
                        0 <= place[u] <= n,
                        0 <= place[y] <= n,
                ;
            }
        }
        assert(descends(pred@, rank));
    }
    true
}

} // verus!
