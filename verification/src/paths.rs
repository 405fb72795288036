use crate::forest::is_forest;
use crate::graph::{arcs_in_range, Adjacency};
use vstd::prelude::*;

verus! {

/// How the arcs of a graph may be travelled.
#[derive(Clone, Copy, Debug, PartialEq, Eq, Structural)]
pub enum Strategy {
    /// Each arc leads from the vertex that lists it to its target only.
    Directed,
    /// Each arc can be travelled both ways at the same cost.
    Undirected,
}

impl Strategy {
    /// Whether arcs can be travelled against their direction.
    pub open spec fn both_ways(self) -> bool {
        self == Strategy::Undirected
    }
}

/// One step of a path: the vertex it leaves, the vertex it reaches and what
/// it costs.
pub struct Step {
    pub from: int,
    pub to: int,
    pub weight: int,
}

/// Vertex `u` lists an arc to `v` of weight `w`.
pub open spec fn has_arc(adj: Adjacency, u: int, v: int, w: int) -> bool {
    0 <= u < adj.len() && exists|k: int|
        0 <= k < adj[u].len() && (#[trigger] adj[u][k]).0 == v && adj[u][k].1 == w
}

/// One can step from `u` to `v` at cost `w`: along an arc, or against one
/// where arcs can be travelled both ways.
pub open spec fn has_hop(adj: Adjacency, both_ways: bool, u: int, v: int, w: int) -> bool {
    has_arc(adj, u, v, w) || (both_ways && has_arc(adj, v, u, w))
}

/// `p` is a path from `s` to `v`: each step starts where the one before it
/// ended, and each is a hop of the graph. The empty path leads from a vertex
/// to itself.
pub open spec fn is_path(adj: Adjacency, both_ways: bool, s: int, p: Seq<Step>, v: int) -> bool
    decreases p.len(),
{
    if p.len() == 0 {
        s == v && 0 <= s < adj.len()
    } else {
        let last = p.last();
        &&& last.to == v
        &&& has_hop(adj, both_ways, last.from, last.to, last.weight)
        &&& is_path(adj, both_ways, s, p.drop_last(), last.from)
    }
}

/// What a path costs: the sum of its steps.
pub open spec fn path_weight(p: Seq<Step>) -> int
    decreases p.len(),
{
    if p.len() == 0 {
        0
    } else {
        path_weight(p.drop_last()) + p.last().weight
    }
}

/// Some path leads from `s` to `v`.
pub open spec fn reachable(adj: Adjacency, both_ways: bool, s: int, v: int) -> bool {
    exists|p: Seq<Step>| is_path(adj, both_ways, s, p, v)
}

/// Some path from `s` to `v` costs exactly `d`.
pub open spec fn attained(adj: Adjacency, both_ways: bool, s: int, v: int, d: int) -> bool {
    exists|p: Seq<Step>| is_path(adj, both_ways, s, p, v) && path_weight(p) == d
}

/// `d` is the distance from `s` to `v`: some path costs `d` and none costs
/// less.
pub open spec fn is_distance(adj: Adjacency, both_ways: bool, s: int, v: int, d: int) -> bool {
    &&& attained(adj, both_ways, s, v, d)
    &&& forall|p: Seq<Step>| is_path(adj, both_ways, s, p, v) ==> d <= path_weight(p)
}

/// `pred` and `dist` describe shortest paths from `s`.
///
/// A vertex that no path reaches has no distance and is its own predecessor,
/// as is `s`. Every other vertex has its distance from `s`, and its
/// predecessor is one hop before it on a shortest path: the hop costs what
/// their distances differ by. Following predecessors ends at `s`.
pub open spec fn is_shortest_path_forest(
    adj: Adjacency,
    both_ways: bool,
    s: int,
    pred: Seq<usize>,
    dist: Seq<Option<u128>>,
) -> bool {
    &&& 0 <= s < adj.len()
    &&& pred.len() == adj.len()
    &&& dist.len() == adj.len()
    &&& is_forest(pred)
    &&& pred[s] == s
    &&& dist[s] == Some(0u128)
    &&& forall|v: int|
        0 <= v < adj.len() ==> match #[trigger] dist[v] {
            Some(d) => is_distance(adj, both_ways, s, v, d as int),
            None => !reachable(adj, both_ways, s, v),
        }
    &&& forall|v: int|
        0 <= v < adj.len() && v != s ==> (#[trigger] pred[v] == v <==> dist[v].is_none())
    &&& forall|v: int|
        0 <= v < adj.len() && v != s && (#[trigger] dist[v]).is_some() ==> {
            &&& dist[pred[v] as int].is_some()
            &&& has_hop(
                adj,
                both_ways,
                pred[v] as int,
                v,
                dist[v].unwrap() - dist[pred[v] as int].unwrap(),
            )
        }
}

/// `pred` holds, for every vertex, the vertex before it on a shortest path
/// from `s`: with some distances it is a shortest-path forest.
pub open spec fn is_predecessor_array(
    adj: Adjacency,
    both_ways: bool,
    s: int,
    pred: Seq<usize>,
) -> bool {
    exists|dist: Seq<Option<u128>>| is_shortest_path_forest(adj, both_ways, s, pred, dist)
}

/// No hop out of a vertex with a distance leads to a vertex without one, or
/// to one whose distance the hop would improve.
pub open spec fn is_stable(adj: Adjacency, both_ways: bool, dist: Seq<Option<u128>>) -> bool {
    forall|a: int, b: int, w: int| #[trigger]
        has_hop(adj, both_ways, a, b, w) && dist[a].is_some() ==> dist[b].is_some()
            && dist[b].unwrap() <= dist[a].unwrap() + w
}

/// A hop joins two vertices and costs what a `u64` can hold.
pub proof fn lemma_hop_in_range(adj: Adjacency, both_ways: bool, u: int, v: int, w: int)
    requires
        arcs_in_range(adj),
        has_hop(adj, both_ways, u, v, w),
    ensures
        0 <= u < adj.len(),
        0 <= v < adj.len(),
        0 <= w <= u64::MAX,
{
    if has_arc(adj, u, v, w) {
        let k = choose|k: int|
            0 <= k < adj[u].len() && (#[trigger] adj[u][k]).0 == v && adj[u][k].1 == w;
        assert(adj[u][k].0 < adj.len());
    } else {
        let k = choose|k: int|
            0 <= k < adj[v].len() && (#[trigger] adj[v][k]).0 == u && adj[v][k].1 == w;
        assert(adj[v][k].0 < adj.len());
    }
}

/// A path ends at a vertex and costs nothing negative.
pub proof fn lemma_path_in_range(adj: Adjacency, both_ways: bool, s: int, p: Seq<Step>, v: int)
    requires
        arcs_in_range(adj),
        is_path(adj, both_ways, s, p, v),
    ensures
        0 <= s < adj.len(),
        0 <= v < adj.len(),
        0 <= path_weight(p),
    decreases p.len(),
{
    if p.len() > 0 {
        let last = p.last();
        lemma_hop_in_range(adj, both_ways, last.from, last.to, last.weight);
        lemma_path_in_range(adj, both_ways, s, p.drop_last(), last.from);
    }
}

/// A path with one more hop at its end is a path, and costs that much more.
pub proof fn lemma_path_extend(
    adj: Adjacency,
    both_ways: bool,
    s: int,
    p: Seq<Step>,
    a: int,
    b: int,
    w: int,
)
    requires
        is_path(adj, both_ways, s, p, a),
        has_hop(adj, both_ways, a, b, w),
    ensures
        is_path(adj, both_ways, s, p.push(Step { from: a, to: b, weight: w }), b),
        path_weight(p.push(Step { from: a, to: b, weight: w })) == path_weight(p) + w,
{
    let q = p.push(Step { from: a, to: b, weight: w });
    assert(q.drop_last() == p);
    assert(q.last() == Step { from: a, to: b, weight: w });
}

/// What is attained at a vertex is attained, one hop dearer, at the end of
/// each hop out of it.
pub proof fn lemma_attained_extend(
    adj: Adjacency,
    both_ways: bool,
    s: int,
    a: int,
    d: int,
    b: int,
    w: int,
)
    requires
        attained(adj, both_ways, s, a, d),
        has_hop(adj, both_ways, a, b, w),
    ensures
        attained(adj, both_ways, s, b, d + w),
{
    let p = choose|p: Seq<Step>| is_path(adj, both_ways, s, p, a) && path_weight(p) == d;
    lemma_path_extend(adj, both_ways, s, p, a, b, w);
    let q = p.push(Step { from: a, to: b, weight: w });
    assert(is_path(adj, both_ways, s, q, b) && path_weight(q) == d + w);
}

/// The source is at distance zero from itself.
pub proof fn lemma_attained_at_source(adj: Adjacency, both_ways: bool, s: int)
    requires
        0 <= s < adj.len(),
    ensures
        attained(adj, both_ways, s, s, 0),
{
    let p = Seq::<Step>::empty();
    assert(is_path(adj, both_ways, s, p, s) && path_weight(p) == 0);
}

/// Where the distances are stable and the source is at zero, the end of every
/// path has a distance, and it is no more than the path costs.
pub proof fn lemma_stable_bounds_path(
    adj: Adjacency,
    both_ways: bool,
    s: int,
    dist: Seq<Option<u128>>,
    p: Seq<Step>,
    v: int,
)
    requires
        arcs_in_range(adj),
        dist.len() == adj.len(),
        0 <= s < adj.len(),
        dist[s] == Some(0u128),
        is_stable(adj, both_ways, dist),
        is_path(adj, both_ways, s, p, v),
    ensures
        0 <= v < adj.len(),
        dist[v].is_some(),
        dist[v].unwrap() <= path_weight(p),
    decreases p.len(),
{
    lemma_path_in_range(adj, both_ways, s, p, v);
    if p.len() > 0 {
        let last = p.last();
        lemma_stable_bounds_path(adj, both_ways, s, dist, p.drop_last(), last.from);
        assert(has_hop(adj, both_ways, last.from, v, last.weight));
    }
}

/// The predecessors of a shortest-path forest are a predecessor array.
pub proof fn lemma_predecessor_array(
    adj: Adjacency,
    both_ways: bool,
    s: int,
    pred: Seq<usize>,
    dist: Seq<Option<u128>>,
)
    requires
        is_shortest_path_forest(adj, both_ways, s, pred, dist),
    ensures
        is_predecessor_array(adj, both_ways, s, pred),
{
}

/// In a shortest-path forest the source is its own predecessor, and no
/// other vertex is unless no path reaches it.
pub proof fn lemma_roots_are_source_or_unreached(
    adj: Adjacency,
    both_ways: bool,
    s: int,
    pred: Seq<usize>,
    dist: Seq<Option<u128>>,
    v: int,
)
    requires
        is_shortest_path_forest(adj, both_ways, s, pred, dist),
        0 <= v < adj.len(),
    ensures
        pred[s] == s,
        pred[v] == v <==> (v == s || !reachable(adj, both_ways, s, v)),
{
    match dist[v] {
        Some(d) => {
            assert(is_distance(adj, both_ways, s, v, d as int));
            let p = choose|p: Seq<Step>| is_path(adj, both_ways, s, p, v) && path_weight(p) == d;
            assert(is_path(adj, both_ways, s, p, v));
        },
        None => {},
    }
}

/// The distance of a vertex is what the distance of its predecessor and the
/// hop between them add up to, and is no less than that of its predecessor.
pub proof fn lemma_distance_grows_along_forest(
    adj: Adjacency,
    both_ways: bool,
    s: int,
    pred: Seq<usize>,
    dist: Seq<Option<u128>>,
    v: int,
)
    requires
        arcs_in_range(adj),
        is_shortest_path_forest(adj, both_ways, s, pred, dist),
        0 <= v < adj.len(),
        dist[v].is_some(),
    ensures
        dist[pred[v] as int].is_some(),
        dist[pred[v] as int].unwrap() <= dist[v].unwrap(),
{
    if v != s {
        let u = pred[v] as int;
        lemma_hop_in_range(adj, both_ways, u, v, dist[v].unwrap() - dist[u].unwrap());
    }
}

} // verus!
