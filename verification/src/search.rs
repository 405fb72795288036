use crate::error::Error;
use crate::graph::{find_node, Adjacency, Graph};
use crate::labels::{lemma_stable_labels_are_shortest, potential, Labels};
use crate::paths::{
    has_arc, has_hop, is_predecessor_array, is_shortest_path_forest, is_stable,
    lemma_predecessor_array, Strategy,
};
use crate::queue::{Entry, MinQueue};
use vstd::multiset::{axiom_count_le_len, group_multiset_axioms};
use vstd::prelude::*;

verus! {

/// The outcome of a shortest-path search: for each vertex the vertex before
/// it on a shortest path from the source, and its distance from the source.
/// A vertex that cannot be reached is its own predecessor and has no
/// distance.
#[derive(Debug)]
pub struct ShortestPaths {
    pub pred: Vec<usize>,
    pub dist: Vec<Option<u128>>,
}

/// The `k`-th arc out of `v` would not improve the label of its target.
spec fn arc_settled(adj: Adjacency, dist: Seq<Option<u128>>, v: int, k: int) -> bool {
    let t = adj[v][k].0 as int;
    dist[v].is_some() ==> dist[t].is_some() && dist[t].unwrap() <= dist[v].unwrap() + adj[v][k].1
}

/// No arc out of `v` would improve a label.
spec fn is_clean(adj: Adjacency, dist: Seq<Option<u128>>, v: int) -> bool {
    forall|k: int| 0 <= k < adj[v].len() ==> #[trigger] arc_settled(adj, dist, v, k)
}

/// The `k`-th arc out of `v` would improve no label in either direction.
spec fn arc_settled_both_ways(adj: Adjacency, dist: Seq<Option<u128>>, v: int, k: int) -> bool {
    let t = adj[v][k].0 as int;
    &&& dist[v].is_some() ==> dist[t].is_some() && dist[t].unwrap() <= dist[v].unwrap()
        + adj[v][k].1
    &&& dist[t].is_some() ==> dist[v].is_some() && dist[v].unwrap() <= dist[t].unwrap()
        + adj[v][k].1
}

/// Every labelled vertex is clean, or waits in the queue under its label.
spec fn queue_covers(
    adj: Adjacency,
    dist: Seq<Option<u128>>,
    waiting: vstd::multiset::Multiset<Entry>,
    but: int,
) -> bool {
    forall|x: int|
        0 <= x < adj.len() && x != but && (#[trigger] dist[x]).is_some() ==> is_clean(adj, dist, x)
            || waiting.count((dist[x].unwrap(), x as usize)) > 0
}

/// Labels every vertex by its distance along the arcs: the vertex with the
/// least label that has not been looked at since it got that label has its
/// arcs relaxed, until none is left. An entry of the queue whose key is no
/// longer the label of its vertex is passed over.
fn directed_search(g: &Graph, s: usize) -> (labels: Labels)
    requires
        s < g.adj().len(),
    ensures
        labels.inv(g.adj(), false, s as int),
        is_stable(g.adj(), false, labels.dist@),
{
    let n = g.len();
    let ghost adj = g.adj();
    let mut labels = Labels::new(n, s, Ghost(adj), Ghost(false));
    let mut queue = MinQueue::new();
    queue.push(0u128, s);
    proof {
        broadcast use group_multiset_axioms;

    }
    loop
        invariant
            adj == g.adj(),
            n == adj.len(),
            s < n,
            queue.wf(),
            labels.inv(adj, false, s as int),
            forall|e: Entry| #[trigger] queue@.count(e) > 0 ==> e.1 < n,
            queue_covers(adj, labels.dist@, queue@, -1),
        ensures
            labels.inv(adj, false, s as int),
            forall|x: int|
                0 <= x < adj.len() && (#[trigger] labels.dist@[x]).is_some() ==> is_clean(
                    adj,
                    labels.dist@,
                    x,
                ),
        decreases potential(labels.dist@), queue@.len(),
    {
        let ghost waiting = queue@;
        let (key, v) = match queue.pop() {
            Some(e) => e,
            None => {
                proof {
                    assert forall|x: int|
                        0 <= x < adj.len() && (#[trigger] labels.dist@[x]).is_some() implies is_clean(
                        adj,
                        labels.dist@,
                        x,
                    ) by {
                        axiom_count_le_len(waiting, (labels.dist@[x].unwrap(), x as usize));
                    }
                }
                break ;
            },
        };
        proof {
            broadcast use group_multiset_axioms;

            assert(waiting.count((key, v)) > 0);
            assert(waiting.len() > 0) by {
                axiom_count_le_len(waiting, (key, v));
            }
        }
        let fresh = match labels.dist[v] {
            Some(d) => d == key,
            None => false,
        };
        if fresh {
            let degree = g.degree(v);
            let ghost start = labels.dist@;
            let ghost left = queue@;
            let mut k: usize = 0;
            while k < degree
                invariant
                    adj == g.adj(),
                    n == adj.len(),
                    s < n,
                    v < n,
                    k <= degree,
                    degree == adj[v as int].len(),
                    queue.wf(),
                    labels.inv(adj, false, s as int),
                    labels.dist@[v as int] == Some(key),
                    forall|e: Entry| #[trigger] queue@.count(e) > 0 ==> e.1 < n,
                    queue_covers(adj, labels.dist@, queue@, v as int),
                    forall|j: int| 0 <= j < k ==> #[trigger] arc_settled(adj, labels.dist@, v as int, j),
                    potential(labels.dist@) < potential(start) || (labels.dist@ == start && queue@
                        == left),
                decreases degree - k,
            {
                let (t, w) = g.arc(v, k);
                let ghost dist0 = labels.dist@;
                proof {
                    assert(adj[v as int][k as int].0 == t && adj[v as int][k as int].1 == w);
                    assert(has_arc(adj, v as int, t as int, w as int));
                }
                match labels.relax(v, t, w, Ghost(adj), Ghost(false), Ghost(s as int)) {
                    Some(d) => {
                        queue.push(d, t);
                        proof {
                            broadcast use group_multiset_axioms;

                            let dist1 = labels.dist@;
                            assert forall|x: int, j: int|
                                0 <= x < n && 0 <= j < adj[x].len() && x != t && arc_settled(
                                    adj,
                                    dist0,
                                    x,
                                    j,
                                ) implies #[trigger] arc_settled(adj, dist1, x, j) by {}
                            assert forall|x: int|
                                0 <= x < adj.len() && x != v && (
                                #[trigger] dist1[x]).is_some() implies is_clean(adj, dist1, x)
                                || queue@.count((dist1[x].unwrap(), x as usize)) > 0 by {
                                if x != t {
                                    assert(dist0[x].is_some());
                                    if is_clean(adj, dist0, x) {
                                        assert forall|j: int|
                                            0 <= j < adj[x].len() implies #[trigger] arc_settled(
                                            adj,
                                            dist1,
                                            x,
                                            j,
                                        ) by {
                                            assert(arc_settled(adj, dist0, x, j));
                                        }
                                    }
                                }
                            }
                            assert forall|j: int| 0 <= j < k + 1 implies #[trigger] arc_settled(
                                adj,
                                dist1,
                                v as int,
                                j,
                            ) by {
                                if j < k {
                                    assert(arc_settled(adj, dist0, v as int, j));
                                }
                            }
                        }
                    },
                    None => {},
                }
                k += 1;
            }
            proof {
                assert(is_clean(adj, labels.dist@, v as int));
            }
        }
    }
    proof {
        let dist = labels.dist@;
        assert forall|a: int, b: int, w: int| #[trigger]
            has_hop(adj, false, a, b, w) && dist[a].is_some() implies dist[b].is_some()
            && dist[b].unwrap() <= dist[a].unwrap() + w by {
            let k = choose|k: int|
                0 <= k < adj[a].len() && (#[trigger] adj[a][k]).0 == b && adj[a][k].1 == w;
            assert(is_clean(adj, dist, a));
            assert(arc_settled(adj, dist, a, k));
        }
    }
    labels
}

/// Labels every vertex by its distance where arcs can be travelled both
/// ways: every arc is relaxed in both directions, over and over, until a
/// whole sweep improves nothing.
fn undirected_search(g: &Graph, s: usize) -> (labels: Labels)
    requires
        s < g.adj().len(),
    ensures
        labels.inv(g.adj(), true, s as int),
        is_stable(g.adj(), true, labels.dist@),
{
    let n = g.len();
    let ghost adj = g.adj();
    let mut labels = Labels::new(n, s, Ghost(adj), Ghost(true));
    loop
        invariant
            adj == g.adj(),
            n == adj.len(),
            s < n,
            labels.inv(adj, true, s as int),
        ensures
            labels.inv(adj, true, s as int),
            forall|x: int, j: int|
                0 <= x < n && 0 <= j < adj[x].len() ==> #[trigger] arc_settled_both_ways(
                    adj,
                    labels.dist@,
                    x,
                    j,
                ),
        decreases potential(labels.dist@),
    {
        let ghost start = labels.dist@;
        let mut changed = false;
        let mut u: usize = 0;
        while u < n
            invariant
                adj == g.adj(),
                n == adj.len(),
                s < n,
                u <= n,
                labels.inv(adj, true, s as int),
                changed ==> potential(labels.dist@) < potential(start),
                !changed ==> labels.dist@ == start,
                !changed ==> forall|x: int, j: int|
                    0 <= x < u && 0 <= j < adj[x].len() ==> #[trigger] arc_settled_both_ways(
                        adj,
                        labels.dist@,
                        x,
                        j,
                    ),
            decreases n - u,
        {
            let degree = g.degree(u);
            let mut k: usize = 0;
            while k < degree
                invariant
                    adj == g.adj(),
                    n == adj.len(),
                    s < n,
                    u < n,
                    k <= degree,
                    degree == adj[u as int].len(),
                    labels.inv(adj, true, s as int),
                    changed ==> potential(labels.dist@) < potential(start),
                    !changed ==> labels.dist@ == start,
                    !changed ==> forall|x: int, j: int|
                        0 <= x < u && 0 <= j < adj[x].len() ==> #[trigger] arc_settled_both_ways(
                            adj,
                            labels.dist@,
                            x,
                            j,
                        ),
                    !changed ==> forall|j: int|
                        0 <= j < k ==> #[trigger] arc_settled_both_ways(
                            adj,
                            labels.dist@,
                            u as int,
                            j,
                        ),
                decreases degree - k,
            {
                let (t, w) = g.arc(u, k);
                proof {
                    assert(adj[u as int][k as int].0 == t && adj[u as int][k as int].1 == w);
                    assert(has_arc(adj, u as int, t as int, w as int));
                }
                let forth = labels.relax(u, t, w, Ghost(adj), Ghost(true), Ghost(s as int));
                let back = labels.relax(t, u, w, Ghost(adj), Ghost(true), Ghost(s as int));
                if forth.is_some() || back.is_some() {
                    changed = true;
                }
                k += 1;
            }
            u += 1;
        }
        if !changed {
            break ;
        }
    }
    proof {
        let dist = labels.dist@;
        assert forall|a: int, b: int, w: int| #[trigger]
            has_hop(adj, true, a, b, w) && dist[a].is_some() implies dist[b].is_some()
            && dist[b].unwrap() <= dist[a].unwrap() + w by {
            if has_arc(adj, a, b, w) {
                let k = choose|k: int|
                    0 <= k < adj[a].len() && (#[trigger] adj[a][k]).0 == b && adj[a][k].1 == w;
                assert(arc_settled_both_ways(adj, dist, a, k));
            } else {
                let k = choose|k: int|
                    0 <= k < adj[b].len() && (#[trigger] adj[b][k]).0 == a && adj[b][k].1 == w;
                assert(arc_settled_both_ways(adj, dist, b, k));
            }
        }
    }
    labels
}

impl Graph {
    /// The shortest paths from vertex `source` to every vertex, by the given
    /// strategy. A `source` that is no vertex of the graph is refused. Where
    /// several paths to a vertex are shortest, which of them its predecessor
    /// lies on is left open.
    pub fn shortest_paths(&self, strategy: Strategy, source: usize) -> (found: Result<
        ShortestPaths,
        Error,
    >)
        ensures
            match found {
                Ok(paths) => is_shortest_path_forest(
                    self.adj(),
                    strategy.both_ways(),
                    source as int,
                    paths.pred@,
                    paths.dist@,
                ),
                Err(e) => e == Error::InvalidSource && source >= self.adj().len(),
            },
    {
        if source >= self.len() {
            return Err(Error::InvalidSource);
        }
        let labels = match strategy {
            Strategy::Directed => directed_search(self, source),
            Strategy::Undirected => undirected_search(self, source),
        };
        proof {
            lemma_stable_labels_are_shortest(
                labels,
                self.adj(),
                strategy.both_ways(),
                source as int,
            );
        }
        Ok(ShortestPaths { pred: labels.pred, dist: labels.dist })
    }

    /// The predecessor of every vertex on a shortest path along the arcs
    /// from the node `source`. A `source` that no node carries is refused.
    pub fn dijkstra(&self, source: i64) -> (found: Result<Vec<usize>, Error>)
        ensures
            match found {
                Ok(pred) => {
                    &&& find_node(self.nodes(), source).is_some()
                    &&& is_predecessor_array(
                        self.adj(),
                        false,
                        find_node(self.nodes(), source).unwrap(),
                        pred@,
                    )
                },
                Err(e) => e == Error::InvalidSource && find_node(self.nodes(), source).is_none(),
            },
    {
        let start = match self.vertex_of(source) {
            Ok(v) => v,
            Err(_) => {
                return Err(Error::InvalidSource);
            },
        };
        let n = self.len();
        match self.shortest_paths(Strategy::Directed, start) {
            Ok(paths) => {
                proof {
                    lemma_predecessor_array(self.adj(), false, start as int, paths.pred@, paths.dist@);
                }
                Ok(paths.pred)
            },
            Err(_) => Err(Error::InvalidSource),
        }
    }
}

} // verus!
