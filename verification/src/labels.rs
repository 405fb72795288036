use crate::graph::{arcs_in_range, Adjacency};
use crate::forest::descends;
use crate::paths::{
    attained, has_hop, is_distance, is_path, is_shortest_path_forest,
    is_stable, lemma_attained_at_source, lemma_attained_extend, lemma_hop_in_range,
    lemma_stable_bounds_path, path_weight, reachable, Step,
};
use vstd::prelude::*;

verus! {

/// What a label counts for when labels are added up: its distance, or more
/// than any distance where there is none.
pub open spec fn label_value(label: Option<u128>) -> nat {
    match label {
        Some(d) => d as nat,
        None => (u128::MAX + 1) as nat,
    }
}

/// The sum of all labels. It falls whenever a label improves.
pub open spec fn potential(dist: Seq<Option<u128>>) -> nat
    decreases dist.len(),
{
    if dist.len() == 0 {
        0
    } else {
        potential(dist.drop_last()) + label_value(dist.last())
    }
}

/// The number of vertices that have a distance.
pub open spec fn reached(dist: Seq<Option<u128>>) -> nat
    decreases dist.len(),
{
    if dist.len() == 0 {
        0
    } else {
        reached(dist.drop_last()) + if dist.last().is_some() {
            1nat
        } else {
            0nat
        }
    }
}

pub proof fn lemma_potential_update(dist: Seq<Option<u128>>, i: int, label: Option<u128>)
    requires
        0 <= i < dist.len(),
    ensures
        potential(dist.update(i, label)) + label_value(dist[i]) == potential(dist) + label_value(
            label,
        ),
    decreases dist.len(),
{
    let next = dist.update(i, label);
    if i == dist.len() - 1 {
        assert(next.drop_last() == dist.drop_last());
    } else {
        lemma_potential_update(dist.drop_last(), i, label);
        assert(next.drop_last() == dist.drop_last().update(i, label));
    }
}

pub proof fn lemma_reached_update(dist: Seq<Option<u128>>, i: int, d: u128)
    requires
        0 <= i < dist.len(),
    ensures
        reached(dist.update(i, Some(d))) == reached(dist) + if dist[i].is_some() {
            0nat
        } else {
            1nat
        },
        reached(dist) <= dist.len(),
    decreases dist.len(),
{
    let next = dist.update(i, Some(d));
    lemma_reached_bound(dist);
    if i == dist.len() - 1 {
        assert(next.drop_last() == dist.drop_last());
    } else {
        lemma_reached_update(dist.drop_last(), i, d);
        assert(next.drop_last() == dist.drop_last().update(i, Some(d)));
    }
}

pub proof fn lemma_reached_bound(dist: Seq<Option<u128>>)
    ensures
        reached(dist) <= dist.len(),
    decreases dist.len(),
{
    if dist.len() > 0 {
        lemma_reached_bound(dist.drop_last());
    }
}

/// The most that one arc can weigh.
pub open spec fn max_weight() -> int {
    0xffff_ffff_ffff_ffff
}

/// The labels of a shortest-path search under way: for each vertex the least
/// cost found so far of a path from the source, and the vertex before it on
/// such a path.
pub struct Labels {
    pub dist: Vec<Option<u128>>,
    pub pred: Vec<usize>,
    /// When each label was last improved.
    pub stamp: Ghost<Seq<nat>>,
    /// The cost of the hop from each vertex's predecessor.
    pub via: Ghost<Seq<int>>,
    /// The number of improvements made.
    pub clock: Ghost<nat>,
}

impl Labels {
    /// What holds of the labels at every moment of a search from `s`.
    pub open spec fn inv(&self, adj: Adjacency, both_ways: bool, s: int) -> bool {
        let dist = self.dist@;
        let pred = self.pred@;
        let stamp = self.stamp@;
        let via = self.via@;
        &&& arcs_in_range(adj)
        &&& 0 <= s < adj.len()
        &&& dist.len() == adj.len()
        &&& pred.len() == adj.len()
        &&& stamp.len() == adj.len()
        &&& via.len() == adj.len()
        &&& adj.len() <= usize::MAX
        &&& dist[s] == Some(0u128)
        &&& pred[s] == s
        &&& forall|v: int| 0 <= v < adj.len() ==> #[trigger] pred[v] < adj.len()
        &&& forall|v: int| 0 <= v < adj.len() ==> #[trigger] stamp[v] <= self.clock@
        &&& forall|v: int|
            0 <= v < adj.len() && v != s ==> (#[trigger] dist[v].is_none() <==> pred[v] == v)
        &&& forall|v: int|
            0 <= v < adj.len() && (#[trigger] dist[v]).is_some() ==> {
                &&& attained(adj, both_ways, s, v, dist[v].unwrap() as int)
                &&& dist[v].unwrap() <= reached(dist) * max_weight()
            }
        &&& forall|v: int|
            0 <= v < adj.len() && v != s && (#[trigger] dist[v]).is_some() ==> {
                let u = pred[v] as int;
                &&& dist[u].is_some()
                &&& has_hop(adj, both_ways, u, v, via[v])
                &&& dist[u].unwrap() + via[v] <= dist[v].unwrap()
                &&& dist[u].unwrap() + via[v] == dist[v].unwrap() ==> stamp[u] < stamp[v]
            }
    }

    /// The labels before any hop was looked at: the source at distance zero,
    /// nothing else reached.
    pub fn new(n: usize, s: usize, Ghost(adj): Ghost<Adjacency>, Ghost(both_ways): Ghost<bool>) -> (labels:
        Labels)
        requires
            s < n,
            n == adj.len(),
            arcs_in_range(adj),
        ensures
            labels.inv(adj, both_ways, s as int),
            forall|v: int| 0 <= v < n && v != s ==> (#[trigger] labels.dist@[v]).is_none(),
    {
        let mut dist: Vec<Option<u128>> = Vec::with_capacity(n);
        let mut pred: Vec<usize> = Vec::with_capacity(n);
        let mut i: usize = 0;
        while i < n
            invariant
                i <= n,
                dist@.len() == i,
                pred@.len() == i,
                forall|v: int| 0 <= v < i ==> (#[trigger] dist@[v]).is_none(),
                forall|v: int| 0 <= v < i ==> #[trigger] pred@[v] == v,
                reached(dist@) == 0,
            decreases n - i,
        {
            proof {
                assert(dist@.push(None).drop_last() == dist@);
            }
            pred.push(i);
            dist.push(None);
            i += 1;
        }
        proof {
            lemma_reached_update(dist@, s as int, 0u128);
            lemma_attained_at_source(adj, both_ways, s as int);
            assert(0 <= reached(dist@.update(s as int, Some(0u128))) * max_weight()) by (nonlinear_arith)
                requires
                    reached(dist@.update(s as int, Some(0u128))) >= 0,
                    max_weight() >= 0,
            ;
        }
        dist.set(s, Some(0u128));
        Labels {
            dist,
            pred,
            stamp: Ghost(Seq::new(n as nat, |v: int| 0nat)),
            via: Ghost(Seq::new(n as nat, |v: int| 0int)),
            clock: Ghost(0nat),
        }
    }

    /// Looks at the hop from `a` to `b` of weight `w`: where it leads to `b`
    /// at less than `b`'s label, or `b` has none, `b` gets the better label,
    /// with `a` as its predecessor. Returns the new label if there is one.
    pub fn relax(
        &mut self,
        a: usize,
        b: usize,
        w: u64,
        Ghost(adj): Ghost<Adjacency>,
        Ghost(both_ways): Ghost<bool>,
        Ghost(s): Ghost<int>,
    ) -> (better: Option<u128>)
        requires
            old(self).inv(adj, both_ways, s),
            has_hop(adj, both_ways, a as int, b as int, w as int),
        ensures
            final(self).inv(adj, both_ways, s),
            match better {
                Some(d) => {
                    &&& final(self).dist@ == old(self).dist@.update(b as int, Some(d))
                    &&& old(self).dist@[a as int].is_some()
                    &&& d == old(self).dist@[a as int].unwrap() + w
                    &&& d < label_value(old(self).dist@[b as int])
                    &&& a != b
                    &&& potential(final(self).dist@) < potential(old(self).dist@)
                },
                None => {
                    &&& final(self).dist@ == old(self).dist@
                    &&& final(self).pred@ == old(self).pred@
                    &&& old(self).dist@[a as int].is_some() ==> {
                        &&& old(self).dist@[b as int].is_some()
                        &&& old(self).dist@[b as int].unwrap() <= old(self).dist@[a as int].unwrap()
                            + w
                    }
                },
            },
    {
        proof {
            lemma_hop_in_range(adj, both_ways, a as int, b as int, w as int);
            lemma_reached_bound(self.dist@);
        }
        let da: u128 = match self.dist[a] {
            Some(d) => d,
            None => {
                return None;
            },
        };
        proof {
            assert(da + w <= u128::MAX) by (nonlinear_arith)
                requires
                    da <= reached(self.dist@) * max_weight(),
                    reached(self.dist@) <= usize::MAX,
                    usize::MAX <= 0xffff_ffff_ffff_ffff,
                    max_weight() == 0xffff_ffff_ffff_ffff,
                    w <= 0xffff_ffff_ffff_ffff,
                    u128::MAX == 0xffff_ffff_ffff_ffff_ffff_ffff_ffff_ffff,
            ;
        }
        let d: u128 = da + (w as u128);
        let improves = match self.dist[b] {
            Some(db) => d < db,
            None => true,
        };
        if !improves {
            return None;
        }
        let ghost before = *self;
        self.dist.set(b, Some(d));
        self.pred.set(b, a);
        proof {
            self.stamp@ = self.stamp@.update(b as int, self.clock@ + 1);
            self.via@ = self.via@.update(b as int, w as int);
            self.clock@ = self.clock@ + 1;
            let dist0 = before.dist@;
            let dist1 = self.dist@;
            lemma_potential_update(dist0, b as int, Some(d));
            lemma_reached_update(dist0, b as int, d);
            lemma_attained_extend(adj, both_ways, s, a as int, da as int, b as int, w as int);
            assert(reached(dist0) * max_weight() <= reached(dist1) * max_weight()) by (nonlinear_arith)
                requires
                    reached(dist0) <= reached(dist1),
                    max_weight() >= 0,
            ;
            assert(d <= reached(dist1) * max_weight()) by (nonlinear_arith)
                requires
                    da <= reached(dist0) * max_weight(),
                    w <= max_weight(),
                    d == da + w,
                    dist0[b as int].is_none() ==> reached(dist1) == reached(dist0) + 1,
                    dist0[b as int].is_some() ==> d < dist0[b as int].unwrap() && dist0[b as int].unwrap() <= reached(dist0) * max_weight() && reached(dist1) == reached(dist0),
            ;
            assert forall|v: int|
                0 <= v < adj.len() && v != s && (#[trigger] dist1[v]).is_some() implies {
                let u = self.pred@[v] as int;
                &&& dist1[u].is_some()
                &&& has_hop(adj, both_ways, u, v, self.via@[v])
                &&& dist1[u].unwrap() + self.via@[v] <= dist1[v].unwrap()
                &&& dist1[u].unwrap() + self.via@[v] == dist1[v].unwrap() ==> self.stamp@[u]
                    < self.stamp@[v]
            } by {
                if v != b {
                    assert(dist0[v].is_some());
                    let u = before.pred@[v] as int;
                    assert(dist0[u].is_some());
                }
            }
            assert forall|v: int| 0 <= v < adj.len() && (#[trigger] dist1[v]).is_some() implies {
                &&& attained(adj, both_ways, s, v, dist1[v].unwrap() as int)
                &&& dist1[v].unwrap() <= reached(dist1) * max_weight()
            } by {
                if v != b {
                    assert(dist0[v].is_some());
                }
            }
        }
        Some(d)
    }
}

/// Once no hop improves a label, the labels are the distances from the
/// source and the predecessors lie on shortest paths.
pub proof fn lemma_stable_labels_are_shortest(
    labels: Labels,
    adj: Adjacency,
    both_ways: bool,
    s: int,
)
    requires
        labels.inv(adj, both_ways, s),
        is_stable(adj, both_ways, labels.dist@),
    ensures
        is_shortest_path_forest(adj, both_ways, s, labels.pred@, labels.dist@),
{
    let dist = labels.dist@;
    let pred = labels.pred@;
    let stamp = labels.stamp@;
    let via = labels.via@;
    let ticks = labels.clock@ + 1;
    assert forall|v: int| 0 <= v < adj.len() implies match #[trigger] dist[v] {
        Some(d) => is_distance(adj, both_ways, s, v, d as int),
        None => !reachable(adj, both_ways, s, v),
    } by {
        assert forall|p: Seq<Step>| is_path(adj, both_ways, s, p, v) implies dist[v].is_some()
            && dist[v].unwrap() <= path_weight(p) by {
            lemma_stable_bounds_path(adj, both_ways, s, dist, p, v);
        }
    }
    assert forall|v: int| 0 <= v < adj.len() && v != s && (#[trigger] dist[v]).is_some() implies {
        &&& dist[pred[v] as int].is_some()
        &&& has_hop(
            adj,
            both_ways,
            pred[v] as int,
            v,
            dist[v].unwrap() - dist[pred[v] as int].unwrap(),
        )
    } by {
        let u = pred[v] as int;
        assert(has_hop(adj, both_ways, u, v, via[v]));
    }
    let rank = Seq::new(
        adj.len(),
        |v: int|
            match dist[v] {
                Some(d) => (d * ticks + stamp[v]) as nat,
                None => 0nat,
            },
    );
    assert forall|v: int| 0 <= v < pred.len() && pred[v] != v implies rank[pred[v] as int]
        < #[trigger] rank[v] by {
        let u = pred[v] as int;
        assert(dist[v].is_some());
        assert(has_hop(adj, both_ways, u, v, via[v]));
        lemma_hop_in_range(adj, both_ways, u, v, via[v]);
        let du = dist[u].unwrap() as int;
        let dv = dist[v].unwrap() as int;
        assert(stamp[u] < ticks);
        assert(stamp[v] < ticks);
        if du < dv {
            assert(du * ticks + stamp[u] < dv * ticks + stamp[v]) by (nonlinear_arith)
                requires
                    0 <= du < dv,
                    0 <= stamp[u] < ticks,
                    0 <= stamp[v],
            ;
        }
    }
    assert(descends(pred, rank));
}

} // verus!
