use crate::error::Error;
use std::collections::HashMap;
use vstd::prelude::*;

verus! {

/// A point of the network: its identifier outside the graph and its position
/// in fixed-point degrees (millionths).
#[derive(Clone, Copy, Debug, PartialEq, Eq, Structural)]
pub struct Node {
    pub id: i64,
    pub lon: i32,
    pub lat: i32,
}

/// A road between two nodes, named by their identifiers, with its length and
/// the capacity class of each direction.
#[derive(Clone, Copy, Debug, PartialEq, Eq, Structural)]
pub struct Edge {
    pub source: i64,
    pub target: i64,
    pub length: u64,
    pub car_forward: i8,
    pub car_backward: i8,
}

/// The lowest capacity class that lets a direction into the graph unless
/// another is asked for.
pub const MIN_CAPACITY: i8 = 2;

/// The adjacency lists of a graph: for every vertex its arcs, each the
/// vertex it leads to and its weight.
pub type Adjacency = Seq<Seq<(usize, u64)>>;

/// Every arc leads to a vertex of the graph.
pub open spec fn arcs_in_range(adj: Adjacency) -> bool {
    forall|u: int, k: int|
        0 <= u < adj.len() && 0 <= k < adj[u].len() ==> (#[trigger] adj[u][k]).0 < adj.len()
}

/// The vertex that stands for `id`: the last node of the list that carries
/// it, if there is one.
pub open spec fn find_node(nodes: Seq<Node>, id: i64) -> Option<int>
    decreases nodes.len(),
{
    if nodes.len() == 0 {
        None
    } else if nodes.last().id == id {
        Some(nodes.len() - 1)
    } else {
        find_node(nodes.drop_last(), id)
    }
}

/// Whether a direction of the given capacity class can be driven when
/// classes from `least` on are let in. A class below one never is: it has no
/// capacity to divide a length by.
pub open spec fn drivable(capacity: i8, least: i8) -> bool {
    capacity >= least && capacity >= 1
}

/// Whether a road contributes an arc in at least one direction.
pub open spec fn is_open(e: Edge, least: i8) -> bool {
    drivable(e.car_forward, least) || drivable(e.car_backward, least)
}

/// Every road that is open joins two nodes of the list.
pub open spec fn roads_resolve(nodes: Seq<Node>, edges: Seq<Edge>, least: i8) -> bool {
    forall|i: int|
        0 <= i < edges.len() && is_open(#[trigger] edges[i], least) ==> find_node(
            nodes,
            edges[i].source,
        ).is_some() && find_node(nodes, edges[i].target).is_some()
}

/// The cost of driving a road of the given length in a direction of the given
/// capacity class: the length divided by the class.
pub open spec fn road_weight(length: u64, capacity: i8) -> u64 {
    (length as int / capacity as int) as u64
}

/// The arcs that leave vertex `u` once the roads are laid down in order: a
/// road adds its forward arc at its source, then its backward arc at its
/// target, each only if that direction is drivable.
pub open spec fn road_arcs(nodes: Seq<Node>, edges: Seq<Edge>, least: i8, u: int) -> Seq<
    (usize, u64),
>
    decreases edges.len(),
{
    if edges.len() == 0 {
        Seq::empty()
    } else {
        let e = edges.last();
        let before = road_arcs(nodes, edges.drop_last(), least, u);
        let s = find_node(nodes, e.source);
        let t = find_node(nodes, e.target);
        let forward = if drivable(e.car_forward, least) && s == Some(u) && t.is_some() {
            before.push((t.unwrap() as usize, road_weight(e.length, e.car_forward)))
        } else {
            before
        };
        if drivable(e.car_backward, least) && t == Some(u) && s.is_some() {
            forward.push((s.unwrap() as usize, road_weight(e.length, e.car_backward)))
        } else {
            forward
        }
    }
}

/// Every record names two vertices below `n`.
pub open spec fn records_in_range(n: int, records: Seq<(usize, usize, u64)>) -> bool {
    forall|i: int| 0 <= i < records.len() ==> (#[trigger] records[i]).0 < n && records[i].1 < n
}

/// The arcs that leave vertex `u` once the records `(source, target, weight)`
/// are laid down in order.
pub open spec fn record_arcs(records: Seq<(usize, usize, u64)>, u: int) -> Seq<(usize, u64)>
    decreases records.len(),
{
    if records.len() == 0 {
        Seq::empty()
    } else {
        let r = records.last();
        let before = record_arcs(records.drop_last(), u);
        if r.0 == u {
            before.push((r.1, r.2))
        } else {
            before
        }
    }
}

/// A weighted directed graph over the vertices `0..len()`, each with the node
/// it stands for. It does not change once it is built.
pub struct Graph {
    adj_list: Vec<Vec<(usize, u64)>>,
    nodes: Vec<Node>,
    nodes_to_vertex: HashMap<i64, usize>,
}

impl Node {
    /// The node `id` at the given longitude and latitude.
    pub fn new(id: i64, lon: i32, lat: i32) -> (node: Node)
        ensures
            node == (Node { id, lon, lat }),
    {
        Node { id, lon, lat }
    }
}

impl Edge {
    /// The road from `source` to `target` of the given length and capacity
    /// classes.
    pub fn new(source: i64, target: i64, length: u64, car_forward: i8, car_backward: i8) -> (edge:
        Edge)
        ensures
            edge == (Edge { source, target, length, car_forward, car_backward }),
    {
        Edge { source, target, length, car_forward, car_backward }
    }
}

/// The map holds, for the nodes read so far, what `find_node` says of them.
spec fn indexes(map: Map<i64, usize>, nodes: Seq<Node>) -> bool {
    forall|id: i64|
        match #[trigger] find_node(nodes, id) {
            Some(i) => map.contains_key(id) && map[id] == i,
            None => !map.contains_key(id),
        }
}

proof fn lemma_find_node_in_range(nodes: Seq<Node>, id: i64)
    ensures
        match find_node(nodes, id) {
            Some(i) => 0 <= i < nodes.len() && nodes[i].id == id,
            None => forall|j: int| 0 <= j < nodes.len() ==> nodes[j].id != id,
        },
    decreases nodes.len(),
{
    if nodes.len() > 0 && nodes.last().id != id {
        let front = nodes.drop_last();
        lemma_find_node_in_range(front, id);
        if find_node(front, id).is_none() {
            assert forall|j: int| 0 <= j < nodes.len() implies nodes[j].id != id by {
                if j < front.len() {
                    assert(front[j] == nodes[j]);
                }
            }
        }
    }
}

/// The identifiers of `nodes`, each with the vertex that stands for it.
fn index_nodes(nodes: &Vec<Node>) -> (map: HashMap<i64, usize>)
    ensures
        indexes(map@, nodes@),
{
    let mut map: HashMap<i64, usize> = HashMap::new();
    map.reserve(nodes.len());
    let mut i: usize = 0;
    while i < nodes.len()
        invariant
            i <= nodes.len(),
            indexes(map@, nodes@.take(i as int)),
        decreases nodes.len() - i,
    {
        let ghost seen = nodes@.take(i as int);
        let ghost next = nodes@.take(i + 1);
        map.insert(nodes[i].id, i);
        proof {
            assert(next.drop_last() == seen);
            assert(next.last() == nodes@[i as int]);
            assert forall|id: i64|
                match #[trigger] find_node(next, id) {
                    Some(j) => map@.contains_key(id) && map@[id] == j,
                    None => !map@.contains_key(id),
                } by {
                if id != nodes@[i as int].id {
                    assert(find_node(next, id) == find_node(seen, id));
                }
            }
        }
        i += 1;
    }
    proof {
        assert(nodes@.take(nodes@.len() as int) == nodes@);
    }
    map
}

/// One empty list of arcs for each of `n` vertices.
fn empty_lists(n: usize) -> (lists: Vec<Vec<(usize, u64)>>)
    ensures
        lists@.len() == n,
        forall|u: int| 0 <= u < n ==> (#[trigger] lists@[u])@ == Seq::<(usize, u64)>::empty(),
{
    let mut lists: Vec<Vec<(usize, u64)>> = Vec::with_capacity(n);
    let mut i: usize = 0;
    while i < n
        invariant
            i <= n,
            lists@.len() == i,
            forall|u: int| 0 <= u < i ==> (#[trigger] lists@[u])@ == Seq::<(usize, u64)>::empty(),
        decreases n - i,
    {
        lists.push(Vec::new());
        i += 1;
    }
    lists
}

/// Adds `arc` at the end of the list of vertex `u`.
fn push_arc(lists: &mut Vec<Vec<(usize, u64)>>, u: usize, arc: (usize, u64))
    requires
        u < old(lists)@.len(),
    ensures
        final(lists)@.len() == old(lists)@.len(),
        final(lists)@[u as int]@ == old(lists)@[u as int]@.push(arc),
        forall|x: int|
            0 <= x < old(lists)@.len() && x != u ==> (#[trigger] final(lists)@[x])@ == old(
                lists,
            )@[x]@,
{
    lists[u].push(arc);
}

impl Graph {
    /// The nodes, by vertex.
    pub closed spec fn nodes(&self) -> Seq<Node> {
        self.nodes@
    }

    /// The arcs, by the vertex they leave.
    pub closed spec fn adj(&self) -> Adjacency {
        Seq::new(self.adj_list@.len(), |u: int| self.adj_list@[u]@)
    }

    #[verifier::type_invariant]
    spec fn well_formed(&self) -> bool {
        &&& self.adj_list@.len() == self.nodes@.len()
        &&& arcs_in_range(self.adj())
        &&& indexes(self.nodes_to_vertex@, self.nodes@)
    }

    /// Builds the graph of the given nodes from arcs that name their two
    /// vertices by index. The arcs of a vertex keep the order of the records.
    /// A record that names no vertex is refused.
    pub fn from_records(nodes: Vec<Node>, records: &Vec<(usize, usize, u64)>) -> (built: Result<
        Graph,
        Error,
    >)
        ensures
            built.is_ok() <==> records_in_range(nodes@.len() as int, records@),
            match built {
                Ok(g) => {
                    &&& g.nodes() == nodes@
                    &&& g.adj().len() == nodes@.len()
                    &&& forall|u: int|
                        0 <= u < nodes@.len() ==> #[trigger] g.adj()[u] == record_arcs(records@, u)
                },
                Err(e) => e == Error::MalformedRecord,
            },
    {
        let n = nodes.len();
        let nodes_to_vertex = index_nodes(&nodes);
        let mut adj_list = empty_lists(n);
        let mut i: usize = 0;
        while i < records.len()
            invariant
                i <= records.len(),
                n == nodes@.len(),
                adj_list@.len() == n,
                records_in_range(n as int, records@.take(i as int)),
                forall|u: int|
                    0 <= u < n ==> (#[trigger] adj_list@[u])@ == record_arcs(
                        records@.take(i as int),
                        u,
                    ),
                forall|u: int, k: int|
                    0 <= u < n && 0 <= k < adj_list@[u]@.len() ==> (#[trigger] adj_list@[u]@[k]).0
                        < n,
            decreases records.len() - i,
        {
            let (s, t, w) = records[i];
            if s >= n || t >= n {
                return Err(Error::MalformedRecord);
            }
            let ghost seen = records@.take(i as int);
            let ghost next = records@.take(i + 1);
            proof {
                assert(next.drop_last() == seen);
                assert(next.last() == records@[i as int]);
                assert forall|j: int| 0 <= j < next.len() implies (#[trigger] next[j]).0 < n
                    && next[j].1 < n by {
                    if j < i {
                        assert(next[j] == seen[j]);
                    }
                }
            }
            push_arc(&mut adj_list, s, (t, w));
            i += 1;
        }
        proof {
            assert(records@.take(records@.len() as int) == records@);
        }
        let g = Graph { adj_list, nodes, nodes_to_vertex };
        proof {
            assert forall|u: int| 0 <= u < n implies #[trigger] g.adj()[u] == record_arcs(
                records@,
                u,
            ) by {
                assert(g.adj()[u] == g.adj_list@[u]@);
            }
        }
        Ok(g)
    }

    /// Builds the graph of the given nodes from roads that name their two
    /// nodes by identifier, letting in the directions whose capacity class is
    /// at least `least`. A road that is drivable forward adds an arc from its
    /// source to its target, one that is drivable backward an arc from its
    /// target to its source, each weighing the road's length divided by the
    /// capacity class of that direction. Roads that cannot be driven either
    /// way are passed over. A road that can be driven and names a node
    /// outside the list is refused.
    pub fn from_roads(nodes: Vec<Node>, edges: &Vec<Edge>, least: i8) -> (built: Result<
        Graph,
        Error,
    >)
        ensures
            built.is_ok() <==> roads_resolve(nodes@, edges@, least),
            match built {
                Ok(g) => {
                    &&& g.nodes() == nodes@
                    &&& g.adj().len() == nodes@.len()
                    &&& forall|u: int|
                        0 <= u < nodes@.len() ==> #[trigger] g.adj()[u] == road_arcs(
                            nodes@,
                            edges@,
                            least,
                            u,
                        )
                },
                Err(e) => e == Error::MalformedRecord,
            },
    {
        let n = nodes.len();
        let nodes_to_vertex = index_nodes(&nodes);
        let mut adj_list = empty_lists(n);
        let mut i: usize = 0;
        while i < edges.len()
            invariant
                i <= edges.len(),
                n == nodes@.len(),
                adj_list@.len() == n,
                indexes(nodes_to_vertex@, nodes@),
                roads_resolve(nodes@, edges@.take(i as int), least),
                forall|u: int|
                    0 <= u < n ==> (#[trigger] adj_list@[u])@ == road_arcs(
                        nodes@,
                        edges@.take(i as int),
                        least,
                        u,
                    ),
                forall|u: int, k: int|
                    0 <= u < n && 0 <= k < adj_list@[u]@.len() ==> (#[trigger] adj_list@[u]@[k]).0
                        < n,
            decreases edges.len() - i,
        {
            let edge = edges[i];
            let ghost seen = edges@.take(i as int);
            let ghost next = edges@.take(i + 1);
            proof {
                assert(next.drop_last() == seen);
                assert(next.last() == edge);
                assert(edges@[i as int] == edge);
                lemma_find_node_in_range(nodes@, edge.source);
                lemma_find_node_in_range(nodes@, edge.target);
            }
            let forward = edge.car_forward >= least && edge.car_forward >= 1;
            let backward = edge.car_backward >= least && edge.car_backward >= 1;
            if forward || backward {
                let s = match nodes_to_vertex.get(&edge.source) {
                    Some(v) => *v,
                    None => {
                        return Err(Error::MalformedRecord);
                    },
                };
                let t = match nodes_to_vertex.get(&edge.target) {
                    Some(v) => *v,
                    None => {
                        return Err(Error::MalformedRecord);
                    },
                };
                if forward {
                    push_arc(&mut adj_list, s, (t, edge.length / (edge.car_forward as u64)));
                }
                if backward {
                    push_arc(&mut adj_list, t, (s, edge.length / (edge.car_backward as u64)));
                }
            }
            proof {
                assert forall|j: int| 0 <= j < next.len() && is_open(#[trigger] next[j], least) implies
                    find_node(nodes@, next[j].source).is_some() && find_node(
                    nodes@,
                    next[j].target,
                ).is_some() by {
                    if j < i {
                        assert(next[j] == seen[j]);
                    }
                }
            }
            i += 1;
        }
        proof {
            assert(edges@.take(edges@.len() as int) == edges@);
        }
        let g = Graph { adj_list, nodes, nodes_to_vertex };
        proof {
            assert forall|u: int| 0 <= u < n implies #[trigger] g.adj()[u] == road_arcs(
                nodes@,
                edges@,
                least,
                u,
            ) by {
                assert(g.adj()[u] == g.adj_list@[u]@);
            }
        }
        Ok(g)
    }

    /// Builds the graph of the roads that can be driven in a direction of
    /// capacity class `MIN_CAPACITY` or more: `from_roads` with that class.
    pub fn from_osm(nodes: Vec<Node>, edges: &Vec<Edge>) -> (built: Result<Graph, Error>)
        ensures
            built.is_ok() <==> roads_resolve(nodes@, edges@, MIN_CAPACITY),
            match built {
                Ok(g) => {
                    &&& g.nodes() == nodes@
                    &&& g.adj().len() == nodes@.len()
                    &&& forall|u: int|
                        0 <= u < nodes@.len() ==> #[trigger] g.adj()[u] == road_arcs(
                            nodes@,
                            edges@,
                            MIN_CAPACITY,
                            u,
                        )
                },
                Err(e) => e == Error::MalformedRecord,
            },
    {
        Graph::from_roads(nodes, edges, MIN_CAPACITY)
    }

    /// The number of vertices. Every vertex has its list of arcs, and every
    /// arc leads to a vertex.
    pub fn len(&self) -> (n: usize)
        ensures
            n == self.nodes().len(),
            n == self.adj().len(),
            arcs_in_range(self.adj()),
    {
        proof {
            use_type_invariant(self);
        }
        self.nodes.len()
    }

    /// The node that vertex `v` stands for.
    pub fn node(&self, v: usize) -> (node: Node)
        requires
            v < self.nodes().len(),
        ensures
            node == self.nodes()[v as int],
    {
        self.nodes[v]
    }

    /// The number of arcs that leave vertex `v`.
    pub fn degree(&self, v: usize) -> (d: usize)
        requires
            v < self.adj().len(),
        ensures
            d == self.adj()[v as int].len(),
    {
        self.adj_list[v].len()
    }

    /// The `k`-th arc that leaves vertex `v`: where it leads and its weight.
    pub fn arc(&self, v: usize, k: usize) -> (arc: (usize, u64))
        requires
            v < self.adj().len(),
            k < self.adj()[v as int].len(),
        ensures
            arc == self.adj()[v as int][k as int],
            arc.0 < self.adj().len(),
    {
        proof {
            use_type_invariant(self);
        }
        self.adj_list[v][k]
    }

    /// The vertex that stands for the node `id`.
    pub fn vertex_of(&self, id: i64) -> (found: Result<usize, Error>)
        ensures
            match found {
                Ok(v) => find_node(self.nodes(), id) == Some(v as int) && v < self.nodes().len(),
                Err(e) => e == Error::NotFound && find_node(self.nodes(), id).is_none(),
            },
    {
        proof {
            use_type_invariant(self);
            lemma_find_node_in_range(self.nodes@, id);
        }
        match self.nodes_to_vertex.get(&id) {
            Some(v) => Ok(*v),
            None => Err(Error::NotFound),
        }
    }
}

} // verus!
