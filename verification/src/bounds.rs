use crate::graph::{Graph, Node};
use vstd::prelude::*;

verus! {

/// A box on the map: its least and greatest longitude, then its least and
/// greatest latitude.
pub type Bounds = (i32, i32, i32, i32);

/// The box that holds nothing: each least bound is the greatest value there
/// is, each greatest bound the least.
pub open spec fn empty_bounds() -> Bounds {
    (i32::MAX, i32::MIN, i32::MAX, i32::MIN)
}

/// Vertex `v` has a predecessor other than itself, so an edge of the forest
/// leads to it.
pub open spec fn takes_part(pred: Seq<usize>, v: int) -> bool {
    0 <= v < pred.len() && pred[v] != v
}

/// `b` is the least box around the vertices that take part in the forest:
/// it holds each of them, and each of its sides touches one. With no such
/// vertex it is the empty box.
pub open spec fn is_bounding_box(nodes: Seq<Node>, pred: Seq<usize>, b: Bounds) -> bool {
    &&& forall|v: int| #[trigger]
        takes_part(pred, v) ==> b.0 <= nodes[v].lon <= b.1 && b.2 <= nodes[v].lat <= b.3
    &&& if exists|v: int| takes_part(pred, v) {
        &&& exists|v: int| takes_part(pred, v) && nodes[v].lon == b.0
        &&& exists|v: int| takes_part(pred, v) && nodes[v].lon == b.1
        &&& exists|v: int| takes_part(pred, v) && nodes[v].lat == b.2
        &&& exists|v: int| takes_part(pred, v) && nodes[v].lat == b.3
    } else {
        b == empty_bounds()
    }
}

/// `is_bounding_box`, of the vertices below `m` only.
spec fn is_box_among(nodes: Seq<Node>, pred: Seq<usize>, m: int, b: Bounds) -> bool {
    &&& forall|v: int| #[trigger]
        takes_part(pred, v) && v < m ==> b.0 <= nodes[v].lon <= b.1 && b.2 <= nodes[v].lat <= b.3
    &&& if exists|v: int| takes_part(pred, v) && v < m {
        &&& exists|v: int| takes_part(pred, v) && v < m && nodes[v].lon == b.0
        &&& exists|v: int| takes_part(pred, v) && v < m && nodes[v].lon == b.1
        &&& exists|v: int| takes_part(pred, v) && v < m && nodes[v].lat == b.2
        &&& exists|v: int| takes_part(pred, v) && v < m && nodes[v].lat == b.3
    } else {
        b == empty_bounds()
    }
}

impl Graph {
    /// The least box around the vertices that an edge of the forest `pred`
    /// leads to. Roots, and with them the vertices that were not reached, lie
    /// outside the count.
    pub fn bounds(&self, pred: &Vec<usize>) -> (b: Bounds)
        requires
            pred@.len() == self.nodes().len(),
        ensures
            is_bounding_box(self.nodes(), pred@, b),
    {
        let n = pred.len();
        let mut b: Bounds = (i32::MAX, i32::MIN, i32::MAX, i32::MIN);
        let mut v: usize = 0;
        while v < n
            invariant
                n == pred@.len(),
                n == self.nodes().len(),
                v <= n,
                is_box_among(self.nodes(), pred@, v as int, b),
            decreases n - v,
        {
            if pred[v] != v {
                let ghost before = b;
                let ghost nodes = self.nodes();
                let at = self.node(v);
                proof {
                    assert(takes_part(pred@, v as int));
                    if exists|x: int| takes_part(pred@, x) && x < v {
                        let x0 = choose|x: int| takes_part(pred@, x) && x < v && nodes[x].lon == before.0;
                        let x1 = choose|x: int| takes_part(pred@, x) && x < v && nodes[x].lon == before.1;
                        let y0 = choose|x: int| takes_part(pred@, x) && x < v && nodes[x].lat == before.2;
                        let y1 = choose|x: int| takes_part(pred@, x) && x < v && nodes[x].lat == before.3;
                        assert(takes_part(pred@, x0) && x0 < v + 1);
                        assert(takes_part(pred@, x1) && x1 < v + 1);
                        assert(takes_part(pred@, y0) && y0 < v + 1);
                        assert(takes_part(pred@, y1) && y1 < v + 1);
                    }
                }
                b = (
                    if at.lon < b.0 {
                        at.lon
                    } else {
                        b.0
                    },
                    if at.lon > b.1 {
                        at.lon
                    } else {
                        b.1
                    },
                    if at.lat < b.2 {
                        at.lat
                    } else {
                        b.2
                    },
                    if at.lat > b.3 {
                        at.lat
                    } else {
                        b.3
                    },
                );
            }
            v += 1;
        }
        b
    }
}

} // verus!
