use crate::bounds::{is_bounding_box, Bounds};
use crate::error::Error;
use crate::graph::Graph;
use crate::paths::{is_shortest_path_forest, Strategy};
use crate::render::{max_count, page_of, skipped, stroke_of, FlowMap};
use crate::usage::{is_usage_entry, is_usage_list, Usage};
use vstd::prelude::*;

verus! {

/// `map` draws the last `keep` entries of the usage list of the forest
/// `pred`, inside the least box around the vertices that take part in it.
pub open spec fn is_flow_map_of(graph: &Graph, pred: Seq<usize>, keep: usize, map: FlowMap) -> bool {
    exists|uses: Seq<Usage>, bounds: Bounds|
        {
            &&& is_usage_list(pred, uses)
            &&& is_bounding_box(graph.nodes(), pred, bounds)
            &&& #[trigger] lays_out(graph, uses, bounds, keep, map)
        }
}

/// `map` is the sheet for `bounds` with one stroke for each of the last
/// `keep` entries of `uses`.
pub open spec fn lays_out(
    graph: &Graph,
    uses: Seq<Usage>,
    bounds: Bounds,
    keep: usize,
    map: FlowMap,
) -> bool {
    &&& map.page == page_of(bounds)
    &&& map.strokes@.len() == uses.len() - skipped(uses.len(), keep as nat)
    &&& forall|i: int|
        0 <= i < map.strokes@.len() ==> #[trigger] map.strokes@[i] == stroke_of(
            graph.nodes(),
            bounds,
            max_count(uses),
            uses[skipped(uses.len(), keep as nat) + i],
        )
}

impl Graph {
    /// The flow map of the shortest paths from vertex `source`: the paths
    /// are found by the given strategy, the use of each edge of their forest
    /// is counted, and the `keep` busiest edges are laid out inside the box
    /// around the forest. A `source` that is no vertex is refused.
    pub fn flow_map(&self, strategy: Strategy, source: usize, keep: usize) -> (drawn: Result<
        FlowMap,
        Error,
    >)
        ensures
            match drawn {
                Ok(map) => exists|pred: Seq<usize>, dist: Seq<Option<u128>>|
                    {
                        &&& #[trigger] is_shortest_path_forest(
                            self.adj(),
                            strategy.both_ways(),
                            source as int,
                            pred,
                            dist,
                        )
                        &&& is_flow_map_of(self, pred, keep, map)
                    },
                Err(e) => e == Error::InvalidSource && source >= self.adj().len(),
            },
    {
        let n = self.len();
        let paths = match self.shortest_paths(strategy, source) {
            Ok(paths) => paths,
            Err(e) => {
                return Err(e);
            },
        };
        let uses = self.count_uses(&paths.pred);
        let bounds = self.bounds(&paths.pred);
        proof {
            assert forall|i: int| 0 <= i < uses@.len() implies (#[trigger] uses@[i]).0.0 < n
                && uses@[i].0.1 < n by {
                assert(is_usage_entry(paths.pred@, uses@[i]));
            }
        }
        let map = self.render(&uses, keep, bounds);
        proof {
            assert(lays_out(self, uses@, bounds, keep, map));
            assert(is_flow_map_of(self, paths.pred@, keep, map));
        }
        Ok(map)
    }
}

} // verus!
