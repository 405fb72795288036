use vstd::prelude::*;

verus! {

/// Why a record set or a query was rejected.
#[derive(Clone, Copy, Debug, PartialEq, Eq, Structural)]
pub enum Error {
    /// A record names a vertex or a node that the node list does not hold.
    MalformedRecord,
    /// The node list holds no node with the identifier that was asked for.
    NotFound,
    /// The source of a shortest-path query is not a vertex of the graph.
    InvalidSource,
}

} // verus!
