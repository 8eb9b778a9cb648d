//! The errors of a query.
use vstd::prelude::*;

verus! {

/// Why a query has no answer.
#[derive(Clone, Copy, Debug, PartialEq, Eq, Structural)]
pub enum GraphError {
    /// The graph has no node at which a route could enter it.
    NoClosestNode,
    /// A node names a waypoint that the graph does not hold.
    MissingNeighbor,
}

impl GraphError {
    /// What the error says, as contracts speak of it.
    pub open spec fn message_view(self) -> Seq<char> {
        match self {
            GraphError::NoClosestNode => "No closest node found"@,
            GraphError::MissingNeighbor => "Missing neighbor"@,
        }
    }

    /// What the error says.
    pub fn message(&self) -> (message: String)
        ensures
            message@ == self.message_view(),
    {
        match self {
            GraphError::NoClosestNode => "No closest node found".to_string(),
            GraphError::MissingNeighbor => "Missing neighbor".to_string(),
        }
    }
}

} // verus!
