//! Error types for graph and propagation operations, and safe id conversions.

use vstd::prelude::*;
use crate::graph::{NodeId, RoomId};
use crate::messages::{decimal, fmt_two_usize, fmt_usize_between};

verus! {

/// Errors for graph operations.
#[derive(Debug)]
pub enum GraphError {
    /// Invalid node id (the id, the number of nodes of the graph).
    InvalidNodeId(NodeId, usize),
    /// Invalid room id.
    InvalidRoomId(RoomId),
    /// The graph structure is corrupted (with a description).
    CorruptedStructure(String),
    /// Adjacency list length mismatch (expected, got).
    AdjacencyLengthMismatch(usize, usize),
    /// Invalid size (with a description).
    InvalidSize(String),
    /// Integer overflow in a calculation.
    IntegerOverflow,
}

/// Errors for propagation operations.
#[derive(Debug)]
pub enum PropagationError {
    /// Invalid source node.
    InvalidSourceNode(NodeId),
    /// Propagation failed (with a description).
    PropagationFailed(String),
}

impl GraphError {
    /// The message this error displays as.
    pub fn to_message(&self) -> (r: String)
        ensures
            r@ == self.message(),
    {
        proof {
            reveal_strlit("");
        }
        match self {
            GraphError::InvalidNodeId(id, n) => fmt_two_usize(
                "Invalid node ID: ",
                *id as usize,
                " (graph has ",
                *n,
                " nodes)",
            ),
            GraphError::InvalidRoomId(r) => {
                let m = fmt_usize_between("Invalid room ID: ", *r as usize, "");
                assert(m@ =~= "Invalid room ID: "@ + decimal(*r as nat));
                m
            },
            GraphError::CorruptedStructure(s) => {
                let mut m = "Graph structure corrupted: ".to_string();
                m.append(s.as_str());
                m
            },
            GraphError::AdjacencyLengthMismatch(a, b) => {
                let m = fmt_two_usize("Adjacency list length mismatch: expected ", *a, ", got ", *b, "");
                assert(m@ =~= "Adjacency list length mismatch: expected "@ + decimal(*a as nat) + ", got "@ + decimal(
                    *b as nat,
                ));
                m
            },
            GraphError::InvalidSize(s) => {
                let mut m = "Invalid size: ".to_string();
                m.append(s.as_str());
                m
            },
            GraphError::IntegerOverflow => "Integer overflow in calculation".to_string(),
        }
    }

    /// The text of the message.
    pub open spec fn message(self) -> Seq<char> {
        match self {
            GraphError::InvalidNodeId(id, n) => "Invalid node ID: "@ + decimal(id as nat) + " (graph has "@
                + decimal(n as nat) + " nodes)"@,
            GraphError::InvalidRoomId(r) => "Invalid room ID: "@ + decimal(r as nat),
            GraphError::CorruptedStructure(s) => "Graph structure corrupted: "@ + s@,
            GraphError::AdjacencyLengthMismatch(a, b) => "Adjacency list length mismatch: expected "@ + decimal(
                a as nat,
            ) + ", got "@ + decimal(b as nat),
            GraphError::InvalidSize(s) => "Invalid size: "@ + s@,
            GraphError::IntegerOverflow => "Integer overflow in calculation"@,
        }
    }
}

/// Converts a node id to an index. A `u32` always fits a `usize`, so this
/// never fails.
pub fn node_id_to_usize(id: NodeId) -> (r: Result<usize, GraphError>)
    ensures
        r matches Ok(v) && v == id as usize,
{
    Ok(id as usize)
}

/// Converts an index to a node id; fails with `InvalidSize` when the value
/// exceeds `NodeId::MAX`.
pub fn usize_to_node_id(val: usize) -> (r: Result<NodeId, GraphError>)
    ensures
        val <= u32::MAX ==> (r matches Ok(v) && v == val as u32),
        val > u32::MAX ==> r matches Err(GraphError::InvalidSize(_)),
{
    if val <= u32::MAX as usize {
        Ok(val as u32)
    } else {
        Err(GraphError::InvalidSize(fmt_two_usize("Value ", val, " exceeds NodeId::MAX (", u32::MAX as usize, ")")))
    }
}

} // verus!
