//! The error type of the crate and its human-readable messages.
use vstd::prelude::*;

use crate::text::{decimal, push_decimal, with_decimal};

verus! {

/// Errors produced by the hodge-consensus crate.
#[derive(Debug, Clone, Copy, PartialEq, Eq, Structural)]
pub enum HodgeError {
    EdgeOutOfBounds { index: usize, num_edges: usize },
    NodeOutOfBounds { index: usize, n: usize },
    TooFewNodes { minimum: usize, actual: usize },
    FlowLengthMismatch { flow_len: usize, edge_count: usize },
    LabelCountMismatch { label_count: usize, node_count: usize },
    Underdetermined,
    SingularMatrix,
}

/// The text that describes an error: the message of each variant, with its
/// numbers written in decimal.
pub open spec fn error_text(e: HodgeError) -> Seq<char> {
    match e {
        HodgeError::EdgeOutOfBounds { index, num_edges } =>
            "edge index "@ + decimal(index as nat) + " out of bounds (graph has "@
                + decimal(num_edges as nat) + " edges)"@,
        HodgeError::NodeOutOfBounds { index, n } =>
            "node index "@ + decimal(index as nat) + " out of bounds (graph has "@
                + decimal(n as nat) + " nodes)"@,
        HodgeError::TooFewNodes { minimum, actual } =>
            "graph must have at least "@ + decimal(minimum as nat) + " nodes, got "@
                + decimal(actual as nat),
        HodgeError::FlowLengthMismatch { flow_len, edge_count } =>
            "flow vector length "@ + decimal(flow_len as nat) + " does not match edge count "@
                + decimal(edge_count as nat),
        HodgeError::LabelCountMismatch { label_count, node_count } =>
            "label count "@ + decimal(label_count as nat) + " does not match node count "@
                + decimal(node_count as nat),
        HodgeError::Underdetermined =>
            "underdetermined system: not enough comparisons to rank nodes"@,
        HodgeError::SingularMatrix => "singular matrix in least-squares solve"@,
    }
}

/// `head`, then `a` in decimal, then `mid`, then `b` in decimal, then `tail`.
fn two_numbers(head: &str, a: usize, mid: &str, b: usize, tail: &str) -> (s: String)
    ensures
        s@ == head@ + decimal(a as nat) + mid@ + decimal(b as nat) + tail@,
{
    let mut s = with_decimal(head, a);
    s.append(mid);
    push_decimal(&mut s, b);
    s.append(tail);
    s
}

impl HodgeError {
    /// The human-readable message of this error.
    pub fn message(&self) -> (s: String)
        ensures
            s@ == error_text(*self),
    {
        match *self {
            HodgeError::EdgeOutOfBounds { index, num_edges } => {
                let s = two_numbers("edge index ", index, " out of bounds (graph has ", num_edges, " edges)");
                s
            },
            HodgeError::NodeOutOfBounds { index, n } => {
                two_numbers("node index ", index, " out of bounds (graph has ", n, " nodes)")
            },
            HodgeError::TooFewNodes { minimum, actual } => {
                let s = two_numbers("graph must have at least ", minimum, " nodes, got ", actual, "");
                proof { reveal_strlit(""); }
                assert(s@ =~= error_text(*self));
                s
            },
            HodgeError::FlowLengthMismatch { flow_len, edge_count } => {
                let s = two_numbers("flow vector length ", flow_len, " does not match edge count ", edge_count, "");
                proof { reveal_strlit(""); }
                assert(s@ =~= error_text(*self));
                s
            },
            HodgeError::LabelCountMismatch { label_count, node_count } => {
                let s = two_numbers("label count ", label_count, " does not match node count ", node_count, "");
                proof { reveal_strlit(""); }
                assert(s@ =~= error_text(*self));
                s
            },
            HodgeError::Underdetermined => {
                String::from_str("underdetermined system: not enough comparisons to rank nodes")
            },
            HodgeError::SingularMatrix => String::from_str("singular matrix in least-squares solve"),
        }
    }
}

} // verus!
