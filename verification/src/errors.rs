//! What can go wrong when a graph is built, analysed, rewritten or run.

use vstd::prelude::*;

verus! {

/// The failures of the library, by kind.
#[derive(Clone, Copy, Debug, PartialEq, Eq, Structural)]
pub enum TractError {
    /// The graph is not what an operator or the model expects: a wrong
    /// number of inputs or outputs, a reference to a node or slot that does
    /// not exist, a cycle.
    MalformedGraph,
    /// Two facts were forced to different exact values.
    InferenceContradiction,
    /// An operator failed on concrete tensors.
    EvalError,
    /// A proposed patch failed validation.
    RewriteRejected,
    /// A node was to be computed before the nodes it reads.
    NotReady,
    /// The tensors of a node were asked for before it was computed.
    NotComputed,
}

} // verus!
