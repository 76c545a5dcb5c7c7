//! The construction-time error types.

use vstd::prelude::*;

use crate::any::TypeInfo;
use crate::graph::NodeIndex;
use crate::tuple::TupleIndex;

verus! {

/// Errors that can happen during graph construction.
#[derive(Debug)]
pub enum Error {
    /// The specified dependent node has started running its task and can't
    /// have its dependencies modified.
    HasStarted(NodeIndex),
    /// The specified dependency index is greater than or equal to the
    /// dependent node's task's number of inputs.
    OutOfRange(TupleIndex),
    /// The dependent node's task has `input` type at the specified index,
    /// but the depended node's task has a different `output` type.
    TypeMismatch {
        /// The dependent node's declared input fingerprint.
        input: TypeInfo,
        /// The depended node's declared output fingerprint.
        output: TypeInfo,
    },
    /// Adding the specified dependency would have caused the graph to cycle.
    WouldCycle,
}

/// An [`Error`] and the task whose wiring failed, handed back unconsumed.
#[derive(Debug)]
pub struct ErrorWithTask<T> {
    /// The error.
    pub error: Error,
    /// The task.
    pub task: T,
}

} // verus!
