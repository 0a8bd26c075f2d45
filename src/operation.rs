use vstd::prelude::*;

verus! {

/// The marker handed to readers of a node whose evaluation failed. The failure
/// itself is recorded once, where it happened; readers only pass this on.
#[derive(Clone, Copy, Debug, PartialEq, Eq, Structural)]
pub struct ObservedErrorOutput;

/// A result inside the engine: a value, or the marker of a failure upstream.
pub type InternalResult<T> = Result<T, ObservedErrorOutput>;

/// A failure during evaluation.
#[derive(Clone, Copy, Debug, PartialEq, Eq, Structural)]
pub enum OpError {
    /// A reader met the marker of a failure already recorded upstream.
    Observed,
    /// An operation body failed: a written value left the `u64` range.
    Overflow { node: usize, time: i64 },
    /// A node's grounding put it after the latest time of its window.
    OutOfWindow { node: usize },
}

impl OpError {
    pub fn is_observed(&self) -> (r: bool)
        ensures
            r == (*self is Observed),
    {
        match self {
            OpError::Observed => true,
            _ => false,
        }
    }
}

/// Where a node stands in evaluation.
#[derive(Debug)]
pub enum OperationStatus<O> {
    Dormant,
    Working,
    Done(InternalResult<O>),
}

impl<O: Copy> OperationStatus<O> {
    /// The result of a finished node.
    pub fn unwrap_done(&self) -> (r: InternalResult<O>)
        requires
            *self is Done,
        ensures
            *self == OperationStatus::Done(r),
    {
        match self {
            OperationStatus::Done(r) => *r,
            _ => Err(ObservedErrorOutput),
        }
    }
}

} // verus!
