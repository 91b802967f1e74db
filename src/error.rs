use vstd::prelude::*;

verus! {

/// Errors that an operation on a [`crate::MultiStackQueue`] may report.
///
/// * `QueueFull`: a push onto a lane that already holds as many values as it has slots.
/// * `QueueEmpty`: a pop from a lane that holds no value.
/// * `QueueIndexOutOfBounds`: a lane id at or beyond the number of lanes.
/// * `UnknownError`: reserved; no operation of this library returns it.
#[derive(Debug, Copy, Clone, Eq, PartialEq, Structural)]
pub enum MSQError {
    QueueFull,
    QueueEmpty,
    QueueIndexOutOfBounds,
    UnknownError,
}

} // verus!
