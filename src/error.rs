use vstd::prelude::*;

verus! {

/// The failures that a queue operation reports to its caller.
#[derive(Debug, Clone, Copy, PartialEq, Eq, Structural)]
pub enum QueueError {
    /// The operation names a queue that is not registered.
    QueueNotFound,
    /// A queue of that name is already registered.
    DuplicateQueue,
    /// The name is not a safe identifier for a queue's storage.
    InvalidQueueName,
    /// The identifier to assign lies beyond every materialized partition.
    PartitionUnavailable,
    /// The queue's identifier sequence has no value left to assign.
    IdentifiersExhausted,
    /// The payload could not be encoded as JSON text. A JSON value always
    /// can be, so a send of one is proved never to fail this way.
    PayloadEncoding,
    /// A partitioned queue was asked for with partitions of no identifiers.
    InvalidPartitionSize,
    /// More than one row matched an identifier that must be unique.
    InconsistentRows,
}

} // verus!
