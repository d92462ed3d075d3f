//! A durable message queue engine with visibility timeouts.
//!
//! Each queue is a table of messages ordered by a strictly increasing
//! identifier. Consumers claim visible messages, which hides them for a
//! visibility offset and counts the read, or pop them, which removes them in
//! the same step. Partitioned queues keep their identifier ranges materialized
//! ahead of the write frontier.
pub mod engine;
pub mod error;
pub mod json;
pub mod laws;
pub mod message;
pub mod name;
pub mod partition;
pub mod table;
