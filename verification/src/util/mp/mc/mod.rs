//! Multiple-producer multiple-consumer queues based on a circular buffer.

pub mod bounded;
