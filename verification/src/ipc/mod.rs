//! Queues between the input producer and the tick consumer.

pub mod spsc;
