//! The small queues: bounded, unbounded and without any buffer.
pub mod bounded;
pub mod rendezvous;
pub mod unbounded;
pub mod utils;
