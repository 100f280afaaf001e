//! How threads wait.
pub mod backoff;
pub mod parker;
