//! Why an operation on a channel failed.
use vstd::prelude::*;

verus! {

/// The value could not be sent because there is no receiver.
#[derive(Debug, Copy, Clone, Eq, PartialEq, Hash)]
pub struct SendError<T>(pub T);

/// The value could not be sent at once.
#[derive(Debug, Copy, Clone, Eq, PartialEq, Hash)]
pub enum TrySendError<T> {
    /// The buffer is full.
    Full(T),
    /// There is no receiver.
    Disconnected(T),
}

/// There is nothing to receive and no sender.
#[derive(Debug, Copy, Clone, Eq, PartialEq, Hash)]
pub struct RecvError;

/// Nothing could be received at once.
#[derive(Debug, Copy, Clone, Eq, PartialEq, Hash)]
pub enum TryRecvError {
    /// There is nothing to receive now.
    Empty,
    /// There is nothing to receive and no sender.
    Disconnected,
}

} // verus!
