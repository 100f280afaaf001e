//! A channel for many senders and many receivers, protected by one lock.
//!
//! The state of a channel is an [`internal::Inner`] that its users share behind a lock. Every
//! operation on it is one critical section: it either finishes or leaves a waiter behind, whose
//! ticket is redeemed once another operation has served it.
pub mod bounded;
pub mod error;
pub mod internal;
pub mod raw_mutex;
pub mod unbounded;

pub use bounded::{channel as sync_channel, SyncSender};
pub use error::{RecvError, SendError, TryRecvError, TrySendError};
pub use unbounded::{channel, Receiver, Sender};
