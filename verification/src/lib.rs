//! Multi-producer queues and channels as verified step machines.
use vstd::prelude::*;

pub mod arena;
pub mod basic;
pub mod block;
pub mod block_mpsc;
pub mod chain;
pub mod eager;
pub mod history;
pub mod idea;
pub mod lock;
pub mod lock_mpmc;
pub mod loo_ish;
pub mod masked;
pub mod pause;
pub mod ploo_mpsc;
pub mod protty;
pub mod protty_mpsc;
pub mod ring;
pub mod sharded_lock_mpsc;
pub mod shared;
pub mod usync_mpsc;
pub mod vyukov;
pub mod wait_list;
pub mod wait_queue;

verus! {

} // verus!
