//! The lock of a channel, and how a thread waits for a flag.
use crate::pause::{Pause, Platform};
use vstd::prelude::*;

verus! {

/// How often a thread has looked at the flag that it waits for, on the platforms where that
/// matters.
pub struct WaitUntil {
    pub spins: i32,
}

impl WaitUntil {
    /// The count with which the waiting begins.
    pub open spec fn first(platform: Platform) -> i32 {
        if platform.apple {
            if platform.aarch64 {
                -10i32
            } else {
                -1024i32
            }
        } else {
            0
        }
    }

    /// How the thread passes the time before it looks at the flag again.
    pub open spec fn interval(spins: i32, platform: Platform) -> Pause {
        if platform.apple {
            if spins >= 0 {
                Pause::Depress(spins as u32)
            } else if platform.aarch64 {
                Pause::Event
            } else {
                Pause::Spin(1)
            }
        } else if platform.windows {
            if spins < 10 {
                Pause::Spin(1)
            } else if spins < 12 {
                Pause::Yield
            } else if spins < 14 {
                Pause::Sleep(0)
            } else if spins < 16 {
                Pause::Sleep(1)
            } else {
                Pause::Sleep(10)
            }
        } else {
            Pause::Yield
        }
    }

    /// Begins to wait.
    pub fn new(platform: Platform) -> (wait: Self)
        ensures
            wait.spins == Self::first(platform),
            !platform.apple ==> wait.spins == 0,
            platform.apple && platform.aarch64 ==> wait.spins == -10,
            platform.apple && !platform.aarch64 ==> wait.spins == -1024,
    {
        let spins: i32 = if platform.apple {
            if platform.aarch64 {
                -10i32
            } else {
                -1024i32
            }
        } else {
            0
        };
        WaitUntil { spins }
    }

    /// The next interval of the wait.
    pub fn pause(&mut self, platform: Platform) -> (pause: Pause)
        requires
            platform.apple || platform.windows ==> old(self).spins < i32::MAX,
        ensures
            pause == Self::interval(old(self).spins, platform),
            platform.apple ==> pause == if old(self).spins >= 0 {
                Pause::Depress(old(self).spins as u32)
            } else if platform.aarch64 {
                Pause::Event
            } else {
                Pause::Spin(1)
            },
            !platform.apple && platform.windows ==> pause == if old(self).spins < 10 {
                Pause::Spin(1)
            } else if old(self).spins < 12 {
                Pause::Yield
            } else if old(self).spins < 14 {
                Pause::Sleep(0)
            } else if old(self).spins < 16 {
                Pause::Sleep(1)
            } else {
                Pause::Sleep(10)
            },
            !platform.apple && !platform.windows ==> pause == Pause::Yield,
            final(self).spins == old(self).spins + if platform.apple || platform.windows {
                1int
            } else {
                0
            },
    {
        let spins: i32 = self.spins;
        if platform.apple || platform.windows {
            self.spins = spins + 1;
        }
        if platform.apple {
            if spins >= 0 {
                Pause::Depress(spins as u32)
            } else if platform.aarch64 {
                Pause::Event
            } else {
                Pause::Spin(1)
            }
        } else if platform.windows {
            if spins < 10 {
                Pause::Spin(1)
            } else if spins < 12 {
                Pause::Yield
            } else if spins < 14 {
                Pause::Sleep(0)
            } else if spins < 16 {
                Pause::Sleep(1)
            } else {
                Pause::Sleep(10)
            }
        } else {
            Pause::Yield
        }
    }
}

/// A lock that is held or free.
pub struct RawMutex {
    pub locked: bool,
}

/// An attempt to get the lock: what the thread does next, or that it holds the lock.
pub enum Locking {
    /// Exchange free for held.
    Try,
    /// Load the flag until the lock is free.
    Wait,
    /// The thread holds the lock.
    Held,
}

impl RawMutex {
    /// A free lock.
    pub fn new() -> (mutex: Self)
        ensures
            !mutex.locked,
    {
        RawMutex { locked: false }
    }

    /// Gets the lock if it is free.
    pub fn try_lock(&mut self) -> (got: bool)
        ensures
            got == !old(self).locked,
            final(self).locked,
    {
        let got: bool = !self.locked;
        self.locked = true;
        got
    }

    /// Gives the lock back.
    pub fn unlock(&mut self)
        ensures
            !final(self).locked,
    {
        self.locked = false;
    }

    /// One access of an attempt to get the lock.
    pub open spec fn lock_next(self, op: Locking, post: Self, next: Locking) -> bool {
        match op {
            Locking::Try => post.locked && next == if self.locked {
                Locking::Wait
            } else {
                Locking::Held
            },
            Locking::Wait => post == self && next == if self.locked {
                Locking::Wait
            } else {
                Locking::Try
            },
            Locking::Held => post == self && next == op,
        }
    }

    /// Performs one access of an attempt to get the lock.
    pub fn lock_step(&mut self, op: Locking) -> (next: Locking)
        ensures
            old(self).lock_next(op, *final(self), next),
            op is Try ==> (next is Held <==> !old(self).locked) && final(self).locked,
            op is Wait ==> (next is Try <==> !old(self).locked) && *final(self) == *old(self),
            op is Held ==> next is Held && *final(self) == *old(self),
            op is Try || op is Wait ==> (next is Wait <==> old(self).locked),
    {
        match op {
            Locking::Try => if self.try_lock() {
                Locking::Held
            } else {
                Locking::Wait
            },
            Locking::Wait => if self.locked {
                Locking::Wait
            } else {
                Locking::Try
            },
            Locking::Held => Locking::Held,
        }
    }

    /// Gets the lock, which nobody holds.
    pub fn lock(&mut self)
        requires
            !old(self).locked,
        ensures
            final(self).locked,
    {
        let op = self.lock_step(Locking::Try);
        assert(op is Held);
    }

    /// The lock is held exactly if one of the threads holds it, and no two do.
    pub open spec fn inv(self, ops: Map<int, Locking>) -> bool {
        &&& self.locked <==> exists|i: int| #[trigger] ops.contains_key(i) && ops[i] is Held
        &&& forall|i: int, j: int| #[trigger]
            ops.contains_key(i) && #[trigger] ops.contains_key(j) && ops[i] is Held
                && ops[j] is Held ==> i == j
    }

    /// Mutual exclusion: whatever threads try to get the lock, no two of them ever hold it at
    /// the same time.
    pub proof fn lemma_exclusive(self, ops: Map<int, Locking>, i: int, post: Self, next: Locking)
        requires
            self.inv(ops),
            ops.contains_key(i),
            self.lock_next(ops[i], post, next),
        ensures
            post.inv(ops.insert(i, next)),
    {
        let gs = ops.insert(i, next);
        assert forall|j: int| #[trigger] gs.contains_key(j) implies ops.contains_key(j) by {}
        if self.locked {
            let j = choose|j: int| #[trigger] ops.contains_key(j) && ops[j] is Held;
            assert(gs.contains_key(j));
        } else if next is Held {
            assert(gs.contains_key(i));
        }
    }

    /// A thread holds the lock only by the access that finds it free and makes it held. It waits
    /// while the lock is held, and a thread that finds the lock free has it after two accesses at
    /// most, if no other comes first.
    pub proof fn lemma_got(self, op: Locking, post: Self, next: Locking)
        requires
            self.lock_next(op, post, next),
        ensures
            next is Held && !(op is Held) ==> op is Try && !self.locked && post.locked,
            !(op is Held) && self.locked ==> next is Wait && post.locked,
            op is Try && !self.locked ==> next is Held,
            op is Wait && !self.locked ==> next is Try && !post.locked,
            op is Held ==> next is Held && post == self,
    {
    }

    /// The thread that holds the lock may give it back.
    pub proof fn lemma_unlock(self, ops: Map<int, Locking>, i: int, post: Self)
        requires
            self.inv(ops),
            ops.contains_key(i),
            ops[i] is Held,
            !post.locked,
        ensures
            post.inv(ops.remove(i)),
    {
        let gs = ops.remove(i);
        assert forall|j: int| #[trigger] gs.contains_key(j) implies ops.contains_key(j) && j != i by {}
    }
}

} // verus!
