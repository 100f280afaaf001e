//! An unbounded queue in blocks of 32 slots, for many senders and one receiver.
use crate::chain::Recv;
use crate::eager::{Eager, Push};
use crate::history::Machine;
use crate::pause::{Pause, Platform};
use vstd::prelude::*;

verus! {

/// The number of spins of the last wait.
#[derive(Clone, Copy, Debug)]
pub struct Backoff(pub usize);

impl Default for Backoff {
    fn default() -> (backoff: Self)
        ensures
            backoff.0 == 0,
    {
        Backoff(0)
    }
}

impl Backoff {
    /// How the thread waits after a lost exchange: twice as many spins as the last time, at
    /// least 2 and at most 1024, or a yield where spinning is not cheap.
    pub fn yield_now(&mut self, platform: Platform) -> (pause: Pause)
        requires
            old(self).0 <= usize::MAX / 2,
        ensures
            !platform.x86 ==> pause == Pause::Yield && final(self).0 == old(self).0,
            platform.x86 ==> {
                &&& pause == Pause::Spin(final(self).0)
                &&& final(self).0 == if old(self).0 == 0 {
                    2
                } else if old(self).0 * 2 < 1024 {
                    old(self).0 * 2
                } else {
                    1024
                }
            },
    {
        if !platform.x86 {
            return Pause::Yield;
        }
        let least: usize = if self.0 < 1 {
            1
        } else {
            self.0
        };
        let doubled: usize = least * 2;
        self.0 = if doubled < 1024 {
            doubled
        } else {
            1024
        };
        Pause::Spin(self.0)
    }
}

/// The queue.
pub struct Queue<T> {
    pub inner: Eager<T>,
}

/// A send that is under way.
pub struct Send<T> {
    pub push: Push<T>,
    pub backoff: Backoff,
}

impl<T> Send<T> {
    /// A send that has not yet begun.
    pub fn new(value: T) -> (send: Self)
        ensures
            send.push == (Push::Load { value, spare: 0, lost: false }),
            send.backoff.0 == 0,
    {
        Send { push: Push::Load { value, spare: 0, lost: false }, backoff: Backoff::default() }
    }

    /// How the thread waits before the next access: not at all, unless another send won the
    /// exchange.
    pub fn pause(&mut self, platform: Platform) -> (pause: Pause)
        requires
            old(self).backoff.0 <= 1024,
        ensures
            final(self).push == old(self).push,
            final(self).backoff.0 <= 1024,
            match old(self).push {
                Push::Load { value, spare, lost: true } => {
                    &&& pause == if platform.x86 {
                        Pause::Spin(final(self).backoff.0)
                    } else {
                        Pause::Yield
                    }
                    &&& final(self).backoff.0 == if !platform.x86 {
                        old(self).backoff.0 as int
                    } else if old(self).backoff.0 == 0 {
                        2
                    } else if old(self).backoff.0 * 2 < 1024 {
                        old(self).backoff.0 * 2
                    } else {
                        1024
                    }
                },
                _ => pause == Pause::Nothing && final(self).backoff == old(self).backoff,
            },
    {
        if let Push::Load { lost: true, .. } = &self.push {
            return self.backoff.yield_now(platform);
        }
        Pause::Nothing
    }
}

impl<T> Queue<T> {
    /// The invariant of the queue together with the sends that are under way.
    pub open spec fn inv(self, ops: Map<int, Push<T>>) -> bool {
        self.inner.inv(ops)
    }

    /// The invariant while no send is under way.
    pub open spec fn wf(self) -> bool {
        self.inner.wf()
    }

    /// The values in the queue, the oldest first.
    pub open spec fn view(self) -> Seq<T> {
        self.inner@
    }

    /// Another block still has an address.
    pub open spec fn has_room(self) -> bool {
        self.inner.chain.heap.has_room()
    }

    /// A queue without values.
    pub fn empty() -> (queue: Self)
        ensures
            queue.wf(),
            queue@ == Seq::<T>::empty(),
            queue.inner.chain.heap.room() == (usize::MAX - 32) / 32,
            queue.has_room(),
    {
        Queue { inner: Eager::new() }
    }

    /// The next send puts another block on the heap.
    pub open spec fn takes_block(self) -> bool {
        self.inner.takes_block()
    }

    /// Puts `value` at the end of the queue.
    pub fn send(&mut self, value: T)
        requires
            old(self).wf(),
            old(self).takes_block() ==> old(self).has_room(),
        ensures
            final(self).wf(),
            final(self)@ == old(self)@.push(value),
            final(self).inner.chain.heap@.dom() == if old(self).takes_block() {
                old(self).inner.chain.heap@.dom().insert(old(self).inner.chain.heap.fresh())
            } else {
                old(self).inner.chain.heap@.dom()
            },
            final(self).inner.chain.heap.room() == old(self).inner.chain.heap.room() - if old(self).takes_block() {
                1int
            } else {
                0
            },
    {
        self.inner.push(value);
    }

    /// Performs one access of a send. Its exchange may fail though it need not (`spurious`).
    pub fn send_step(&mut self, op: Send<T>, spurious: bool) -> (next: Send<T>)
        requires
            old(self).inner.accepts(op.push),
        ensures
            old(self).inner.push_next(op.push, spurious, final(self).inner, next.push),
            next.backoff == op.backoff,
    {
        let push = self.inner.push_step(op.push, spurious);
        Send { push, backoff: op.backoff }
    }

    /// Takes the oldest value out of the queue.
    pub fn try_recv(&mut self) -> (value: Option<T>)
        requires
            old(self).wf(),
        ensures
            final(self).wf(),
            final(self).inner.chain.heap@.dom() == if old(self).inner.chain.leaves() {
                old(self).inner.chain.heap@.dom().remove(old(self).inner.chain.head)
            } else {
                old(self).inner.chain.heap@.dom()
            },
            final(self).inner.chain.heap.room() == old(self).inner.chain.heap.room() + if old(self).inner.chain.leaves() {
                1int
            } else {
                0
            },
            match value {
                Some(v) => {
                    &&& old(self)@.len() > 0
                    &&& v == old(self)@[0]
                    &&& final(self)@ == old(self)@.skip(1)
                },
                None => old(self)@.len() == 0 && final(self)@ == old(self)@,
            },
    {
        self.inner.try_pop()
    }

    /// Performs one access of a receive.
    pub fn recv_step(&mut self, op: Recv<T>) -> (next: Recv<T>)
        requires
            old(self).inner.chain.recv_ok(op),
            old(self).inner.chain.recv_safe(),
        ensures
            final(self).inner.tail == old(self).inner.tail,
            old(self).inner.chain.recv_next(op, final(self).inner.chain, next, true),
    {
        self.inner.recv_step(op)
    }
}

/// Every run of sends and receives, whatever way their accesses follow each other.
impl<T> Machine for Queue<T> {
    type Item = T;

    type Send = Push<T>;

    type Recv = Recv<T>;

    open spec fn fits(self, sends: Map<int, Push<T>>, recv: Recv<T>) -> bool {
        self.inner.fits(sends, recv)
    }

    open spec fn held(self) -> Seq<T> {
        self@
    }

    open spec fn unsent(send: Push<T>) -> Option<T> {
        Eager::<T>::unsent(send)
    }

    open spec fn sent(send: Push<T>) -> bool {
        send is Done
    }

    open spec fn owes(send: Push<T>) -> bool {
        Eager::<T>::owes(send)
    }

    open spec fn awaited(sends: Map<int, Push<T>>) -> bool {
        exists|i: int| #[trigger] sends.contains_key(i) && Self::owes(sends[i])
    }

    open spec fn got(recv: Recv<T>) -> Option<T> {
        recv.result()
    }

    open spec fn missed(recv: Recv<T>) -> bool {
        recv is Done && recv.result() is None
    }

    open spec fn starts(self, sends: Map<int, Push<T>>, sender: int, send: Push<T>) -> bool {
        self.inner.starts(sends, sender, send)
    }

    open spec fn sends_on(
        self,
        sends: Map<int, Push<T>>,
        sender: int,
        post: Self,
        next: Push<T>,
    ) -> bool {
        self.inner.sends_on(sends, sender, post.inner, next)
    }

    open spec fn renews(recv: Recv<T>, next: Recv<T>) -> bool {
        recv is Done && next is Head
    }

    open spec fn recvs_on(
        self,
        sends: Map<int, Push<T>>,
        recv: Recv<T>,
        post: Self,
        next: Recv<T>,
    ) -> bool {
        self.inner.recvs_on(sends, recv, post.inner, next)
    }

    proof fn lemma_starts(
        self,
        sends: Map<int, Push<T>>,
        recv: Recv<T>,
        sender: int,
        send: Push<T>,
    ) {
        self.inner.lemma_starts(sends, recv, sender, send);
    }

    proof fn lemma_sends_on(
        self,
        sends: Map<int, Push<T>>,
        recv: Recv<T>,
        sender: int,
        post: Self,
        next: Push<T>,
    ) {
        self.inner.lemma_sends_on(sends, recv, sender, post.inner, next);
    }

    proof fn lemma_sent(self, sends: Map<int, Push<T>>, recv: Recv<T>, sender: int) {
        self.inner.lemma_sent(sends, recv, sender);
    }

    proof fn lemma_renews(self, sends: Map<int, Push<T>>, recv: Recv<T>, next: Recv<T>) {
    }

    proof fn lemma_recvs_on(
        self,
        sends: Map<int, Push<T>>,
        recv: Recv<T>,
        post: Self,
        next: Recv<T>,
    ) {
        self.inner.lemma_recvs_on(sends, recv, post.inner, next);
    }
}

} // verus!
