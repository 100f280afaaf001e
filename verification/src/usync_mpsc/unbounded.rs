//! An unbounded queue in blocks of 32 slots, for many producers and one consumer.
use crate::chain::Recv;
use crate::eager;
use crate::eager::Eager;
use crate::history::Machine;
use crate::pause::{Pause, Platform};
use crate::usync_mpsc::utils::backoff::Backoff;
use vstd::arithmetic::power2::pow2;
use vstd::prelude::*;

verus! {

/// The queue.
pub struct Queue<T> {
    pub inner: Eager<T>,
}

/// A push that is under way.
pub struct Push<T> {
    pub push: eager::Push<T>,
    pub backoff: Backoff,
}

impl<T> Push<T> {
    /// A push that has not yet begun.
    pub fn new(value: T) -> (push: Self)
        ensures
            push.push == (eager::Push::Load { value, spare: 0, lost: false }),
            push.backoff.attempt == 0,
    {
        Push {
            push: eager::Push::Load { value, spare: 0, lost: false },
            backoff: Backoff::new(),
        }
    }

    /// How the thread waits before the next access: not at all, unless another push won the
    /// exchange.
    pub fn pause(&mut self, platform: Platform) -> (pause: Pause)
        ensures
            final(self).push == old(self).push,
            match old(self).push {
                eager::Push::Load { value, spare, lost: true } => {
                    let attempt = old(self).backoff.attempt;
                    let spins = attempt <= Backoff::spin_limit(platform) || Backoff::always_spins(
                        platform,
                    );
                    &&& pause == if platform.cpus == 1 {
                        Pause::Nothing
                    } else if spins {
                        Pause::Spin(
                            pow2(
                                if attempt < 10 {
                                    attempt as nat
                                } else {
                                    10
                                },
                            ) as usize,
                        )
                    } else {
                        Pause::Yield
                    }
                    &&& final(self).backoff.attempt == if platform.cpus != 1 && spins {
                        attempt.wrapping_add(1)
                    } else {
                        attempt
                    }
                },
                _ => pause == Pause::Nothing && final(self).backoff == old(self).backoff,
            },
    {
        if let eager::Push::Load { lost: true, .. } = &self.push {
            return self.backoff.yield_now(platform);
        }
        Pause::Nothing
    }
}

impl<T> Queue<T> {
    /// The invariant of the queue together with the pushes that are under way.
    pub open spec fn inv(self, ops: Map<int, eager::Push<T>>) -> bool {
        self.inner.inv(ops)
    }

    /// The invariant while no push is under way.
    pub open spec fn wf(self) -> bool {
        self.inner.wf()
    }

    /// The values in the queue, the oldest first.
    pub open spec fn view(self) -> Seq<T> {
        self.inner@
    }

    /// Another block still has an address.
    pub open spec fn has_room(self) -> bool {
        self.inner.chain.heap.has_room()
    }

    /// A queue without values.
    pub fn new() -> (queue: Self)
        ensures
            queue.wf(),
            queue@ == Seq::<T>::empty(),
            queue.inner.chain.heap.room() == (usize::MAX - 32) / 32,
            queue.has_room(),
    {
        Queue { inner: Eager::new() }
    }

    /// The next push puts another block on the heap.
    pub open spec fn takes_block(self) -> bool {
        self.inner.takes_block()
    }

    /// Puts `value` at the end of the queue.
    pub fn push(&mut self, value: T)
        requires
            old(self).wf(),
            old(self).takes_block() ==> old(self).has_room(),
        ensures
            final(self).wf(),
            final(self)@ == old(self)@.push(value),
            final(self).inner.chain.heap@.dom() == if old(self).takes_block() {
                old(self).inner.chain.heap@.dom().insert(old(self).inner.chain.heap.fresh())
            } else {
                old(self).inner.chain.heap@.dom()
            },
            final(self).inner.chain.heap.room() == old(self).inner.chain.heap.room() - if old(self).takes_block() {
                1int
            } else {
                0
            },
    {
        self.inner.push(value);
    }

    /// Performs one access of a push.
    pub fn push_step(&mut self, op: Push<T>) -> (next: Push<T>)
        requires
            old(self).inner.accepts(op.push),
        ensures
            old(self).inner.push_next(op.push, false, final(self).inner, next.push),
            next.backoff == op.backoff,
    {
        let push = self.inner.push_step(op.push, false);
        Push { push, backoff: op.backoff }
    }

    /// Takes the oldest value out of the queue.
    pub fn try_pop(&mut self) -> (value: Option<T>)
        requires
            old(self).wf(),
        ensures
            final(self).wf(),
            final(self).inner.chain.heap@.dom() == if old(self).inner.chain.leaves() {
                old(self).inner.chain.heap@.dom().remove(old(self).inner.chain.head)
            } else {
                old(self).inner.chain.heap@.dom()
            },
            final(self).inner.chain.heap.room() == old(self).inner.chain.heap.room() + if old(self).inner.chain.leaves() {
                1int
            } else {
                0
            },
            match value {
                Some(v) => {
                    &&& old(self)@.len() > 0
                    &&& v == old(self)@[0]
                    &&& final(self)@ == old(self)@.skip(1)
                },
                None => old(self)@.len() == 0 && final(self)@ == old(self)@,
            },
    {
        self.inner.try_pop()
    }

    /// Performs one access of a pop.
    pub fn pop_step(&mut self, op: Recv<T>) -> (next: Recv<T>)
        requires
            old(self).inner.chain.recv_ok(op),
            old(self).inner.chain.recv_safe(),
        ensures
            final(self).inner.tail == old(self).inner.tail,
            old(self).inner.chain.recv_next(op, final(self).inner.chain, next, true),
    {
        self.inner.recv_step(op)
    }
}

/// Every run of sends and receives, whatever way their accesses follow each other.
impl<T> Machine for Queue<T> {
    type Item = T;

    type Send = eager::Push<T>;

    type Recv = Recv<T>;

    open spec fn fits(self, sends: Map<int, eager::Push<T>>, recv: Recv<T>) -> bool {
        self.inner.fits(sends, recv)
    }

    open spec fn held(self) -> Seq<T> {
        self@
    }

    open spec fn unsent(send: eager::Push<T>) -> Option<T> {
        Eager::<T>::unsent(send)
    }

    open spec fn sent(send: eager::Push<T>) -> bool {
        send is Done
    }

    open spec fn owes(send: eager::Push<T>) -> bool {
        Eager::<T>::owes(send)
    }

    open spec fn awaited(sends: Map<int, eager::Push<T>>) -> bool {
        exists|i: int| #[trigger] sends.contains_key(i) && Self::owes(sends[i])
    }

    open spec fn got(recv: Recv<T>) -> Option<T> {
        recv.result()
    }

    open spec fn missed(recv: Recv<T>) -> bool {
        recv is Done && recv.result() is None
    }

    open spec fn starts(self, sends: Map<int, eager::Push<T>>, sender: int, send: eager::Push<T>) -> bool {
        self.inner.starts(sends, sender, send)
    }

    open spec fn sends_on(
        self,
        sends: Map<int, eager::Push<T>>,
        sender: int,
        post: Self,
        next: eager::Push<T>,
    ) -> bool {
        self.inner.sends_on(sends, sender, post.inner, next)
    }

    open spec fn renews(recv: Recv<T>, next: Recv<T>) -> bool {
        recv is Done && next is Head
    }

    open spec fn recvs_on(
        self,
        sends: Map<int, eager::Push<T>>,
        recv: Recv<T>,
        post: Self,
        next: Recv<T>,
    ) -> bool {
        self.inner.recvs_on(sends, recv, post.inner, next)
    }

    proof fn lemma_starts(
        self,
        sends: Map<int, eager::Push<T>>,
        recv: Recv<T>,
        sender: int,
        send: eager::Push<T>,
    ) {
        self.inner.lemma_starts(sends, recv, sender, send);
    }

    proof fn lemma_sends_on(
        self,
        sends: Map<int, eager::Push<T>>,
        recv: Recv<T>,
        sender: int,
        post: Self,
        next: eager::Push<T>,
    ) {
        self.inner.lemma_sends_on(sends, recv, sender, post.inner, next);
    }

    proof fn lemma_sent(self, sends: Map<int, eager::Push<T>>, recv: Recv<T>, sender: int) {
        self.inner.lemma_sent(sends, recv, sender);
    }

    proof fn lemma_renews(self, sends: Map<int, eager::Push<T>>, recv: Recv<T>, next: Recv<T>) {
    }

    proof fn lemma_recvs_on(
        self,
        sends: Map<int, eager::Push<T>>,
        recv: Recv<T>,
        post: Self,
        next: Recv<T>,
    ) {
        self.inner.lemma_recvs_on(sends, recv, post.inner, next);
    }
}

} // verus!
