//! An unbounded queue for many producers and one consumer, spread over several locked deques.
//!
//! The producers take turns with the deques. The consumer swaps a deque that has values for its
//! own empty one, and takes the values from there without a lock.
use crate::lock;
use crate::lock::{Lock, Locking, Unlocking};
use crate::pause::{power_of_two, Pause, Platform};
use std::collections::VecDeque;
use vstd::arithmetic::div_mod::lemma_mod_bound;
use vstd::arithmetic::power2::pow2;
use vstd::multiset::Multiset;
use vstd::prelude::*;

verus! {

/// How often a thread has waited.
pub struct Backoff {
    pub counter: usize,
}

impl Backoff {
    /// A thread that has not waited yet.
    pub fn new() -> (backoff: Self)
        ensures
            backoff.counter == 0,
    {
        Backoff { counter: 0 }
    }

    /// Spins once and returns true, but at most 32 times.
    pub fn try_yield_now(&mut self) -> (spun: bool)
        ensures
            spun == (old(self).counter < 32),
            final(self).counter == old(self).counter + if spun {
                1int
            } else {
                0
            },
    {
        if self.counter < 32 {
            self.counter = self.counter + 1;
            std::hint::spin_loop();
            true
        } else {
            false
        }
    }

    /// Spins twice as long as the last time, up to 8 spins or, on Windows, up to 32; after that it
    /// yields.
    pub fn yield_now(&mut self, platform: Platform) -> (pause: Pause)
        ensures
            final(self).counter == old(self).counter.wrapping_add(1),
            pause == if final(self).counter <= 3 {
                Pause::Spin(pow2(final(self).counter as nat) as usize)
            } else if platform.windows {
                Pause::Spin(
                    pow2(
                        if final(self).counter < 5 {
                            final(self).counter as nat
                        } else {
                            5
                        },
                    ) as usize,
                )
            } else {
                Pause::Yield
            },
    {
        self.counter = self.counter.wrapping_add(1);
        if self.counter <= 3 {
            return Pause::Spin(power_of_two(self.counter));
        }
        if platform.windows {
            let exponent: usize = if self.counter < 5 {
                self.counter
            } else {
                5
            };
            return Pause::Spin(power_of_two(exponent));
        }
        Pause::Yield
    }
}

/// How a thread waits for the lock of a deque.
pub struct Waiting {
    pub spin: Backoff,
    pub backoff: Backoff,
}

impl Waiting {
    /// A thread that has not waited yet.
    pub fn new() -> (waiting: Self)
        ensures
            waiting.spin.counter == 0,
            waiting.backoff.counter == 0,
    {
        Waiting { spin: Backoff::new(), backoff: Backoff::new() }
    }

    /// Whether the thread spins once more before it goes to sleep: only if no other thread sleeps
    /// there, and at most 32 times.
    pub fn again(&mut self, op: &Locking) -> (again: bool)
        ensures
            final(self).backoff == old(self).backoff,
            again == (old(self).spin.counter < 32 && (*op matches Locking::Check { id, seen }
                && seen.cell(2) == 0)),
            final(self).spin.counter == old(self).spin.counter + if again {
                1int
            } else {
                0
            },
    {
        if let Locking::Check { seen, .. } = op {
            if seen.untagged(2) == 0 {
                return self.spin.try_yield_now();
            }
        }
        false
    }

    /// How the thread waits before its next access: not at all, unless another thread won the
    /// exchange of a free lock. The intervals start anew once the lock was seen held.
    pub fn pause(&mut self, op: &Locking, platform: Platform) -> (pause: Pause)
        ensures
            final(self).spin == old(self).spin,
            match *op {
                Locking::Load { id, lost: true } => {
                    let n = old(self).backoff.counter.wrapping_add(1);
                    &&& final(self).backoff.counter == n
                    &&& pause == if n <= 3 {
                        Pause::Spin(pow2(n as nat) as usize)
                    } else if platform.windows {
                        Pause::Spin(
                            pow2(
                                if n < 5 {
                                    n as nat
                                } else {
                                    5
                                },
                            ) as usize,
                        )
                    } else {
                        Pause::Yield
                    }
                },
                Locking::Check { id, seen } => pause == Pause::Nothing
                    && final(self).backoff.counter == 0,
                _ => pause == Pause::Nothing && final(self).backoff == old(self).backoff,
            },
    {
        match op {
            Locking::Load { lost: true, .. } => self.backoff.yield_now(platform),
            Locking::Check { .. } => {
                self.backoff = Backoff::new();
                Pause::Nothing
            },
            _ => Pause::Nothing,
        }
    }
}

/// A deque behind a lock, and whether it may hold values.
pub struct Producer<T> {
    pub pending: bool,
    pub deque: Lock<VecDeque<T>>,
}

/// The queue.
pub struct MpscQueue<T> {
    pub index: usize,
    pub consumer: VecDeque<T>,
    pub producers: Vec<Producer<T>>,
    /// The deque that the consumer's values came from.
    pub from: Ghost<int>,
}

/// The part of a push that comes next.
pub enum Push<T> {
    /// Take the turn of the next deque.
    Bump { value: T },
    /// Get the lock of the deque; once it is held, put the value into the deque.
    Lock { value: T, shard: usize, op: Locking },
    /// Give the lock back.
    Unlock { shard: usize, end: Unlocking },
    /// Note that the deque has values.
    Pend { shard: usize },
    /// The push is over.
    Done,
}

/// The part of a pop that comes next.
pub enum Pop<T> {
    /// Take a value that the consumer has.
    Front,
    /// Look whether the deque may have values.
    Look { shard: usize },
    /// Note that it is going to have none.
    Clear { shard: usize },
    /// Get the lock of the deque; once it is held, swap the deques.
    Lock { shard: usize, op: Locking },
    /// Give the lock back.
    Unlock { shard: usize, end: Unlocking },
    /// Take a value that the consumer has by now.
    Last,
    /// The pop is over.
    Done(Option<T>),
}

impl<T> Push<T> {
    /// What the push does with the lock of the deque.
    pub open spec fn at(self, shard: int) -> Option<lock::Op> {
        match self {
            Push::Lock { value, shard: k, op } => if k == shard {
                Some(lock::Op::Lock(op))
            } else {
                None
            },
            Push::Unlock { shard: k, end: op } => if k == shard {
                Some(lock::Op::Unlock(op))
            } else {
                None
            },
            _ => None,
        }
    }

    /// The push has put its value into the deque and is going to note that.
    pub open spec fn pends(self, shard: int) -> bool {
        match self {
            Push::Unlock { shard: k, end: op } => k == shard,
            Push::Pend { shard: k } => k == shard,
            _ => false,
        }
    }
}

impl<T> Pop<T> {
    /// What the pop does with the lock of the deque.
    pub open spec fn at(self, shard: int) -> Option<lock::Op> {
        match self {
            Pop::Lock { shard: k, op } => if k == shard {
                Some(lock::Op::Lock(op))
            } else {
                None
            },
            Pop::Unlock { shard: k, end: op } => if k == shard {
                Some(lock::Op::Unlock(op))
            } else {
                None
            },
            _ => None,
        }
    }

    /// The deque that the pop is at.
    pub open spec fn shard(self) -> int {
        match self {
            Pop::Look { shard } => shard as int,
            Pop::Clear { shard } => shard as int,
            Pop::Lock { shard, op } => shard as int,
            Pop::Unlock { shard, end: op } => shard as int,
            _ => 0,
        }
    }
}

/// What the pushes and the pop that are under way do with the lock of the deque. The pop goes by
/// the number -1.
pub open spec fn lock_ops<T>(ops: Map<int, Push<T>>, pop: Pop<T>, shard: int) -> Map<
    int,
    lock::Op,
> {
    Map::new(
        |i: int|
            if i == -1 {
                pop.at(shard) is Some
            } else {
                ops.contains_key(i) && ops[i].at(shard) is Some
            },
        |i: int|
            if i == -1 {
                pop.at(shard)->0
            } else {
                ops[i].at(shard)->0
            },
    )
}

/// Some push is going to note that the deque has values.
pub open spec fn pended<T>(ops: Map<int, Push<T>>, shard: int) -> bool {
    exists|i: int| #[trigger] ops.contains_key(i) && ops[i].pends(shard)
}

impl<T> MpscQueue<T> {
    /// The values in a deque.
    pub open spec fn deque(self, shard: int) -> Seq<T> {
        self.producers@[shard].deque.value@
    }

    /// The values that went through a deque and were not yet taken, the oldest first.
    pub open spec fn lane(self, shard: int) -> Seq<T> {
        if self.from@ == shard {
            self.consumer@ + self.deque(shard)
        } else {
            self.deque(shard)
        }
    }

    /// The values in the queue: those of each deque, the oldest first.
    pub open spec fn view(self) -> Seq<Seq<T>> {
        Seq::new(self.producers@.len(), |shard: int| self.lane(shard))
    }

    /// A push is at a deque that is there.
    pub open spec fn push_ok(self, op: Push<T>) -> bool {
        match op {
            Push::Lock { value, shard, op } => shard < self.producers@.len(),
            Push::Unlock { shard, end: op } => shard < self.producers@.len(),
            Push::Pend { shard } => shard < self.producers@.len(),
            _ => true,
        }
    }

    /// A pop is at a deque that is there, and the consumer has no values while it looks for some.
    pub open spec fn pop_ok(self, pop: Pop<T>) -> bool {
        match pop {
            Pop::Look { shard } => shard <= self.producers@.len() && self.consumer@.len() == 0,
            Pop::Clear { shard } => shard < self.producers@.len() && self.consumer@.len() == 0,
            Pop::Lock { shard, op } => shard < self.producers@.len() && self.consumer@.len() == 0,
            Pop::Unlock { shard, end: op } => shard < self.producers@.len(),
            _ => true,
        }
    }

    /// A deque is locked as it should be. If it has values, it says so, unless a push is going to
    /// say so or the pop is going to take them.
    pub open spec fn shard_ok(self, ops: Map<int, Push<T>>, pop: Pop<T>, shard: int) -> bool {
        let producer = self.producers@[shard];
        &&& producer.deque.inv(lock_ops(ops, pop, shard))
        &&& producer.deque.value@.len() > 0 ==> producer.pending || pended(ops, shard) || (
        pop is Lock && pop.shard() == shard)
    }

    /// The invariant of the queue together with the pushes and the pop that are under way.
    pub open spec fn inv(self, ops: Map<int, Push<T>>, pop: Pop<T>) -> bool {
        &&& 0 < self.producers@.len()
        &&& 0 <= self.from@ < self.producers@.len()
        &&& !ops.contains_key(-1)
        &&& forall|i: int| #[trigger] ops.contains_key(i) ==> self.push_ok(ops[i])
        &&& self.pop_ok(pop)
        &&& forall|shard: int|
            0 <= shard < self.producers@.len() ==> #[trigger] self.shard_ok(ops, pop, shard)
    }

    /// The invariant while nothing is under way.
    pub open spec fn wf(self) -> bool {
        self.inv(Map::empty(), Pop::Front)
    }

    /// Every lock can have another waiter.
    pub open spec fn has_room(self) -> bool {
        forall|shard: int|
            0 <= shard < self.producers@.len() ==> (
            #[trigger] self.producers@[shard]).deque.waiters.has_room()
    }

    /// The other deques stay as they are, and so do the consumer's values.
    pub open spec fn same_but(self, post: Self, shard: int) -> bool {
        &&& post.producers@.len() == self.producers@.len()
        &&& forall|k: int|
            0 <= k < self.producers@.len() && k != shard ==> #[trigger] post.producers@[k]
                == self.producers@[k]
    }

    /// The next access of the push finds what it needs.
    pub open spec fn pushes(self, op: Push<T>, spurious: bool) -> bool {
        &&& 0 < self.producers@.len()
        &&& self.push_ok(op)
        &&& match op {
            Push::Lock { value, shard, op } => op is Held
                || self.producers@[shard as int].deque.locks(op, spurious),
            Push::Unlock { shard, end: op } => self.producers@[shard as int].deque.unlocks(op),
            _ => true,
        }
    }

    /// The next access of the pop finds what it needs.
    pub open spec fn pops(self, op: Pop<T>, spurious: bool) -> bool {
        &&& self.pop_ok(op)
        &&& match op {
            Pop::Lock { shard, op } => op is Held || self.producers@[shard as int].deque.locks(
                op,
                spurious,
            ),
            Pop::Unlock { shard, end: op } => self.producers@[shard as int].deque.unlocks(op),
            _ => true,
        }
    }

    /// One access of a push by `thread`; see [`Lock::lock_next`].
    pub open spec fn push_next(
        self,
        op: Push<T>,
        thread: usize,
        spurious: bool,
        again: bool,
        post: Self,
        next: Push<T>,
    ) -> bool {
        &&& post.consumer == self.consumer
        &&& post.from == self.from
        &&& match op {
            Push::Bump { value } => {
                &&& post.index == self.index.wrapping_add(1)
                &&& post.producers@ == self.producers@
                &&& next == Push::Lock {
                    value,
                    shard: (self.index as int % self.producers@.len() as int) as usize,
                    op: Locking::Fast,
                }
            },
            Push::Lock { value, shard, op } => {
                let before = self.producers@[shard as int];
                let after = post.producers@[shard as int];
                &&& post.index == self.index
                &&& self.same_but(post, shard as int)
                &&& after.pending == before.pending
                &&& if op is Held {
                    &&& after.deque.value@ == before.deque.value@.push(value)
                    &&& after.deque == Lock { value: after.deque.value, ..before.deque }
                    &&& next == Push::<T>::Unlock { shard, end: Unlocking::Fast }
                } else {
                    &&& next matches Push::Lock { value: v, shard: k, op: o }
                    &&& v == value && k == shard
                    &&& before.deque.lock_next(op, thread, spurious, again, after.deque, o)
                }
            },
            Push::Unlock { shard, end: op } => {
                let before = self.producers@[shard as int];
                let after = post.producers@[shard as int];
                &&& post.index == self.index
                &&& self.same_but(post, shard as int)
                &&& after.pending == before.pending
                &&& if op is Done {
                    after == before && next == Push::<T>::Pend { shard }
                } else {
                    &&& next matches Push::Unlock { shard: k, end: o }
                    &&& k == shard
                    &&& before.deque.unlock_next(op, spurious, false, after.deque, o)
                }
            },
            Push::Pend { shard } => {
                &&& post.index == self.index
                &&& post.producers@ == self.producers@.update(
                    shard as int,
                    Producer { pending: true, ..self.producers@[shard as int] },
                )
                &&& next == Push::<T>::Done
            },
            Push::Done => post == self && next == op,
        }
    }

    /// One access of a pop by `thread`; see [`Lock::lock_next`].
    pub open spec fn pop_next(
        self,
        op: Pop<T>,
        thread: usize,
        spurious: bool,
        again: bool,
        post: Self,
        next: Pop<T>,
    ) -> bool {
        &&& post.index == self.index
        &&& match op {
            Pop::Front | Pop::Last => {
                &&& post.producers == self.producers
                &&& post.from == self.from
                &&& if self.consumer@.len() > 0 {
                    &&& post.consumer@ == self.consumer@.skip(1)
                    &&& next == Pop::Done(Some(self.consumer@[0]))
                } else {
                    &&& post.consumer@ == self.consumer@
                    &&& next == if op is Front {
                        Pop::<T>::Look { shard: 0 }
                    } else {
                        Pop::Done(None)
                    }
                }
            },
            Pop::Look { shard } => post == self && next == if shard == self.producers@.len() {
                Pop::<T>::Last
            } else if self.producers@[shard as int].pending {
                Pop::Clear { shard }
            } else {
                Pop::Look { shard: (shard + 1) as usize }
            },
            Pop::Clear { shard } => {
                &&& post.consumer == self.consumer
                &&& post.from == self.from
                &&& post.producers@ == self.producers@.update(
                    shard as int,
                    Producer { pending: false, ..self.producers@[shard as int] },
                )
                &&& next == Pop::<T>::Lock { shard, op: Locking::Fast }
            },
            Pop::Lock { shard, op } => {
                let before = self.producers@[shard as int];
                let after = post.producers@[shard as int];
                &&& self.same_but(post, shard as int)
                &&& after.pending == before.pending
                &&& if op is Held {
                    &&& post.from@ == shard
                    &&& post.consumer@ == before.deque.value@
                    &&& after.deque.value@ == self.consumer@
                    &&& after.deque == Lock { value: after.deque.value, ..before.deque }
                    &&& next == Pop::<T>::Unlock { shard, end: Unlocking::Fast }
                } else {
                    &&& post.consumer == self.consumer
                    &&& post.from == self.from
                    &&& next matches Pop::Lock { shard: k, op: o }
                    &&& k == shard
                    &&& before.deque.lock_next(op, thread, spurious, again, after.deque, o)
                }
            },
            Pop::Unlock { shard, end: op } => {
                let before = self.producers@[shard as int];
                let after = post.producers@[shard as int];
                &&& post.consumer == self.consumer
                &&& post.from == self.from
                &&& self.same_but(post, shard as int)
                &&& after.pending == before.pending
                &&& if op is Done {
                    &&& after == before
                    &&& next == if self.consumer@.len() > 0 {
                        Pop::<T>::Last
                    } else {
                        Pop::Look { shard: (shard + 1) as usize }
                    }
                } else {
                    &&& next matches Pop::Unlock { shard: k, end: o }
                    &&& k == shard
                    &&& before.deque.unlock_next(op, spurious, false, after.deque, o)
                }
            },
            Pop::Done(_) => post == self && next == op,
        }
    }

    /// An empty queue with a deque for each of `cpus` processors.
    pub fn new(cpus: usize) -> (queue: Self)
        requires
            0 < cpus,
        ensures
            queue.wf(),
            queue.has_room(),
            queue.index == 0,
            queue.consumer@.len() == 0,
            queue@.len() == cpus,
            forall|shard: int| 0 <= shard < cpus ==> (#[trigger] queue@[shard]).len() == 0,
    {
        let mut producers: Vec<Producer<T>> = Vec::with_capacity(cpus);
        let mut i: usize = 0;
        while i < cpus
            invariant
                i <= cpus,
                producers@.len() == i,
                forall|k: int|
                    0 <= k < i ==> {
                        &&& (#[trigger] producers@[k]).deque.inv(Map::empty())
                        &&& producers@[k].deque.value@.len() == 0
                        &&& producers@[k].deque.waiters.has_room()
                        &&& !producers@[k].pending
                    },
            decreases cpus - i,
        {
            producers.push(Producer { pending: false, deque: Lock::new(VecDeque::new()) });
            i = i + 1;
        }
        let queue = MpscQueue { index: 0, consumer: VecDeque::new(), producers, from: Ghost(0int) };
        proof {
            let ops = Map::<int, Push<T>>::empty();
            assert forall|k: int| 0 <= k < cpus implies #[trigger] queue.shard_ok(
                ops,
                Pop::Front,
                k,
            ) by {
                assert(lock_ops(ops, Pop::<T>::Front, k) =~= Map::empty());
                assert(queue.producers@[k].deque.inv(Map::empty()));
            }
        }
        queue
    }

    /// Performs one access of a push by `thread`.
    pub fn push_step(&mut self, op: Push<T>, thread: usize, spurious: bool, again: bool) -> (next:
        Push<T>)
        requires
            old(self).pushes(op, spurious),
        ensures
            old(self).push_next(op, thread, spurious, again, *final(self), next),
    {
        match op {
            Push::Bump { value } => {
                let index: usize = self.index;
                self.index = index.wrapping_add(1);
                Push::Lock { value, shard: index % self.producers.len(), op: Locking::Fast }
            },
            Push::Lock { value, shard, op } => match op {
                Locking::Held => {
                    self.producers[shard].deque.value.push_back(value);
                    Push::Unlock { shard, end: Unlocking::Fast }
                },
                op => {
                    let op = self.producers[shard].deque.lock_step(op, thread, spurious, again);
                    Push::Lock { value, shard, op }
                },
            },
            Push::Unlock { shard, end: op } => match op {
                Unlocking::Done => Push::Pend { shard },
                op => {
                    let op = self.producers[shard].deque.unlock_step(op, spurious, false);
                    Push::Unlock { shard, end: op }
                },
            },
            Push::Pend { shard } => {
                self.producers[shard].pending = true;
                Push::Done
            },
            Push::Done => Push::Done,
        }
    }

    /// Performs one access of a pop by `thread`.
    pub fn pop_step(&mut self, op: Pop<T>, thread: usize, spurious: bool, again: bool) -> (next:
        Pop<T>)
        requires
            old(self).pops(op, spurious),
        ensures
            old(self).pop_next(op, thread, spurious, again, *final(self), next),
    {
        match op {
            Pop::Front => match self.consumer.pop_front() {
                Some(value) => Pop::Done(Some(value)),
                None => Pop::Look { shard: 0 },
            },
            Pop::Last => match self.consumer.pop_front() {
                Some(value) => Pop::Done(Some(value)),
                None => Pop::Done(None),
            },
            Pop::Look { shard } => if shard == self.producers.len() {
                Pop::Last
            } else if self.producers[shard].pending {
                Pop::Clear { shard }
            } else {
                Pop::Look { shard: shard + 1 }
            },
            Pop::Clear { shard } => {
                self.producers[shard].pending = false;
                Pop::Lock { shard, op: Locking::Fast }
            },
            Pop::Lock { shard, op } => match op {
                Locking::Held => {
                    std::mem::swap(&mut self.consumer, &mut self.producers[shard].deque.value);
                    self.from = Ghost(shard as int);
                    Pop::Unlock { shard, end: Unlocking::Fast }
                },
                op => {
                    let op = self.producers[shard].deque.lock_step(op, thread, spurious, again);
                    Pop::Lock { shard, op }
                },
            },
            Pop::Unlock { shard, end: op } => match op {
                Unlocking::Done => if self.consumer.len() > 0 {
                    Pop::Last
                } else {
                    assert(self.producers@.len() == self.producers.len());
                    Pop::Look { shard: shard + 1 }
                },
                op => {
                    let op = self.producers[shard].deque.unlock_step(op, spurious, false);
                    Pop::Unlock { shard, end: op }
                },
            },
            Pop::Done(value) => Pop::Done(value),
        }
    }

    /// The lock of a deque is used by the same operations as before if the push that goes on did
    /// not use it and does not use it now.
    proof fn lemma_unused(ops: Map<int, Push<T>>, pop: Pop<T>, i: int, next: Push<T>, shard: int)
        requires
            i != -1,
            ops.contains_key(i) ==> ops[i].at(shard) is None,
            next.at(shard) is None,
        ensures
            lock_ops(ops.insert(i, next), pop, shard) == lock_ops(ops, pop, shard),
    {
        assert(lock_ops(ops.insert(i, next), pop, shard) =~= lock_ops(ops, pop, shard));
    }

    /// What a push is going to note it still is after another one went on.
    proof fn lemma_pended(ops: Map<int, Push<T>>, i: int, next: Push<T>, shard: int)
        requires
            pended(ops, shard),
            ops.contains_key(i) && ops[i].pends(shard) ==> next.pends(shard),
        ensures
            pended(ops.insert(i, next), shard),
    {
        let j = choose|j: int| #[trigger] ops.contains_key(j) && ops[j].pends(shard);
        assert(ops.insert(i, next).contains_key(j));
    }

    /// The access that any push makes next finds what it needs.
    pub proof fn lemma_push_accepts(
        self,
        ops: Map<int, Push<T>>,
        pop: Pop<T>,
        i: int,
        spurious: bool,
    )
        requires
            self.inv(ops, pop),
            ops.contains_key(i),
            ops[i] matches Push::Lock { value, shard, op } ==> (
            self.producers@[shard as int].deque.adds_waiter(op, spurious)
                ==> self.producers@[shard as int].deque.waiters.has_room()),
        ensures
            self.pushes(ops[i], spurious),
    {
        let op = ops[i];
        assert(self.push_ok(op));
        match op {
            Push::Lock { value, shard, op: l } => {
                assert(self.shard_ok(ops, pop, shard as int));
                let ls = lock_ops(ops, pop, shard as int);
                assert(ls.contains_key(i) && ls[i] == lock::Op::Lock(l));
                self.producers@[shard as int].deque.lemma_accepts(ls, i, spurious);
            },
            Push::Unlock { shard, end } => {
                assert(self.shard_ok(ops, pop, shard as int));
                let ls = lock_ops(ops, pop, shard as int);
                assert(ls.contains_key(i) && ls[i] == lock::Op::Unlock(end));
                self.producers@[shard as int].deque.lemma_accepts(ls, i, spurious);
            },
            _ => {},
        }
    }

    /// Whatever pushes and pops are under way, one access of any push keeps the invariant. The
    /// access that puts the value into the deque under its lock puts it at the end of the values
    /// that went through that deque, and no other access changes what the queue holds. A deque
    /// with values is always noted as such, or is going to be, so that no value is passed over for
    /// good.
    pub proof fn lemma_push(
        self,
        ops: Map<int, Push<T>>,
        pop: Pop<T>,
        i: int,
        thread: usize,
        spurious: bool,
        again: bool,
        post: Self,
        next: Push<T>,
    )
        requires
            self.inv(ops, pop),
            ops.contains_key(i),
            self.push_next(ops[i], thread, spurious, again, post, next),
        ensures
            post.inv(ops.insert(i, next), pop),
            post@ == match ops[i] {
                Push::Lock { value, shard, op: Locking::Held } => self@.update(
                    shard as int,
                    self@[shard as int].push(value),
                ),
                _ => self@,
            },
    {
        let op = ops[i];
        let gs = ops.insert(i, next);
        assert(gs.contains_key(i));
        assert(self.push_ok(op));
        assert(self.producers@.len() == self.producers.len());
        assert forall|j: int| #[trigger] gs.contains_key(j) implies post.push_ok(gs[j]) by {
            if j != i {
                assert(ops.contains_key(j));
                assert(self.push_ok(ops[j]));
            } else if op is Bump {
                lemma_mod_bound(self.index as int, self.producers@.len() as int);
            }
        }
        let at: int = match op {
            Push::Lock { value, shard, op: l } => shard as int,
            Push::Unlock { shard, end } => shard as int,
            Push::Pend { shard } => shard as int,
            _ => match next {
                Push::Lock { value, shard, op: l } => shard as int,
                _ => 0,
            },
        };
        assert forall|k: int| 0 <= k < post.producers@.len() implies #[trigger] post.shard_ok(
            gs,
            pop,
            k,
        ) by {
            assert(self.shard_ok(ops, pop, k));
            if k != at {
                assert(op.at(k) is None && next.at(k) is None);
                Self::lemma_unused(ops, pop, i, next, k);
                assert(post.producers@[k] == self.producers@[k]);
            } else {
                self.lemma_push_at(ops, pop, i, thread, spurious, again, post, next, k);
            }
            if pended(ops, k) && !(op is Pend && op.pends(k)) {
                Self::lemma_pended(ops, i, next, k);
            }
            if post.deque(k).len() > 0 && self.deque(k).len() == 0 {
                assert(gs[i].pends(k));
            }
        }
        assert forall|k: int| 0 <= k < post.producers@.len() && k != at implies #[trigger] post@[k]
            == self@[k] by {
            assert(post.producers@[k] == self.producers@[k]);
        }
        match op {
            Push::Lock { value, shard, op: Locking::Held } => {
                assert(post.lane(at) =~= self.lane(at).push(value));
                assert(post@ =~= self@.update(at, self@[at].push(value)));
            },
            _ => {
                assert(post@ =~= self@);
            },
        }
    }

    /// The lock of the deque that a push is at, after an access of the push.
    proof fn lemma_push_at(
        self,
        ops: Map<int, Push<T>>,
        pop: Pop<T>,
        i: int,
        thread: usize,
        spurious: bool,
        again: bool,
        post: Self,
        next: Push<T>,
        k: int,
    )
        requires
            self.inv(ops, pop),
            ops.contains_key(i),
            self.push_next(ops[i], thread, spurious, again, post, next),
            0 <= k < self.producers@.len(),
            match ops[i] {
                Push::Lock { value, shard, op } => shard == k,
                Push::Unlock { shard, end } => shard == k,
                Push::Pend { shard } => shard == k,
                Push::Bump { value } => next->Lock_shard == k,
                _ => true,
            },
        ensures
            post.producers@[k].deque.inv(lock_ops(ops.insert(i, next), pop, k)),
            match ops[i] {
                Push::Lock { value, shard, op: Locking::Held } => post.deque(k) == self.deque(
                    k,
                ).push(value),
                _ => post.deque(k) == self.deque(k),
            },
            post.producers@[k].pending == self.producers@[k].pending || ops[i] is Pend,
    {
        assert(self.shard_ok(ops, pop, k));
        let op = ops[i];
        let gs = ops.insert(i, next);
        let deque = self.producers@[k].deque;
        let after = post.producers@[k].deque;
        let ls = lock_ops(ops, pop, k);
        let ms = lock_ops(gs, pop, k);
        match op {
            Push::Bump { value } => {
                assert(!ls.contains_key(i));
                deque.lemma_start(ls, i);
                assert(ms =~= ls.insert(i, lock::Op::Lock(Locking::Fast)));
            },
            Push::Lock { value, shard, op: l } => {
                assert(ls.contains_key(i) && ls[i] == lock::Op::Lock(l));
                if l is Held {
                    deque.lemma_release(ls, i, after.value);
                    assert(ms =~= ls.insert(i, lock::Op::Unlock(Unlocking::Fast)));
                } else {
                    deque.lemma_lock(ls, i, thread, spurious, again, after, next->Lock_op);
                    assert(ms =~= ls.insert(i, lock::Op::Lock(next->Lock_op)));
                }
            },
            Push::Unlock { shard, end } => {
                assert(ls.contains_key(i) && ls[i] == lock::Op::Unlock(end));
                if end is Done {
                    deque.lemma_finish(ls, i);
                    assert(ms =~= ls.remove(i));
                } else {
                    deque.lemma_unlock(ls, i, spurious, false, after, next->Unlock_end);
                    assert(ms =~= ls.insert(i, lock::Op::Unlock(next->Unlock_end)));
                }
            },
            _ => {
                Self::lemma_unused(ops, pop, i, next, k);
            },
        }
    }

    /// The pushes take the deques in turn. A push goes through one of them only: it keeps its value
    /// until it holds the lock, puts it at the end, gives that lock back, and is over only once
    /// the deque is noted to have values. The other deques, and what the consumer has, it leaves
    /// alone.
    pub proof fn lemma_turns(
        self,
        op: Push<T>,
        thread: usize,
        spurious: bool,
        again: bool,
        post: Self,
        next: Push<T>,
    )
        requires
            self.producers@.len() > 0,
            self.push_ok(op),
            self.push_next(op, thread, spurious, again, post, next),
        ensures
            post.consumer == self.consumer,
            post.producers@.len() == self.producers@.len(),
            post.index == if op is Bump {
                self.index.wrapping_add(1)
            } else {
                self.index
            },
            match op {
                Push::Bump { value } => {
                    &&& next matches Push::Lock { value: kept, shard, op: o }
                    &&& kept == value
                    &&& shard == self.index as int % self.producers@.len() as int
                    &&& post.producers@ == self.producers@
                },
                Push::Lock { value, shard, op: o } => {
                    let before = self.producers@[shard as int];
                    let after = post.producers@[shard as int];
                    &&& after.pending == before.pending
                    &&& if o is Held {
                        &&& after.deque.value@ == before.deque.value@.push(value)
                        &&& next matches Push::Unlock { shard: same, end }
                        &&& same == shard
                    } else {
                        &&& after.deque.value == before.deque.value
                        &&& next matches Push::Lock { value: kept, shard: same, op: p }
                        &&& same == shard && kept == value
                        &&& before.deque.heeds(o, thread, spurious, again, after.deque, p)
                    }
                },
                Push::Unlock { shard, end } => {
                    let before = self.producers@[shard as int];
                    let after = post.producers@[shard as int];
                    &&& after.pending == before.pending
                    &&& after.deque.value == before.deque.value
                    &&& if end is Done {
                        next == Push::<T>::Pend { shard }
                    } else {
                        &&& next matches Push::Unlock { shard: same, end: e }
                        &&& same == shard
                        &&& before.deque.yields(end, spurious, false, e)
                    }
                },
                Push::Pend { shard } => shard < self.producers@.len() ==> {
                    &&& next is Done
                    &&& post.producers@[shard as int].pending
                    &&& post.producers@[shard as int].deque == self.producers@[shard as int].deque
                },
                Push::Done => next is Done,
            },
            forall|k: int|
                0 <= k < self.producers@.len() && !(op matches Push::Lock { value, shard, op: o }
                    && shard == k) && !(op matches Push::Unlock { shard, end } && shard == k) && !(
                op matches Push::Pend { shard } && shard == k) ==> #[trigger] post.producers@[k]
                    == self.producers@[k],
    {
        vstd::arithmetic::div_mod::lemma_mod_bound(
            self.index as int,
            self.producers@.len() as int,
        );
        assert(self.producers@.len() == self.producers.len());
    }

    /// A pop comes back with the oldest of the values that the consumer has. If it has none, the
    /// pop looks at the deques one after the other, and at all of them: it goes on to the next
    /// only if a deque is not noted to have values, or if it has taken what was in it and that was
    /// nothing. It comes back without a value only after the last.
    pub proof fn lemma_looks(
        self,
        pop: Pop<T>,
        thread: usize,
        spurious: bool,
        again: bool,
        post: Self,
        next: Pop<T>,
    )
        requires
            self.pop_next(pop, thread, spurious, again, post, next),
        ensures
            post.index == self.index,
            match pop {
                Pop::Front => if self.consumer@.len() > 0 {
                    &&& next == Pop::Done(Some(self.consumer@[0]))
                    &&& post.consumer@ == self.consumer@.skip(1)
                } else {
                    next == Pop::<T>::Look { shard: 0 } && post.consumer@ == self.consumer@
                },
                Pop::Look { shard } => {
                    &&& post == self
                    &&& shard == self.producers@.len() ==> next is Last
                    &&& shard < self.producers@.len() ==> if self.producers@[shard as int].pending {
                        next == Pop::<T>::Clear { shard }
                    } else {
                        next matches Pop::Look { shard: following } && following == shard + 1
                    }
                },
                Pop::Clear { shard } => {
                    &&& next matches Pop::Lock { shard: same, op }
                    &&& same == shard
                    &&& shard < self.producers@.len() ==> !post.producers@[shard as int].pending
                    &&& post.consumer == self.consumer
                },
                Pop::Lock { shard, op } => if op is Held {
                    &&& next matches Pop::Unlock { shard: same, end }
                    &&& same == shard
                    &&& post.consumer@ == self.producers@[shard as int].deque.value@
                    &&& post.producers@[shard as int].deque.value@ == self.consumer@
                } else {
                    &&& next matches Pop::Lock { shard: same, op: o }
                    &&& same == shard
                    &&& post.consumer == self.consumer
                    &&& self.producers@[shard as int].deque.heeds(
                        op,
                        thread,
                        spurious,
                        again,
                        post.producers@[shard as int].deque,
                        o,
                    )
                },
                Pop::Unlock { shard, end } => {
                    &&& post.consumer == self.consumer
                    &&& if !(end is Done) {
                        &&& next matches Pop::Unlock { shard: same, end: e }
                        &&& same == shard
                        &&& self.producers@[shard as int].deque.yields(end, spurious, false, e)
                    } else if self.consumer@.len() > 0 {
                        next is Last
                    } else {
                        shard < self.producers@.len() ==> (next matches Pop::Look {
                            shard: following,
                        } && following == shard + 1)
                    }
                },
                Pop::Last => if self.consumer@.len() > 0 {
                    &&& next == Pop::Done(Some(self.consumer@[0]))
                    &&& post.consumer@ == self.consumer@.skip(1)
                } else {
                    next == Pop::<T>::Done(None) && post.consumer@ == self.consumer@
                },
                Pop::Done(_) => next == pop && post == self,
            },
    {
        assert(self.producers@.len() == self.producers.len());
    }

    /// A push may begin at any time.
    pub proof fn lemma_start(self, ops: Map<int, Push<T>>, pop: Pop<T>, i: int, value: T)
        requires
            self.inv(ops, pop),
            !ops.contains_key(i),
            i != -1,
        ensures
            self.inv(ops.insert(i, Push::Bump { value }), pop),
    {
        let next = Push::Bump { value };
        let gs = ops.insert(i, next);
        assert forall|j: int| #[trigger] gs.contains_key(j) implies self.push_ok(gs[j]) by {
            assert(j != i ==> ops.contains_key(j));
        }
        assert forall|k: int| 0 <= k < self.producers@.len() implies #[trigger] self.shard_ok(
            gs,
            pop,
            k,
        ) by {
            assert(self.shard_ok(ops, pop, k));
            Self::lemma_unused(ops, pop, i, next, k);
            if pended(ops, k) {
                Self::lemma_pended(ops, i, next, k);
            }
        }
    }

    /// A push that is over may be forgotten.
    pub proof fn lemma_finish(self, ops: Map<int, Push<T>>, pop: Pop<T>, i: int)
        requires
            self.inv(ops, pop),
            ops.contains_key(i),
            ops[i] is Done,
        ensures
            self.inv(ops.remove(i), pop),
    {
        let gs = ops.remove(i);
        assert forall|j: int| #[trigger] gs.contains_key(j) implies self.push_ok(gs[j]) by {
            assert(ops.contains_key(j));
        }
        assert forall|k: int| 0 <= k < self.producers@.len() implies #[trigger] self.shard_ok(
            gs,
            pop,
            k,
        ) by {
            assert(self.shard_ok(ops, pop, k));
            assert(lock_ops(gs, pop, k) =~= lock_ops(ops, pop, k));
            if pended(ops, k) {
                let j = choose|j: int| #[trigger] ops.contains_key(j) && ops[j].pends(k);
                assert(gs.contains_key(j));
            }
        }
    }

    /// The access that the pop makes next finds what it needs.
    pub proof fn lemma_pop_accepts(self, ops: Map<int, Push<T>>, pop: Pop<T>, spurious: bool)
        requires
            self.inv(ops, pop),
            pop matches Pop::Lock { shard, op } ==> (
            self.producers@[shard as int].deque.adds_waiter(op, spurious)
                ==> self.producers@[shard as int].deque.waiters.has_room()),
        ensures
            self.pops(pop, spurious),
    {
        match pop {
            Pop::Lock { shard, op: l } => {
                assert(self.shard_ok(ops, pop, shard as int));
                let ls = lock_ops(ops, pop, shard as int);
                assert(ls.contains_key(-1) && ls[-1] == lock::Op::Lock(l));
                self.producers@[shard as int].deque.lemma_accepts(ls, -1, spurious);
            },
            Pop::Unlock { shard, end } => {
                assert(self.shard_ok(ops, pop, shard as int));
                let ls = lock_ops(ops, pop, shard as int);
                assert(ls.contains_key(-1) && ls[-1] == lock::Op::Unlock(end));
                self.producers@[shard as int].deque.lemma_accepts(ls, -1, spurious);
            },
            _ => {},
        }
    }

    /// Whatever pushes are under way, one access of a pop keeps the invariant. A value that it
    /// takes is the oldest of those that went through the deque that it comes from, and no other
    /// access changes what the queue holds.
    pub proof fn lemma_pop(
        self,
        ops: Map<int, Push<T>>,
        pop: Pop<T>,
        thread: usize,
        spurious: bool,
        again: bool,
        post: Self,
        next: Pop<T>,
    )
        requires
            self.inv(ops, pop),
            self.pop_next(pop, thread, spurious, again, post, next),
        ensures
            post.inv(ops, next),
            match (pop, next) {
                (Pop::Done(_), _) => post@ == self@,
                (_, Pop::Done(Some(value))) => {
                    let from = self.from@;
                    &&& self@[from].len() > 0
                    &&& value == self@[from][0]
                    &&& post@ == self@.update(from, self@[from].skip(1))
                },
                _ => post@ == self@,
            },
    {
        assert(self.producers@.len() == self.producers.len());
        let at = pop.shard();
        assert forall|j: int| #[trigger] ops.contains_key(j) implies post.push_ok(ops[j]) by {
            assert(self.push_ok(ops[j]));
        }
        assert forall|k: int| 0 <= k < post.producers@.len() implies #[trigger] post.shard_ok(
            ops,
            next,
            k,
        ) by {
            assert(self.shard_ok(ops, pop, k));
            let deque = self.producers@[k].deque;
            let after = post.producers@[k].deque;
            let ls = lock_ops(ops, pop, k);
            let ms = lock_ops(ops, next, k);
            if k != at {
                assert(pop.at(k) is None && next.at(k) is None);
                assert(ms =~= ls);
                assert(post.producers@[k] == self.producers@[k]);
            } else {
                match pop {
                    Pop::Clear { shard } => {
                        assert(!ls.contains_key(-1));
                        deque.lemma_start(ls, -1);
                        assert(ms =~= ls.insert(-1, lock::Op::Lock(Locking::Fast)));
                    },
                    Pop::Lock { shard, op: l } => {
                        assert(ls.contains_key(-1) && ls[-1] == lock::Op::Lock(l));
                        if l is Held {
                            deque.lemma_release(ls, -1, after.value);
                            assert(ms =~= ls.insert(-1, lock::Op::Unlock(Unlocking::Fast)));
                        } else {
                            deque.lemma_lock(ls, -1, thread, spurious, again, after, next->Lock_op);
                            assert(ms =~= ls.insert(-1, lock::Op::Lock(next->Lock_op)));
                        }
                    },
                    Pop::Unlock { shard, end } => {
                        assert(ls.contains_key(-1) && ls[-1] == lock::Op::Unlock(end));
                        if end is Done {
                            deque.lemma_finish(ls, -1);
                            assert(ms =~= ls.remove(-1));
                        } else {
                            deque.lemma_unlock(ls, -1, spurious, false, after, next->Unlock_end);
                            assert(ms =~= ls.insert(-1, lock::Op::Unlock(next->Unlock_end)));
                        }
                    },
                    _ => {
                        assert(ms =~= ls);
                    },
                }
            }
        }
        match (pop, next) {
            (Pop::Done(_), _) => {},
            (_, Pop::Done(Some(value))) => {
                let from = self.from@;
                assert(post.lane(from) =~= self.lane(from).skip(1));
                assert(post@ =~= self@.update(from, self@[from].skip(1)));
            },
            _ => {
                assert forall|k: int| 0 <= k < post.producers@.len() implies post.lane(k)
                    =~= self.lane(k) by {}
                assert(post@ =~= self@);
            },
        }
    }

    /// The deques of a queue at rest are free, and say so if they have values.
    proof fn lemma_rest(self)
        ensures
            self.wf() <==> {
                &&& 0 < self.producers@.len()
                &&& 0 <= self.from@ < self.producers@.len()
                &&& forall|k: int|
                    0 <= k < self.producers@.len() ==> {
                        &&& (#[trigger] self.producers@[k]).deque.inv(Map::empty())
                        &&& self.producers@[k].deque.value@.len() > 0 ==> self.producers@[k].pending
                    }
            },
    {
        let ops = Map::<int, Push<T>>::empty();
        assert forall|k: int| 0 <= k < self.producers@.len() implies (#[trigger] self.shard_ok(
            ops,
            Pop::Front,
            k,
        ) <==> self.producers@[k].deque.inv(Map::empty()) && (
        self.producers@[k].deque.value@.len() > 0 ==> self.producers@[k].pending)) by {
            assert(lock_ops(ops, Pop::<T>::Front, k) =~= Map::empty());
            if pended(ops, k) {
                let j = choose|j: int| #[trigger] ops.contains_key(j);
                assert(false);
            }
        }
        if self.wf() {
            assert forall|k: int| 0 <= k < self.producers@.len() implies {
                &&& (#[trigger] self.producers@[k]).deque.inv(Map::empty())
                &&& self.producers@[k].deque.value@.len() > 0 ==> self.producers@[k].pending
            } by {
                assert(self.shard_ok(ops, Pop::Front, k));
            }
        }
    }

    /// Puts `value` at the end of the next deque in turn.
    pub fn push(&mut self, value: T)
        requires
            old(self).wf(),
        ensures
            final(self).wf(),
            old(self).has_room() ==> final(self).has_room(),
            final(self).index == old(self).index.wrapping_add(1),
            final(self).from == old(self).from,
            final(self).consumer@ == old(self).consumer@,
            ({
                let shard = old(self).index as int % old(self)@.len() as int;
                final(self)@ == old(self)@.update(shard, old(self)@[shard].push(value))
            }),
    {
        proof {
            self.lemma_rest();
        }
        let index: usize = self.index;
        self.index = index.wrapping_add(1);
        let shard: usize = index % self.producers.len();
        self.producers[shard].deque.lock();
        self.producers[shard].deque.value.push_back(value);
        self.producers[shard].deque.unlock();
        self.producers[shard].pending = true;
        proof {
            let k = shard as int;
            assert forall|j: int| 0 <= j < self.producers@.len() && j != k implies #[trigger] self.producers@[j]
                == old(self).producers@[j] by {}
            assert(self.producers@[k].deque.waiters == old(self).producers@[k].deque.waiters);
            self.lemma_rest();
            assert(self.lane(k) =~= old(self).lane(k).push(value));
            assert(self@ =~= old(self)@.update(k, old(self)@[k].push(value)));
        }
    }

    /// Takes the oldest value of the deque that the consumer is at, or, if there is none left, of
    /// the first deque that has one.
    pub fn pop(&mut self) -> (value: Option<T>)
        requires
            old(self).wf(),
        ensures
            final(self).wf(),
            old(self).has_room() ==> final(self).has_room(),
            final(self).index == old(self).index,
            final(self)@.len() == old(self)@.len(),
            match value {
                Some(v) => {
                    let from = final(self).from@;
                    &&& 0 <= from < old(self)@.len()
                    &&& if old(self).consumer@.len() > 0 {
                        from == old(self).from@
                    } else {
                        forall|k: int| 0 <= k < from ==> (#[trigger] old(self)@[k]).len() == 0
                    }
                    &&& old(self)@[from].len() > 0
                    &&& v == old(self)@[from][0]
                    &&& final(self).consumer@ == if old(self).consumer@.len() > 0 {
                        old(self).consumer@.skip(1)
                    } else {
                        old(self)@[from].skip(1)
                    }
                    &&& final(self)@ == old(self)@.update(from, old(self)@[from].skip(1))
                },
                None => {
                    &&& forall|k: int|
                        0 <= k < old(self)@.len() ==> (#[trigger] old(self)@[k]).len() == 0
                    &&& final(self).consumer@.len() == 0
                    &&& final(self)@ == old(self)@
                },
            },
    {
        proof {
            self.lemma_rest();
        }
        if let Some(value) = self.consumer.pop_front() {
            proof {
                let from = self.from@;
                self.lemma_rest();
                assert(self.lane(from) =~= old(self).lane(from).skip(1));
                assert(self@ =~= old(self)@.update(from, old(self)@[from].skip(1)));
            }
            return Some(value);
        }
        let mut shard: usize = 0;
        while shard < self.producers.len() && self.consumer.len() == 0
            invariant
                shard <= self.producers@.len(),
                self.producers@.len() == old(self).producers@.len(),
                old(self).consumer@.len() == 0,
                old(self).wf(),
                self.wf(),
                old(self).has_room() ==> self.has_room(),
                self.index == old(self).index,
                self@ == old(self)@,
                self.consumer@.len() > 0 ==> self.consumer@ == old(self)@[self.from@],
                self.consumer@.len() == 0 ==> forall|k: int|
                    0 <= k < shard ==> (#[trigger] old(self)@[k]).len() == 0,
                self.consumer@.len() > 0 ==> forall|k: int|
                    0 <= k < self.from@ ==> (#[trigger] old(self)@[k]).len() == 0,
            decreases self.producers@.len() - shard,
        {
            let ghost before = *self;
            proof {
                self.lemma_rest();
            }
            let ghost k = shard as int;
            if self.producers[shard].pending {
                self.producers[shard].pending = false;
                self.producers[shard].deque.lock();
                std::mem::swap(&mut self.consumer, &mut self.producers[shard].deque.value);
                self.from = Ghost(shard as int);
                self.producers[shard].deque.unlock();
                proof {
                    assert forall|j: int| 0 <= j < self.producers@.len() && j != k implies #[trigger] self.producers@[j]
                        == before.producers@[j] by {}
                    assert(self.producers@[k].deque.waiters == before.producers@[k].deque.waiters);
                    self.lemma_rest();
                    assert forall|j: int| 0 <= j < self.producers@.len() implies self.lane(j)
                        =~= before.lane(j) by {}
                    assert(self@ =~= before@);
                }
            }
            proof {
                assert(self@[k] == self.lane(k));
                assert(self.consumer@.len() == 0 ==> self.lane(k) =~= self.deque(k));
                assert(before@[k] =~= before.deque(k));
            }
            shard = shard + 1;
        }
        let ghost before = *self;
        let value = self.consumer.pop_front();
        proof {
            before.lemma_rest();
            self.lemma_rest();
            let from = self.from@;
            if value is Some {
                assert(self.lane(from) =~= before.lane(from).skip(1));
                assert(self@ =~= before@.update(from, before@[from].skip(1)));
            } else {
                assert(self@ =~= before@);
            }
        }
        value
    }
}

// ---- what holds over any sequence of pushes and pops ----

/// What a push, a pop or one access of either does to what the deques hold.
pub ghost enum Change<T> {
    /// A value goes into the deque, as with [`MpscQueue::push`].
    Push { shard: int, value: T },
    /// A value that went through the deque is taken, as with [`MpscQueue::pop`].
    Pop { shard: int, value: T },
    /// Nothing changes.
    Nothing,
}

impl<T> Change<T> {
    /// What the deques hold may change like this: a value is put at the end, and the oldest one
    /// is taken.
    pub open spec fn fits(self, lanes: Seq<Seq<T>>) -> bool {
        match self {
            Change::Push { shard, value } => 0 <= shard < lanes.len(),
            Change::Pop { shard, value } => 0 <= shard < lanes.len() && lanes[shard].len() > 0 && value
                == lanes[shard][0],
            Change::Nothing => true,
        }
    }

    /// What the deques hold after the change.
    pub open spec fn apply(self, lanes: Seq<Seq<T>>) -> Seq<Seq<T>> {
        match self {
            Change::Push { shard, value } => lanes.update(shard, lanes[shard].push(value)),
            Change::Pop { shard, value } => lanes.update(shard, lanes[shard].skip(1)),
            Change::Nothing => lanes,
        }
    }
}

/// What the deques hold after the changes.
pub open spec fn changed<T>(lanes: Seq<Seq<T>>, changes: Seq<Change<T>>) -> Seq<Seq<T>>
    decreases changes.len(),
{
    if changes.len() == 0 {
        lanes
    } else {
        changes.last().apply(changed(lanes, changes.drop_last()))
    }
}

/// Each of the changes is possible when it happens.
pub open spec fn changes_fit<T>(lanes: Seq<Seq<T>>, changes: Seq<Change<T>>) -> bool
    decreases changes.len(),
{
    changes.len() > 0 ==> changes_fit(lanes, changes.drop_last()) && changes.last().fits(
        changed(lanes, changes.drop_last()),
    )
}

/// The values that were put into one deque, in that order.
pub open spec fn pushed<T>(changes: Seq<Change<T>>, shard: int) -> Seq<T>
    decreases changes.len(),
{
    if changes.len() == 0 {
        Seq::empty()
    } else {
        let before = pushed(changes.drop_last(), shard);
        match changes.last() {
            Change::Push { shard: k, value } => if k == shard {
                before.push(value)
            } else {
                before
            },
            _ => before,
        }
    }
}

/// The values that were taken out of one deque, in that order.
pub open spec fn popped<T>(changes: Seq<Change<T>>, shard: int) -> Seq<T>
    decreases changes.len(),
{
    if changes.len() == 0 {
        Seq::empty()
    } else {
        let before = popped(changes.drop_last(), shard);
        match changes.last() {
            Change::Pop { shard: k, value } => if k == shard {
                before.push(value)
            } else {
                before
            },
            _ => before,
        }
    }
}

/// All the values that were put into the queue.
pub open spec fn all_pushed<T>(changes: Seq<Change<T>>) -> Multiset<T>
    decreases changes.len(),
{
    if changes.len() == 0 {
        Multiset::empty()
    } else {
        match changes.last() {
            Change::Push { shard, value } => all_pushed(changes.drop_last()).insert(value),
            _ => all_pushed(changes.drop_last()),
        }
    }
}

/// All the values that were taken out of the queue.
pub open spec fn all_popped<T>(changes: Seq<Change<T>>) -> Multiset<T>
    decreases changes.len(),
{
    if changes.len() == 0 {
        Multiset::empty()
    } else {
        match changes.last() {
            Change::Pop { shard, value } => all_popped(changes.drop_last()).insert(value),
            _ => all_popped(changes.drop_last()),
        }
    }
}

/// All the values that the deques hold.
pub open spec fn stock<T>(lanes: Seq<Seq<T>>) -> Multiset<T>
    decreases lanes.len(),
{
    if lanes.len() == 0 {
        Multiset::empty()
    } else {
        stock(lanes.drop_last()).add(lanes.last().to_multiset())
    }
}

/// The values that go through one deque come out in the order in which they went in, each of them
/// once: what it held and what was put into it since is what was taken out of it, followed by
/// what it still holds.
pub proof fn lemma_lane<T>(lanes: Seq<Seq<T>>, changes: Seq<Change<T>>, shard: int)
    requires
        changes_fit(lanes, changes),
        0 <= shard < lanes.len(),
    ensures
        changed(lanes, changes).len() == lanes.len(),
        lanes[shard] + pushed(changes, shard) == popped(changes, shard) + changed(
            lanes,
            changes,
        )[shard],
    decreases changes.len(),
{
    if changes.len() > 0 {
        let before = changes.drop_last();
        lemma_lane(lanes, before, shard);
        let a = changed(lanes, before)[shard];
        let b = changed(lanes, changes)[shard];
        match changes.last() {
            Change::Push { shard: k, value } => {
                if k == shard {
                    assert(lanes[shard] + pushed(changes, shard) =~= (lanes[shard] + pushed(
                        before,
                        shard,
                    )).push(value));
                    assert(popped(changes, shard) + b =~= (popped(before, shard) + a).push(value));
                }
            },
            Change::Pop { shard: k, value } => {
                if k == shard {
                    assert(popped(changes, shard) + b =~= popped(before, shard) + a);
                }
            },
            Change::Nothing => {},
        }
    } else {
        assert(lanes[shard] + pushed(changes, shard) =~= popped(changes, shard) + lanes[shard]);
    }
}

/// One value more in one deque is one value more in all.
proof fn lemma_stock<T>(lanes: Seq<Seq<T>>, shard: int, lane: Seq<T>, value: T)
    requires
        0 <= shard < lanes.len(),
        lane.to_multiset() == lanes[shard].to_multiset().insert(value),
    ensures
        stock(lanes.update(shard, lane)) == stock(lanes).insert(value),
    decreases lanes.len(),
{
    broadcast use vstd::multiset::group_multiset_axioms;

    let after = lanes.update(shard, lane);
    if shard < lanes.len() - 1 {
        lemma_stock(lanes.drop_last(), shard, lane, value);
        assert(after.drop_last() =~= lanes.drop_last().update(shard, lane));
    } else {
        assert(after.drop_last() =~= lanes.drop_last());
    }
    assert(stock(after) =~= stock(lanes).insert(value));
}

/// Deques without values hold nothing.
proof fn lemma_no_stock<T>(lanes: Seq<Seq<T>>)
    requires
        forall|k: int| 0 <= k < lanes.len() ==> (#[trigger] lanes[k]).len() == 0,
    ensures
        stock(lanes) == Multiset::<T>::empty(),
    decreases lanes.len(),
{
    broadcast use vstd::multiset::group_multiset_axioms;

    if lanes.len() > 0 {
        assert forall|k: int| 0 <= k < lanes.drop_last().len() implies (
        #[trigger] lanes.drop_last()[k]).len() == 0 by {
            assert(lanes[k].len() == 0);
        }
        lemma_no_stock(lanes.drop_last());
        assert(lanes[lanes.len() - 1].len() == 0);
        assert(lanes.last() =~= Seq::empty());
        assert(lanes.last().to_multiset() =~= Multiset::empty()) by {
            broadcast use vstd::seq_lib::group_to_multiset_ensures;

        }
        assert(stock(lanes) =~= Multiset::empty());
    }
}

/// What is popped is what was pushed, in some order: what the deques held and what was pushed
/// since is what was popped together with what they still hold.
pub proof fn lemma_permuted<T>(lanes: Seq<Seq<T>>, changes: Seq<Change<T>>)
    requires
        changes_fit(lanes, changes),
    ensures
        stock(lanes).add(all_pushed(changes)) == all_popped(changes).add(
            stock(changed(lanes, changes)),
        ),
    decreases changes.len(),
{
    broadcast use vstd::multiset::group_multiset_axioms;

    let after = changed(lanes, changes);
    if changes.len() > 0 {
        let before = changes.drop_last();
        lemma_permuted(lanes, before);
        let mid = changed(lanes, before);
        match changes.last() {
            Change::Push { shard, value } => {
                let lane = mid[shard].push(value);
                assert(lane.to_multiset() =~= mid[shard].to_multiset().insert(value)) by {
                    broadcast use vstd::seq_lib::group_to_multiset_ensures;

                }
                lemma_stock(mid, shard, lane, value);
                assert(stock(lanes).add(all_pushed(changes)) =~= stock(lanes).add(
                    all_pushed(before),
                ).insert(value));
                assert(all_popped(changes).add(stock(after)) =~= all_popped(before).add(
                    stock(mid),
                ).insert(value));
            },
            Change::Pop { shard, value } => {
                let lane = mid[shard];
                assert(lane =~= seq![value] + lane.skip(1));
                vstd::seq_lib::lemma_multiset_commutative(seq![value], lane.skip(1));
                assert(lane.to_multiset() =~= lane.skip(1).to_multiset().insert(value)) by {
                    broadcast use vstd::seq_lib::group_to_multiset_ensures;

                    assert(seq![value] =~= Seq::<T>::empty().push(value));
                }
                lemma_stock(after, shard, lane, value);
                assert(after.update(shard, lane) =~= mid);
                assert(all_popped(changes).add(stock(after)) =~= all_popped(before).add(stock(mid)));
            },
            Change::Nothing => {},
        }
    } else {
        assert(stock(lanes).add(all_pushed(changes)) =~= all_popped(changes).add(stock(after)));
    }
}

/// From empty to empty, the values that were popped are those that were pushed, each as often.
pub proof fn lemma_all_popped<T>(lanes: Seq<Seq<T>>, changes: Seq<Change<T>>)
    requires
        changes_fit(lanes, changes),
        forall|k: int| 0 <= k < lanes.len() ==> (#[trigger] lanes[k]).len() == 0,
        forall|k: int|
            0 <= k < changed(lanes, changes).len() ==> (#[trigger] changed(lanes, changes)[k]).len()
                == 0,
    ensures
        all_popped(changes) == all_pushed(changes),
{
    broadcast use vstd::multiset::group_multiset_axioms;

    lemma_permuted(lanes, changes);
    lemma_no_stock(lanes);
    lemma_no_stock(changed(lanes, changes));
    assert(stock(lanes).add(all_pushed(changes)) =~= all_pushed(changes));
    assert(all_popped(changes).add(stock(changed(lanes, changes))) =~= all_popped(changes));
}

} // verus!
