//! A bounded queue for many producers and one consumer that counts its free slots.
//!
//! A semaphore holds the number of free slots. A producer takes one from it, bumps the tail to
//! claim the next slot, and stores its value there. The consumer takes the value and gives the
//! slot back to the semaphore.
use crate::history::Machine;
use crate::pause::{power_of_two, Pause, Platform};
use crate::ring::{
    lemma_count, lemma_counter, wrap, Claim, Ring,
};
use vstd::arithmetic::power2::pow2;
use vstd::prelude::*;

verus! {

/// The queue.
pub struct Queue<T> {
    pub ring: Ring<T>,
    pub semaphore: usize,
    pub tail: usize,
    pub head: usize,
}

/// The part of a push that comes next.
pub enum Stage<T> {
    /// Load the semaphore; `lost` if another thread won the last exchange.
    Load { value: T, lost: bool },
    /// Exchange the semaphore that was seen for one less.
    Exchange { value: T, seen: usize },
    /// Bump the tail.
    Bump { value: T },
    /// Store the value in the slot that was claimed, whose position is `at`.
    Publish { value: T, index: usize, at: Ghost<nat> },
    /// The push is over; the value comes back if there was no free slot.
    Done(Result<(), T>),
}

/// A push that is under way.
pub struct Push<T> {
    pub stage: Stage<T>,
    pub counter: usize,
}

/// The part of a pop that comes next.
pub enum Pop<T> {
    /// Look whether the slot at the head is stored.
    Look,
    /// Take its value, and move the head on.
    Take,
    /// Give the slot back to the semaphore.
    Post(T),
    /// The pop is over.
    Done(Option<T>),
}

impl<T> Push<T> {
    /// A push that has not yet begun.
    pub fn new(value: T) -> (push: Self)
        ensures
            push.stage == (Stage::Load { value, lost: false }),
            push.counter == 0,
    {
        Push { stage: Stage::Load { value, lost: false }, counter: 0 }
    }

    /// How the thread waits before the next access: not at all, unless another thread won the
    /// exchange. Then an x86 machine spins twice as long as the last time, up to 8 spins or, on
    /// Windows, up to 1024; after that, and on other machines, it yields.
    pub fn pause(&mut self, platform: Platform) -> (pause: Pause)
        ensures
            final(self).stage == old(self).stage,
            match old(self).stage {
                Stage::Load { value, lost: true } => if platform.x86 {
                    let n = final(self).counter;
                    &&& n == old(self).counter.wrapping_add(1)
                    &&& pause == if n <= 3 {
                        Pause::Spin(pow2(n as nat) as usize)
                    } else if platform.windows {
                        Pause::Spin(
                            pow2(
                                if n < 10 {
                                    n as nat
                                } else {
                                    10
                                },
                            ) as usize,
                        )
                    } else {
                        Pause::Yield
                    }
                } else {
                    pause == Pause::Yield && final(self).counter == old(self).counter
                },
                _ => pause == Pause::Nothing && final(self).counter == old(self).counter,
            },
    {
        if let Stage::Load { lost: true, .. } = &self.stage {
            if platform.x86 {
                self.counter = self.counter.wrapping_add(1);
                if self.counter <= 3 {
                    return Pause::Spin(power_of_two(self.counter));
                }
                if platform.windows {
                    let exponent: usize = if self.counter < 10 {
                        self.counter
                    } else {
                        10
                    };
                    return Pause::Spin(power_of_two(exponent));
                }
            }
            return Pause::Yield;
        }
        Pause::Nothing
    }
}

impl<T> Stage<T> {
    /// The position that the push has claimed and not yet filled.
    pub open spec fn hold(self) -> Option<Claim<T>> {
        match self {
            Stage::Publish { value, index, at } => Some(Claim { at: at@, value }),
            _ => None,
        }
    }

    /// How many accesses are left at most while no other thread interferes.
    pub open spec fn rank(self) -> nat {
        match self {
            Stage::Load { .. } => 4,
            Stage::Exchange { .. } => 3,
            Stage::Bump { .. } => 2,
            Stage::Publish { .. } => 1,
            Stage::Done(_) => 0,
        }
    }
}

/// What all the pushes that are under way have claimed.
pub open spec fn holds<T>(ops: Map<int, Stage<T>>) -> Map<int, Option<Claim<T>>> {
    ops.map_values(|op: Stage<T>| op.hold())
}

/// The pushes that have taken a free slot from the semaphore and not yet bumped the tail.
pub open spec fn bumps<T>(ops: Map<int, Stage<T>>) -> Set<int> {
    Set::new(|i: int| ops.contains_key(i) && ops[i] is Bump)
}

impl<T> Queue<T> {
    /// The counters are those of the ring, and every slot that is not free is accounted for.
    pub open spec fn counters_ok(self, ops: Map<int, Stage<T>>, pop: Pop<T>) -> bool {
        &&& self.tail == self.ring.log@.len() as int % wrap()
        &&& self.head == self.ring.taken@ as int % self.ring.len()
        &&& bumps(ops).finite()
        &&& self.semaphore + bumps(ops).len() + (self.ring.log@.len() - self.ring.taken@) + (
        if pop is Post {
            1int
        } else {
            0
        }) == self.ring.len()
        &&& pop is Take ==> self.ring.cell(self.ring.taken@ as int).stored
    }

    /// A push stores its value in the slot of the position that it claimed.
    pub open spec fn op_ok(self, op: Stage<T>) -> bool {
        match op {
            Stage::Exchange { value, seen } => seen > 0,
            Stage::Publish { value, index, at } => index == at@ as int % self.ring.len(),
            _ => true,
        }
    }

    /// The invariant of the queue together with the pushes and the pop that are under way.
    pub open spec fn inv(self, ops: Map<int, Stage<T>>, pop: Pop<T>) -> bool {
        if self.ring.len() == 0 {
            &&& self.semaphore == 0
            &&& self.ring.log@.len() == 0
            &&& self.ring.taken@ == 0
            &&& !(pop is Take) && !(pop is Post)
            &&& forall|i: int| #[trigger]
                ops.contains_key(i) ==> !(ops[i] is Exchange) && !(ops[i] is Bump) && !(
                ops[i] is Publish)
        } else {
            &&& self.ring.inv(holds(ops))
            &&& self.counters_ok(ops, pop)
            &&& forall|i: int| #[trigger] ops.contains_key(i) ==> self.op_ok(ops[i])
        }
    }

    /// The invariant while nothing is under way.
    pub open spec fn wf(self) -> bool {
        self.inv(Map::empty(), Pop::Look)
    }

    /// The values in the queue, the oldest first.
    pub open spec fn view(self) -> Seq<T> {
        self.ring.pending()
    }

    /// The number of slots.
    pub open spec fn capacity(self) -> int {
        self.ring.len()
    }

    /// The tail has not run over yet, or the slots divide the number of its values, so that it
    /// finds the slots in turn also when it does.
    pub open spec fn in_turn(self) -> bool {
        self.ring.log@.len() < wrap() || wrap() % self.ring.len() == 0
    }

    /// The next access of the push is to a slot that is there.
    pub open spec fn accepts(self, op: Stage<T>) -> bool {
        match op {
            Stage::Exchange { value, seen } => seen > 0,
            Stage::Bump { .. } => self.ring.len() > 0,
            Stage::Publish { value, index, at } => index < self.ring.len(),
            _ => true,
        }
    }

    /// One access of a push.
    pub open spec fn push_next(self, op: Stage<T>, post: Self, next: Stage<T>) -> bool {
        match op {
            Stage::Load { value, lost } => post == self && next == if self.semaphore == 0 {
                Stage::Done(Err(value))
            } else {
                Stage::Exchange { value, seen: self.semaphore }
            },
            Stage::Exchange { value, seen } => if self.semaphore == seen {
                &&& post == Queue { semaphore: (seen - 1) as usize, ..self }
                &&& next == Stage::Bump { value }
            } else {
                post == self && next == Stage::Load { value, lost: true }
            },
            Stage::Bump { value } => {
                &&& post == Queue {
                    ring: self.ring.claim(value),
                    tail: self.tail.wrapping_add(1),
                    ..self
                }
                &&& next == Stage::Publish {
                    value,
                    index: (self.tail as int % self.ring.len()) as usize,
                    at: Ghost(self.ring.log@.len()),
                }
            },
            Stage::Publish { value, index, at } => {
                &&& self.ring.stored(post.ring, index as int, value)
                &&& post.semaphore == self.semaphore
                &&& post.tail == self.tail
                &&& post.head == self.head
                &&& next == Stage::<T>::Done(Ok(()))
            },
            Stage::Done(_) => post == self && next == op,
        }
    }

    /// One access of a pop.
    pub open spec fn pop_next(self, op: Pop<T>, post: Self, next: Pop<T>) -> bool {
        match op {
            Pop::Look => post == self && next == if self.ring.slots@[self.head as int].stored {
                Pop::<T>::Take
            } else {
                Pop::Done(None)
            },
            Pop::Take => {
                &&& self.ring.took(post.ring, self.head as int)
                &&& post.head == (self.head + 1) % self.ring.len()
                &&& post.tail == self.tail
                &&& post.semaphore == self.semaphore
                &&& next == Pop::Post(self.ring.slots@[self.head as int].value->0)
            },
            Pop::Post(value) => {
                &&& post == Queue { semaphore: (self.semaphore + 1) as usize, ..self }
                &&& next == Pop::Done(Some(value))
            },
            Pop::Done(_) => post == self && next == op,
        }
    }

    /// A queue with `capacity` free slots.
    pub fn new(capacity: usize) -> (queue: Self)
        ensures
            queue.wf(),
            queue.capacity() == capacity,
            queue.ring.slots@.len() == capacity,
            queue.semaphore == capacity,
            queue.head == 0,
            queue.tail == 0,
            queue@ == Seq::<T>::empty(),
            queue.in_turn(),
            queue.ring.log@.len() == 0,
    {
        let queue = Queue { ring: Ring::new(capacity), semaphore: capacity, tail: 0, head: 0 };
        proof {
            let ops = Map::<int, Stage<T>>::empty();
            assert(holds(ops) =~= Map::empty());
            assert(bumps(ops) =~= Set::empty());
            vstd::arithmetic::div_mod::lemma_small_mod(0, wrap() as nat);
            if capacity > 0 {
                vstd::arithmetic::div_mod::lemma_small_mod(0, capacity as nat);
            }
            assert(queue@ =~= Seq::empty());
        }
        queue
    }

    /// Performs one access of a push.
    pub fn push_step(&mut self, op: Push<T>) -> (next: Push<T>)
        requires
            old(self).accepts(op.stage),
        ensures
            old(self).push_next(op.stage, *final(self), next.stage),
            next.counter == op.counter,
    {
        let counter: usize = op.counter;
        let stage = match op.stage {
            Stage::Load { value, lost } => {
                let seen: usize = self.semaphore;
                if seen == 0 {
                    Stage::Done(Err(value))
                } else {
                    Stage::Exchange { value, seen }
                }
            },
            Stage::Exchange { value, seen } => {
                if self.semaphore == seen {
                    self.semaphore = seen - 1;
                    Stage::Bump { value }
                } else {
                    Stage::Load { value, lost: true }
                }
            },
            Stage::Bump { value } => {
                let tail: usize = self.tail;
                let at: Ghost<nat> = Ghost(self.ring.log@.len());
                self.tail = tail.wrapping_add(1);
                self.ring.note_claim(Ghost(value));
                Stage::Publish { value, index: tail % self.ring.slots.len(), at }
            },
            Stage::Publish { value, index, at } => {
                self.ring.store(index, value);
                Stage::Done(Ok(()))
            },
            Stage::Done(result) => Stage::Done(result),
        };
        Push { stage, counter }
    }

    /// Performs one access of a pop.
    pub fn pop_step(&mut self, op: Pop<T>) -> (next: Pop<T>)
        requires
            old(self).head < old(self).capacity(),
            op is Take ==> old(self).ring.slots@[old(self).head as int].value is Some,
            op is Post ==> old(self).semaphore < usize::MAX,
        ensures
            old(self).pop_next(op, *final(self), next),
    {
        match op {
            Pop::Look => if self.ring.is_stored(self.head) {
                Pop::Take
            } else {
                Pop::Done(None)
            },
            Pop::Take => {
                let index: usize = self.head;
                let value = self.ring.take(index);
                let len: usize = self.ring.slots.len();
                self.head = if index + 1 == len {
                    0
                } else {
                    index + 1
                };
                proof {
                    if index + 1 == len {
                        vstd::arithmetic::div_mod::lemma_mod_self_0(len as int);
                    } else {
                        vstd::arithmetic::div_mod::lemma_small_mod((index + 1) as nat, len as nat);
                    }
                }
                Pop::Post(value)
            },
            Pop::Post(value) => {
                self.semaphore = self.semaphore + 1;
                Pop::Done(Some(value))
            },
            Pop::Done(value) => Pop::Done(value),
        }
    }

    /// The access that any push makes next is to a slot that is there.
    pub proof fn lemma_accepts(self, ops: Map<int, Stage<T>>, pop: Pop<T>, i: int)
        requires
            self.inv(ops, pop),
            ops.contains_key(i),
        ensures
            self.accepts(ops[i]),
    {
        if self.ring.len() > 0 {
            assert(self.op_ok(ops[i]));
            if let Stage::Publish { value, index, at } = ops[i] {
                vstd::arithmetic::div_mod::lemma_mod_bound(at@ as int, self.ring.len());
            }
        }
    }

    /// How the count of the pushes before their bump changes with the push `i`.
    proof fn lemma_bumps(ops: Map<int, Stage<T>>, i: int, next: Stage<T>)
        requires
            bumps(ops).finite(),
            ops.contains_key(i),
        ensures
            bumps(ops.insert(i, next)).finite(),
            ops[i] is Bump && !(next is Bump) ==> bumps(ops.insert(i, next)).len() + 1 == bumps(
                ops,
            ).len(),
            !(ops[i] is Bump) && next is Bump ==> bumps(ops.insert(i, next)).len() == bumps(
                ops,
            ).len() + 1,
            ops[i] is Bump == next is Bump ==> bumps(ops.insert(i, next)) == bumps(ops),
    {
        let after = bumps(ops.insert(i, next));
        if ops[i] is Bump && !(next is Bump) {
            assert(after =~= bumps(ops).remove(i));
            assert(bumps(ops).contains(i));
        } else if !(ops[i] is Bump) && next is Bump {
            assert(after =~= bumps(ops).insert(i));
            assert(!bumps(ops).contains(i));
        } else {
            assert(after =~= bumps(ops));
        }
    }

    /// Whatever pushes and pops are under way, one access of any push keeps the invariant. The
    /// access that bumps the tail puts the value of the push at the end of the queue, and no other
    /// access changes the queue. A push fails only at a moment at which every slot is taken: by a
    /// value in the queue, by a push that is about to claim it, or by a pop that is about to give
    /// it back.
    pub proof fn lemma_push(
        self,
        ops: Map<int, Stage<T>>,
        pop: Pop<T>,
        i: int,
        post: Self,
        next: Stage<T>,
    )
        requires
            self.inv(ops, pop),
            ops.contains_key(i),
            ops[i] is Bump ==> self.in_turn(),
            self.push_next(ops[i], post, next),
        ensures
            post.inv(ops.insert(i, next), pop),
            post@ == if ops[i] is Bump {
                self@.push(ops[i]->Bump_value)
            } else {
                self@
            },
            post.capacity() == self.capacity(),
            ops[i] is Load && next is Done ==> self@.len() + (if self.capacity() == 0 {
                0
            } else {
                bumps(ops).len()
            }) + (if pop is Post {
                1int
            } else {
                0
            }) == self.capacity(),
            !(ops[i] is Done) ==> match next {
                Stage::Done(Err(back)) => ops[i] is Load && Self::unsent(ops[i]) == Some(back),
                Stage::Done(Ok(())) => {
                    &&& ops[i].hold() matches Some(c)
                    &&& post.ring.cell(c.at as int).stored
                    &&& post.ring.cell(c.at as int).value == Some(c.value)
                },
                _ => true,
            },
            ops[i] is Load && self@.len() + bumps(ops).len() + (if pop is Post {
                1int
            } else {
                0
            }) < self.capacity() ==> next is Exchange,
            next matches Stage::Load { value, lost } ==> lost && ops[i] is Exchange,
            ops[i] matches Stage::Exchange { value, seen } ==> (if seen == self.semaphore {
                next is Bump
            } else {
                next is Load
            }),
            Self::unsent(next) is Some ==> Self::unsent(next) == Self::unsent(ops[i]),
    {
        let gs = ops.insert(i, next);
        let op = ops[i];
        if self.ring.len() == 0 {
            assert forall|j: int| #[trigger] gs.contains_key(j) implies !(gs[j] is Exchange) && !(
            gs[j] is Bump) && !(gs[j] is Publish) by {
                assert(ops.contains_key(j));
            }
        } else {
            let hs = holds(ops);
            assert(hs.contains_key(i) && hs[i] == op.hold());
            assert(holds(gs) =~= hs.insert(i, next.hold()));
            Self::lemma_bumps(ops, i, next);
            assert(self.op_ok(op));
            self.ring.lemma_len();
            match op {
                Stage::Bump { value } => {
                    assert(bumps(ops).contains(i));
                    assert(bumps(ops).len() > 0);
                    self.ring.lemma_claim(hs, i, value);
                    lemma_count(self.ring.log@.len(), self.tail);
                    lemma_counter(self.ring.log@.len(), self.ring.len());
                    vstd::arithmetic::div_mod::lemma_mod_bound(self.tail as int, self.ring.len());
                    assert(post@ =~= self@.push(value));
                    assert(post.ring.cell(self.ring.taken@ as int) == self.ring.cell(
                        self.ring.taken@ as int,
                    ));
                },
                Stage::Publish { value, index, at } => {
                    self.ring.lemma_store(post.ring, hs, i);
                    vstd::arithmetic::div_mod::lemma_mod_bound(
                        self.ring.taken@ as int,
                        self.ring.len(),
                    );
                },
                _ => {
                    assert(hs.insert(i, next.hold()) =~= hs);
                },
            }
            assert forall|j: int| #[trigger] gs.contains_key(j) implies post.op_ok(gs[j]) by {
                assert(ops.contains_key(j));
                assert(self.op_ok(ops[j]));
            }
        }
    }

    /// How many accesses of the push are left at most while nothing else happens.
    pub open spec fn left(self, op: Stage<T>) -> nat {
        match op {
            Stage::Load { .. } => 4,
            Stage::Exchange { value, seen } => if seen == self.semaphore {
                3
            } else {
                5
            },
            Stage::Bump { .. } => 2,
            Stage::Publish { .. } => 1,
            Stage::Done(_) => 0,
        }
    }

    /// Wherever a push is, and whatever the others have done, each access brings it nearer to its
    /// end: with nothing else in between it is over after at most five.
    pub proof fn lemma_progress(self, op: Stage<T>, post: Self, next: Stage<T>)
        requires
            !(op is Done),
            self.push_next(op, post, next),
        ensures
            post.left(next) < self.left(op) <= 5,
    {
    }

    /// A push may begin at any time.
    pub proof fn lemma_start(self, ops: Map<int, Stage<T>>, pop: Pop<T>, i: int, value: T)
        requires
            self.inv(ops, pop),
            !ops.contains_key(i),
        ensures
            self.inv(ops.insert(i, Stage::Load { value, lost: false }), pop),
    {
        let op = Stage::Load { value, lost: false };
        let gs = ops.insert(i, op);
        assert forall|j: int| #[trigger] gs.contains_key(j) && j != i implies ops.contains_key(j) by {}
        if self.ring.len() > 0 {
            self.ring.lemma_enter(holds(ops), i);
            assert(holds(gs) =~= holds(ops).insert(i, None));
            assert(bumps(gs) =~= bumps(ops));
        }
    }

    /// A push that is over may be forgotten.
    pub proof fn lemma_finish(self, ops: Map<int, Stage<T>>, pop: Pop<T>, i: int)
        requires
            self.inv(ops, pop),
            ops.contains_key(i),
            ops[i] is Done,
        ensures
            self.inv(ops.remove(i), pop),
    {
        let gs = ops.remove(i);
        assert forall|j: int| #[trigger] gs.contains_key(j) implies ops.contains_key(j) by {}
        if self.ring.len() > 0 {
            let hs = holds(ops);
            assert(hs.contains_key(i) && hs[i] is None);
            self.ring.lemma_leave(hs, i);
            assert(holds(gs) =~= hs.remove(i));
            assert(bumps(gs) =~= bumps(ops));
        }
    }

    /// A pop may begin whenever no other is under way.
    pub proof fn lemma_start_pop(self, ops: Map<int, Stage<T>>, pop: Pop<T>)
        requires
            self.inv(ops, pop),
            pop is Done,
        ensures
            self.inv(ops, Pop::Look),
    {
    }

    /// The access that a pop makes next finds what it needs.
    pub proof fn lemma_pop_accepts(self, ops: Map<int, Stage<T>>, pop: Pop<T>)
        requires
            self.inv(ops, pop),
            self.capacity() > 0,
        ensures
            self.head < self.capacity(),
            pop is Take ==> self.ring.slots@[self.head as int].value is Some,
            pop is Post ==> self.semaphore < usize::MAX,
    {
        self.ring.lemma_len();
        vstd::arithmetic::div_mod::lemma_mod_bound(self.ring.taken@ as int, self.ring.len());
    }

    /// Whatever pushes are under way, one access of a pop keeps the invariant, and the value that
    /// it takes is the oldest of the queue.
    pub proof fn lemma_pop(self, ops: Map<int, Stage<T>>, pop: Pop<T>, post: Self, next: Pop<T>)
        requires
            self.inv(ops, pop),
            self.capacity() > 0,
            self.pop_next(pop, post, next),
        ensures
            post.inv(ops, next),
            post.capacity() == self.capacity(),
            match (pop, next) {
                (Pop::Take, Pop::Post(value)) => {
                    &&& self@.len() > 0
                    &&& value == self@[0]
                    &&& post@ == self@.skip(1)
                },
                _ => post@ == self@,
            },
            pop is Look ==> next is Take || next == Pop::<T>::Done(None),
            pop is Look ==> (next is Take <==> self.ring.cell(self.ring.taken@ as int).stored),
            pop is Take ==> next is Post,
            pop matches Pop::Post(value) ==> next == Pop::Done(Some(value)),
            pop is Done ==> next == pop,
    {
        let hs = holds(ops);
        let taken = self.ring.taken@ as int;
        self.lemma_pop_accepts(ops, pop);
        vstd::arithmetic::div_mod::lemma_mod_bound(taken, self.ring.len());
        match pop {
            Pop::Take => {
                self.ring.lemma_take(post.ring, hs);
                vstd::arithmetic::div_mod::lemma_add_mod_noop(taken, 1, self.ring.len());
                vstd::arithmetic::div_mod::lemma_add_mod_noop(
                    self.head as int,
                    1,
                    self.ring.len(),
                );
                vstd::arithmetic::div_mod::lemma_small_mod(
                    self.head as nat,
                    self.ring.len() as nat,
                );
            },
            _ => {},
        }
        assert forall|j: int| #[trigger] ops.contains_key(j) implies post.op_ok(ops[j]) by {
            assert(self.op_ok(ops[j]));
        }
    }

    /// Puts `value` at the end of the queue if a slot is free.
    pub fn push(&mut self, value: T) -> (pushed: Result<(), T>)
        requires
            old(self).wf(),
            old(self).in_turn(),
        ensures
            final(self).wf(),
            final(self).capacity() == old(self).capacity(),
            match pushed {
                Ok(()) => {
                    &&& old(self)@.len() < old(self).capacity()
                    &&& final(self)@ == old(self)@.push(value)
                    &&& final(self).ring.log@.len() == old(self).ring.log@.len() + 1
                },
                Err(v) => {
                    &&& old(self)@.len() == old(self).capacity()
                    &&& v == value
                    &&& *final(self) == *old(self)
                },
            },
    {
        let mut op = Push::new(value);
        let ghost ops = Map::<int, Stage<T>>::empty();
        proof {
            self.lemma_start(ops, Pop::Look, 0, value);
            assert(bumps(ops) =~= Set::empty());
        }
        loop
            invariant
                old(self).wf(),
                old(self).in_turn(),
                self.inv(ops.insert(0, op.stage), Pop::Look),
                self.capacity() == old(self).capacity(),
                ops == Map::<int, Stage<T>>::empty(),
                op.stage.rank() >= 2 ==> self.ring == old(self).ring,
                bumps(ops) == Set::<int>::empty(),
                match op.stage {
                    Stage::Load { value: v, lost } => v == value && *self == *old(self),
                    Stage::Exchange { value: v, seen } => v == value && self.semaphore == seen
                        && old(self)@.len() < old(self).capacity(),
                    Stage::Bump { value: v } => v == value && old(self)@.len() < old(
                        self,
                    ).capacity(),
                    Stage::Done(Err(v)) => v == value && *self == *old(self) && old(self)@.len()
                        == old(self).capacity(),
                    _ => old(self)@.len() < old(self).capacity() && self@ == old(self)@.push(value)
                        && self.ring.log@.len() == old(self).ring.log@.len() + 1,
                },
            decreases op.stage.rank(),
        {
            let ghost pre = *self;
            let ghost before = op.stage;
            proof {
                assert(ops.insert(0, before)[0] == before);
                pre.lemma_accepts(ops.insert(0, before), Pop::Look, 0);
            }
            if let Stage::Done(result) = op.stage {
                proof {
                    self.lemma_finish(ops.insert(0, before), Pop::Look, 0);
                    assert(ops.insert(0, before).remove(0) =~= ops);
                }
                return result;
            }
            op = self.push_step(op);
            proof {
                pre.lemma_push(ops.insert(0, before), Pop::Look, 0, *self, op.stage);
                assert(ops.insert(0, before).insert(0, op.stage) =~= ops.insert(0, op.stage));
                if !(before is Bump) {
                    assert(bumps(ops.insert(0, before)) =~= Set::<int>::empty());
                }
            }
        }
    }

    /// Takes the oldest value out of the queue.
    pub fn pop(&mut self) -> (value: Option<T>)
        requires
            old(self).wf(),
            old(self).capacity() > 0,
        ensures
            final(self).wf(),
            final(self).capacity() == old(self).capacity(),
            final(self).ring.log == old(self).ring.log,
            match value {
                Some(v) => {
                    &&& old(self)@.len() > 0
                    &&& v == old(self)@[0]
                    &&& final(self)@ == old(self)@.skip(1)
                },
                None => old(self)@.len() == 0 && *final(self) == *old(self),
            },
    {
        let ghost ops = Map::<int, Stage<T>>::empty();
        proof {
            assert(holds(ops) =~= Map::empty());
            self.lemma_pop_accepts(ops, Pop::Look);
        }
        let ghost q0 = *self;
        let op = self.pop_step(Pop::Look);
        proof {
            q0.lemma_pop(ops, Pop::Look, *self, op);
        }
        if let Pop::Done(value) = op {
            proof {
                if q0@.len() > 0 {
                    assert(Ring::<T>::claimed(holds(ops), q0.ring.taken@ as int));
                    let j = choose|j: int| #[trigger] holds(ops).contains_key(j);
                    assert(false);
                }
            }
            return value;
        }
        proof {
            self.lemma_pop_accepts(ops, op);
        }
        let ghost q1 = *self;
        let op = self.pop_step(op);
        proof {
            q1.lemma_pop(ops, Pop::Take, *self, op);
            self.lemma_pop_accepts(ops, op);
        }
        let ghost q2 = *self;
        let ghost before = op;
        let op = self.pop_step(op);
        proof {
            q2.lemma_pop(ops, before, *self, op);
        }
        match op {
            Pop::Done(value) => value,
            _ => {
                assert(false);
                None
            },
        }
    }
}

/// Every run of pushes and pops, whatever way their accesses follow each other. Left
/// out is a bump that comes after the counter has run over: see [`Queue::in_turn`].
impl<T> Machine for Queue<T> {
    type Item = T;

    type Send = Stage<T>;

    type Recv = Pop<T>;

    open spec fn fits(self, sends: Map<int, Stage<T>>, recv: Pop<T>) -> bool {
        self.inv(sends, recv) && self.capacity() > 0
    }

    open spec fn held(self) -> Seq<T> {
        self@
    }

    open spec fn unsent(send: Stage<T>) -> Option<T> {
        match send {
            Stage::Load { value, .. } => Some(value),
            Stage::Exchange { value, .. } => Some(value),
            Stage::Bump { value, .. } => Some(value),
            Stage::Done(Err(value)) => Some(value),
            _ => None,
        }
    }

    open spec fn sent(send: Stage<T>) -> bool {
        send is Done
    }

    open spec fn owes(send: Stage<T>) -> bool {
        Self::unsent(send) is None && !Self::sent(send)
    }

    open spec fn awaited(sends: Map<int, Stage<T>>) -> bool {
        exists|i: int| #[trigger] sends.contains_key(i) && Self::owes(sends[i])
    }

    open spec fn got(recv: Pop<T>) -> Option<T> {
        match recv {
            Pop::Post(value) => Some(value),
            Pop::Done(value) => value,
            _ => None,
        }
    }

    open spec fn missed(recv: Pop<T>) -> bool {
        recv matches Pop::Done(value) && value is None
    }

    open spec fn starts(self, sends: Map<int, Stage<T>>, sender: int, send: Stage<T>) -> bool {
        send matches Stage::Load { value, lost } && !lost
    }

    open spec fn sends_on(
        self,
        sends: Map<int, Stage<T>>,
        sender: int,
        post: Self,
        next: Stage<T>,
    ) -> bool {
        &&& sends[sender] is Bump ==> self.in_turn()
        &&& self.push_next(sends[sender], post, next)
    }

    open spec fn renews(recv: Pop<T>, next: Pop<T>) -> bool {
        recv is Done && next is Look
    }

    open spec fn recvs_on(
        self,
        sends: Map<int, Stage<T>>,
        recv: Pop<T>,
        post: Self,
        next: Pop<T>,
    ) -> bool {
        self.pop_next(recv, post, next)
    }

    proof fn lemma_starts(
        self,
        sends: Map<int, Stage<T>>,
        recv: Pop<T>,
        sender: int,
        send: Stage<T>,
    ) {
        self.lemma_start(sends, recv, sender, send->Load_value);
    }

    proof fn lemma_sends_on(
        self,
        sends: Map<int, Stage<T>>,
        recv: Pop<T>,
        sender: int,
        post: Self,
        next: Stage<T>,
    ) {
        self.lemma_push(sends, recv, sender, post, next);
    }

    proof fn lemma_sent(self, sends: Map<int, Stage<T>>, recv: Pop<T>, sender: int) {
        self.lemma_finish(sends, recv, sender);
    }

    proof fn lemma_renews(self, sends: Map<int, Stage<T>>, recv: Pop<T>, next: Pop<T>) {
        self.lemma_start_pop(sends, recv);
    }

    proof fn lemma_recvs_on(
        self,
        sends: Map<int, Stage<T>>,
        recv: Pop<T>,
        post: Self,
        next: Pop<T>,
    ) {
        self.lemma_pop(sends, recv, post, next);
        if Self::missed(next) && !Self::missed(recv) {
            if self@.len() > 0 {
                self.lemma_pop_accepts(sends, recv);
                assert(Ring::<T>::claimed(holds(sends), self.ring.taken@ as int));
                let j = choose|j: int| #[trigger]
                    holds(sends).contains_key(j) && holds(sends)[j] is Some;
                assert(sends.contains_key(j) && Self::owes(sends[j]));
            }
        }
    }
}

} // verus!
