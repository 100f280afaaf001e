//! A bounded queue for many producers and one consumer whose slots count.
//!
//! Position `p` of the queue lies in slot `p` modulo the number of slots. The number in a slot
//! says for which position it is ready: `p` if it is free for position `p`, and `p + 1` if it
//! holds the value of position `p`. With a single slot the two cannot be told apart; see
//! [`Queue::push`].
use crate::history::Machine;
use crate::pause::{power_of_two, Pause, Platform};
use crate::ring::{lemma_apart, lemma_count, lemma_counter, lemma_same_counter, wrap, Claim};
use std::mem::ManuallyDrop;
use vstd::arithmetic::div_mod::{lemma_mod_add_multiples_vanish, lemma_mod_bound, lemma_small_mod};
use vstd::arithmetic::power2::pow2;
use vstd::prelude::*;

verus! {

/// How long a producer waits after it lost a slot.
pub struct Backoff(pub usize);

impl Backoff {
    /// A producer that has not waited yet.
    pub fn new() -> (backoff: Self)
        ensures
            backoff.0 == 0,
    {
        Backoff(0)
    }

    /// Spins twice as long as the last time, up to 64 spins or, on Windows, without that limit;
    /// after that it yields.
    pub fn yield_now(&mut self, platform: Platform) -> (pause: Pause)
        requires
            platform.windows ==> old(self).0 <= 31,
        ensures
            pause == if !platform.windows && old(self).0 > 6 {
                Pause::Yield
            } else if old(self).0 <= 30 {
                Pause::Spin(pow2(old(self).0 as nat) as usize)
            } else {
                Pause::Spin(0)
            },
            final(self).0 == if !platform.windows && old(self).0 > 6 {
                old(self).0 as int
            } else {
                old(self).0 + 1
            },
    {
        if platform.windows || self.0 <= 6 {
            let spins: usize = if self.0 <= 30 {
                power_of_two(self.0)
            } else {
                0
            };
            self.0 = self.0 + 1;
            return Pause::Spin(spins);
        }
        Pause::Yield
    }
}

/// A slot and the position that it is ready for.
pub struct Slot<T> {
    pub seq: usize,
    pub value: Option<T>,
}

/// The queue.
pub struct Queue<T> {
    pub head: usize,
    pub tail: usize,
    pub slots: Vec<Slot<T>>,
    /// Every value ever claimed, in the order of the claims.
    pub log: Ghost<Seq<T>>,
    /// How many values the consumer has taken.
    pub taken: Ghost<nat>,
}

/// The part of a push that comes next. `at` is the position that the tail stood at when it was
/// seen.
pub enum Stage<T> {
    /// Load the tail; `lost` if the slot was taken by another push.
    LoadTail { value: T, lost: bool },
    /// Load the number of the slot; `lost` if another push won the exchange.
    LoadSeq { value: T, seen: usize, at: Ghost<nat>, lost: bool },
    /// Exchange the tail that was seen for the next one.
    Exchange { value: T, seen: usize, at: Ghost<nat> },
    /// Store the value in the slot, and count it up.
    Publish { value: T, seen: usize, at: Ghost<nat> },
    /// The push is over; the value comes back if the queue was full.
    Done(Result<(), T>),
}

/// The part of a pop that comes next.
pub enum Pop<T> {
    /// Look whether the slot at the head holds its value.
    Look,
    /// Take the value, and make the slot ready for its next position.
    Take,
    /// The pop is over.
    Done(Option<T>),
}

/// A push that is under way.
pub struct Push<T> {
    pub stage: Stage<T>,
    pub backoff: Backoff,
}

impl<T> Push<T> {
    /// A push that has not yet begun.
    pub fn new(value: T) -> (push: Self)
        ensures
            push.stage == (Stage::LoadTail { value, lost: false }),
            push.backoff.0 == 0,
    {
        Push { stage: Stage::LoadTail { value, lost: false }, backoff: Backoff::new() }
    }

    /// How the thread waits before the next access: not at all, unless another push was faster.
    pub fn pause(&mut self, platform: Platform) -> (pause: Pause)
        requires
            platform.windows ==> old(self).backoff.0 <= 31,
        ensures
            final(self).stage == old(self).stage,
            if old(self).stage.lost() {
                &&& pause == if !platform.windows && old(self).backoff.0 > 6 {
                    Pause::Yield
                } else if old(self).backoff.0 <= 30 {
                    Pause::Spin(pow2(old(self).backoff.0 as nat) as usize)
                } else {
                    Pause::Spin(0)
                }
                &&& final(self).backoff.0 == if !platform.windows && old(self).backoff.0 > 6 {
                    old(self).backoff.0 as int
                } else {
                    old(self).backoff.0 + 1
                }
            } else {
                pause == Pause::Nothing && final(self).backoff == old(self).backoff
            },
    {
        let lost: bool = match &self.stage {
            Stage::LoadTail { lost, .. } => *lost,
            Stage::LoadSeq { lost, .. } => *lost,
            _ => false,
        };
        if lost {
            return self.backoff.yield_now(platform);
        }
        Pause::Nothing
    }
}

impl<T> Stage<T> {
    /// Another push was faster.
    pub open spec fn lost(self) -> bool {
        match self {
            Stage::LoadTail { value, lost } => lost,
            Stage::LoadSeq { value, seen, at, lost } => lost,
            _ => false,
        }
    }

    /// The position that the push has claimed and not yet filled.
    pub open spec fn hold(self) -> Option<Claim<T>> {
        match self {
            Stage::Publish { value, seen, at } => Some(Claim { at: at@, value }),
            _ => None,
        }
    }
}

/// The difference of two counters.
proof fn lemma_difference(p: nat, q: nat, x: usize, y: usize)
    requires
        x == p as int % wrap(),
        y == q as int % wrap(),
    ensures
        x.wrapping_sub(y) == (p - q) % wrap(),
        0 <= p - q < wrap() ==> x.wrapping_sub(y) == p - q,
        -wrap() <= p - q < 0 ==> x.wrapping_sub(y) == p - q + wrap(),
{
    vstd::arithmetic::div_mod::lemma_sub_mod_noop(p as int, q as int, wrap());
    let d = x - y;
    if d >= 0 {
        lemma_small_mod(d as nat, wrap() as nat);
    } else {
        lemma_mod_add_multiples_vanish(d, wrap());
        lemma_small_mod((d + wrap()) as nat, wrap() as nat);
    }
    if 0 <= p - q < wrap() {
        lemma_small_mod((p - q) as nat, wrap() as nat);
    }
    if -wrap() <= p - q < 0 {
        lemma_mod_add_multiples_vanish(p - q, wrap());
        lemma_small_mod((p - q + wrap()) as nat, wrap() as nat);
    }
}

/// The number in the slot is behind the tail.
pub open spec fn behind(seq: usize, tail: usize) -> bool {
    seq.wrapping_sub(tail) > isize::MAX
}

impl<T> Queue<T> {
    /// The number of slots.
    pub open spec fn capacity(self) -> int {
        self.slots@.len() as int
    }

    /// The slot of position `p`.
    pub open spec fn cell(self, p: int) -> Slot<T> {
        self.slots@[p % self.capacity()]
    }

    /// The slot of position `p` is free for it.
    pub open spec fn free(self, p: int) -> bool {
        self.cell(p).seq == p % wrap()
    }

    /// The slot of position `p` holds its value.
    pub open spec fn stored(self, p: int) -> bool {
        self.cell(p).seq == (p + 1) % wrap()
    }

    /// The positions whose slots can be told apart from now.
    pub open spec fn open(self, p: int) -> bool {
        self.taken@ <= p < self.taken@ + self.capacity()
    }

    /// The slot of the position that a push has claimed is free for it.
    pub open spec fn claim_ok(self, c: Claim<T>) -> bool {
        &&& self.taken@ <= c.at < self.log@.len()
        &&& self.log@[c.at as int] == c.value
        &&& self.free(c.at as int)
    }

    /// The tail that was seen stood at a position. If it still does, a slot is free there.
    pub open spec fn op_ok(self, op: Stage<T>) -> bool {
        match op {
            Stage::LoadSeq { value, seen, at, lost } => at@ <= self.log@.len() && seen == at@ as int
                % wrap(),
            Stage::Exchange { value, seen, at } => {
                &&& at@ <= self.log@.len()
                &&& seen == at@ as int % wrap()
                &&& at@ == self.log@.len() ==> self.log@.len() < self.taken@ + self.capacity()
            },
            Stage::Publish { value, seen, at } => {
                &&& seen == at@ as int % wrap()
                &&& (seen as int) % self.capacity() == at@ as int % self.capacity()
                &&& self.claim_ok(Claim { at: at@, value })
            },
            _ => true,
        }
    }

    /// Some push has claimed the position.
    pub open spec fn claimed(ops: Map<int, Stage<T>>, p: int) -> bool {
        exists|i: int| #[trigger]
            ops.contains_key(i) && ops[i].hold() is Some && ops[i].hold()->0.at == p
    }

    /// The invariant of a queue of two or more slots together with the pushes that are under way.
    pub open spec fn inv(self, ops: Map<int, Stage<T>>) -> bool {
        &&& 2 <= self.capacity() <= isize::MAX
        &&& self.taken@ <= self.log@.len() <= self.taken@ + self.capacity()
        &&& self.tail == self.log@.len() as int % wrap()
        &&& self.head == self.taken@ as int % wrap()
        &&& forall|p: int| #[trigger]
            self.open(p) ==> self.free(p) || (self.stored(p) && p < self.log@.len() && self.cell(
                p,
            ).value == Some(self.log@[p]))
        &&& forall|p: int| #[trigger]
            self.open(p) && p < self.log@.len() && self.free(p) ==> Self::claimed(ops, p)
        &&& forall|i: int| #[trigger] ops.contains_key(i) ==> self.op_ok(ops[i])
        &&& forall|i: int, j: int| #[trigger]
            ops.contains_key(i) && #[trigger] ops.contains_key(j) && i != j && ops[i].hold() is Some
                && ops[j].hold() is Some ==> ops[i].hold()->0.at != ops[j].hold()->0.at
    }

    /// What holds of a single slot between pushes: it counts the pushes, so that it is never found
    /// full, and the consumer finds a value only if there was just one push since the last pop.
    pub open spec fn single(self) -> bool {
        &&& self.capacity() == 1
        &&& self.slots@[0].seq == self.tail
        &&& self.tail == self.head.wrapping_add(1) ==> self.slots@[0].value is Some
    }

    /// The invariant while no push is under way.
    pub open spec fn wf(self) -> bool {
        self.single() || self.inv(Map::empty())
    }

    /// The values in the queue, the oldest first.
    pub open spec fn view(self) -> Seq<T> {
        if self.capacity() == 1 {
            if self.tail == self.head.wrapping_add(1) {
                seq![self.slots@[0].value->0]
            } else {
                Seq::empty()
            }
        } else {
            self.log@.skip(self.taken@ as int)
        }
    }

    /// The tail has not run over yet, or the slots divide the number of its values, so that it
    /// finds the slots in turn also when it does.
    pub open spec fn in_turn(self) -> bool {
        self.log@.len() < wrap() || wrap() % self.capacity() == 0
    }

    /// One access of a push.
    pub open spec fn push_next(self, op: Stage<T>, post: Self, next: Stage<T>) -> bool {
        match op {
            Stage::LoadTail { value, lost } => post == self && next == Stage::LoadSeq {
                value,
                seen: self.tail,
                at: Ghost(self.log@.len()),
                lost: false,
            },
            Stage::LoadSeq { value, seen, at, lost } => {
                let seq = self.slots@[seen as int % self.capacity()].seq;
                &&& post == self
                &&& next == if behind(seq, seen) {
                    Stage::Done(Err(value))
                } else if seq == seen {
                    Stage::Exchange { value, seen, at }
                } else {
                    Stage::LoadTail { value, lost: true }
                }
            },
            Stage::Exchange { value, seen, at } => if self.tail == seen {
                &&& post == Queue {
                    tail: seen.wrapping_add(1),
                    log: Ghost(self.log@.push(value)),
                    ..self
                }
                &&& next == Stage::Publish { value, seen, at: Ghost(self.log@.len()) }
            } else {
                &&& post == self
                &&& next == Stage::LoadSeq {
                    value,
                    seen: self.tail,
                    at: Ghost(self.log@.len()),
                    lost: true,
                }
            },
            Stage::Publish { value, seen, at } => {
                &&& post.slots@ == self.slots@.update(
                    seen as int % self.capacity(),
                    Slot { seq: seen.wrapping_add(1), value: Some(value) },
                )
                &&& post.head == self.head
                &&& post.tail == self.tail
                &&& post.log == self.log
                &&& post.taken == self.taken
                &&& next == Stage::<T>::Done(Ok(()))
            },
            Stage::Done(_) => post == self && next == op,
        }
    }

    /// One access of a pop.
    pub open spec fn pop_next(self, op: Pop<T>, post: Self, next: Pop<T>) -> bool {
        let index = self.head as int % self.capacity();
        match op {
            Pop::Look => post == self && next == if self.slots@[index].seq
                == self.head.wrapping_add(1) {
                Pop::<T>::Take
            } else {
                Pop::Done(None)
            },
            Pop::Take => {
                &&& post.slots@ == self.slots@.update(
                    index,
                    Slot { seq: self.head.wrapping_add(self.slots@.len() as usize), value: None },
                )
                &&& post.head == self.head.wrapping_add(1)
                &&& post.tail == self.tail
                &&& post.log == self.log
                &&& post.taken@ == self.taken@ + 1
                &&& next == Pop::Done(Some(self.slots@[index].value->0))
            },
            Pop::Done(_) => post == self && next == op,
        }
    }

    /// A queue of `capacity` free slots.
    pub fn new(capacity: usize) -> (queue: Self)
        requires
            capacity <= isize::MAX,
        ensures
            queue.capacity() == capacity,
            queue.slots@.len() == capacity,
            0 < capacity ==> queue.wf() && queue.in_turn(),
            queue@ == Seq::<T>::empty(),
            queue.head == 0,
            queue.tail == 0,
    {
        let mut slots: Vec<Slot<T>> = Vec::with_capacity(capacity);
        let mut i: usize = 0;
        while i < capacity
            invariant
                i <= capacity,
                slots@.len() == i,
                forall|s: int|
                    0 <= s < i ==> (#[trigger] slots@[s]).seq == s && slots@[s].value is None,
            decreases capacity - i,
        {
            slots.push(Slot { seq: i, value: None });
            i = i + 1;
        }
        let queue = Queue {
            head: 0,
            tail: 0,
            slots,
            log: Ghost(Seq::empty()),
            taken: Ghost(0nat),
        };
        proof {
            assert(queue@ =~= Seq::empty());
            lemma_small_mod(0, wrap() as nat);
            assert forall|p: int| #[trigger] queue.open(p) implies queue.free(p) by {
                lemma_small_mod(p as nat, capacity as nat);
                lemma_small_mod(p as nat, wrap() as nat);
            }
        }
        queue
    }

    /// Performs one access of a push.
    pub fn push_step(&mut self, op: Push<T>) -> (next: Push<T>)
        requires
            0 < old(self).capacity(),
        ensures
            old(self).push_next(op.stage, *final(self), next.stage),
            next.backoff == op.backoff,
    {
        let Push { stage, backoff } = op;
        let stage = match stage {
            Stage::LoadTail { value, lost } => {
                let at: Ghost<nat> = Ghost(self.log@.len());
                Stage::LoadSeq { value, seen: self.tail, at, lost: false }
            },
            Stage::LoadSeq { value, seen, at, lost } => {
                let seq: usize = self.slots[seen % self.slots.len()].seq;
                if seq.wrapping_sub(seen) > isize::MAX as usize {
                    Stage::Done(Err(value))
                } else if seq == seen {
                    Stage::Exchange { value, seen, at }
                } else {
                    Stage::LoadTail { value, lost: true }
                }
            },
            Stage::Exchange { value, seen, at } => {
                let at: Ghost<nat> = Ghost(self.log@.len());
                if self.tail == seen {
                    self.tail = seen.wrapping_add(1);
                    self.log = Ghost(self.log@.push(value));
                    Stage::Publish { value, seen, at }
                } else {
                    Stage::LoadSeq { value, seen: self.tail, at, lost: true }
                }
            },
            Stage::Publish { value, seen, at } => {
                let index: usize = seen % self.slots.len();
                let mut slot = Slot { seq: seen.wrapping_add(1), value: Some(value) };
                // A value that lay in the slot is overwritten without being dropped.
                self.slots.set_and_swap(index, &mut slot);
                let _kept = ManuallyDrop::new(slot);
                Stage::Done(Ok(()))
            },
            Stage::Done(result) => Stage::Done(result),
        };
        Push { stage, backoff }
    }

    /// Performs one access of a pop.
    pub fn pop_step(&mut self, op: Pop<T>) -> (next: Pop<T>)
        requires
            0 < old(self).capacity(),
            op is Take ==> old(self).slots@[old(self).head as int % old(self).capacity()].value is Some,
        ensures
            old(self).pop_next(op, *final(self), next),
    {
        let index: usize = self.head % self.slots.len();
        match op {
            Pop::Look => if self.slots[index].seq == self.head.wrapping_add(1) {
                Pop::Take
            } else {
                Pop::Done(None)
            },
            Pop::Take => {
                let seq: usize = self.head.wrapping_add(self.slots.len());
                let value = self.slots[index].value.take();
                self.slots.set(index, Slot { seq, value: None });
                self.head = self.head.wrapping_add(1);
                self.taken = Ghost((self.taken@ + 1) as nat);
                assert(self.slots@ =~= old(self).slots@.update(
                    index as int,
                    Slot { seq, value: None },
                ));
                Pop::Done(value)
            },
            Pop::Done(value) => Pop::Done(value),
        }
    }

    /// What a push finds in the slot of a position that the tail stood at.
    proof fn lemma_look(self, ops: Map<int, Stage<T>>, at: nat, seen: usize)
        requires
            self.inv(ops),
            self.in_turn(),
            at <= self.log@.len(),
            seen == at as int % wrap(),
        ensures
            ({
                let seq = self.slots@[seen as int % self.capacity()].seq;
                let end = self.taken@ + self.capacity();
                &&& at == self.log@.len() && at < end ==> seq == seen && !behind(seq, seen)
                &&& at == end ==> behind(seq, seen) && seq != seen
                &&& behind(seq, seen) ==> at == end || (at < self.taken@ && self.log@.len()
                    + self.capacity() - at > isize::MAX)
            }),
    {
        let len = self.capacity();
        let end = self.taken@ + len;
        lemma_counter(at, len);
        let seq = self.cell(at as int).seq;
        let q = if at == end {
            self.taken@ as int
        } else {
            self.taken@ + (at - self.taken@) % len
        };
        lemma_mod_bound(at - self.taken@, len);
        assert(q % len == at as int % len) by {
            if at == end {
                lemma_mod_add_multiples_vanish(self.taken@ as int, len);
            } else {
                vstd::arithmetic::div_mod::lemma_add_mod_noop_right(
                    self.taken@ as int,
                    at - self.taken@,
                    len,
                );
            }
        }
        assert(self.open(q));
        assert(self.cell(q) == self.cell(at as int));
        let n = if self.free(q) {
            q as nat
        } else {
            (q + 1) as nat
        };
        lemma_difference(n, at, seq, seen);
        if self.taken@ <= at < end {
            lemma_small_mod((at - self.taken@) as nat, len as nat);
        }
    }

    /// Positions that are open lie in different slots.
    proof fn lemma_cells(self, at: int, p: int)
        requires
            0 < self.capacity(),
            self.open(at),
            self.open(p),
            p != at,
        ensures
            p % self.capacity() != at % self.capacity(),
            0 <= p % self.capacity() < self.capacity(),
            0 <= at % self.capacity() < self.capacity(),
    {
        lemma_mod_bound(p, self.capacity());
        lemma_mod_bound(at, self.capacity());
        if p < at {
            lemma_apart(p, at, self.capacity());
        } else {
            lemma_apart(at, p, self.capacity());
        }
    }

    /// When the stage of push `i` changes, the claims of the others stay.
    proof fn lemma_claims(ops: Map<int, Stage<T>>, i: int, next: Stage<T>)
        requires
            ops.contains_key(i),
        ensures
            forall|p: int| #[trigger]
                Self::claimed(ops, p) && !(ops[i].hold() is Some && ops[i].hold()->0.at == p)
                    ==> Self::claimed(ops.insert(i, next), p),
            next.hold() is Some ==> Self::claimed(ops.insert(i, next), next.hold()->0.at as int),
    {
        let gs = ops.insert(i, next);
        assert(gs.contains_key(i));
        assert forall|p: int| #[trigger]
            Self::claimed(ops, p) && !(ops[i].hold() is Some && ops[i].hold()->0.at
                == p) implies Self::claimed(gs, p) by {
            let j = choose|j: int| #[trigger]
                ops.contains_key(j) && ops[j].hold() is Some && ops[j].hold()->0.at == p;
            assert(gs.contains_key(j));
        }
    }

    /// Whatever pushes are under way, one access of any of them keeps the invariant, as long as
    /// the tail does not run through all its values between the load and the exchange of one push.
    /// The access that wins the exchange puts the value of the push at the end of the queue, and
    /// no other access changes the queue. A push fails only at a moment at which the queue is
    /// full, unless the others got half of all counts ahead of it since it loaded the tail.
    pub proof fn lemma_push(self, ops: Map<int, Stage<T>>, i: int, post: Self, next: Stage<T>)
        requires
            self.inv(ops),
            ops.contains_key(i),
            ops[i] is LoadSeq || ops[i] is Exchange ==> self.in_turn(),
            ops[i] is Exchange ==> self.log@.len() - ops[i]->Exchange_at@ < wrap(),
            self.push_next(ops[i], post, next),
        ensures
            post.inv(ops.insert(i, next)),
            post.capacity() == self.capacity(),
            post@ == if ops[i] is Exchange && ops[i]->Exchange_seen == self.tail {
                self@.push(ops[i]->Exchange_value)
            } else {
                self@
            },
            ops[i] is LoadSeq && next is Done ==> self@.len() == self.capacity() || self.log@.len()
                + self.capacity() - ops[i]->LoadSeq_at@ > isize::MAX,
            self.stored(self.taken@ as int) ==> post.stored(post.taken@ as int),
            post.taken == self.taken,
            !(ops[i] is Done) ==> match next {
                Stage::Done(Err(back)) => {
                    &&& Self::unsent(ops[i]) == Some(back)
                    &&& self@.len() == self.capacity() || (ops[i] matches Stage::LoadSeq {
                        value,
                        seen,
                        at,
                        lost,
                    } && self.log@.len() + self.capacity() - at@ > isize::MAX)
                },
                Stage::Done(Ok(())) => {
                    &&& ops[i].hold() matches Some(c)
                    &&& post.stored(c.at as int)
                    &&& post.cell(c.at as int).value == Some(c.value)
                },
                _ => true,
            },
            next.lost() ==> ops[i] is LoadSeq || ops[i] is Exchange,
            ops[i] is Exchange ==> (next.lost() <==> ops[i]->Exchange_seen != self.tail),
            ops[i] is LoadSeq ==> (next.lost() <==> next is LoadTail),
            next is LoadSeq ==> next->LoadSeq_seen == self.tail && next->LoadSeq_at@ == self.log@.len(),
            next is LoadTail ==> ops[i] is LoadSeq,
            Self::unsent(next) is Some ==> Self::unsent(next) == Self::unsent(ops[i]),
    {
        let gs = ops.insert(i, next);
        let op = ops[i];
        assert(self.op_ok(op));
        Self::lemma_claims(ops, i, next);
        let len = self.capacity();
        let taken = self.taken@ as int;
        match op {
            Stage::LoadTail { .. } => {},
            Stage::LoadSeq { value, seen, at, lost } => {
                self.lemma_look(ops, at@, seen);
            },
            Stage::Exchange { value, seen, at } => {
                if self.tail == seen {
                    lemma_same_counter(at@, self.log@.len());
                    lemma_count(self.log@.len(), self.tail);
                    lemma_counter(at@, len);
                    assert(post@ =~= self@.push(value));
                    assert forall|p: int| #[trigger] post.cell(p) == self.cell(p) by {}
                    let n = self.log@.len() as int;
                    assert(self.open(n));
                    assert(self.free(n));
                }
            },
            Stage::Publish { value, seen, at } => {
                assert(self.open(at@ as int));
                assert forall|p: int| self.open(p) && p != at@ implies #[trigger] post.cell(p)
                    == self.cell(p) by {
                    self.lemma_cells(at@ as int, p);
                }
                lemma_mod_bound(at@ as int, len);
                lemma_count(at@, seen);
                lemma_apart(at@ as int, at@ as int + 1, wrap());
                assert(post.stored(at@ as int));
                assert(self.open(taken));
            },
            Stage::Done(_) => {},
        }
        assert forall|p: int| #[trigger] post.open(p) implies post.free(p) || (post.stored(p) && p
            < post.log@.len() && post.cell(p).value == Some(post.log@[p])) by {
            assert(self.open(p));
        }
        assert forall|p: int| #[trigger]
            post.open(p) && p < post.log@.len() && post.free(p) implies Self::claimed(gs, p) by {
            assert(self.open(p));
            if p < self.log@.len() && !(op is Publish && op->Publish_at@ == p) {
                assert(self.free(p));
                assert(Self::claimed(ops, p));
            }
        }
        assert forall|j: int| #[trigger] gs.contains_key(j) implies post.op_ok(gs[j]) by {
            assert(ops.contains_key(j));
            assert(self.op_ok(ops[j]));
            if j != i && gs[j] is Publish {
                let c = gs[j].hold()->0;
                assert(self.open(c.at as int));
            }
        }
        assert forall|j: int, k: int| #[trigger]
            gs.contains_key(j) && #[trigger] gs.contains_key(k) && j != k && gs[j].hold() is Some
                && gs[k].hold() is Some implies gs[j].hold()->0.at != gs[k].hold()->0.at by {
            assert(ops.contains_key(j) && ops.contains_key(k));
            assert(self.op_ok(ops[j]) && self.op_ok(ops[k]));
        }
    }

    /// How many accesses of the push are left at most while nothing else happens.
    pub open spec fn left(self, op: Stage<T>) -> nat {
        match op {
            Stage::LoadTail { .. } => 4,
            Stage::LoadSeq { value, seen, at, lost } => if seen == self.tail {
                3
            } else {
                5
            },
            Stage::Exchange { value, seen, at } => if seen == self.tail {
                2
            } else {
                4
            },
            Stage::Publish { .. } => 1,
            Stage::Done(_) => 0,
        }
    }

    /// Wherever a push is, and whatever the others have done, each access brings it nearer to its
    /// end: with nothing else in between it is over after at most five.
    pub proof fn lemma_progress(self, ops: Map<int, Stage<T>>, i: int, post: Self, next: Stage<T>)
        requires
            self.inv(ops),
            ops.contains_key(i),
            !(ops[i] is Done),
            self.in_turn(),
            ops[i] matches Stage::LoadSeq { value, seen, at, lost } ==> self.log@.len() - at@ < wrap(),
            self.push_next(ops[i], post, next),
        ensures
            post.left(next) < self.left(ops[i]) <= 5,
    {
        assert(self.op_ok(ops[i]));
        if let Stage::LoadSeq { value, seen, at, lost } = ops[i] {
            if seen == self.tail {
                lemma_same_counter(at@, self.log@.len());
                self.lemma_look(ops, at@, seen);
            }
        }
    }

    /// A push may begin at any time.
    pub proof fn lemma_start(self, ops: Map<int, Stage<T>>, i: int, value: T)
        requires
            self.inv(ops),
            !ops.contains_key(i),
        ensures
            self.inv(ops.insert(i, Stage::LoadTail { value, lost: false })),
    {
        let gs = ops.insert(i, Stage::LoadTail { value, lost: false });
        assert forall|j: int| #[trigger] gs.contains_key(j) && j != i implies ops.contains_key(j) by {}
        assert forall|p: int| #[trigger] Self::claimed(ops, p) implies Self::claimed(gs, p) by {
            let j = choose|j: int| #[trigger]
                ops.contains_key(j) && ops[j].hold() is Some && ops[j].hold()->0.at == p;
            assert(gs.contains_key(j));
        }
    }

    /// A push that is over may be forgotten.
    pub proof fn lemma_finish(self, ops: Map<int, Stage<T>>, i: int)
        requires
            self.inv(ops),
            ops.contains_key(i),
            ops[i] is Done,
        ensures
            self.inv(ops.remove(i)),
    {
        let gs = ops.remove(i);
        assert forall|j: int| #[trigger] gs.contains_key(j) implies ops.contains_key(j) by {}
        assert forall|p: int| #[trigger] Self::claimed(ops, p) implies Self::claimed(gs, p) by {
            let j = choose|j: int| #[trigger]
                ops.contains_key(j) && ops[j].hold() is Some && ops[j].hold()->0.at == p;
            assert(gs.contains_key(j));
        }
    }

    /// Whatever pushes are under way, one access of a pop keeps the invariant, and the value that
    /// it takes is the oldest of the queue.
    pub proof fn lemma_pop(self, ops: Map<int, Stage<T>>, pop: Pop<T>, post: Self, next: Pop<T>)
        requires
            self.inv(ops),
            self.taken@ < wrap() || wrap() % self.capacity() == 0,
            pop is Take ==> self.stored(self.taken@ as int),
            self.pop_next(pop, post, next),
        ensures
            post.inv(ops),
            post.capacity() == self.capacity(),
            next is Take ==> post.stored(post.taken@ as int),
            pop is Take ==> self.slots@[self.head as int % self.capacity()].value is Some,
            pop is Look ==> (next is Take <==> self.stored(self.taken@ as int)),
            pop is Look ==> next is Take || next == Pop::<T>::Done(None),
            pop is Take ==> next is Done,
            pop is Done ==> next == pop,
            match (pop, next) {
                (Pop::Take, Pop::Done(value)) => {
                    &&& self@.len() > 0
                    &&& value == Some(self@[0])
                    &&& post@ == self@.skip(1)
                },
                _ => post@ == self@,
            },
    {
        let taken = self.taken@ as int;
        let len = self.capacity();
        lemma_counter(self.taken@, len);
        lemma_count(self.taken@, self.head);
        assert(self.open(taken));
        if pop is Take {
            lemma_apart(taken, taken + 1, wrap());
            assert(!self.free(taken));
            assert(post@ =~= self@.skip(1));
            lemma_mod_bound(taken, len);
            let seq = post.cell(taken).seq;
            assert(seq == (taken + len) % wrap()) by {
                vstd::arithmetic::div_mod::lemma_add_mod_noop(taken, len, wrap());
                lemma_small_mod(len as nat, wrap() as nat);
                let sum = self.head + len;
                if sum < wrap() {
                    lemma_small_mod(sum as nat, wrap() as nat);
                } else {
                    lemma_mod_add_multiples_vanish(sum - wrap(), wrap());
                    lemma_small_mod((sum - wrap()) as nat, wrap() as nat);
                }
            }
            lemma_mod_add_multiples_vanish(taken, len);
            assert(post.cell(taken + len) == post.cell(taken));
            assert(post.free(taken + len));
            assert forall|p: int| self.open(p) && p != taken implies #[trigger] post.cell(p)
                == self.cell(p) by {
                self.lemma_cells(taken, p);
            }
            assert forall|p: int| #[trigger] post.open(p) implies post.free(p) || (post.stored(p)
                && p < post.log@.len() && post.cell(p).value == Some(post.log@[p])) by {
                if p != taken + len {
                    assert(self.open(p));
                }
            }
            assert forall|p: int| #[trigger]
                post.open(p) && p < post.log@.len() && post.free(p) implies Self::claimed(ops, p) by {
                assert(self.open(p));
                assert(self.free(p));
            }
            assert forall|j: int| #[trigger] ops.contains_key(j) implies post.op_ok(ops[j]) by {
                assert(self.op_ok(ops[j]));
                if ops[j] is Publish {
                    let at = ops[j]->Publish_at@ as int;
                    assert(self.open(at));
                    assert(at != taken);
                }
            }
        }
    }

    /// Puts `value` at the end of the queue if a slot is free. With a single slot it always claims
    /// to: a value that was not yet taken is then lost, and the consumer finds nothing more.
    pub fn push(&mut self, value: T) -> (pushed: Result<(), T>)
        requires
            old(self).wf(),
            old(self).in_turn(),
        ensures
            final(self).wf(),
            final(self).capacity() == old(self).capacity(),
            final(self).head == old(self).head,
            old(self).capacity() != 1 ==> match pushed {
                Ok(()) => {
                    &&& old(self)@.len() < old(self).capacity()
                    &&& final(self)@ == old(self)@.push(value)
                    &&& final(self).log@.len() == old(self).log@.len() + 1
                },
                Err(v) => {
                    &&& old(self)@.len() == old(self).capacity()
                    &&& v == value
                    &&& *final(self) == *old(self)
                },
            },
            old(self).capacity() == 1 ==> {
                &&& pushed is Ok
                &&& final(self).tail == old(self).tail.wrapping_add(1)
                &&& final(self)@ == if old(self).tail == old(self).head {
                    seq![value]
                } else {
                    Seq::empty()
                }
            },
    {
        let ghost many = self.capacity() != 1;
        let ghost none = Map::<int, Stage<T>>::empty();
        let op = Push::new(value);
        proof {
            if many {
                self.lemma_start(none, 0, value);
            }
        }
        let ghost q = *self;
        let ghost ops = none.insert(0, op.stage);
        let op = self.push_step(op);
        proof {
            if many {
                q.lemma_push(ops, 0, *self, op.stage);
            }
            assert(ops.insert(0, op.stage) =~= none.insert(0, op.stage));
            lemma_mod_bound(self.tail as int, self.capacity());
        }
        let ghost q = *self;
        let ghost ops = none.insert(0, op.stage);
        proof {
            if many {
                q.lemma_look(ops, q.log@.len(), q.tail);
            }
        }
        let op = self.push_step(op);
        proof {
            if many {
                q.lemma_push(ops, 0, *self, op.stage);
            }
            assert(ops.insert(0, op.stage) =~= none.insert(0, op.stage));
        }
        let ghost stage = op.stage;
        if let Stage::Done(result) = op.stage {
            proof {
                if many {
                    self.lemma_finish(none.insert(0, stage), 0);
                    assert(none.insert(0, stage).remove(0) =~= none);
                }
            }
            return result;
        }
        let ghost q = *self;
        let ghost ops = none.insert(0, op.stage);
        let op = self.push_step(op);
        proof {
            if many {
                q.lemma_push(ops, 0, *self, op.stage);
            }
            assert(ops.insert(0, op.stage) =~= none.insert(0, op.stage));
        }
        let ghost q = *self;
        let ghost ops = none.insert(0, op.stage);
        let op = self.push_step(op);
        proof {
            if many {
                q.lemma_push(ops, 0, *self, op.stage);
                assert(ops.insert(0, op.stage) =~= none.insert(0, op.stage));
                self.lemma_finish(none.insert(0, op.stage), 0);
                assert(none.insert(0, op.stage).remove(0) =~= none);
            }
        }
        match op.stage {
            Stage::Done(result) => result,
            _ => {
                assert(false);
                Ok(())
            },
        }
    }

    /// Takes the oldest value out of the queue.
    pub fn pop(&mut self) -> (value: Option<T>)
        requires
            old(self).wf(),
            old(self).taken@ < wrap() || wrap() % old(self).capacity() == 0,
        ensures
            final(self).wf(),
            final(self).capacity() == old(self).capacity(),
            final(self).tail == old(self).tail,
            final(self).log == old(self).log,
            match value {
                Some(v) => {
                    &&& old(self)@.len() > 0
                    &&& v == old(self)@[0]
                    &&& final(self)@ == old(self)@.skip(1)
                    &&& final(self).head == old(self).head.wrapping_add(1)
                },
                None => old(self)@.len() == 0 && *final(self) == *old(self),
            },
    {
        let ghost many = self.capacity() != 1;
        let ghost none = Map::<int, Stage<T>>::empty();
        let ghost q = *self;
        let op = self.pop_step(Pop::Look);
        proof {
            lemma_mod_bound(q.head as int, q.capacity());
            if many {
                q.lemma_pop(none, Pop::Look, *self, op);
                let taken = q.taken@ as int;
                assert(q.open(taken));
                if q@.len() > 0 && q.free(taken) {
                    assert(Self::claimed(none, taken));
                }
                lemma_counter(q.taken@, q.capacity());
                lemma_apart(taken, taken + 1, wrap());
            }
        }
        let ghost q = *self;
        let op = self.pop_step(op);
        proof {
            if many && !(op is Done && *self == q) {
                q.lemma_pop(none, Pop::Take, *self, op);
            }
            if !many {
                assert(q@.len() > 0 ==> q@.skip(1) =~= Seq::empty());
            }
        }
        match op {
            Pop::Done(value) => value,
            _ => {
                assert(false);
                None
            },
        }
    }
}

/// Every run of pushes and pops, whatever way their accesses follow each other. Left
/// out is what comes after the counters have run over: see [`Queue::in_turn`].
impl<T> Machine for Queue<T> {
    type Item = T;

    type Send = Stage<T>;

    type Recv = Pop<T>;

    open spec fn fits(self, sends: Map<int, Stage<T>>, recv: Pop<T>) -> bool {
        self.inv(sends) && (recv is Take ==> self.stored(self.taken@ as int))
    }

    open spec fn held(self) -> Seq<T> {
        self@
    }

    open spec fn unsent(send: Stage<T>) -> Option<T> {
        match send {
            Stage::LoadTail { value, .. } => Some(value),
            Stage::LoadSeq { value, .. } => Some(value),
            Stage::Exchange { value, .. } => Some(value),
            Stage::Done(Err(value)) => Some(value),
            _ => None,
        }
    }

    open spec fn sent(send: Stage<T>) -> bool {
        send is Done
    }

    open spec fn owes(send: Stage<T>) -> bool {
        Self::unsent(send) is None && !Self::sent(send)
    }

    open spec fn awaited(sends: Map<int, Stage<T>>) -> bool {
        exists|i: int| #[trigger] sends.contains_key(i) && Self::owes(sends[i])
    }

    open spec fn got(recv: Pop<T>) -> Option<T> {
        match recv {
            Pop::Done(value) => value,
            _ => None,
        }
    }

    open spec fn missed(recv: Pop<T>) -> bool {
        recv matches Pop::Done(value) && value is None
    }

    open spec fn starts(self, sends: Map<int, Stage<T>>, sender: int, send: Stage<T>) -> bool {
        send matches Stage::LoadTail { value, lost } && !lost
    }

    open spec fn sends_on(
        self,
        sends: Map<int, Stage<T>>,
        sender: int,
        post: Self,
        next: Stage<T>,
    ) -> bool {
        &&& sends[sender] is LoadSeq || sends[sender] is Exchange ==> self.in_turn()
        &&& sends[sender] is Exchange ==> self.log@.len() - sends[sender]->Exchange_at@ < wrap()
        &&& self.push_next(sends[sender], post, next)
    }

    open spec fn renews(recv: Pop<T>, next: Pop<T>) -> bool {
        recv is Done && next is Look
    }

    open spec fn recvs_on(
        self,
        sends: Map<int, Stage<T>>,
        recv: Pop<T>,
        post: Self,
        next: Pop<T>,
    ) -> bool {
        &&& self.taken@ < wrap() || wrap() % self.capacity() == 0
        &&& self.pop_next(recv, post, next)
    }

    proof fn lemma_starts(
        self,
        sends: Map<int, Stage<T>>,
        recv: Pop<T>,
        sender: int,
        send: Stage<T>,
    ) {
        self.lemma_start(sends, sender, send->LoadTail_value);
    }

    proof fn lemma_sends_on(
        self,
        sends: Map<int, Stage<T>>,
        recv: Pop<T>,
        sender: int,
        post: Self,
        next: Stage<T>,
    ) {
        self.lemma_push(sends, sender, post, next);
    }

    proof fn lemma_sent(self, sends: Map<int, Stage<T>>, recv: Pop<T>, sender: int) {
        self.lemma_finish(sends, sender);
    }

    proof fn lemma_renews(self, sends: Map<int, Stage<T>>, recv: Pop<T>, next: Pop<T>) {
    }

    proof fn lemma_recvs_on(
        self,
        sends: Map<int, Stage<T>>,
        recv: Pop<T>,
        post: Self,
        next: Pop<T>,
    ) {
        self.lemma_pop(sends, recv, post, next);
        if Self::missed(next) && !Self::missed(recv) {
            let taken = self.taken@ as int;
            assert(self.open(taken));
            if self@.len() > 0 && self.free(taken) {
                assert(Self::claimed(sends, taken));
                let i = choose|i: int| #[trigger]
                    sends.contains_key(i) && sends[i].hold() is Some && sends[i].hold()->0.at == taken;
                assert(sends.contains_key(i) && Self::owes(sends[i]));
            }
        }
    }
}

} // verus!
