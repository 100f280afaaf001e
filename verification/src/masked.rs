//! A bounded queue for many producers and one consumer whose slots number a power of two: the part
//! that the queues of this kind share.
//!
//! The producers' position counts the values that were ever claimed, and the consumer's those that
//! were ever taken; the slot of a position is found by a mask. A push looks whether its slot is
//! still stored, and takes the queue to be full if it is.
use crate::history::Machine;
use crate::ring::{lemma_count, lemma_counter, lemma_same_counter, wrap, Claim, Ring};
use vstd::arithmetic::div_mod::lemma_mod_bound;
use vstd::arithmetic::power2::pow2;
use vstd::prelude::*;

verus! {

/// A power of two that a machine number can be.
pub open spec fn is_power_of_two(n: int) -> bool {
    exists|k: nat| k < usize::BITS && #[trigger] pow2(k) == n
}

/// The number of values of a machine number is a power of two.
proof fn lemma_wrap()
    ensures
        wrap() == pow2(usize::BITS as nat),
        usize::BITS > 0,
{
    vstd::layout::unsigned_int_max_values();
}

/// Such a power is positive and a machine number.
pub proof fn lemma_power(n: int)
    requires
        is_power_of_two(n),
    ensures
        0 < n <= usize::MAX,
{
    let k = choose|k: nat| k < usize::BITS && #[trigger] pow2(k) == n;
    vstd::arithmetic::power2::lemma_pow2_pos(k);
    vstd::bits::lemma_usize_pow2_no_overflow(k);
}

/// The least power of two that is not less than `n`.
pub fn next_power_of_two(n: usize) -> (power: usize)
    requires
        n <= usize::MAX / 2 + 1,
    ensures
        is_power_of_two(power as int),
        n <= power,
        power == 1 || power < 2 * n,
        is_power_of_two(n as int) ==> power == n,
{
    let mut power: usize = 1;
    let ghost mut k: nat = 0;
    proof {
        vstd::arithmetic::power2::lemma2_to64();
        lemma_wrap();
    }
    while power < n
        invariant
            n <= usize::MAX / 2 + 1,
            power == pow2(k),
            k < usize::BITS,
            power == 1 || power < 2 * n,
        decreases usize::MAX - power,
    {
        proof {
            lemma_wrap();
            vstd::arithmetic::power2::lemma_pow2_unfold(k + 1);
            vstd::arithmetic::power2::lemma_pow2_pos(k);
            if k + 1 >= usize::BITS {
                assert(k + 1 == usize::BITS);
                assert(false);
            }
            k = k + 1;
        }
        power = power * 2;
    }
    proof {
        if is_power_of_two(n as int) {
            let j = choose|j: nat| j < usize::BITS && #[trigger] pow2(j) == n;
            vstd::arithmetic::power2::lemma_pow2_pos(j);
            vstd::arithmetic::power2::lemma_pow2_unfold(j + 1);
            if j + 1 < k {
                vstd::arithmetic::power2::lemma_pow2_strictly_increases(j + 1, k);
            }
            if k < j {
                vstd::arithmetic::power2::lemma_pow2_strictly_increases(k, j);
            }
        }
    }
    power
}

/// The slot of a position is found by a mask, also when the position has run over.
pub proof fn lemma_mask(counter: usize, mask: usize)
    requires
        is_power_of_two(mask + 1),
    ensures
        counter & mask == counter as int % (mask + 1),
        wrap() % (mask + 1) == 0,
{
    let k = choose|k: nat| k < usize::BITS && #[trigger] pow2(k) == mask + 1;
    vstd::bits::lemma_usize_low_bits_mask_is_mod(counter, k);
    vstd::bits::lemma_usize_pow2_no_overflow(k);
    lemma_wrap();
    let rest = (usize::BITS - k) as nat;
    vstd::arithmetic::power2::lemma_pow2_adds(rest, k);
    vstd::arithmetic::div_mod::lemma_mod_multiples_basic(pow2(rest) as int, pow2(k) as int);
}

/// The slots with the positions of the producers and of the consumer.
pub struct Masked<T> {
    pub ring: Ring<T>,
    pub producer: usize,
    pub consumer: usize,
}

/// Why a push starts over.
pub enum Again {
    /// It does not.
    No,
    /// The producers' position moved while the push looked at a slot.
    Moved,
    /// Another push won the exchange.
    Lost,
}

/// The part of a push that comes next. `at` is the position that was seen.
pub enum Stage<T> {
    /// Load the producers' position.
    Load { value: T, again: Again },
    /// Look whether the slot is stored.
    Look { value: T, seen: usize, at: Ghost<nat> },
    /// The slot is stored: look whether the position is still the same.
    Recheck { value: T, seen: usize, at: Ghost<nat> },
    /// Exchange the position for the next one.
    Exchange { value: T, seen: usize, at: Ghost<nat> },
    /// Store the value in the slot that was claimed.
    Publish { value: T, seen: usize, at: Ghost<nat> },
    /// The push is over; the value comes back if the queue was full.
    Done(Result<(), T>),
}

/// The part of a pop that comes next.
pub enum Pop<T> {
    /// Look whether the slot at the consumer's position is stored.
    Look,
    /// Take its value, free the slot, and move on.
    Take,
    /// The pop is over.
    Done(Option<T>),
}

impl<T> Stage<T> {
    /// The position that the push has claimed and not yet filled.
    pub open spec fn hold(self) -> Option<Claim<T>> {
        match self {
            Stage::Publish { value, seen, at } => Some(Claim { at: at@, value }),
            _ => None,
        }
    }

    /// How many accesses are left at most while no other thread interferes.
    pub open spec fn rank(self) -> nat {
        match self {
            Stage::Load { .. } => 4,
            Stage::Look { .. } => 3,
            Stage::Recheck { .. } => 2,
            Stage::Exchange { .. } => 2,
            Stage::Publish { .. } => 1,
            Stage::Done(_) => 0,
        }
    }
}

/// What all the pushes that are under way have claimed.
pub open spec fn holds<T>(ops: Map<int, Stage<T>>) -> Map<int, Option<Claim<T>>> {
    ops.map_values(|op: Stage<T>| op.hold())
}

impl<T> Masked<T> {
    /// The number of slots.
    pub open spec fn capacity(self) -> int {
        self.ring.len()
    }

    /// A position that was seen is not ahead of the producers.
    pub open spec fn op_ok(self, op: Stage<T>) -> bool {
        match op {
            Stage::Look { value, seen, at } => at@ <= self.ring.log@.len() && seen == at@ as int
                % wrap(),
            Stage::Recheck { value, seen, at } => at@ <= self.ring.log@.len() && seen == at@ as int
                % wrap(),
            Stage::Exchange { value, seen, at } => at@ <= self.ring.log@.len() && seen == at@ as int
                % wrap(),
            Stage::Publish { value, seen, at } => seen == at@ as int % wrap(),
            _ => true,
        }
    }

    /// The positions are those of the ring, whose slots number a power of two.
    pub open spec fn shape(self) -> bool {
        &&& is_power_of_two(self.capacity())
        &&& self.producer == self.ring.log@.len() as int % wrap()
        &&& self.consumer == self.ring.taken@ as int % wrap()
    }

    /// The invariant together with the pushes that are under way.
    pub open spec fn inv(self, ops: Map<int, Stage<T>>) -> bool {
        &&& self.ring.inv(holds(ops))
        &&& self.shape()
        &&& forall|i: int| #[trigger] ops.contains_key(i) ==> self.op_ok(ops[i])
    }

    /// A pop that is about to take a value will find it.
    pub open spec fn pop_ok(self, pop: Pop<T>) -> bool {
        pop is Take ==> self.ring.cell(self.ring.taken@ as int).stored
    }

    /// The invariant while no push is under way.
    pub open spec fn wf(self) -> bool {
        self.inv(Map::empty())
    }

    /// The values in the queue, the oldest first.
    pub open spec fn view(self) -> Seq<T> {
        self.ring.pending()
    }

    /// The slot of a position that was seen.
    pub open spec fn index(self, seen: usize) -> int {
        seen as int % self.capacity()
    }

    /// One access of a push.
    pub open spec fn push_next(self, op: Stage<T>, post: Self, next: Stage<T>) -> bool {
        match op {
            Stage::Load { value, again } => post == self && next == Stage::Look {
                value,
                seen: self.producer,
                at: Ghost(self.ring.log@.len()),
            },
            Stage::Look { value, seen, at } => post == self && next
                == if self.ring.slots@[self.index(seen)].stored {
                Stage::Recheck { value, seen, at }
            } else {
                Stage::Exchange { value, seen, at }
            },
            Stage::Recheck { value, seen, at } => post == self && next == if self.producer == seen {
                Stage::Done(Err(value))
            } else {
                Stage::Load { value, again: Again::Moved }
            },
            Stage::Exchange { value, seen, at } => if self.producer == seen {
                &&& post == Masked {
                    ring: self.ring.claim(value),
                    producer: seen.wrapping_add(1),
                    ..self
                }
                &&& next == Stage::Publish { value, seen, at: Ghost(self.ring.log@.len()) }
            } else {
                post == self && next == Stage::Load { value, again: Again::Lost }
            },
            Stage::Publish { value, seen, at } => {
                &&& self.ring.stored(post.ring, self.index(seen), value)
                &&& post.producer == self.producer
                &&& post.consumer == self.consumer
                &&& next == Stage::<T>::Done(Ok(()))
            },
            Stage::Done(_) => post == self && next == op,
        }
    }

    /// One access of a pop.
    pub open spec fn pop_next(self, op: Pop<T>, post: Self, next: Pop<T>) -> bool {
        let index = self.index(self.consumer);
        match op {
            Pop::Look => post == self && next == if self.ring.slots@[index].stored {
                Pop::<T>::Take
            } else {
                Pop::Done(None)
            },
            Pop::Take => {
                &&& self.ring.took(post.ring, index)
                &&& post.consumer == self.consumer.wrapping_add(1)
                &&& post.producer == self.producer
                &&& next == Pop::Done(Some(self.ring.slots@[index].value->0))
            },
            Pop::Done(_) => post == self && next == op,
        }
    }

    /// Free slots, a power of two of them.
    pub fn new(len: usize) -> (queue: Self)
        requires
            is_power_of_two(len as int),
        ensures
            queue.wf(),
            queue.capacity() == len,
            queue.ring.slots@.len() == len,
            queue@ == Seq::<T>::empty(),
            queue.producer == 0,
            queue.consumer == 0,
            queue.ring.log@.len() == 0,
    {
        let queue = Masked { ring: Ring::new(len), producer: 0, consumer: 0 };
        proof {
            lemma_power(len as int);
            assert(holds(Map::<int, Stage<T>>::empty()) =~= Map::empty());
            vstd::arithmetic::div_mod::lemma_small_mod(0, wrap() as nat);
            assert(queue@ =~= Seq::empty());
        }
        queue
    }

    /// Performs one access of a push.
    pub fn push_step(&mut self, op: Stage<T>) -> (next: Stage<T>)
        requires
            is_power_of_two(old(self).capacity()),
        ensures
            old(self).push_next(op, *final(self), next),
    {
        let mask: usize = self.mask();
        match op {
            Stage::Load { value, again } => {
                let at: Ghost<nat> = Ghost(self.ring.log@.len());
                Stage::Look { value, seen: self.producer, at }
            },
            Stage::Look { value, seen, at } => {
                proof {
                    lemma_mask(seen, mask);
                    lemma_mod_bound(seen as int, self.capacity());
                }
                if self.ring.is_stored(seen & mask) {
                    Stage::Recheck { value, seen, at }
                } else {
                    Stage::Exchange { value, seen, at }
                }
            },
            Stage::Recheck { value, seen, at } => if self.producer == seen {
                Stage::Done(Err(value))
            } else {
                Stage::Load { value, again: Again::Moved }
            },
            Stage::Exchange { value, seen, at } => {
                let at: Ghost<nat> = Ghost(self.ring.log@.len());
                if self.producer == seen {
                    self.producer = seen.wrapping_add(1);
                    self.ring.note_claim(Ghost(value));
                    Stage::Publish { value, seen, at }
                } else {
                    Stage::Load { value, again: Again::Lost }
                }
            },
            Stage::Publish { value, seen, at } => {
                proof {
                    lemma_mask(seen, mask);
                    lemma_mod_bound(seen as int, self.capacity());
                }
                self.ring.store(seen & mask, value);
                Stage::Done(Ok(()))
            },
            Stage::Done(result) => Stage::Done(result),
        }
    }

    /// One less than the number of slots.
    pub fn mask(&self) -> (mask: usize)
        requires
            is_power_of_two(self.capacity()),
        ensures
            mask + 1 == self.capacity(),
    {
        proof {
            lemma_power(self.capacity());
        }
        self.ring.slots.len() - 1
    }

    /// Whether the slot of a position that was seen is stored.
    pub fn is_stored(&self, seen: usize) -> (stored: bool)
        requires
            is_power_of_two(self.capacity()),
        ensures
            stored == self.ring.slots@[self.index(seen)].stored,
    {
        let mask: usize = self.mask();
        proof {
            lemma_mask(seen, mask);
            lemma_mod_bound(seen as int, self.capacity());
        }
        self.ring.is_stored(seen & mask)
    }

    /// Performs one access of a pop.
    pub fn pop_step(&mut self, op: Pop<T>) -> (next: Pop<T>)
        requires
            is_power_of_two(old(self).capacity()),
            op is Take ==> old(self).ring.slots@[old(self).index(
                old(self).consumer,
            )].value is Some,
        ensures
            old(self).pop_next(op, *final(self), next),
    {
        let mask: usize = self.mask();
        let index: usize = self.consumer & mask;
        proof {
            lemma_mask(self.consumer, mask);
            lemma_mod_bound(self.consumer as int, self.capacity());
        }
        match op {
            Pop::Look => if self.ring.is_stored(index) {
                Pop::Take
            } else {
                Pop::Done(None)
            },
            Pop::Take => {
                let value = self.ring.take(index);
                self.consumer = self.consumer.wrapping_add(1);
                Pop::Done(Some(value))
            },
            Pop::Done(value) => Pop::Done(value),
        }
    }

    /// The masks find the slots of the ring.
    proof fn lemma_index(self, p: nat, counter: usize)
        requires
            is_power_of_two(self.capacity()),
            counter == p as int % wrap(),
        ensures
            self.index(counter) == p as int % self.capacity(),
            0 < self.capacity(),
            0 <= p as int % self.capacity() < self.capacity(),
    {
        lemma_power(self.capacity());
        lemma_mask(counter, (self.capacity() - 1) as usize);
        lemma_counter(p, self.capacity());
        lemma_mod_bound(p as int, self.capacity());
    }

    /// Whatever pushes are under way, one access of any of them keeps the invariant, as long as no
    /// exchange claims a position while the slots of all the positions before it that were not yet
    /// taken are in use, nor one that was seen a full turn of the counter ago. The access that
    /// wins the exchange puts the value of the push at the end of the queue, and no other access
    /// changes the queue. A push that finds its slot stored, with the position still the same, has
    /// found the queue full. It claims a slot only if it has found it free, and starts anew only
    /// if the position moved on, noting whether it lost an exchange by that.
    pub proof fn lemma_push(self, ops: Map<int, Stage<T>>, i: int, post: Self, next: Stage<T>)
        requires
            self.inv(ops),
            ops.contains_key(i),
            ops[i] is Exchange && ops[i]->Exchange_seen == self.producer ==> self@.len()
                < self.capacity(),
            ops[i] is Exchange ==> self.ring.log@.len() - ops[i]->Exchange_at@ < wrap(),
            self.push_next(ops[i], post, next),
        ensures
            post.inv(ops.insert(i, next)),
            post.capacity() == self.capacity(),
            post@ == if ops[i] is Exchange && ops[i]->Exchange_seen == self.producer {
                self@.push(ops[i]->Exchange_value)
            } else {
                self@
            },
            next is Recheck && ops[i] is Look && ops[i]->Look_at@ == self.ring.log@.len()
                ==> self@.len() == self.capacity(),
            forall|pop: Pop<T>| #[trigger] self.pop_ok(pop) ==> post.pop_ok(pop),
            !(ops[i] is Done) ==> match next {
                Stage::Done(Err(back)) => {
                    &&& Self::unsent(ops[i]) == Some(back)
                    &&& ops[i] matches Stage::Recheck { value, seen, at }
                    &&& at@ == self.ring.log@.len() || self.ring.log@.len() - at@ >= wrap()
                },
                Stage::Done(Ok(())) => {
                    &&& ops[i].hold() matches Some(c)
                    &&& post.ring.cell(c.at as int).stored
                    &&& post.ring.cell(c.at as int).value == Some(c.value)
                },
                Stage::Recheck { value, seen, at } => {
                    &&& ops[i] matches Stage::Look { value: v, seen: s, at: a }
                    &&& v == value && s == seen && a == at
                },
                _ => true,
            },
            ops[i] matches Stage::Look { value, seen, at } ==> {
                &&& next is Recheck || next is Exchange
                &&& next is Recheck <==> self.ring.slots@[self.index(seen)].stored
            },
            next is Look ==> next->Look_seen == self.producer && next->Look_at@
                == self.ring.log@.len(),
            next matches Stage::Load { value, again } ==> match ops[i] {
                Stage::Recheck { value: v, seen, at } => again is Moved && seen != self.producer,
                Stage::Exchange { value: v, seen, at } => again is Lost && seen != self.producer,
                _ => false,
            },
            Self::unsent(next) is Some ==> Self::unsent(next) == Self::unsent(ops[i]),
    {
        let gs = ops.insert(i, next);
        let op = ops[i];
        let hs = holds(ops);
        assert(hs.contains_key(i) && hs[i] == op.hold());
        assert(holds(gs) =~= hs.insert(i, next.hold()));
        assert(self.op_ok(op));
        let n = self.ring.log@.len();
        let taken = self.ring.taken@ as int;
        lemma_mod_bound(taken, self.capacity());
        match op {
            Stage::Look { value, seen, at } => {
                assert(hs.insert(i, next.hold()) =~= hs);
                self.lemma_index(at@, seen);
                assert(self.ring.cell(at@ as int).stored == self.ring.slots@[self.index(
                    seen,
                )].stored);
            },
            Stage::Exchange { value, seen, at } => {
                if self.producer == seen {
                    lemma_same_counter(at@, n);
                    self.ring.lemma_claim(hs, i, value);
                    lemma_count(n, self.producer);
                    assert(post@ =~= self@.push(value));
                    assert(post.ring.cell(taken) == self.ring.cell(taken));
                } else {
                    assert(hs.insert(i, next.hold()) =~= hs);
                }
            },
            Stage::Publish { value, seen, at } => {
                self.lemma_index(at@, seen);
                self.ring.lemma_store(post.ring, hs, i);
            },
            Stage::Recheck { value, seen, at } => {
                assert(hs.insert(i, next.hold()) =~= hs);
                if self.producer == seen && n - at@ < wrap() {
                    lemma_same_counter(at@, n);
                }
            },
            _ => {
                assert(hs.insert(i, next.hold()) =~= hs);
            },
        }
        assert forall|j: int| #[trigger] gs.contains_key(j) implies post.op_ok(gs[j]) by {
            assert(ops.contains_key(j));
            assert(self.op_ok(ops[j]));
        }
    }

    /// How many accesses of the push are left at most while nothing else happens.
    pub open spec fn left(self, op: Stage<T>) -> nat {
        match op {
            Stage::Load { .. } => 4,
            Stage::Look { value, seen, at } => if seen == self.producer {
                3
            } else {
                6
            },
            Stage::Recheck { value, seen, at } => if seen == self.producer {
                1
            } else {
                5
            },
            Stage::Exchange { value, seen, at } => if seen == self.producer {
                2
            } else {
                5
            },
            Stage::Publish { .. } => 1,
            Stage::Done(_) => 0,
        }
    }

    /// Wherever a push is, and whatever the others have done, each access brings it nearer to its
    /// end: with nothing else in between it is over after at most six.
    pub proof fn lemma_progress(self, op: Stage<T>, post: Self, next: Stage<T>)
        requires
            !(op is Done),
            self.push_next(op, post, next),
        ensures
            post.left(next) < self.left(op) <= 6,
    {
    }

    /// If the slot at the producers' position is stored, the queue is full.
    pub proof fn lemma_full(self, ops: Map<int, Stage<T>>)
        requires
            self.inv(ops),
            self.ring.slots@[self.index(self.producer)].stored,
        ensures
            self@.len() == self.capacity(),
    {
        let n = self.ring.log@.len();
        self.lemma_index(n, self.producer);
        assert(self.ring.cell(n as int).stored);
    }

    /// A push may begin at any time.
    pub proof fn lemma_start(self, ops: Map<int, Stage<T>>, i: int, op: Stage<T>)
        requires
            self.inv(ops),
            ops.contains_key(i) ==> ops[i].hold() is None,
            op is Load || op is Done,
        ensures
            self.inv(ops.insert(i, op)),
    {
        let gs = ops.insert(i, op);
        let hs = holds(ops);
        assert(hs.contains_key(i) ==> ops.contains_key(i) && hs[i] == ops[i].hold());
        self.ring.lemma_enter(hs, i);
        assert(holds(gs) =~= hs.insert(i, None));
        assert forall|j: int| #[trigger] gs.contains_key(j) implies self.op_ok(gs[j]) by {
            assert(j != i ==> ops.contains_key(j));
        }
    }

    /// Pushes that have not claimed anything nor seen a position do no harm to a queue at rest.
    pub proof fn lemma_idle(self, ops: Map<int, Stage<T>>)
        requires
            self.wf(),
            forall|i: int| #[trigger] ops.contains_key(i) ==> ops[i] is Load || ops[i] is Done,
        ensures
            self.inv(ops),
    {
        let none = Map::<int, Stage<T>>::empty();
        let hs = holds(ops);
        assert(holds(none) =~= Map::empty());
        assert forall|i: int| #[trigger] hs.contains_key(i) implies hs[i] is None by {
            assert(ops.contains_key(i));
        }
        assert forall|p: int|
            self.ring.taken@ <= p < self.ring.log@.len() && !(#[trigger] self.ring.cell(
                p,
            )).stored implies Ring::<T>::claimed(hs, p) by {
            assert(Ring::<T>::claimed(holds(none), p));
            let j = choose|j: int| #[trigger] holds(none).contains_key(j);
            assert(none.contains_key(j));
        }
    }

    /// A push that is over may be forgotten.
    pub proof fn lemma_finish(self, ops: Map<int, Stage<T>>, i: int)
        requires
            self.inv(ops),
            ops.contains_key(i),
            ops[i].hold() is None,
        ensures
            self.inv(ops.remove(i)),
    {
        let gs = ops.remove(i);
        let hs = holds(ops);
        assert(hs.contains_key(i) && hs[i] is None);
        self.ring.lemma_leave(hs, i);
        assert(holds(gs) =~= hs.remove(i));
        assert forall|j: int| #[trigger] gs.contains_key(j) implies self.op_ok(gs[j]) by {
            assert(ops.contains_key(j));
        }
    }

    /// What the consumer finds at its position.
    pub proof fn lemma_pop_accepts(self, ops: Map<int, Stage<T>>, pop: Pop<T>)
        requires
            self.inv(ops),
            self.pop_ok(pop),
        ensures
            pop is Take ==> self.ring.slots@[self.index(self.consumer)].value is Some,
            self.ring.slots@[self.index(self.consumer)] == self.ring.cell(self.ring.taken@ as int),
    {
        self.lemma_index(self.ring.taken@, self.consumer);
    }

    /// Whatever pushes are under way, one access of a pop keeps the invariant, and the value that
    /// it takes is the oldest of the queue.
    pub proof fn lemma_pop(self, ops: Map<int, Stage<T>>, pop: Pop<T>, post: Self, next: Pop<T>)
        requires
            self.inv(ops),
            self.pop_ok(pop),
            self.pop_next(pop, post, next),
        ensures
            post.inv(ops),
            post.pop_ok(next),
            post.capacity() == self.capacity(),
            match (pop, next) {
                (Pop::Take, Pop::Done(value)) => {
                    &&& self@.len() > 0
                    &&& value == Some(self@[0])
                    &&& post@ == self@.skip(1)
                },
                _ => post@ == self@,
            },
            pop is Look ==> next is Take || next == Pop::<T>::Done(None),
            pop is Look ==> (next is Take <==> self.ring.cell(self.ring.taken@ as int).stored),
            pop is Take ==> next is Done,
            pop is Done ==> next == pop,
    {
        self.lemma_pop_accepts(ops, pop);
        self.lemma_index(self.ring.taken@, self.consumer);
        if pop is Take {
            self.ring.lemma_take(post.ring, holds(ops));
            lemma_count(self.ring.taken@, self.consumer);
        }
        assert forall|j: int| #[trigger] ops.contains_key(j) implies post.op_ok(ops[j]) by {
            assert(self.op_ok(ops[j]));
        }
    }

    /// While no push has claimed a slot without having filled it, a push that finds its slot free
    /// has room: its exchange, if it wins, may claim the slot.
    pub proof fn lemma_room(self, ops: Map<int, Stage<T>>, i: int)
        requires
            self.inv(ops),
            forall|j: int| #[trigger] ops.contains_key(j) ==> ops[j].hold() is None,
            ops.contains_key(i),
            ops[i] is Look,
            ops[i]->Look_at@ == self.ring.log@.len(),
        ensures
            self.ring.slots@[self.index(ops[i]->Look_seen)].stored <==> self@.len()
                == self.capacity(),
    {
        assert(self.op_ok(ops[i]));
        let n = self.ring.log@.len();
        self.lemma_index(n, ops[i]->Look_seen);
        let taken = self.ring.taken@ as int;
        if n == taken + self.capacity() {
            vstd::arithmetic::div_mod::lemma_mod_add_multiples_vanish(taken, self.capacity());
            assert(self.ring.cell(n as int) == self.ring.cell(taken));
            if !self.ring.cell(taken).stored {
                assert(Ring::<T>::claimed(holds(ops), taken));
                let j = choose|j: int| #[trigger]
                    holds(ops).contains_key(j) && holds(ops)[j] is Some && holds(ops)[j]->0.at
                        == taken;
                assert(ops.contains_key(j));
            }
        } else {
            assert(!self.ring.cell(n as int).stored);
        }
    }

    /// Puts `value` at the end of the queue if a slot is free.
    pub fn push(&mut self, value: T) -> (pushed: Result<(), T>)
        requires
            old(self).wf(),
        ensures
            final(self).wf(),
            final(self).capacity() == old(self).capacity(),
            match pushed {
                Ok(()) => {
                    &&& old(self)@.len() < old(self).capacity()
                    &&& final(self)@ == old(self)@.push(value)
                },
                Err(v) => {
                    &&& old(self)@.len() == old(self).capacity()
                    &&& v == value
                    &&& *final(self) == *old(self)
                },
            },
    {
        let mut op = Stage::Load { value, again: Again::No };
        let ghost ops = Map::<int, Stage<T>>::empty();
        proof {
            self.lemma_start(ops, 0, op);
        }
        loop
            invariant
                old(self).wf(),
                self.inv(ops.insert(0, op)),
                self.capacity() == old(self).capacity(),
                ops == Map::<int, Stage<T>>::empty(),
                op.rank() >= 2 || (op matches Stage::Done(Err(_))) ==> *self == *old(self),
                match op {
                    Stage::Load { value: v, again } => v == value,
                    Stage::Look { value: v, seen, at } => v == value && seen == self.producer && at@
                        == self.ring.log@.len(),
                    Stage::Recheck { value: v, seen, at } => v == value && seen == self.producer
                        && self@.len() == self.capacity(),
                    Stage::Exchange { value: v, seen, at } => v == value && seen == self.producer
                        && at@ == self.ring.log@.len() && self@.len() < self.capacity(),
                    Stage::Done(Err(v)) => v == value && self@.len() == self.capacity(),
                    _ => old(self)@.len() < old(self).capacity() && self@ == old(self)@.push(value),
                },
            decreases op.rank(),
        {
            let ghost pre = *self;
            let ghost before = op;
            if let Stage::Done(result) = op {
                proof {
                    self.lemma_finish(ops.insert(0, before), 0);
                    assert(ops.insert(0, before).remove(0) =~= ops);
                }
                return result;
            }
            proof {
                let ghost all = ops.insert(0, before);
                assert(all[0] == before);
                if before is Look {
                    assert forall|j: int| #[trigger] all.contains_key(j) implies all[j].hold() is None by {
                        assert(j == 0);
                    }
                    pre.lemma_room(all, 0);
                }
            }
            op = self.push_step(op);
            proof {
                pre.lemma_push(ops.insert(0, before), 0, *self, op);
                assert(ops.insert(0, before).insert(0, op) =~= ops.insert(0, op));
            }
        }
    }

    /// Takes the oldest value out of the queue.
    pub fn pop(&mut self) -> (value: Option<T>)
        requires
            old(self).wf(),
        ensures
            final(self).wf(),
            final(self).capacity() == old(self).capacity(),
            match value {
                Some(v) => {
                    &&& old(self)@.len() > 0
                    &&& v == old(self)@[0]
                    &&& final(self)@ == old(self)@.skip(1)
                },
                None => old(self)@.len() == 0 && *final(self) == *old(self),
            },
    {
        let ghost ops = Map::<int, Stage<T>>::empty();
        let ghost q = *self;
        let op = self.pop_step(Pop::Look);
        proof {
            q.lemma_pop(ops, Pop::Look, *self, op);
            q.lemma_pop_accepts(ops, op);
            let taken = q.ring.taken@ as int;
            if q@.len() > 0 && !q.ring.cell(taken).stored {
                assert(Ring::<T>::claimed(holds(ops), taken));
                let j = choose|j: int| #[trigger] holds(ops).contains_key(j);
                assert(ops.contains_key(j));
            }
        }
        let ghost looked = op;
        let op = self.pop_step(op);
        proof {
            q.lemma_pop(ops, looked, *self, op);
        }
        match op {
            Pop::Done(value) => value,
            _ => {
                assert(false);
                None
            },
        }
    }
}

/// Every run of pushes and pops, whatever way their accesses follow each other. Left
/// out is an exchange that claims a slot which is not free, and one that comes a full turn of the
/// counter after its look: see [`Masked::lemma_push`].
impl<T> Machine for Masked<T> {
    type Item = T;

    type Send = Stage<T>;

    type Recv = Pop<T>;

    open spec fn fits(self, sends: Map<int, Stage<T>>, recv: Pop<T>) -> bool {
        self.inv(sends) && self.pop_ok(recv)
    }

    open spec fn held(self) -> Seq<T> {
        self@
    }

    open spec fn unsent(send: Stage<T>) -> Option<T> {
        match send {
            Stage::Load { value, .. } => Some(value),
            Stage::Look { value, .. } => Some(value),
            Stage::Recheck { value, .. } => Some(value),
            Stage::Exchange { value, .. } => Some(value),
            Stage::Done(Err(value)) => Some(value),
            _ => None,
        }
    }

    open spec fn sent(send: Stage<T>) -> bool {
        send is Done
    }

    open spec fn owes(send: Stage<T>) -> bool {
        Self::unsent(send) is None && !Self::sent(send)
    }

    open spec fn awaited(sends: Map<int, Stage<T>>) -> bool {
        exists|i: int| #[trigger] sends.contains_key(i) && Self::owes(sends[i])
    }

    open spec fn got(recv: Pop<T>) -> Option<T> {
        match recv {
            Pop::Done(value) => value,
            _ => None,
        }
    }

    open spec fn missed(recv: Pop<T>) -> bool {
        recv matches Pop::Done(value) && value is None
    }

    open spec fn starts(self, sends: Map<int, Stage<T>>, sender: int, send: Stage<T>) -> bool {
        send matches Stage::Load { value, again } && again is No
    }

    open spec fn sends_on(
        self,
        sends: Map<int, Stage<T>>,
        sender: int,
        post: Self,
        next: Stage<T>,
    ) -> bool {
        &&& sends[sender] is Exchange && sends[sender]->Exchange_seen == self.producer
            ==> self@.len() < self.capacity()
        &&& sends[sender] is Exchange ==> self.ring.log@.len() - sends[sender]->Exchange_at@
            < wrap()
        &&& self.push_next(sends[sender], post, next)
    }

    open spec fn renews(recv: Pop<T>, next: Pop<T>) -> bool {
        recv is Done && next is Look
    }

    open spec fn recvs_on(
        self,
        sends: Map<int, Stage<T>>,
        recv: Pop<T>,
        post: Self,
        next: Pop<T>,
    ) -> bool {
        self.pop_next(recv, post, next)
    }

    proof fn lemma_starts(
        self,
        sends: Map<int, Stage<T>>,
        recv: Pop<T>,
        sender: int,
        send: Stage<T>,
    ) {
        self.lemma_start(sends, sender, send);
    }

    proof fn lemma_sends_on(
        self,
        sends: Map<int, Stage<T>>,
        recv: Pop<T>,
        sender: int,
        post: Self,
        next: Stage<T>,
    ) {
        self.lemma_push(sends, sender, post, next);
    }

    proof fn lemma_sent(self, sends: Map<int, Stage<T>>, recv: Pop<T>, sender: int) {
        self.lemma_finish(sends, sender);
    }

    proof fn lemma_renews(self, sends: Map<int, Stage<T>>, recv: Pop<T>, next: Pop<T>) {
    }

    proof fn lemma_recvs_on(
        self,
        sends: Map<int, Stage<T>>,
        recv: Pop<T>,
        post: Self,
        next: Pop<T>,
    ) {
        self.lemma_pop(sends, recv, post, next);
        if Self::missed(next) && !Self::missed(recv) {
            self.lemma_pop_accepts(sends, recv);
            let taken = self.ring.taken@ as int;
            if self@.len() > 0 && !self.ring.cell(taken).stored {
                assert(Ring::<T>::claimed(holds(sends), taken));
                let j = choose|j: int| #[trigger]
                    holds(sends).contains_key(j) && holds(sends)[j] is Some;
                assert(sends.contains_key(j) && Self::owes(sends[j]));
            }
        }
    }
}

} // verus!
