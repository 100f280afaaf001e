//! An unbounded queue in blocks of 64 slots, for many senders and one receiver.
//!
//! The tail word points to the block that is being filled and carries the number of its claimed
//! slots as a tag. One compare-and-exchange of the tail claims a slot; the exchange that finds
//! the block full moves the tail to a new block and claims its first slot.
use crate::chain::{idle, Chain, Claim, Edge, Hold, Recv};
use crate::history::Machine;
use crate::pause::{power_of_two, Pause, Platform};
use crate::shared::Pointer;
use vstd::arithmetic::power2::pow2;
use vstd::prelude::*;

verus! {

/// Slots in a block.
pub const BLOCK_SIZE: usize = 64;

/// Alignment of a block, and so the number of tags of a pointer to one.
pub const BLOCK_ALIGN: usize = 128;

/// The queue.
pub struct Queue<T> {
    pub chain: Chain<T, BLOCK_SIZE, BLOCK_ALIGN>,
    pub tail: Pointer,
}

/// The part of a send that comes next.
pub enum Stage<T> {
    /// Load the tail; `lost` if another send won the last exchange.
    Load { value: T, spare: usize, lost: bool },
    /// Allocate the block that the exchange is going to append.
    Allocate { value: T, seen: Pointer },
    /// Exchange the tail that was seen for the next one.
    Exchange { value: T, spare: usize, seen: Pointer },
    /// Store the value in the claimed slot, and free a block that was not needed.
    Publish { value: T, spare: usize, block: usize, index: usize },
    /// Store the value in the first slot of the block that was appended.
    PublishFirst { value: T, prev: usize, next: usize },
    /// Link the block that was appended.
    Link { prev: usize, next: usize },
    /// The send is over.
    Done,
}

/// A send that is under way.
pub struct Send<T> {
    pub stage: Stage<T>,
    pub backoff: usize,
}

impl<T> Send<T> {
    /// A send that has not yet begun.
    pub fn new(value: T) -> (send: Self)
        ensures
            send.stage == (Stage::Load { value, spare: 0, lost: false }),
            send.backoff == 0,
    {
        Send { stage: Stage::Load { value, spare: 0, lost: false }, backoff: 0 }
    }

    /// How the thread waits before the next access: not at all, unless another send won the
    /// exchange. Then it spins twice as long as the last time, up to 1024 spins; on Apple's Arm
    /// machines it waits for a processor event instead.
    pub fn pause(&mut self, platform: Platform) -> (pause: Pause)
        requires
            old(self).backoff <= 10,
        ensures
            final(self).stage == old(self).stage,
            final(self).backoff <= 10,
            match old(self).stage {
                Stage::Load { value, spare, lost: true } => if platform.apple && platform.aarch64 {
                    pause == Pause::Event && final(self).backoff == old(self).backoff
                } else {
                    &&& final(self).backoff == if old(self).backoff < 10 {
                        old(self).backoff + 1
                    } else {
                        10
                    }
                    &&& pause == Pause::Spin(pow2(final(self).backoff as nat) as usize)
                },
                _ => pause == Pause::Nothing && final(self).backoff == old(self).backoff,
            },
    {
        if let Stage::Load { lost: true, .. } = &self.stage {
            if platform.apple && platform.aarch64 {
                return Pause::Event;
            }
            if self.backoff < 10 {
                self.backoff = self.backoff + 1;
            }
            return Pause::Spin(power_of_two(self.backoff));
        }
        Pause::Nothing
    }
}

/// The exchange of this tail has to append a block.
pub open spec fn grows(seen: Pointer) -> bool {
    seen.cell(BLOCK_ALIGN) == 0 || seen.addr % BLOCK_ALIGN == BLOCK_SIZE
}

impl<T> Stage<T> {
    /// What the send owns.
    pub open spec fn hold(self) -> Hold<T> {
        match self {
            Stage::Load { value, spare, lost } => Hold { spare, ..idle() },
            Stage::Allocate { value, seen } => idle(),
            Stage::Exchange { value, spare, seen } => Hold { spare, ..idle() },
            Stage::Publish { value, spare, block, index } => Hold {
                spare,
                slot: Some(Claim { block, index: index as int, value }),
                ..idle()
            },
            Stage::PublishFirst { value, prev, next } => Hold {
                slot: Some(Claim { block: next, index: 0, value }),
                edge: Some(Edge { prev, next }),
                ..idle()
            },
            Stage::Link { prev, next } => Hold { edge: Some(Edge { prev, next }), ..idle() },
            Stage::Done => idle(),
        }
    }

    /// How many accesses are left at most while no other send interferes.
    pub open spec fn rank(self) -> nat {
        match self {
            Stage::Load { .. } => 5,
            Stage::Allocate { .. } => 4,
            Stage::Exchange { .. } => 3,
            Stage::PublishFirst { .. } => 2,
            Stage::Publish { .. } => 1,
            Stage::Link { .. } => 1,
            Stage::Done => 0,
        }
    }
}

/// What all the sends that are under way own.
pub open spec fn holds<T>(ops: Map<int, Stage<T>>) -> Map<int, Hold<T>> {
    ops.map_values(|op: Stage<T>| op.hold())
}

impl<T> Queue<T> {
    /// The tail points to the block that was appended last and counts its claimed slots.
    pub open spec fn tail_ok(self) -> bool {
        let c = self.chain;
        &&& c.last@ == 0 ==> self.tail.addr == 0
        &&& c.last@ != 0 ==> self.tail.addr == c.last@ + (c.log@.len() - c.base@[c.last@])
    }

    /// A tail that was seen counts no more slots than there are, and an exchange that has to
    /// append a block has one.
    pub open spec fn op_ok(op: Stage<T>) -> bool {
        match op {
            Stage::Allocate { value, seen } => seen.addr % BLOCK_ALIGN <= BLOCK_SIZE,
            Stage::Exchange { value, spare, seen } => (grows(seen) ==> spare != 0) && seen.addr
                % BLOCK_ALIGN <= BLOCK_SIZE,
            _ => true,
        }
    }

    /// The invariant of the queue together with the sends that are under way.
    pub open spec fn inv(self, ops: Map<int, Stage<T>>) -> bool {
        &&& self.chain.inv(holds(ops))
        &&& self.tail_ok()
        &&& forall|i: int| #[trigger] ops.contains_key(i) ==> Self::op_ok(ops[i])
    }

    /// The invariant while no send is under way.
    pub open spec fn wf(self) -> bool {
        self.inv(Map::empty())
    }

    /// The values in the queue, the oldest first.
    pub open spec fn view(self) -> Seq<T> {
        self.chain.pending()
    }

    /// Another block still has an address.
    pub open spec fn has_room(self) -> bool {
        self.chain.heap.has_room()
    }

    /// The next access of the send is to memory that is there, and finds what it has to find.
    pub open spec fn accepts(self, op: Stage<T>) -> bool {
        &&& self.chain.heap.wf()
        &&& match op {
            Stage::Load { .. } => self.tail.addr % BLOCK_ALIGN <= BLOCK_SIZE,
            Stage::Allocate { .. } => self.chain.heap.has_room(),
            Stage::Exchange { value, spare, seen } => {
                &&& seen.addr % BLOCK_ALIGN <= BLOCK_SIZE
                &&& grows(seen) ==> spare != 0 && spare % BLOCK_ALIGN == 0
            },
            Stage::Publish { value, spare, block, index } => {
                &&& self.chain.heap@.contains_key(block)
                &&& index < self.chain.heap@[block].slots@.len()
                &&& spare != 0 ==> self.chain.heap@.contains_key(spare) && spare != block
            },
            Stage::PublishFirst { value, prev, next } => {
                &&& self.chain.heap@.contains_key(next)
                &&& 0 < self.chain.heap@[next].slots@.len()
            },
            Stage::Link { prev, next } => if prev == 0 {
                self.chain.head == 0
            } else {
                self.chain.heap@.contains_key(prev) && self.chain.next(prev) == 0
            },
            Stage::Done => true,
        }
    }

    /// One access of a send.
    pub open spec fn send_next(self, op: Stage<T>, post: Self, next: Stage<T>) -> bool {
        match op {
            Stage::Load { value, spare, lost } => {
                &&& post == self
                &&& next == if grows(self.tail) && spare == 0 {
                    Stage::Allocate { value, seen: self.tail }
                } else {
                    Stage::Exchange { value, spare, seen: self.tail }
                }
            },
            Stage::Allocate { value, seen } => {
                &&& post.tail == self.tail
                &&& self.chain.allocated(post.chain, self.chain.heap.fresh())
                &&& next == Stage::Exchange { value, spare: self.chain.heap.fresh(), seen }
            },
            Stage::Exchange { value, spare, seen } => {
                let block = seen.cell(BLOCK_ALIGN) as usize;
                let index = seen.addr % BLOCK_ALIGN;
                if self.tail != seen {
                    post == self && next == Stage::Load { value, spare, lost: true }
                } else if grows(seen) {
                    &&& post.chain == self.chain.append(spare).claim(value)
                    &&& post.tail.addr == spare + 1
                    &&& next == Stage::PublishFirst { value, prev: block, next: spare }
                } else {
                    &&& post.chain == self.chain.claim(value)
                    &&& post.tail.addr == seen.addr + 1
                    &&& next == Stage::Publish { value, spare, block, index }
                }
            },
            Stage::Publish { value, spare, block, index } => {
                &&& post.tail == self.tail
                &&& next == Stage::<T>::Done
                &&& if spare == 0 {
                    self.chain.published(post.chain, block, index as int, value)
                } else {
                    exists|mid: Chain<T, BLOCK_SIZE, BLOCK_ALIGN>| #[trigger]
                        self.chain.published(mid, block, index as int, value) && mid.released(
                            post.chain,
                            spare,
                        )
                }
            },
            Stage::PublishFirst { value, prev, next: appended } => {
                &&& post.tail == self.tail
                &&& self.chain.published(post.chain, appended, 0, value)
                &&& next == Stage::<T>::Link { prev, next: appended }
            },
            Stage::Link { prev, next: appended } => {
                &&& post.tail == self.tail
                &&& self.chain.joined(post.chain, prev, appended)
                &&& next == Stage::<T>::Done
            },
            Stage::Done => post == self && next == op,
        }
    }

    /// A queue without values.
    pub fn empty() -> (queue: Self)
        ensures
            queue.wf(),
            queue@ == Seq::<T>::empty(),
            queue.chain.heap.room() == (usize::MAX - BLOCK_ALIGN) / BLOCK_ALIGN as int,
            queue.has_room(),
    {
        let queue = Queue { chain: Chain::new(), tail: Pointer { addr: 0 } };
        assert(holds(Map::<int, Stage<T>>::empty()) =~= Map::empty());
        assert(queue@ =~= Seq::empty());
        queue
    }

    /// Performs one access of a send.
    pub fn send_step(&mut self, op: Send<T>) -> (next: Send<T>)
        requires
            old(self).accepts(op.stage),
        ensures
            old(self).send_next(op.stage, *final(self), next.stage),
            next.backoff == op.backoff,
    {
        let backoff: usize = op.backoff;
        let stage = match op.stage {
            Stage::Load { value, spare, lost } => {
                let seen = self.tail;
                if (seen.untagged(BLOCK_ALIGN) == 0 || seen.tag(BLOCK_ALIGN) == BLOCK_SIZE)
                    && spare == 0 {
                    Stage::Allocate { value, seen }
                } else {
                    Stage::Exchange { value, spare, seen }
                }
            },
            Stage::Allocate { value, seen } => {
                let spare: usize = self.chain.allocate();
                Stage::Exchange { value, spare, seen }
            },
            Stage::Exchange { value, spare, seen } => {
                let block: usize = seen.untagged(BLOCK_ALIGN);
                let index: usize = seen.tag(BLOCK_ALIGN);
                if self.tail != seen {
                    Stage::Load { value, spare, lost: true }
                } else if block == 0 || index == BLOCK_SIZE {
                    self.tail = Pointer::tagged(spare, 1, BLOCK_ALIGN);
                    self.chain.note_append(spare);
                    self.chain.note_claim(Ghost(value));
                    Stage::PublishFirst { value, prev: block, next: spare }
                } else {
                    self.tail = Pointer::tagged(block, index + 1, BLOCK_ALIGN);
                    self.chain.note_claim(Ghost(value));
                    Stage::Publish { value, spare, block, index }
                }
            },
            Stage::Publish { value, spare, block, index } => {
                self.chain.publish(block, index, value);
                if spare != 0 {
                    self.chain.release(spare);
                }
                Stage::Done
            },
            Stage::PublishFirst { value, prev, next } => {
                self.chain.publish(next, 0, value);
                Stage::Link { prev, next }
            },
            Stage::Link { prev, next } => {
                self.chain.join(prev, next);
                Stage::Done
            },
            Stage::Done => Stage::Done,
        };
        Send { stage, backoff }
    }

    /// The access that any send makes next is to memory that is there, and finds what it has to
    /// find.
    pub proof fn lemma_accepts(self, ops: Map<int, Stage<T>>, i: int)
        requires
            self.inv(ops),
            ops.contains_key(i),
            ops[i] is Allocate ==> self.has_room(),
        ensures
            self.accepts(ops[i]),
    {
        let hs = holds(ops);
        assert(hs.contains_key(i) && hs[i] == ops[i].hold());
        self.chain.lemma_facts(hs);
        assert(Self::op_ok(ops[i]));
    }

    /// Whatever sends are under way, one access of any of them keeps the invariant. The access
    /// that wins the exchange puts the value of the send at the end of the queue, and no other
    /// access changes the queue; the consumer's place is left alone once there is one.
    pub proof fn lemma_send(self, ops: Map<int, Stage<T>>, i: int, post: Self, next: Stage<T>)
        requires
            self.inv(ops),
            ops.contains_key(i),
            self.send_next(ops[i], post, next),
        ensures
            post.inv(ops.insert(i, next)),
            self.chain.head != 0 ==> self.chain.same_place(post.chain),
            post@ == if ops[i] is Exchange && ops[i]->Exchange_seen == self.tail {
                self@.push(ops[i]->Exchange_value)
            } else {
                self@
            },
    {
        let c = self.chain;
        let hs = holds(ops);
        let op = ops[i];
        assert(hs.contains_key(i) && hs[i] == op.hold());
        c.lemma_facts(hs);
        assert(holds(ops.insert(i, next)) =~= hs.insert(i, next.hold()));
        assert(Self::op_ok(op));
        match op {
            Stage::Load { value, spare, lost } => {
                assert(hs.insert(i, next.hold()) =~= hs);
            },
            Stage::Allocate { value, seen } => {
                c.lemma_allocate(post.chain, c.heap.fresh(), hs, i);
            },
            Stage::Exchange { value, spare, seen } => {
                if self.tail != seen {
                    assert(hs.insert(i, next.hold()) =~= hs);
                } else if grows(seen) {
                    c.lemma_append(hs, i);
                    let mid = c.append(spare);
                    let h = Hold { edge: Some(Edge { prev: c.last@, next: spare }), ..idle() };
                    mid.lemma_claim(hs.insert(i, h), i, value);
                    assert(hs.insert(i, h).insert(i, next.hold()) =~= hs.insert(i, next.hold()));
                } else {
                    c.lemma_claim(hs, i, value);
                }
            },
            Stage::Publish { value, spare, block, index } => {
                if spare == 0 {
                    c.lemma_publish(post.chain, hs, i);
                } else {
                    let mid = choose|mid: Chain<T, BLOCK_SIZE, BLOCK_ALIGN>| #[trigger]
                        c.published(mid, block, index as int, value) && mid.released(
                            post.chain,
                            spare,
                        );
                    c.lemma_publish(mid, hs, i);
                    let h = Hold { spare, ..idle() };
                    assert(hs.insert(i, h)[i] == h);
                    mid.lemma_release(post.chain, hs.insert(i, h), i);
                    assert(hs.insert(i, h).insert(i, next.hold()) =~= hs.insert(i, next.hold()));
                }
            },
            Stage::PublishFirst { value, prev, next: appended } => {
                c.lemma_publish(post.chain, hs, i);
            },
            Stage::Link { prev, next: appended } => {
                c.lemma_join(post.chain, hs, i);
            },
            Stage::Done => {
                assert(hs.insert(i, next.hold()) =~= hs);
            },
        }
        if op is Exchange && op->Exchange_seen == self.tail {
            assert(post@ =~= self@.push(op->Exchange_value));
        }
    }

    /// A send puts a block on the heap only if there is none yet or the last one is full, and a
    /// block that it then did not need it takes off the heap again; no other access changes which
    /// blocks there are. It starts anew only after an exchange that another send won, which
    /// leaves it its block, and an exchange that finds the tail that it expects claims the slot.
    pub proof fn lemma_blocks(self, ops: Map<int, Stage<T>>, i: int, post: Self, next: Stage<T>)
        requires
            self.inv(ops),
            ops.contains_key(i),
            self.send_next(ops[i], post, next),
        ensures
            post.chain.heap@.dom() == match ops[i] {
                Stage::Allocate { value, seen } => self.chain.heap@.dom().insert(
                    self.chain.heap.fresh(),
                ),
                Stage::Publish { value, spare, block, index } => if spare != 0 {
                    self.chain.heap@.dom().remove(spare)
                } else {
                    self.chain.heap@.dom()
                },
                _ => self.chain.heap@.dom(),
            },
            next is Allocate ==> ops[i] is Load && (self.chain.last@ == 0 || self.chain.log@.len()
                == self.chain.base@[self.chain.last@] + BLOCK_SIZE),
            next matches Stage::Load { value, spare, lost } ==> {
                &&& lost
                &&& ops[i] matches Stage::Exchange { value: v, spare: kept, seen }
                &&& kept == spare
                &&& seen != self.tail
            },
            next matches Stage::Publish { value, spare, block, index } ==> ops[i]->Exchange_spare
                == spare,
            ops[i] matches Stage::Exchange { value, spare, seen } ==> (seen == self.tail ==> next
                is Publish || next is PublishFirst),
    {
        let hs = holds(ops);
        assert(hs.contains_key(i) && hs[i] == ops[i].hold());
        self.chain.lemma_facts(hs);
        assert(Self::op_ok(ops[i]));
    }

    /// How many accesses of the send are left at most while nothing else happens.
    pub open spec fn left(self, op: Stage<T>) -> nat {
        match op {
            Stage::Load { .. } => 5,
            Stage::Allocate { value, seen } => if seen == self.tail {
                4
            } else {
                7
            },
            Stage::Exchange { value, spare, seen } => if seen == self.tail {
                3
            } else {
                6
            },
            Stage::PublishFirst { .. } => 2,
            Stage::Publish { .. } => 1,
            Stage::Link { .. } => 1,
            Stage::Done => 0,
        }
    }

    /// Wherever a send is, and whatever the others have done, each access brings it nearer to its
    /// end: with nothing else in between it is over after at most seven. It goes to its end and
    /// is never given up.
    pub proof fn lemma_progress(self, op: Stage<T>, post: Self, next: Stage<T>)
        requires
            !(op is Done),
            self.send_next(op, post, next),
        ensures
            post.left(next) < self.left(op) <= 7,
            next is Done ==> Self::unsent(op) is None,
            Self::unsent(next) is Some ==> Self::unsent(next) == Self::unsent(op),
    {
    }

    /// A send may begin at any time.
    pub proof fn lemma_start(self, ops: Map<int, Stage<T>>, i: int, value: T)
        requires
            self.inv(ops),
            !ops.contains_key(i),
        ensures
            self.inv(ops.insert(i, Stage::Load { value, spare: 0, lost: false })),
    {
        let op = Stage::Load { value, spare: 0, lost: false };
        self.chain.lemma_enter(holds(ops), i);
        assert(holds(ops.insert(i, op)) =~= holds(ops).insert(i, idle()));
    }

    /// A send that is over may be forgotten.
    pub proof fn lemma_finish(self, ops: Map<int, Stage<T>>, i: int)
        requires
            self.inv(ops),
            ops.contains_key(i),
            ops[i] is Done,
        ensures
            self.inv(ops.remove(i)),
    {
        let hs = holds(ops);
        assert(hs.contains_key(i) && hs[i] == idle::<T>());
        self.chain.lemma_leave(hs, i);
        assert(holds(ops.remove(i)) =~= hs.remove(i));
    }

    /// Whatever sends are under way, one access of a receive keeps the invariant, and the value
    /// that a receive takes is the oldest of those that were claimed and not yet taken.
    pub proof fn lemma_recv(
        self,
        ops: Map<int, Stage<T>>,
        op: Recv<T>,
        post: Self,
        next: Recv<T>,
    )
        requires
            self.inv(ops),
            self.chain.recv_ok(op),
            post.tail == self.tail,
            self.chain.recv_next(op, post.chain, next, true),
        ensures
            post.inv(ops),
            post.chain.recv_ok(next),
            match (op, next) {
                (Recv::Read, Recv::Done(Some(value))) => {
                    &&& self@.len() > 0
                    &&& value == self@[0]
                    &&& post@ == self@.skip(1)
                },
                _ => post@ == self@,
            },
    {
        self.chain.lemma_recv(op, post.chain, next, true, holds(ops));
        match (op, next) {
            (Recv::Read, Recv::Done(Some(value))) => {
                assert(post@ =~= self@.skip(1));
            },
            _ => {},
        }
    }

    /// Performs one access of a receive.
    pub fn recv_step(&mut self, op: Recv<T>) -> (next: Recv<T>)
        requires
            old(self).chain.recv_ok(op),
            old(self).chain.recv_safe(),
        ensures
            final(self).tail == old(self).tail,
            old(self).chain.recv_next(op, final(self).chain, next, true),
    {
        self.chain.recv_step(op, true)
    }

    /// The next send puts another block on the heap.
    pub open spec fn takes_block(self) -> bool {
        grows(self.tail)
    }

    /// Puts `value` at the end of the queue.
    pub fn send(&mut self, value: T)
        requires
            old(self).wf(),
            old(self).takes_block() ==> old(self).has_room(),
        ensures
            final(self).wf(),
            final(self)@ == old(self)@.push(value),
            final(self).chain.heap@.dom() == if old(self).takes_block() {
                old(self).chain.heap@.dom().insert(old(self).chain.heap.fresh())
            } else {
                old(self).chain.heap@.dom()
            },
            final(self).chain.heap.room() == old(self).chain.heap.room() - if old(self).takes_block() {
                1int
            } else {
                0
            },
    {
        let mut op = Send::new(value);
        let ghost ops = Map::<int, Stage<T>>::empty();
        proof {
            self.lemma_start(ops, 0, value);
        }
        loop
            invariant
                old(self).wf(),
                self.inv(ops.insert(0, op.stage)),
                ops == Map::<int, Stage<T>>::empty(),
                old(self).takes_block() ==> old(self).has_room(),
                self.chain.heap@.dom() == if old(self).takes_block() && op.stage.rank() < 4 {
                    old(self).chain.heap@.dom().insert(old(self).chain.heap.fresh())
                } else {
                    old(self).chain.heap@.dom()
                },
                old(self).takes_block() && !(op.stage.rank() < 4) ==> self.chain.heap == old(self).chain.heap,
                self.chain.heap.room() == old(self).chain.heap.room() - if old(self).takes_block()
                    && op.stage.rank() < 4 {
                    1int
                } else {
                    0
                },
                match op.stage {
                    Stage::Load { value: v, spare, lost } => v == value && self@ == old(self)@
                        && spare == 0 && self.tail == old(self).tail,
                    Stage::Allocate { value: v, seen } => v == value && self@ == old(self)@
                        && self.tail == seen && seen == old(self).tail && old(self).takes_block(),
                    Stage::Exchange { value: v, spare, seen } => v == value && self@ == old(self)@
                        && self.tail == seen && seen == old(self).tail && (!old(self).takes_block()
                        ==> spare == 0),
                    Stage::Publish { spare, .. } => self@ == old(self)@.push(value) && spare == 0,
                    _ => self@ == old(self)@.push(value),
                },
            decreases op.stage.rank(),
        {
            if let Stage::Done = op.stage {
                proof {
                    self.lemma_finish(ops.insert(0, op.stage), 0);
                    assert(ops.insert(0, op.stage).remove(0) =~= ops);
                }
                return;
            }
            let ghost pre = *self;
            let ghost before = op.stage;
            proof {
                assert(ops.insert(0, before)[0] == before);
                pre.lemma_accepts(ops.insert(0, before), 0);
            }
            op = self.send_step(op);
            proof {
                pre.lemma_send(ops.insert(0, before), 0, *self, op.stage);
                assert(ops.insert(0, before).insert(0, op.stage) =~= ops.insert(0, op.stage));
            }
        }
    }

    /// Takes the oldest value out of the queue.
    pub fn try_recv(&mut self) -> (value: Option<T>)
        requires
            old(self).wf(),
        ensures
            final(self).wf(),
            final(self).chain.heap@.dom() == if old(self).chain.leaves() {
                old(self).chain.heap@.dom().remove(old(self).chain.head)
            } else {
                old(self).chain.heap@.dom()
            },
            final(self).chain.heap.room() == old(self).chain.heap.room() + if old(self).chain.leaves() {
                1int
            } else {
                0
            },
            match value {
                Some(v) => {
                    &&& old(self)@.len() > 0
                    &&& v == old(self)@[0]
                    &&& final(self)@ == old(self)@.skip(1)
                },
                None => old(self)@.len() == 0 && final(self)@ == old(self)@,
            },
    {
        assert(holds(Map::<int, Stage<T>>::empty()) =~= Map::empty());
        self.chain.try_recv(true)
    }
}

/// Every run of sends and receives, whatever way their accesses follow each other.
impl<T> Machine for Queue<T> {
    type Item = T;

    type Send = Stage<T>;

    type Recv = Recv<T>;

    open spec fn fits(self, sends: Map<int, Stage<T>>, recv: Recv<T>) -> bool {
        self.inv(sends) && self.chain.recv_ok(recv)
    }

    open spec fn held(self) -> Seq<T> {
        self@
    }

    open spec fn unsent(send: Stage<T>) -> Option<T> {
        match send {
            Stage::Load { value, .. } => Some(value),
            Stage::Allocate { value, .. } => Some(value),
            Stage::Exchange { value, .. } => Some(value),
            _ => None,
        }
    }

    open spec fn sent(send: Stage<T>) -> bool {
        send is Done
    }

    open spec fn owes(send: Stage<T>) -> bool {
        Self::unsent(send) is None && !Self::sent(send)
    }

    open spec fn awaited(sends: Map<int, Stage<T>>) -> bool {
        exists|i: int| #[trigger] sends.contains_key(i) && Self::owes(sends[i])
    }

    open spec fn got(recv: Recv<T>) -> Option<T> {
        recv.result()
    }

    open spec fn missed(recv: Recv<T>) -> bool {
        recv is Done && recv.result() is None
    }

    open spec fn starts(self, sends: Map<int, Stage<T>>, sender: int, send: Stage<T>) -> bool {
        send matches Stage::Load { value, spare, lost } && spare == 0 && !lost
    }

    open spec fn sends_on(
        self,
        sends: Map<int, Stage<T>>,
        sender: int,
        post: Self,
        next: Stage<T>,
    ) -> bool {
        self.send_next(sends[sender], post, next)
    }

    open spec fn renews(recv: Recv<T>, next: Recv<T>) -> bool {
        recv is Done && next is Head
    }

    open spec fn recvs_on(
        self,
        sends: Map<int, Stage<T>>,
        recv: Recv<T>,
        post: Self,
        next: Recv<T>,
    ) -> bool {
        &&& post.tail == self.tail
        &&& self.chain.recv_next(recv, post.chain, next, true)
    }

    proof fn lemma_starts(
        self,
        sends: Map<int, Stage<T>>,
        recv: Recv<T>,
        sender: int,
        send: Stage<T>,
    ) {
        self.lemma_start(sends, sender, send->Load_value);
    }

    proof fn lemma_sends_on(
        self,
        sends: Map<int, Stage<T>>,
        recv: Recv<T>,
        sender: int,
        post: Self,
        next: Stage<T>,
    ) {
        self.lemma_send(sends, sender, post, next);
    }

    proof fn lemma_sent(self, sends: Map<int, Stage<T>>, recv: Recv<T>, sender: int) {
        self.lemma_finish(sends, sender);
    }

    proof fn lemma_renews(self, sends: Map<int, Stage<T>>, recv: Recv<T>, next: Recv<T>) {
    }

    proof fn lemma_recvs_on(
        self,
        sends: Map<int, Stage<T>>,
        recv: Recv<T>,
        post: Self,
        next: Recv<T>,
    ) {
        self.lemma_recv(sends, recv, post, next);
        if Self::missed(next) && !Self::missed(recv) && self.held().len() > 0 {
            let hs = holds(sends);
            self.chain.lemma_recv_waits(recv, post.chain, true, hs);
            let i = choose|i: int| #[trigger]
                hs.contains_key(i) && (hs[i].slot is Some || hs[i].edge is Some);
            assert(sends.contains_key(i) && Self::owes(sends[i]));
        }
    }
}

} // verus!
