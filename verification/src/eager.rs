//! The unbounded queue whose senders append the next block as soon as the last slot is claimed.
//!
//! The tail word points to the block that is being filled and carries the number of its claimed
//! slots as a tag. One compare-and-exchange of the tail claims a slot; the exchange that claims
//! the last slot also moves the tail to a new block.
use crate::chain::{idle, Chain, Claim, Edge, Hold, Recv};
use crate::history::Machine;
use crate::shared::Pointer;
use vstd::prelude::*;

verus! {

/// Slots in a block.
pub const BLOCK_SIZE: usize = 32;

/// Alignment of a block, and so the number of tags of a pointer to one.
pub const BLOCK_ALIGN: usize = 32;

/// The shared memory of the queue.
pub struct Eager<T> {
    pub chain: Chain<T, BLOCK_SIZE, BLOCK_ALIGN>,
    pub tail: Pointer,
}

/// A push that is under way: the access to the memory that comes next.
pub enum Push<T> {
    /// Load the tail; `lost` if another push won the last exchange.
    Load { value: T, spare: usize, lost: bool },
    /// Allocate the block that the exchange is going to append.
    Allocate { value: T, seen: Pointer },
    /// Exchange the tail that was seen for the next one.
    Exchange { value: T, spare: usize, seen: Pointer },
    /// Link the block that was appended.
    Link { value: T, block: usize, index: usize, prev: usize, next: usize },
    /// Store the value in the claimed slot, and free a block that was not needed.
    Publish { value: T, spare: usize, block: usize, index: usize },
    /// The push is over.
    Done,
}

/// The exchange of this tail has to append a block.
pub open spec fn grows(seen: Pointer) -> bool {
    seen.cell(BLOCK_ALIGN) == 0 || seen.addr % BLOCK_ALIGN == BLOCK_ALIGN - 1
}

impl<T> Push<T> {
    /// What the push owns.
    pub open spec fn hold(self) -> Hold<T> {
        match self {
            Push::Load { value, spare, lost } => Hold { spare, ..idle() },
            Push::Allocate { value, seen } => idle(),
            Push::Exchange { value, spare, seen } => Hold { spare, ..idle() },
            Push::Link { value, block, index, prev, next } => Hold {
                slot: Some(Claim { block, index: index as int, value }),
                edge: Some(Edge { prev, next }),
                ..idle()
            },
            Push::Publish { value, spare, block, index } => Hold {
                spare,
                slot: Some(Claim { block, index: index as int, value }),
                ..idle()
            },
            Push::Done => idle(),
        }
    }

    /// How many accesses are left at most while no other push interferes.
    pub open spec fn rank(self) -> nat {
        match self {
            Push::Load { .. } => 5,
            Push::Allocate { .. } => 4,
            Push::Exchange { .. } => 3,
            Push::Link { .. } => 2,
            Push::Publish { .. } => 1,
            Push::Done => 0,
        }
    }
}

/// What all the pushes that are under way own.
pub open spec fn holds<T>(ops: Map<int, Push<T>>) -> Map<int, Hold<T>> {
    ops.map_values(|op: Push<T>| op.hold())
}

impl<T> Eager<T> {
    /// The tail points to the block that was appended last and counts its claimed slots.
    pub open spec fn tail_ok(self) -> bool {
        let c = self.chain;
        &&& c.last@ == 0 ==> self.tail.addr == 0
        &&& c.last@ != 0 ==> self.tail.addr == c.last@ + (c.log@.len() - c.base@[c.last@])
            && c.log@.len() < c.base@[c.last@] + BLOCK_SIZE
    }

    /// An exchange that has to append a block has one.
    pub open spec fn op_ok(op: Push<T>) -> bool {
        match op {
            Push::Exchange { value, spare, seen } => grows(seen) ==> spare != 0,
            _ => true,
        }
    }

    /// The invariant of the queue together with the pushes that are under way.
    pub open spec fn inv(self, ops: Map<int, Push<T>>) -> bool {
        &&& self.chain.inv(holds(ops))
        &&& self.tail_ok()
        &&& forall|i: int| #[trigger] ops.contains_key(i) ==> Self::op_ok(ops[i])
    }

    /// The invariant while no push is under way.
    pub open spec fn wf(self) -> bool {
        self.inv(Map::empty())
    }

    /// The values in the queue, the oldest first.
    pub open spec fn view(self) -> Seq<T> {
        self.chain.pending()
    }

    /// The next access of the push is to memory that is there.
    pub open spec fn accepts(self, op: Push<T>) -> bool {
        &&& self.chain.heap.wf()
        &&& match op {
            Push::Load { .. } => true,
            Push::Allocate { .. } => self.chain.heap.has_room(),
            Push::Exchange { value, spare, seen } => grows(seen) ==> spare != 0 && spare
                % BLOCK_ALIGN == 0,
            Push::Link { value, block, index, prev, next } => prev != 0
                ==> self.chain.heap@.contains_key(prev),
            Push::Publish { value, spare, block, index } => {
                &&& self.chain.heap@.contains_key(block)
                &&& index < self.chain.heap@[block].slots@.len()
                &&& spare != 0 ==> self.chain.heap@.contains_key(spare) && spare != block
            },
            Push::Done => true,
        }
    }

    /// One access of a push. A weak exchange may fail though it need not (`spurious`).
    pub open spec fn push_next(self, op: Push<T>, spurious: bool, post: Self, next: Push<T>) -> bool {
        match op {
            Push::Load { value, spare, lost } => {
                &&& post == self
                &&& next == if grows(self.tail) && spare == 0 {
                    Push::Allocate { value, seen: self.tail }
                } else {
                    Push::Exchange { value, spare, seen: self.tail }
                }
            },
            Push::Allocate { value, seen } => {
                &&& post.tail == self.tail
                &&& self.chain.allocated(post.chain, self.chain.heap.fresh())
                &&& next == Push::Exchange { value, spare: self.chain.heap.fresh(), seen }
            },
            Push::Exchange { value, spare, seen } => {
                let block = seen.cell(BLOCK_ALIGN) as usize;
                let index = seen.addr % BLOCK_ALIGN;
                if self.tail != seen || spurious {
                    post == self && next == Push::Load { value, spare, lost: true }
                } else if block == 0 {
                    &&& post.chain == self.chain.append(spare).claim(value)
                    &&& post.tail.addr == spare + 1
                    &&& next == Push::Link { value, block: spare, index: 0, prev: 0, next: spare }
                } else if index == BLOCK_ALIGN - 1 {
                    &&& post.chain == self.chain.claim(value).append(spare)
                    &&& post.tail.addr == spare
                    &&& next == Push::Link { value, block, index, prev: block, next: spare }
                } else {
                    &&& post.chain == self.chain.claim(value)
                    &&& post.tail.addr == seen.addr + 1
                    &&& next == Push::Publish { value, spare, block, index }
                }
            },
            Push::Link { value, block, index, prev, next: appended } => {
                &&& post.tail == self.tail
                &&& self.chain.joined(post.chain, prev, appended)
                &&& next == Push::Publish { value, spare: 0, block, index }
            },
            Push::Publish { value, spare, block, index } => {
                &&& post.tail == self.tail
                &&& next == Push::<T>::Done
                &&& if spare == 0 {
                    self.chain.published(post.chain, block, index as int, value)
                } else {
                    exists|mid: Chain<T, BLOCK_SIZE, BLOCK_ALIGN>| #[trigger]
                        self.chain.published(mid, block, index as int, value) && mid.released(
                            post.chain,
                            spare,
                        )
                }
            },
            Push::Done => post == self && next == op,
        }
    }

    /// A queue without values.
    pub fn new() -> (queue: Self)
        ensures
            queue.wf(),
            queue.view() == Seq::<T>::empty(),
            queue.chain.heap.room() == (usize::MAX - 32) / 32,
    {
        let queue = Eager { chain: Chain::new(), tail: Pointer { addr: 0 } };
        assert(holds(Map::<int, Push<T>>::empty()) =~= Map::empty());
        assert(queue.view() =~= Seq::empty());
        queue
    }

    /// Performs one access of a push.
    pub fn push_step(&mut self, op: Push<T>, spurious: bool) -> (next: Push<T>)
        requires
            old(self).accepts(op),
        ensures
            old(self).push_next(op, spurious, *final(self), next),
    {
        match op {
            Push::Load { value, spare, lost } => {
                let seen = self.tail;
                if (seen.untagged(BLOCK_ALIGN) == 0 || seen.tag(BLOCK_ALIGN) == BLOCK_ALIGN - 1)
                    && spare == 0 {
                    Push::Allocate { value, seen }
                } else {
                    Push::Exchange { value, spare, seen }
                }
            },
            Push::Allocate { value, seen } => {
                let spare: usize = self.chain.allocate();
                Push::Exchange { value, spare, seen }
            },
            Push::Exchange { value, spare, seen } => {
                let block: usize = seen.untagged(BLOCK_ALIGN);
                let index: usize = seen.tag(BLOCK_ALIGN);
                if self.tail != seen || spurious {
                    return Push::Load { value, spare, lost: true };
                }
                if block == 0 {
                    self.tail = Pointer::tagged(spare, 1, BLOCK_ALIGN);
                    self.chain.note_append(spare);
                    self.chain.note_claim(Ghost(value));
                    Push::Link { value, block: spare, index: 0, prev: 0, next: spare }
                } else if index == BLOCK_ALIGN - 1 {
                    self.tail = Pointer::tagged(spare, 0, BLOCK_ALIGN);
                    self.chain.note_claim(Ghost(value));
                    self.chain.note_append(spare);
                    Push::Link { value, block, index, prev: block, next: spare }
                } else {
                    self.tail = Pointer::tagged(block, index + 1, BLOCK_ALIGN);
                    self.chain.note_claim(Ghost(value));
                    Push::Publish { value, spare, block, index }
                }
            },
            Push::Link { value, block, index, prev, next } => {
                self.chain.join(prev, next);
                Push::Publish { value, spare: 0, block, index }
            },
            Push::Publish { value, spare, block, index } => {
                self.chain.publish(block, index, value);
                if spare != 0 {
                    self.chain.release(spare);
                }
                Push::Done
            },
            Push::Done => Push::Done,
        }
    }

    /// The access that any push makes next is to memory that is there.
    pub proof fn lemma_accepts(self, ops: Map<int, Push<T>>, i: int)
        requires
            self.inv(ops),
            ops.contains_key(i),
            ops[i] is Allocate ==> self.chain.heap.has_room(),
        ensures
            self.accepts(ops[i]),
    {
        let hs = holds(ops);
        assert(hs.contains_key(i) && hs[i] == ops[i].hold());
        self.chain.lemma_facts(hs);
    }

    /// Whatever pushes are under way, one access of any of them keeps the invariant. The access
    /// that wins the exchange puts the value of the push at the end of the queue, and no other
    /// access changes the queue; the consumer's place is left alone once there is one.
    pub proof fn lemma_push(
        self,
        ops: Map<int, Push<T>>,
        i: int,
        spurious: bool,
        post: Self,
        next: Push<T>,
    )
        requires
            self.inv(ops),
            ops.contains_key(i),
            self.push_next(ops[i], spurious, post, next),
        ensures
            post.inv(ops.insert(i, next)),
            self.chain.head != 0 ==> self.chain.same_place(post.chain),
            post@ == if ops[i] is Exchange && ops[i]->Exchange_seen == self.tail && !spurious {
                self@.push(ops[i]->Exchange_value)
            } else {
                self@
            },
    {
        let c = self.chain;
        let hs = holds(ops);
        let op = ops[i];
        assert(hs.contains_key(i) && hs[i] == op.hold());
        c.lemma_facts(hs);
        assert(holds(ops.insert(i, next)) =~= hs.insert(i, next.hold()));
        assert(Self::op_ok(op));
        match op {
            Push::Load { value, spare, lost } => {
                assert(hs.insert(i, next.hold()) =~= hs);
            },
            Push::Allocate { value, seen } => {
                c.lemma_allocate(post.chain, c.heap.fresh(), hs, i);
            },
            Push::Exchange { value, spare, seen } => {
                if self.tail != seen || spurious {
                    assert(hs.insert(i, next.hold()) =~= hs);
                } else if seen.cell(BLOCK_ALIGN) == 0 {
                    assert(c.last@ == 0);
                    c.lemma_append(hs, i);
                    let mid = c.append(spare);
                    let h = Hold { edge: Some(Edge { prev: 0, next: spare }), ..idle() };
                    mid.lemma_claim(hs.insert(i, h), i, value);
                    assert(hs.insert(i, h).insert(i, next.hold()) =~= hs.insert(i, next.hold()));
                } else if seen.addr % BLOCK_ALIGN == BLOCK_ALIGN - 1 {
                    let mid = c.claim(value);
                    c.lemma_claim(hs, i, value);
                    let h = Hold { spare, slot: Some(c.next_claim(value)), ..idle() };
                    assert(hs.insert(i, h)[i] == h);
                    mid.lemma_append(hs.insert(i, h), i);
                    assert(hs.insert(i, h).insert(i, next.hold()) =~= hs.insert(i, next.hold()));
                } else {
                    c.lemma_claim(hs, i, value);
                }
            },
            Push::Link { value, block, index, prev, next: appended } => {
                c.lemma_join(post.chain, hs, i);
            },
            Push::Publish { value, spare, block, index } => {
                if spare == 0 {
                    c.lemma_publish(post.chain, hs, i);
                } else {
                    let mid = choose|mid: Chain<T, BLOCK_SIZE, BLOCK_ALIGN>| #[trigger]
                        c.published(mid, block, index as int, value) && mid.released(
                            post.chain,
                            spare,
                        );
                    c.lemma_publish(mid, hs, i);
                    let h = Hold { spare, ..idle() };
                    assert(hs.insert(i, h)[i] == h);
                    mid.lemma_release(post.chain, hs.insert(i, h), i);
                    assert(hs.insert(i, h).insert(i, next.hold()) =~= hs.insert(i, next.hold()));
                }
            },
            Push::Done => {
                assert(hs.insert(i, next.hold()) =~= hs);
            },
        }
        if op is Exchange && op->Exchange_seen == self.tail && !spurious {
            assert(post@ =~= self@.push(op->Exchange_value));
        }
    }

    /// A push puts a block on the heap only if there is none yet or the slot that it found is the
    /// last of its block, and a block that it then did not need it takes off the heap again; no
    /// other access changes which blocks there are. It starts anew only after an exchange that
    /// failed, which keeps its block, and an exchange that finds the tail that it expects claims
    /// the slot.
    pub proof fn lemma_blocks(
        self,
        ops: Map<int, Push<T>>,
        i: int,
        spurious: bool,
        post: Self,
        next: Push<T>,
    )
        requires
            self.inv(ops),
            ops.contains_key(i),
            self.push_next(ops[i], spurious, post, next),
        ensures
            post.chain.heap@.dom() == match ops[i] {
                Push::Allocate { value, seen } => self.chain.heap@.dom().insert(
                    self.chain.heap.fresh(),
                ),
                Push::Publish { value, spare, block, index } => if spare != 0 {
                    self.chain.heap@.dom().remove(spare)
                } else {
                    self.chain.heap@.dom()
                },
                _ => self.chain.heap@.dom(),
            },
            next is Allocate ==> ops[i] is Load && (self.chain.last@ == 0
                || self.chain.log@.len() + 1 == self.chain.base@[self.chain.last@] + BLOCK_SIZE),
            next matches Push::Load { value, spare, lost } ==> {
                &&& lost
                &&& ops[i] matches Push::Exchange { value: v, spare: kept, seen }
                &&& kept == spare
                &&& seen != self.tail || spurious
            },
            next matches Push::Publish { value, spare, block, index } ==> spare == 0
                || ops[i]->Exchange_spare == spare,
            ops[i] matches Push::Exchange { value, spare, seen } ==> (seen == self.tail && !spurious
                ==> next is Link || next is Publish),
    {
        let hs = holds(ops);
        assert(hs.contains_key(i) && hs[i] == ops[i].hold());
        self.chain.lemma_facts(hs);
    }

    /// How many accesses of the push are left at most while nothing else happens.
    pub open spec fn left(self, op: Push<T>) -> nat {
        match op {
            Push::Load { .. } => 5,
            Push::Allocate { value, seen } => if seen == self.tail {
                4
            } else {
                7
            },
            Push::Exchange { value, spare, seen } => if seen == self.tail {
                3
            } else {
                6
            },
            Push::Link { .. } => 2,
            Push::Publish { .. } => 1,
            Push::Done => 0,
        }
    }

    /// Wherever a push is, and whatever the others have done, each access brings it nearer to its
    /// end: with nothing else in between it is over after at most seven. It goes to its end and
    /// is never given up.
    pub proof fn lemma_progress(self, op: Push<T>, post: Self, next: Push<T>)
        requires
            !(op is Done),
            self.push_next(op, false, post, next),
        ensures
            post.left(next) < self.left(op) <= 7,
            next is Done ==> Self::unsent(op) is None,
            Self::unsent(next) is Some ==> Self::unsent(next) == Self::unsent(op),
    {
    }

    /// A push may begin at any time.
    pub proof fn lemma_start(self, ops: Map<int, Push<T>>, i: int, value: T)
        requires
            self.inv(ops),
            !ops.contains_key(i),
        ensures
            self.inv(ops.insert(i, Push::Load { value, spare: 0, lost: false })),
    {
        let op = Push::Load { value, spare: 0, lost: false };
        self.chain.lemma_enter(holds(ops), i);
        assert(holds(ops.insert(i, op)) =~= holds(ops).insert(i, idle()));
    }

    /// A push that is over may be forgotten.
    pub proof fn lemma_finish(self, ops: Map<int, Push<T>>, i: int)
        requires
            self.inv(ops),
            ops.contains_key(i),
            ops[i] is Done,
        ensures
            self.inv(ops.remove(i)),
    {
        let hs = holds(ops);
        assert(hs.contains_key(i) && hs[i] == idle::<T>());
        self.chain.lemma_leave(hs, i);
        assert(holds(ops.remove(i)) =~= hs.remove(i));
    }

    /// Whatever pushes are under way, one access of a receive keeps the invariant, and the value
    /// that a receive takes is the oldest of those that were claimed and not yet taken.
    pub proof fn lemma_recv(
        self,
        ops: Map<int, Push<T>>,
        op: Recv<T>,
        post: Self,
        next: Recv<T>,
    )
        requires
            self.inv(ops),
            self.chain.recv_ok(op),
            post.tail == self.tail,
            self.chain.recv_next(op, post.chain, next, true),
        ensures
            post.inv(ops),
            post.chain.recv_ok(next),
            self.chain.kept_record(post.chain),
            match (op, next) {
                (Recv::Read, Recv::Done(Some(value))) => {
                    &&& self@.len() > 0
                    &&& value == self@[0]
                    &&& post@ == self@.skip(1)
                },
                _ => post@ == self@,
            },
    {
        self.chain.lemma_recv(op, post.chain, next, true, holds(ops));
        match (op, next) {
            (Recv::Read, Recv::Done(Some(value))) => {
                assert(post@ =~= self@.skip(1));
            },
            _ => {},
        }
    }

    /// Performs one access of a receive.
    pub fn recv_step(&mut self, op: Recv<T>) -> (next: Recv<T>)
        requires
            old(self).chain.recv_ok(op),
            old(self).chain.recv_safe(),
        ensures
            final(self).tail == old(self).tail,
            old(self).chain.recv_next(op, final(self).chain, next, true),
    {
        self.chain.recv_step(op, true)
    }

    /// The next push puts another block on the heap.
    pub open spec fn takes_block(self) -> bool {
        grows(self.tail)
    }

    /// Puts `value` at the end of the queue.
    pub fn push(&mut self, value: T)
        requires
            old(self).wf(),
            old(self).takes_block() ==> old(self).chain.heap.has_room(),
        ensures
            final(self).wf(),
            final(self)@ == old(self)@.push(value),
            final(self).chain.heap@.dom() == if old(self).takes_block() {
                old(self).chain.heap@.dom().insert(old(self).chain.heap.fresh())
            } else {
                old(self).chain.heap@.dom()
            },
            final(self).chain.heap.room() == old(self).chain.heap.room() - if old(self).takes_block() {
                1int
            } else {
                0
            },
    {
        let mut op = Push::Load { value, spare: 0, lost: false };
        let ghost ops = Map::<int, Push<T>>::empty();
        proof {
            self.lemma_start(ops, 0, value);
        }
        loop
            invariant
                old(self).wf(),
                self.inv(ops.insert(0, op)),
                ops == Map::<int, Push<T>>::empty(),
                old(self).takes_block() ==> old(self).chain.heap.has_room(),
                self.chain.heap@.dom() == if old(self).takes_block() && op.rank() < 4 {
                    old(self).chain.heap@.dom().insert(old(self).chain.heap.fresh())
                } else {
                    old(self).chain.heap@.dom()
                },
                old(self).takes_block() && !(op.rank() < 4) ==> self.chain.heap == old(self).chain.heap,
                self.chain.heap.room() == old(self).chain.heap.room() - if old(self).takes_block()
                    && op.rank() < 4 {
                    1int
                } else {
                    0
                },
                match op {
                    Push::Load { value: v, spare, lost } => v == value && self@ == old(self)@
                        && spare == 0 && self.tail == old(self).tail,
                    Push::Allocate { value: v, seen } => v == value && self@ == old(self)@
                        && self.tail == seen && seen == old(self).tail && old(self).takes_block(),
                    Push::Exchange { value: v, spare, seen } => v == value && self@ == old(self)@
                        && self.tail == seen && seen == old(self).tail && (!old(self).takes_block()
                        ==> spare == 0),
                    Push::Publish { spare, .. } => self@ == old(self)@.push(value) && spare == 0,
                    _ => self@ == old(self)@.push(value),
                },
            decreases op.rank(),
        {
            if let Push::Done = op {
                proof {
                    self.lemma_finish(ops.insert(0, op), 0);
                    assert(ops.insert(0, op).remove(0) =~= ops);
                }
                return;
            }
            let ghost pre = *self;
            let ghost before = op;
            proof {
                assert(ops.insert(0, op)[0] == op);
                pre.lemma_accepts(ops.insert(0, op), 0);
            }
            op = self.push_step(op, false);
            proof {
                pre.lemma_push(ops.insert(0, before), 0, false, *self, op);
                assert(ops.insert(0, before).insert(0, op) =~= ops.insert(0, op));
            }
        }
    }

    /// Takes the oldest value out of the queue.
    pub fn try_pop(&mut self) -> (value: Option<T>)
        requires
            old(self).wf(),
        ensures
            final(self).wf(),
            final(self).chain.heap@.dom() == if old(self).chain.leaves() {
                old(self).chain.heap@.dom().remove(old(self).chain.head)
            } else {
                old(self).chain.heap@.dom()
            },
            final(self).chain.heap.room() == old(self).chain.heap.room() + if old(self).chain.leaves() {
                1int
            } else {
                0
            },
            match value {
                Some(v) => {
                    &&& old(self)@.len() > 0
                    &&& v == old(self)@[0]
                    &&& final(self)@ == old(self)@.skip(1)
                },
                None => old(self)@.len() == 0 && final(self)@ == old(self)@,
            },
    {
        assert(holds(Map::<int, Push<T>>::empty()) =~= Map::empty());
        self.chain.try_recv(true)
    }
}

/// Every run of sends and receives, whatever way their accesses follow each other.
impl<T> Machine for Eager<T> {
    type Item = T;

    type Send = Push<T>;

    type Recv = Recv<T>;

    open spec fn fits(self, sends: Map<int, Push<T>>, recv: Recv<T>) -> bool {
        self.inv(sends) && self.chain.recv_ok(recv)
    }

    open spec fn held(self) -> Seq<T> {
        self@
    }

    open spec fn unsent(send: Push<T>) -> Option<T> {
        match send {
            Push::Load { value, .. } => Some(value),
            Push::Allocate { value, .. } => Some(value),
            Push::Exchange { value, .. } => Some(value),
            _ => None,
        }
    }

    open spec fn sent(send: Push<T>) -> bool {
        send is Done
    }

    open spec fn owes(send: Push<T>) -> bool {
        Self::unsent(send) is None && !Self::sent(send)
    }

    open spec fn awaited(sends: Map<int, Push<T>>) -> bool {
        exists|i: int| #[trigger] sends.contains_key(i) && Self::owes(sends[i])
    }

    open spec fn got(recv: Recv<T>) -> Option<T> {
        recv.result()
    }

    open spec fn missed(recv: Recv<T>) -> bool {
        recv is Done && recv.result() is None
    }

    open spec fn starts(self, sends: Map<int, Push<T>>, sender: int, send: Push<T>) -> bool {
        send matches Push::Load { value, spare, lost } && spare == 0 && !lost
    }

    open spec fn sends_on(
        self,
        sends: Map<int, Push<T>>,
        sender: int,
        post: Self,
        next: Push<T>,
    ) -> bool {
        exists|spurious: bool| #[trigger] self.push_next(sends[sender], spurious, post, next)
    }

    open spec fn renews(recv: Recv<T>, next: Recv<T>) -> bool {
        recv is Done && next is Head
    }

    open spec fn recvs_on(
        self,
        sends: Map<int, Push<T>>,
        recv: Recv<T>,
        post: Self,
        next: Recv<T>,
    ) -> bool {
        &&& post.tail == self.tail
        &&& self.chain.recv_next(recv, post.chain, next, true)
    }

    proof fn lemma_starts(
        self,
        sends: Map<int, Push<T>>,
        recv: Recv<T>,
        sender: int,
        send: Push<T>,
    ) {
        self.lemma_start(sends, sender, send->Load_value);
    }

    proof fn lemma_sends_on(
        self,
        sends: Map<int, Push<T>>,
        recv: Recv<T>,
        sender: int,
        post: Self,
        next: Push<T>,
    ) {
        let spurious = choose|spurious: bool| #[trigger]
            self.push_next(sends[sender], spurious, post, next);
        self.lemma_push(sends, sender, spurious, post, next);
    }

    proof fn lemma_sent(self, sends: Map<int, Push<T>>, recv: Recv<T>, sender: int) {
        self.lemma_finish(sends, sender);
    }

    proof fn lemma_renews(self, sends: Map<int, Push<T>>, recv: Recv<T>, next: Recv<T>) {
    }

    proof fn lemma_recvs_on(
        self,
        sends: Map<int, Push<T>>,
        recv: Recv<T>,
        post: Self,
        next: Recv<T>,
    ) {
        self.lemma_recv(sends, recv, post, next);
        if Self::missed(next) && !Self::missed(recv) && self.held().len() > 0 {
            let hs = holds(sends);
            self.chain.lemma_recv_waits(recv, post.chain, true, hs);
            let i = choose|i: int| #[trigger]
                hs.contains_key(i) && (hs[i].slot is Some || hs[i].edge is Some);
            assert(sends.contains_key(i) && Self::owes(sends[i]));
        }
    }
}

} // verus!
