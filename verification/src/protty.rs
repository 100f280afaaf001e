//! An unbounded queue in blocks of 1024 slots, for many senders and one receiver.
//!
//! The tail word points to the block that is being filled and carries a tag. A sender adds one to
//! the word; the tag that it found is the slot that it has claimed. If there is no such slot, the
//! sender tries to exchange the tail for a new block whose first slot already holds the value.
//!
//! The tag grows by one for each sender that finds the block full, until one of them moves the
//! tail. It must not overflow into the address of the block, so no more than [`MAX_SENDERS`]
//! sends may be under way at the same time.
use crate::chain::{idle, Chain, Claim, Edge, Hold, Recv};
use crate::history::Machine;
use crate::shared::Pointer;
use vstd::prelude::*;

verus! {

/// Slots in a block.
pub const BLOCK_SIZE: usize = 1024;

/// Alignment of a block, and so the number of tags of a pointer to one.
pub const BLOCK_ALIGN: usize = 4096;

/// How many sends may be under way at the same time.
pub const MAX_SENDERS: usize = 3071;

/// The queue.
pub struct Queue<T> {
    pub chain: Chain<T, BLOCK_SIZE, BLOCK_ALIGN>,
    pub tail: Pointer,
}

/// A send that is under way: the access to the memory that comes next.
pub enum Send<T> {
    /// Add one to the tail; `spare` is a block that an earlier try has allocated, or zero.
    Bump { value: T, spare: usize },
    /// Allocate a block to append; the block whose slots begin at `home` was found full.
    Allocate { value: T, home: Ghost<int>, seen: Pointer },
    /// Exchange the tail that was seen for the new block with the value in its first slot.
    Exchange { value: T, home: Ghost<int>, spare: usize, seen: Pointer },
    /// Store the value in the claimed slot, and free a block that was not needed.
    Publish { value: T, spare: usize, block: usize, index: usize },
    /// Link the block that was appended.
    Link { prev: usize, next: usize },
    /// The send is over.
    Done,
}

/// A sender that finds this tail can claim a slot.
pub open spec fn open_tail(seen: Pointer) -> bool {
    seen.cell(BLOCK_ALIGN) != 0 && seen.addr % BLOCK_ALIGN < BLOCK_SIZE
}

impl<T> Send<T> {
    /// What the send owns.
    pub open spec fn hold(self) -> Hold<T> {
        match self {
            Send::Bump { value, spare } => Hold { spare, ..idle() },
            Send::Allocate { value, home, seen } => idle(),
            Send::Exchange { value, home, spare, seen } => Hold { spare, ..idle() },
            Send::Publish { value, spare, block, index } => Hold {
                spare,
                slot: Some(Claim { block, index: index as int, value }),
                ..idle()
            },
            Send::Link { prev, next } => Hold { edge: Some(Edge { prev, next }), ..idle() },
            Send::Done => idle(),
        }
    }

    /// The send has added one to the tail of the block at `place`, found no slot, and not yet
    /// seen the tail move on.
    pub open spec fn overran(self, place: int) -> bool {
        match self {
            Send::Allocate { value, home, seen } => home@ == place,
            Send::Exchange { value, home, spare, seen } => home@ == place,
            _ => false,
        }
    }

    /// How many accesses are left at most while no other send interferes.
    pub open spec fn rank(self, tail: Pointer) -> nat {
        match self {
            Send::Bump { .. } => 5,
            Send::Allocate { .. } => 4,
            Send::Exchange { value, home, spare, seen } => if seen == tail {
                2
            } else {
                3
            },
            Send::Publish { .. } => 1,
            Send::Link { .. } => 1,
            Send::Done => 0,
        }
    }
}

/// The sends that have overrun the block at `place`.
pub open spec fn overrun<T>(ops: Map<int, Send<T>>, place: int) -> Set<int> {
    ops.dom().filter(|i: int| ops[i].overran(place))
}

/// What all the sends that are under way own.
pub open spec fn holds<T>(ops: Map<int, Send<T>>) -> Map<int, Hold<T>> {
    ops.map_values(|op: Send<T>| op.hold())
}

impl<T> Queue<T> {
    /// How far the tail has been moved past the start of the last block.
    pub open spec fn bumps(self) -> int {
        self.tail.addr - self.chain.last@
    }

    /// Where in the record the last block begins; below zero while there is no block. An address
    /// may come back with another block, a place never does.
    pub open spec fn place(self) -> int {
        if self.chain.last@ == 0 {
            -1
        } else {
            self.chain.base@[self.chain.last@] as int
        }
    }

    /// The tail points to the block that was appended last. Its tag counts the claimed slots
    /// and, once the block is full, the sends that have overrun it.
    pub open spec fn tail_ok(self, ops: Map<int, Send<T>>) -> bool {
        let c = self.chain;
        &&& ops.dom().finite()
        &&& ops.dom().len() <= MAX_SENDERS
        &&& if c.last@ == 0 {
            0 <= self.bumps() <= overrun(ops, -1).len()
        } else {
            &&& 1 <= self.bumps() <= BLOCK_SIZE + overrun(ops, self.place()).len()
            &&& c.log@.len() == c.base@[c.last@] + if self.bumps() < BLOCK_SIZE {
                self.bumps()
            } else {
                BLOCK_SIZE as int
            }
        }
    }

    /// A send that has overrun a block waits for the tail to move on, and has seen nothing else
    /// of that block.
    pub open spec fn op_ok(self, op: Send<T>) -> bool {
        let c = self.chain;
        match op {
            Send::Allocate { value, home, seen } => self.overrun_ok(home, seen),
            Send::Exchange { value, home, spare, seen } => spare != 0 && self.overrun_ok(
                home,
                seen,
            ),
            _ => true,
        }
    }

    /// What a send that has overrun the block at `home` and last saw the tail `seen` knows: while
    /// that block is the last one, the tail that it saw points to it.
    pub open spec fn overrun_ok(self, home: Ghost<int>, seen: Pointer) -> bool {
        &&& home@ <= self.place()
        &&& home@ == self.place() ==> {
            &&& seen.cell(BLOCK_ALIGN) == self.chain.last@
            &&& !open_tail(seen)
            &&& self.chain.last@ != 0 ==> self.bumps() > BLOCK_SIZE
        }
    }

    /// The invariant of the queue together with the sends that are under way.
    pub open spec fn inv(self, ops: Map<int, Send<T>>) -> bool {
        &&& self.chain.inv(holds(ops))
        &&& self.tail_ok(ops)
        &&& forall|i: int| #[trigger] ops.contains_key(i) ==> self.op_ok(ops[i])
    }

    /// The invariant while no send is under way.
    pub open spec fn wf(self) -> bool {
        self.inv(Map::empty())
    }

    /// The values in the queue, the oldest first.
    pub open spec fn view(self) -> Seq<T> {
        self.chain.pending()
    }

    /// Another block still has an address.
    pub open spec fn has_room(self) -> bool {
        self.chain.heap.has_room()
    }

    /// The next access of the send is to memory that is there.
    pub open spec fn accepts(self, op: Send<T>) -> bool {
        &&& self.chain.heap.wf()
        &&& match op {
            Send::Bump { .. } => true,
            Send::Allocate { .. } => self.chain.heap.has_room(),
            Send::Exchange { value, home, spare, seen } => {
                &&& self.chain.heap@.contains_key(spare)
                &&& 0 < self.chain.heap@[spare].slots@.len()
            },
            Send::Publish { value, spare, block, index } => {
                &&& self.chain.heap@.contains_key(block)
                &&& index < self.chain.heap@[block].slots@.len()
                &&& spare != 0 ==> self.chain.heap@.contains_key(spare) && spare != block
            },
            Send::Link { prev, next } => prev != 0 ==> self.chain.heap@.contains_key(prev),
            Send::Done => true,
        }
    }

    /// One access of a send. A weak exchange may fail though it need not (`spurious`).
    pub open spec fn send_next(self, op: Send<T>, spurious: bool, post: Self, next: Send<T>) -> bool {
        match op {
            Send::Bump { value, spare } => {
                let seen = self.tail;
                let block = seen.cell(BLOCK_ALIGN) as usize;
                &&& post.tail.addr == seen.addr.wrapping_add(1)
                &&& if open_tail(seen) {
                    &&& post.chain == self.chain.claim(value)
                    &&& next == Send::Publish {
                        value,
                        spare,
                        block,
                        index: seen.addr % BLOCK_ALIGN,
                    }
                } else {
                    &&& post.chain == self.chain
                    &&& next == if spare == 0 {
                        Send::Allocate { value, home: Ghost(self.place()), seen }
                    } else {
                        Send::Exchange { value, home: Ghost(self.place()), spare, seen }
                    }
                }
            },
            Send::Allocate { value, home, seen } => {
                &&& post.tail == self.tail
                &&& self.chain.allocated(post.chain, self.chain.heap.fresh())
                &&& next == Send::Exchange { value, home, spare: self.chain.heap.fresh(), seen }
            },
            Send::Exchange { value, home, spare, seen } => {
                let block = seen.cell(BLOCK_ALIGN) as usize;
                if block == spare || open_tail(seen) {
                    post == self && next == Send::Bump { value, spare }
                } else if self.tail != seen || spurious {
                    post == self && next == Send::Exchange { value, home, spare, seen: self.tail }
                } else {
                    &&& exists|mid: Chain<T, BLOCK_SIZE, BLOCK_ALIGN>| #[trigger]
                        self.chain.published(mid, spare, 0, value) && post.chain == mid.append(
                            spare,
                        ).claim(value)
                    &&& post.tail.addr == spare + 1
                    &&& next == Send::<T>::Link { prev: block, next: spare }
                }
            },
            Send::Publish { value, spare, block, index } => {
                &&& post.tail == self.tail
                &&& next == Send::<T>::Done
                &&& if spare == 0 {
                    self.chain.published(post.chain, block, index as int, value)
                } else {
                    exists|mid: Chain<T, BLOCK_SIZE, BLOCK_ALIGN>| #[trigger]
                        self.chain.published(mid, block, index as int, value) && mid.released(
                            post.chain,
                            spare,
                        )
                }
            },
            Send::Link { prev, next: appended } => {
                &&& post.tail == self.tail
                &&& self.chain.joined(post.chain, prev, appended)
                &&& next == Send::<T>::Done
            },
            Send::Done => post == self && next == op,
        }
    }

    /// A queue without values.
    pub fn empty() -> (queue: Self)
        ensures
            queue.wf(),
            queue@ == Seq::<T>::empty(),
            queue.chain.heap.room() == (usize::MAX - BLOCK_ALIGN) / BLOCK_ALIGN as int,
            queue.has_room(),
    {
        let queue = Queue { chain: Chain::new(), tail: Pointer { addr: 0 } };
        assert(overrun(Map::<int, Send<T>>::empty(), -1) =~= Set::empty());
        assert(holds(Map::<int, Send<T>>::empty()) =~= Map::empty());
        assert(queue@ =~= Seq::empty());
        queue
    }

    /// A send that has not yet begun.
    pub fn start(value: T) -> (send: Send<T>)
        ensures
            send == (Send::Bump { value, spare: 0 }),
    {
        Send::Bump { value, spare: 0 }
    }

    /// Performs one access of a send.
    pub fn send_step(&mut self, op: Send<T>, spurious: bool) -> (next: Send<T>)
        requires
            old(self).accepts(op),
        ensures
            old(self).send_next(op, spurious, *final(self), next),
    {
        match op {
            Send::Bump { value, spare } => {
                let seen = self.tail;
                self.tail = Pointer { addr: seen.addr.wrapping_add(1) };
                let block: usize = seen.untagged(BLOCK_ALIGN);
                let index: usize = seen.tag(BLOCK_ALIGN);
                if block != 0 && index < BLOCK_SIZE {
                    self.chain.note_claim(Ghost(value));
                    Send::Publish { value, spare, block, index }
                } else if spare == 0 {
                    Send::Allocate { value, home: Ghost(self.place()), seen }
                } else {
                    Send::Exchange { value, home: Ghost(self.place()), spare, seen }
                }
            },
            Send::Allocate { value, home, seen } => {
                let spare: usize = self.chain.allocate();
                Send::Exchange { value, home, spare, seen }
            },
            Send::Exchange { value, home, spare, seen } => {
                let block: usize = seen.untagged(BLOCK_ALIGN);
                let index: usize = seen.tag(BLOCK_ALIGN);
                if block == spare || (block != 0 && index < BLOCK_SIZE) {
                    Send::Bump { value, spare }
                } else if self.tail != seen || spurious {
                    Send::Exchange { value, home, spare, seen: self.tail }
                } else {
                    let ghost sent = value;
                    self.chain.publish(spare, 0, value);
                    self.tail = Pointer::tagged(spare, 1, BLOCK_ALIGN);
                    self.chain.note_append(spare);
                    self.chain.note_claim(Ghost(sent));
                    Send::Link { prev: block, next: spare }
                }
            },
            Send::Publish { value, spare, block, index } => {
                self.chain.publish(block, index, value);
                if spare != 0 {
                    self.chain.release(spare);
                }
                Send::Done
            },
            Send::Link { prev, next } => {
                self.chain.join(prev, next);
                Send::Done
            },
            Send::Done => Send::Done,
        }
    }

    /// The access that any send makes next is to memory that is there.
    pub proof fn lemma_accepts(self, ops: Map<int, Send<T>>, i: int)
        requires
            self.inv(ops),
            ops.contains_key(i),
            ops[i] is Allocate ==> self.has_room(),
        ensures
            self.accepts(ops[i]),
    {
        let hs = holds(ops);
        assert(hs.contains_key(i) && hs[i] == ops[i].hold());
        self.chain.lemma_facts(hs);
        assert(self.op_ok(ops[i]));
    }

    /// The tag of the tail never overflows into the address: the tail points to the last block.
    pub proof fn lemma_tail(self, ops: Map<int, Send<T>>)
        requires
            self.inv(ops),
        ensures
            self.tail.cell(BLOCK_ALIGN) == self.chain.last@,
            self.tail.addr % BLOCK_ALIGN == self.bumps(),
            forall|i: int| #[trigger]
                ops.contains_key(i) && !ops[i].overran(self.place()) ==> self.bumps() + 1
                    < BLOCK_ALIGN,
    {
        let a = self.place();
        let s = overrun(ops, a);
        self.chain.lemma_facts(holds(ops));
        vstd::set_lib::lemma_len_subset(s, ops.dom());
        assert forall|i: int| #[trigger] ops.contains_key(i) && !ops[i].overran(a) implies self.bumps()
            + 1 < BLOCK_ALIGN by {
            vstd::set_lib::lemma_len_subset(s.insert(i), ops.dom());
        }
    }

    /// How the set of overrunning sends changes with one send.
    proof fn lemma_overrun(ops: Map<int, Send<T>>, i: int, next: Send<T>, a: int)
        requires
            ops.dom().finite(),
            ops.contains_key(i),
        ensures
            ops.insert(i, next).dom() == ops.dom(),
            overrun(ops.insert(i, next), a).len() == overrun(ops, a).len() + if next.overran(a) {
                1int
            } else {
                0
            } - if ops[i].overran(a) {
                1int
            } else {
                0
            },
    {
        let before = overrun(ops, a);
        let after = overrun(ops.insert(i, next), a);
        assert(ops.insert(i, next).dom() =~= ops.dom());
        assert(before.remove(i) =~= after.remove(i));
        vstd::set_lib::lemma_len_subset(before, ops.dom());
        vstd::set_lib::lemma_len_subset(after, ops.dom());
        assert(before.contains(i) == ops[i].overran(a));
        assert(after.contains(i) == next.overran(a));
        assert(before.len() == before.remove(i).len() + if before.contains(i) {
            1int
        } else {
            0
        });
        assert(after.len() == after.remove(i).len() + if after.contains(i) {
            1int
        } else {
            0
        });
    }

    /// Whatever sends are under way, one access of any of them keeps the invariant. The access
    /// that claims a slot puts the value of the send at the end of the queue, and no other access
    /// changes the queue; the consumer's place is left alone once there is one.
    pub proof fn lemma_send(
        self,
        ops: Map<int, Send<T>>,
        i: int,
        spurious: bool,
        post: Self,
        next: Send<T>,
    )
        requires
            self.inv(ops),
            ops.contains_key(i),
            self.send_next(ops[i], spurious, post, next),
        ensures
            post.inv(ops.insert(i, next)),
            self.chain.head != 0 ==> self.chain.same_place(post.chain),
            post@ == match ops[i] {
                Send::Bump { value, spare } => if open_tail(self.tail) {
                    self@.push(value)
                } else {
                    self@
                },
                Send::Exchange { value, home, spare, seen } => if seen == self.tail && !open_tail(
                    seen,
                ) && !spurious {
                    self@.push(value)
                } else {
                    self@
                },
                _ => self@,
            },
    {
        let c = self.chain;
        let hs = holds(ops);
        let op = ops[i];
        let gs = ops.insert(i, next);
        assert(hs.contains_key(i) && hs[i] == op.hold());
        c.lemma_facts(hs);
        self.lemma_tail(ops);
        Self::lemma_overrun(ops, i, next, self.place());
        assert(holds(gs) =~= hs.insert(i, next.hold()));
        assert(self.op_ok(op));
        match op {
            Send::Bump { value, spare } => {
                if open_tail(self.tail) {
                    c.lemma_claim(hs, i, value);
                    assert(post@ =~= self@.push(value));
                } else {
                    assert(hs.insert(i, next.hold()) =~= hs);
                }
            },
            Send::Allocate { value, home, seen } => {
                c.lemma_allocate(post.chain, c.heap.fresh(), hs, i);
            },
            Send::Exchange { value, home, spare, seen } => {
                let block = seen.cell(BLOCK_ALIGN) as usize;
                if block == spare || open_tail(seen) {
                    assert(hs.insert(i, next.hold()) =~= hs);
                } else if self.tail != seen || spurious {
                    assert(hs.insert(i, next.hold()) =~= hs);
                } else {
                    let mid = choose|mid: Chain<T, BLOCK_SIZE, BLOCK_ALIGN>| #[trigger]
                        c.published(mid, spare, 0, value) && post.chain == mid.append(spare).claim(
                            value,
                        );
                    c.lemma_prime(mid, hs, i, value);
                    let h = Hold { ready: Some(value), ..hs[i] };
                    assert(hs.insert(i, h)[i] == h);
                    mid.lemma_append(hs.insert(i, h), i);
                    assert(hs.insert(i, h).insert(i, next.hold()) =~= hs.insert(i, next.hold()));
                    assert(post@ =~= self@.push(value));
                    assert(post.place() > self.place());
                    Self::lemma_overrun(ops, i, next, post.place());
                }
            },
            Send::Publish { value, spare, block, index } => {
                if spare == 0 {
                    c.lemma_publish(post.chain, hs, i);
                } else {
                    let mid = choose|mid: Chain<T, BLOCK_SIZE, BLOCK_ALIGN>| #[trigger]
                        c.published(mid, block, index as int, value) && mid.released(
                            post.chain,
                            spare,
                        );
                    c.lemma_publish(mid, hs, i);
                    let h = Hold { spare, ..idle() };
                    assert(hs.insert(i, h)[i] == h);
                    mid.lemma_release(post.chain, hs.insert(i, h), i);
                    assert(hs.insert(i, h).insert(i, next.hold()) =~= hs.insert(i, next.hold()));
                }
            },
            Send::Link { prev, next: appended } => {
                c.lemma_join(post.chain, hs, i);
            },
            Send::Done => {
                assert(hs.insert(i, next.hold()) =~= hs);
            },
        }
        assert forall|j: int| #[trigger] gs.contains_key(j) implies post.op_ok(gs[j]) by {
            assert(self.op_ok(ops[j]));
        }
    }

    /// A send that adds one to the tail gets a slot of the last block just if one is left. If not,
    /// it allocates a block unless it has one already, and keeps it until it has appended it or
    /// has got a slot after all, which frees it; no other access changes which blocks there are.
    /// The exchange that moves the tail on claims the first slot of its block.
    pub proof fn lemma_blocks(
        self,
        ops: Map<int, Send<T>>,
        i: int,
        spurious: bool,
        post: Self,
        next: Send<T>,
    )
        requires
            self.inv(ops),
            ops.contains_key(i),
            self.send_next(ops[i], spurious, post, next),
        ensures
            post.chain.heap@.dom() == match ops[i] {
                Send::Allocate { .. } => self.chain.heap@.dom().insert(self.chain.heap.fresh()),
                Send::Publish { value, spare, block, index } => if spare != 0 {
                    self.chain.heap@.dom().remove(spare)
                } else {
                    self.chain.heap@.dom()
                },
                _ => self.chain.heap@.dom(),
            },
            ops[i] matches Send::Bump { value, spare } ==> {
                &&& next is Publish || next is Allocate || next is Exchange
                &&& next is Publish <==> self.chain.last@ != 0 && self.chain.log@.len()
                    < self.chain.base@[self.chain.last@] + BLOCK_SIZE
                &&& next is Allocate ==> spare == 0
                &&& next is Exchange ==> next->Exchange_spare == spare && spare != 0
                &&& next is Publish ==> next->Publish_spare == spare
            },
            next is Allocate ==> ops[i] is Bump,
            ops[i] matches Send::Exchange { value, home, spare, seen } ==> {
                &&& next is Bump ==> next->Bump_spare == spare
                &&& next is Exchange ==> next->Exchange_spare == spare && next->Exchange_seen
                    == self.tail
                &&& next is Link ==> seen == self.tail && !spurious && next->Link_next == spare
                    && next->Link_prev == self.chain.last@
            },
    {
        let hs = holds(ops);
        assert(hs.contains_key(i) && hs[i] == ops[i].hold());
        self.chain.lemma_facts(hs);
        self.lemma_tail(ops);
    }

    /// How many accesses of the send are left at most while nothing else happens.
    pub open spec fn left(self, op: Send<T>) -> nat {
        match op {
            Send::Bump { value, spare } => if open_tail(self.tail) {
                2
            } else if spare != 0 {
                9
            } else {
                12
            },
            Send::Allocate { .. } => 11,
            Send::Exchange { value, home, spare, seen } => if seen.cell(BLOCK_ALIGN) == spare
                || open_tail(seen) {
                if seen == self.tail && open_tail(seen) {
                    3
                } else {
                    10
                }
            } else if seen == self.tail {
                2
            } else if self.tail.cell(BLOCK_ALIGN) == spare {
                11
            } else {
                4
            },
            Send::Publish { .. } => 1,
            Send::Link { .. } => 1,
            Send::Done => 0,
        }
    }

    /// Wherever a send is, and whatever the others have done, each access brings it nearer to its
    /// end: with nothing else in between it is over after at most twelve. It goes to its end and
    /// is never given up.
    pub proof fn lemma_progress(self, ops: Map<int, Send<T>>, i: int, post: Self, next: Send<T>)
        requires
            self.inv(ops),
            ops.contains_key(i),
            !(ops[i] is Done),
            self.send_next(ops[i], false, post, next),
        ensures
            post.left(next) < self.left(ops[i]) <= 12,
            next is Done ==> Self::unsent(ops[i]) is None,
            Self::unsent(next) is Some ==> Self::unsent(next) == Self::unsent(ops[i]),
    {
        self.lemma_tail(ops);
        self.chain.lemma_facts(holds(ops));
        assert(holds(ops).contains_key(i) && holds(ops)[i] == ops[i].hold());
        assert(self.chain.hold_ok(ops[i].hold()));
        assert(self.op_ok(ops[i]));
        assert(self.chain.last@ != 0 ==> self.chain.heap@.contains_key(self.chain.last@)) by {
            reveal(Chain::inv);
        }
        match ops[i] {
            Send::Bump { value, spare } => {
                assert(post.tail.cell(BLOCK_ALIGN) == self.tail.cell(BLOCK_ALIGN));
                assert(spare != 0 ==> spare != self.chain.last@);
            },
            Send::Allocate { .. } => {
                assert(self.chain.last@ != self.chain.heap.fresh());
            },
            _ => {},
        }
    }

    /// A send may begin as long as not too many are under way.
    pub proof fn lemma_start(self, ops: Map<int, Send<T>>, i: int, value: T)
        requires
            self.inv(ops),
            !ops.contains_key(i),
            ops.dom().len() < MAX_SENDERS,
        ensures
            self.inv(ops.insert(i, Send::Bump { value, spare: 0 })),
    {
        let op = Send::Bump { value, spare: 0 };
        let gs = ops.insert(i, op);
        self.chain.lemma_enter(holds(ops), i);
        assert(holds(gs) =~= holds(ops).insert(i, idle()));
        assert(gs.dom() =~= ops.dom().insert(i));
        assert(overrun(gs, self.place()) =~= overrun(ops, self.place()));
    }

    /// A send that is over may be forgotten.
    pub proof fn lemma_finish(self, ops: Map<int, Send<T>>, i: int)
        requires
            self.inv(ops),
            ops.contains_key(i),
            ops[i] is Done,
        ensures
            self.inv(ops.remove(i)),
    {
        assert(ops.remove(i).dom() =~= ops.dom().remove(i));
        assert(overrun(ops.remove(i), self.place()) =~= overrun(ops, self.place()));
        let hs = holds(ops);
        assert(hs.contains_key(i) && hs[i] == idle::<T>());
        self.chain.lemma_leave(hs, i);
        assert(holds(ops.remove(i)) =~= hs.remove(i));
    }

    /// Whatever sends are under way, one access of a receive keeps the invariant, and the value
    /// that a receive takes is the oldest of those that were claimed and not yet taken.
    pub proof fn lemma_recv(
        self,
        ops: Map<int, Send<T>>,
        op: Recv<T>,
        post: Self,
        next: Recv<T>,
    )
        requires
            self.inv(ops),
            self.chain.recv_ok(op),
            post.tail == self.tail,
            self.chain.recv_next(op, post.chain, next, true),
        ensures
            post.inv(ops),
            post.chain.recv_ok(next),
            match (op, next) {
                (Recv::Read, Recv::Done(Some(value))) => {
                    &&& self@.len() > 0
                    &&& value == self@[0]
                    &&& post@ == self@.skip(1)
                },
                _ => post@ == self@,
            },
    {
        self.chain.lemma_recv(op, post.chain, next, true, holds(ops));
        self.chain.lemma_facts(holds(ops));
        assert(post.place() == self.place());
        match (op, next) {
            (Recv::Read, Recv::Done(Some(value))) => {
                assert(post@ =~= self@.skip(1));
            },
            _ => {},
        }
    }

    /// Performs one access of a receive.
    pub fn recv_step(&mut self, op: Recv<T>) -> (next: Recv<T>)
        requires
            old(self).chain.recv_ok(op),
            old(self).chain.recv_safe(),
        ensures
            final(self).tail == old(self).tail,
            old(self).chain.recv_next(op, final(self).chain, next, true),
    {
        self.chain.recv_step(op, true)
    }

    /// The next send puts another block on the heap.
    pub open spec fn takes_block(self) -> bool {
        !open_tail(self.tail)
    }

    /// Puts `value` at the end of the queue.
    pub fn send(&mut self, value: T)
        requires
            old(self).wf(),
            old(self).takes_block() ==> old(self).has_room(),
        ensures
            final(self).wf(),
            final(self)@ == old(self)@.push(value),
            final(self).chain.heap@.dom() == if old(self).takes_block() {
                old(self).chain.heap@.dom().insert(old(self).chain.heap.fresh())
            } else {
                old(self).chain.heap@.dom()
            },
            final(self).chain.heap.room() == old(self).chain.heap.room() - if old(self).takes_block() {
                1int
            } else {
                0
            },
    {
        let mut op = Self::start(value);
        let ghost ops = Map::<int, Send<T>>::empty();
        proof {
            self.lemma_start(ops, 0, value);
        }
        loop
            invariant
                old(self).wf(),
                self.inv(ops.insert(0, op)),
                ops == Map::<int, Send<T>>::empty(),
                old(self).takes_block() ==> old(self).has_room(),
                self.chain.heap@.dom() == if old(self).takes_block() && op.rank(self.tail) < 4 {
                    old(self).chain.heap@.dom().insert(old(self).chain.heap.fresh())
                } else {
                    old(self).chain.heap@.dom()
                },
                old(self).takes_block() && !(op.rank(self.tail) < 4) ==> self.chain.heap == old(self).chain.heap,
                self.chain.heap.room() == old(self).chain.heap.room() - if old(self).takes_block()
                    && op.rank(self.tail) < 4 {
                    1int
                } else {
                    0
                },
                match op {
                    Send::Bump { value: v, spare } => v == value && self@ == old(self)@ && spare
                        == 0 && self.tail == old(self).tail,
                    Send::Allocate { value: v, home, seen } => v == value && self@ == old(self)@
                        && home@ == self.place() && old(self).takes_block(),
                    Send::Exchange { value: v, home, spare, seen } => v == value && self@
                        == old(self)@ && home@ == self.place() && old(self).takes_block(),
                    Send::Publish { spare, .. } => self@ == old(self)@.push(value) && spare == 0
                        && !old(self).takes_block(),
                    _ => self@ == old(self)@.push(value),
                },
            decreases op.rank(self.tail),
        {
            let ghost pre = *self;
            let ghost before = op;
            proof {
                assert(ops.insert(0, before)[0] == before);
                pre.lemma_tail(ops.insert(0, before));
                pre.chain.lemma_facts(holds(ops.insert(0, before)));
                assert(holds(ops.insert(0, before)).contains_key(0));
                assert(pre.op_ok(ops.insert(0, before)[0]));
            }
            if let Send::Done = op {
                proof {
                    self.lemma_finish(ops.insert(0, op), 0);
                    assert(ops.insert(0, op).remove(0) =~= ops);
                }
                return;
            }
            proof {
                pre.lemma_accepts(ops.insert(0, before), 0);
            }
            op = self.send_step(op, false);
            proof {
                pre.lemma_send(ops.insert(0, before), 0, false, *self, op);
                assert(ops.insert(0, before).insert(0, op) =~= ops.insert(0, op));
            }
        }
    }

    /// Takes the oldest value out of the queue.
    pub fn try_recv(&mut self) -> (value: Option<T>)
        requires
            old(self).wf(),
        ensures
            final(self).wf(),
            final(self).chain.heap@.dom() == if old(self).chain.leaves() {
                old(self).chain.heap@.dom().remove(old(self).chain.head)
            } else {
                old(self).chain.heap@.dom()
            },
            final(self).chain.heap.room() == old(self).chain.heap.room() + if old(self).chain.leaves() {
                1int
            } else {
                0
            },
            match value {
                Some(v) => {
                    &&& old(self)@.len() > 0
                    &&& v == old(self)@[0]
                    &&& final(self)@ == old(self)@.skip(1)
                },
                None => old(self)@.len() == 0 && final(self)@ == old(self)@,
            },
    {
        assert(holds(Map::<int, Send<T>>::empty()) =~= Map::empty());
        self.chain.try_recv(true)
    }
}

/// Every run of sends and receives, whatever way their accesses follow each other.
impl<T> Machine for Queue<T> {
    type Item = T;

    type Send = Send<T>;

    type Recv = Recv<T>;

    open spec fn fits(self, sends: Map<int, Send<T>>, recv: Recv<T>) -> bool {
        self.inv(sends) && self.chain.recv_ok(recv)
    }

    open spec fn held(self) -> Seq<T> {
        self@
    }

    open spec fn unsent(send: Send<T>) -> Option<T> {
        match send {
            Send::Bump { value, .. } => Some(value),
            Send::Allocate { value, .. } => Some(value),
            Send::Exchange { value, .. } => Some(value),
            _ => None,
        }
    }

    open spec fn sent(send: Send<T>) -> bool {
        send is Done
    }

    open spec fn owes(send: Send<T>) -> bool {
        Self::unsent(send) is None && !Self::sent(send)
    }

    open spec fn awaited(sends: Map<int, Send<T>>) -> bool {
        exists|i: int| #[trigger] sends.contains_key(i) && Self::owes(sends[i])
    }

    open spec fn got(recv: Recv<T>) -> Option<T> {
        recv.result()
    }

    open spec fn missed(recv: Recv<T>) -> bool {
        recv is Done && recv.result() is None
    }

    open spec fn starts(self, sends: Map<int, Send<T>>, sender: int, send: Send<T>) -> bool {
        &&& send matches Send::Bump { value, spare } && spare == 0
        &&& sends.dom().len() < MAX_SENDERS
    }

    open spec fn sends_on(
        self,
        sends: Map<int, Send<T>>,
        sender: int,
        post: Self,
        next: Send<T>,
    ) -> bool {
        exists|spurious: bool| #[trigger] self.send_next(sends[sender], spurious, post, next)
    }

    open spec fn renews(recv: Recv<T>, next: Recv<T>) -> bool {
        recv is Done && next is Head
    }

    open spec fn recvs_on(
        self,
        sends: Map<int, Send<T>>,
        recv: Recv<T>,
        post: Self,
        next: Recv<T>,
    ) -> bool {
        &&& post.tail == self.tail
        &&& self.chain.recv_next(recv, post.chain, next, true)
    }

    proof fn lemma_starts(
        self,
        sends: Map<int, Send<T>>,
        recv: Recv<T>,
        sender: int,
        send: Send<T>,
    ) {
        self.lemma_start(sends, sender, send->Bump_value);
    }

    proof fn lemma_sends_on(
        self,
        sends: Map<int, Send<T>>,
        recv: Recv<T>,
        sender: int,
        post: Self,
        next: Send<T>,
    ) {
        let spurious = choose|spurious: bool| #[trigger]
            self.send_next(sends[sender], spurious, post, next);
        self.lemma_send(sends, sender, spurious, post, next);
    }

    proof fn lemma_sent(self, sends: Map<int, Send<T>>, recv: Recv<T>, sender: int) {
        self.lemma_finish(sends, sender);
    }

    proof fn lemma_renews(self, sends: Map<int, Send<T>>, recv: Recv<T>, next: Recv<T>) {
    }

    proof fn lemma_recvs_on(
        self,
        sends: Map<int, Send<T>>,
        recv: Recv<T>,
        post: Self,
        next: Recv<T>,
    ) {
        self.lemma_recv(sends, recv, post, next);
        if Self::missed(next) && !Self::missed(recv) && self.held().len() > 0 {
            let hs = holds(sends);
            self.chain.lemma_recv_waits(recv, post.chain, true, hs);
            let i = choose|i: int| #[trigger]
                hs.contains_key(i) && (hs[i].slot is Some || hs[i].edge is Some);
            assert(sends.contains_key(i) && Self::owes(sends[i]));
        }
    }
}

} // verus!
