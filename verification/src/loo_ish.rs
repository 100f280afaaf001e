//! An unbounded queue in blocks of 32 slots, for many senders and one receiver.
//!
//! The tail word points to the block that is being filled and carries a tag. A sender adds one to
//! the word; the tag that it found is the slot that it has claimed. If there is no such slot, the
//! senders first agree, through the word `next`, on the block that comes next, and then one of
//! them moves the tail to it and claims its first slot.
//!
//! The tag grows by one for each sender that finds the block full, until one of them moves the
//! tail. It must not overflow into the address of the block, so no more than [`MAX_SENDERS`]
//! sends may be under way at the same time. Blocks stay on the heap as long as the queue.
use crate::chain::{idle, Chain, Claim, Edge, Hold, Recv};
use crate::history::Machine;
use crate::shared::Pointer;
use vstd::prelude::*;

verus! {

/// Slots in a block.
pub const BLOCK_SIZE: usize = 32;

/// Alignment of a block, and so the number of tags of a pointer to one.
pub const BLOCK_ALIGN: usize = 1024;

/// How many sends may be under way at the same time.
pub const MAX_SENDERS: usize = 991;

/// The queue.
pub struct Queue<T> {
    pub chain: Chain<T, BLOCK_SIZE, BLOCK_ALIGN>,
    pub tail: Pointer,
    /// The block that comes after the last one, or the last one while none is prepared.
    pub next: usize,
}

/// A send that is under way: the access to the memory that comes next. `spare` is a block that
/// it has allocated, or zero, and `home` the block that it found full.
pub enum Send<T> {
    /// Add one to the tail.
    Bump { value: T, spare: usize },
    /// Load the block that comes next.
    LoadNext { value: T, spare: usize, home: usize },
    /// Allocate a block to propose as the next one.
    Allocate { value: T, home: usize },
    /// Propose the block as the next one.
    Propose { value: T, spare: usize, home: usize },
    /// Load the tail.
    LoadTail { value: T, spare: usize, home: usize, next: usize },
    /// Exchange the tail that was seen for the next block.
    Exchange { value: T, spare: usize, home: usize, next: usize, seen: Pointer },
    /// Store the value in the claimed slot, and free a block that was not needed.
    Publish { value: T, spare: usize, block: usize, index: usize },
    /// Store the value in the first slot of the block that was appended. A block that the send has
    /// allocated and not needed is forgotten by now, and stays on the heap.
    PublishFirst { value: T, prev: usize, next: usize },
    /// Link the block that was appended.
    Link { prev: usize, next: usize },
    /// The send is over.
    Done,
}

/// A sender that finds this tail can claim a slot.
pub open spec fn open_tail(seen: Pointer) -> bool {
    seen.cell(BLOCK_ALIGN) != 0 && seen.addr % BLOCK_ALIGN < BLOCK_SIZE
}

impl<T> Send<T> {
    /// What the send owns.
    pub open spec fn hold(self) -> Hold<T> {
        match self {
            Send::Bump { value, spare } => Hold { spare, ..idle() },
            Send::LoadNext { value, spare, home } => Hold { spare, ..idle() },
            Send::Allocate { value, home } => idle(),
            Send::Propose { value, spare, home } => Hold { spare, ..idle() },
            Send::LoadTail { value, spare, home, next } => Hold { spare, ..idle() },
            Send::Exchange { value, spare, home, next, seen } => Hold { spare, ..idle() },
            Send::Publish { value, spare, block, index } => Hold {
                spare,
                slot: Some(Claim { block, index: index as int, value }),
                ..idle()
            },
            Send::PublishFirst { value, prev, next } => Hold {
                slot: Some(Claim { block: next, index: 0, value }),
                edge: Some(Edge { prev, next }),
                ..idle()
            },
            Send::Link { prev, next } => Hold { edge: Some(Edge { prev, next }), ..idle() },
            Send::Done => idle(),
        }
    }

    /// The send has added one to the tail of block `a`, found no slot, and not yet seen the tail
    /// move on.
    pub open spec fn overran(self, a: usize) -> bool {
        match self {
            Send::LoadNext { value, spare, home } => home == a,
            Send::Allocate { value, home } => home == a,
            Send::Propose { value, spare, home } => home == a,
            Send::LoadTail { value, spare, home, next } => home == a,
            Send::Exchange { value, spare, home, next, seen } => home == a,
            _ => false,
        }
    }

    /// How many accesses are left at most while no other send interferes.
    pub open spec fn rank(self) -> nat {
        match self {
            Send::Bump { .. } => 8,
            Send::LoadNext { .. } => 7,
            Send::Allocate { .. } => 6,
            Send::Propose { .. } => 5,
            Send::LoadTail { .. } => 4,
            Send::Exchange { .. } => 3,
            Send::PublishFirst { .. } => 2,
            Send::Publish { .. } => 1,
            Send::Link { .. } => 1,
            Send::Done => 0,
        }
    }
}

/// The sends that have overrun block `a`.
pub open spec fn overrun<T>(ops: Map<int, Send<T>>, a: usize) -> Set<int> {
    ops.dom().filter(|i: int| ops[i].overran(a))
}

/// What all the sends that are under way own, and, as number -1, the queue itself: the block
/// that is prepared.
pub open spec fn holds<T>(ops: Map<int, Send<T>>, prepared: usize) -> Map<int, Hold<T>> {
    ops.map_values(|op: Send<T>| op.hold()).insert(-1, Hold { spare: prepared, ..idle() })
}

impl<T> Queue<T> {
    /// How far the tail has been moved past the start of the last block.
    pub open spec fn bumps(self) -> int {
        self.tail.addr - self.chain.last@
    }

    /// The tail points to the block that was appended last. Its tag counts the claimed slots
    /// and, once the block is full, the sends that have overrun it.
    pub open spec fn tail_ok(self, ops: Map<int, Send<T>>) -> bool {
        let c = self.chain;
        &&& ops.dom().finite()
        &&& ops.dom().len() <= MAX_SENDERS
        &&& if c.last@ == 0 {
            0 <= self.bumps() <= overrun(ops, 0).len()
        } else {
            &&& 1 <= self.bumps() <= BLOCK_SIZE + overrun(ops, c.last@).len()
            &&& c.log@.len() == c.base@[c.last@] + if self.bumps() < BLOCK_SIZE {
                self.bumps()
            } else {
                BLOCK_SIZE as int
            }
        }
    }

    /// The block that is prepared, or zero.
    pub open spec fn prepared(self) -> usize {
        if self.next == self.chain.last@ {
            0
        } else {
            self.next
        }
    }

    /// A send that has overrun the last block knows which block comes next once it has asked.
    pub open spec fn op_ok(self, op: Send<T>) -> bool {
        match op {
            Send::LoadNext { value, spare, home } => self.overrun_ok(home),
            Send::Allocate { value, home } => self.overrun_ok(home),
            Send::Propose { value, spare, home } => spare != 0 && self.overrun_ok(home),
            Send::LoadTail { value, spare, home, next } => self.overrun_ok(home) && (home
                == self.chain.last@ ==> next == self.next && next != home),
            Send::Exchange { value, spare, home, next, seen } => {
                &&& self.overrun_ok(home)
                &&& home == self.chain.last@ ==> next == self.next && next != home
                &&& seen.cell(BLOCK_ALIGN) != home ==> home != self.chain.last@
            },
            _ => true,
        }
    }

    /// What a send that has overrun the block `home` knows.
    pub open spec fn overrun_ok(self, home: usize) -> bool {
        &&& home != 0 ==> self.chain.linked(home)
        &&& home == self.chain.last@ && home != 0 ==> self.bumps() > BLOCK_SIZE
    }

    /// The invariant of the queue together with the sends that are under way.
    pub open spec fn inv(self, ops: Map<int, Send<T>>) -> bool {
        &&& self.chain.inv(holds(ops, self.prepared()))
        &&& self.next == 0 ==> self.chain.last@ == 0
        &&& self.next != self.chain.last@ ==> exists|i: int| #[trigger]
            ops.contains_key(i) && ops[i].overran(self.chain.last@)
        &&& self.tail_ok(ops)
        &&& !ops.contains_key(-1)
        &&& forall|i: int| #[trigger] ops.contains_key(i) ==> self.op_ok(ops[i])
    }

    /// The invariant while no send is under way.
    pub open spec fn wf(self) -> bool {
        self.inv(Map::empty())
    }

    /// The values in the queue, the oldest first.
    pub open spec fn view(self) -> Seq<T> {
        self.chain.pending()
    }

    /// Another block still has an address.
    pub open spec fn has_room(self) -> bool {
        self.chain.heap.has_room()
    }

    /// The next access of the send is to memory that is there.
    pub open spec fn accepts(self, op: Send<T>) -> bool {
        &&& self.chain.heap.wf()
        &&& match op {
            Send::Allocate { .. } => self.chain.heap.has_room(),
            Send::Exchange { value, spare, home, next, seen } => next % BLOCK_ALIGN == 0 || seen
                != self.tail || seen.cell(BLOCK_ALIGN) != home,
            Send::Publish { value, spare, block, index } => {
                &&& self.chain.heap@.contains_key(block)
                &&& index < self.chain.heap@[block].slots@.len()
                &&& spare != 0 ==> self.chain.heap@.contains_key(spare) && spare != block
            },
            Send::PublishFirst { value, prev, next } => {
                &&& self.chain.heap@.contains_key(next)
                &&& 0 < self.chain.heap@[next].slots@.len()
            },
            Send::Link { prev, next } => prev != 0 ==> self.chain.heap@.contains_key(prev),
            _ => true,
        }
    }

    /// One access of a send. A weak exchange may fail though it need not (`spurious`).
    pub open spec fn send_next(self, op: Send<T>, spurious: bool, post: Self, next: Send<T>) -> bool {
        match op {
            Send::Bump { value, spare } => {
                let seen = self.tail;
                let block = seen.cell(BLOCK_ALIGN) as usize;
                &&& post.tail.addr == seen.addr.wrapping_add(1)
                &&& post.next == self.next
                &&& if open_tail(seen) {
                    &&& post.chain == self.chain.claim(value)
                    &&& next == Send::Publish {
                        value,
                        spare,
                        block,
                        index: seen.addr % BLOCK_ALIGN,
                    }
                } else {
                    &&& post.chain == self.chain
                    &&& next == Send::LoadNext { value, spare, home: block }
                }
            },
            Send::LoadNext { value, spare, home } => {
                &&& post == self
                &&& next == if self.next != home {
                    Send::LoadTail { value, spare, home, next: self.next }
                } else if spare == 0 {
                    Send::Allocate { value, home }
                } else {
                    Send::Propose { value, spare, home }
                }
            },
            Send::Allocate { value, home } => {
                &&& post.tail == self.tail
                &&& post.next == self.next
                &&& self.chain.allocated(post.chain, self.chain.heap.fresh())
                &&& next == Send::Propose { value, spare: self.chain.heap.fresh(), home }
            },
            Send::Propose { value, spare, home } => {
                &&& post.tail == self.tail
                &&& post.chain == self.chain
                &&& if self.next == home {
                    post.next == spare && next == Send::LoadTail {
                        value,
                        spare: 0,
                        home,
                        next: spare,
                    }
                } else {
                    post.next == self.next && next == Send::LoadTail {
                        value,
                        spare,
                        home,
                        next: self.next,
                    }
                }
            },
            Send::LoadTail { value, spare, home, next: coming } => {
                &&& post == self
                &&& next == Send::Exchange { value, spare, home, next: coming, seen: self.tail }
            },
            Send::Exchange { value, spare, home, next: coming, seen } => {
                if seen.cell(BLOCK_ALIGN) != home {
                    post == self && next == Send::Bump { value, spare }
                } else if self.tail != seen || spurious {
                    post == self && next == Send::Exchange {
                        value,
                        spare,
                        home,
                        next: coming,
                        seen: self.tail,
                    }
                } else {
                    &&& post.chain == self.chain.append(coming).claim(value)
                    &&& post.next == self.next
                    &&& post.tail.addr == coming + 1
                    &&& next == Send::PublishFirst { value, prev: home, next: coming }
                }
            },
            Send::Publish { value, spare, block, index } => {
                &&& post.tail == self.tail
                &&& post.next == self.next
                &&& next == Send::<T>::Done
                &&& if spare == 0 {
                    self.chain.published(post.chain, block, index as int, value)
                } else {
                    exists|mid: Chain<T, BLOCK_SIZE, BLOCK_ALIGN>| #[trigger]
                        self.chain.published(mid, block, index as int, value) && mid.released(
                            post.chain,
                            spare,
                        )
                }
            },
            Send::PublishFirst { value, prev, next: appended } => {
                &&& post.tail == self.tail
                &&& post.next == self.next
                &&& self.chain.published(post.chain, appended, 0, value)
                &&& next == Send::<T>::Link { prev, next: appended }
            },
            Send::Link { prev, next: appended } => {
                &&& post.tail == self.tail
                &&& post.next == self.next
                &&& next == Send::<T>::Done
                &&& self.chain.joined(post.chain, prev, appended)
            },
            Send::Done => post == self && next == op,
        }
    }

    /// A queue without values.
    pub fn new() -> (queue: Self)
        ensures
            queue.wf(),
            queue@ == Seq::<T>::empty(),
            queue.chain.heap.room() == (usize::MAX - BLOCK_ALIGN) / BLOCK_ALIGN as int,
            queue.has_room(),
    {
        let queue = Queue { chain: Chain::new(), tail: Pointer { addr: 0 }, next: 0 };
        assert(overrun(Map::<int, Send<T>>::empty(), 0) =~= Set::empty());
        proof {
            let none = Map::<int, Hold<T>>::empty();
            queue.chain.lemma_enter(none, -1);
            assert(holds(Map::<int, Send<T>>::empty(), 0) =~= none.insert(-1, idle()));
        }
        assert(queue@ =~= Seq::empty());
        queue
    }

    /// A send that has not yet begun.
    pub fn start(value: T) -> (send: Send<T>)
        ensures
            send == (Send::Bump { value, spare: 0 }),
    {
        Send::Bump { value, spare: 0 }
    }

    /// Performs one access of a send.
    pub fn send_step(&mut self, op: Send<T>, spurious: bool) -> (next: Send<T>)
        requires
            old(self).accepts(op),
        ensures
            old(self).send_next(op, spurious, *final(self), next),
    {
        match op {
            Send::Bump { value, spare } => {
                let seen = self.tail;
                self.tail = Pointer { addr: seen.addr.wrapping_add(1) };
                let block: usize = seen.untagged(BLOCK_ALIGN);
                let index: usize = seen.tag(BLOCK_ALIGN);
                if block != 0 && index < BLOCK_SIZE {
                    self.chain.note_claim(Ghost(value));
                    Send::Publish { value, spare, block, index }
                } else {
                    Send::LoadNext { value, spare, home: block }
                }
            },
            Send::LoadNext { value, spare, home } => if self.next != home {
                Send::LoadTail { value, spare, home, next: self.next }
            } else if spare == 0 {
                Send::Allocate { value, home }
            } else {
                Send::Propose { value, spare, home }
            },
            Send::Allocate { value, home } => {
                let spare: usize = self.chain.allocate();
                Send::Propose { value, spare, home }
            },
            Send::Propose { value, spare, home } => if self.next == home {
                self.next = spare;
                Send::LoadTail { value, spare: 0, home, next: spare }
            } else {
                Send::LoadTail { value, spare, home, next: self.next }
            },
            Send::LoadTail { value, spare, home, next } => Send::Exchange {
                value,
                spare,
                home,
                next,
                seen: self.tail,
            },
            Send::Exchange { value, spare, home, next, seen } => {
                if seen.untagged(BLOCK_ALIGN) != home {
                    Send::Bump { value, spare }
                } else if self.tail != seen || spurious {
                    Send::Exchange { value, spare, home, next, seen: self.tail }
                } else {
                    self.tail = Pointer::tagged(next, 1, BLOCK_ALIGN);
                    self.chain.note_append(next);
                    self.chain.note_claim(Ghost(value));
                    Send::PublishFirst { value, prev: home, next }
                }
            },
            Send::Publish { value, spare, block, index } => {
                self.chain.publish(block, index, value);
                if spare != 0 {
                    self.chain.release(spare);
                }
                Send::Done
            },
            Send::PublishFirst { value, prev, next } => {
                self.chain.publish(next, 0, value);
                Send::Link { prev, next }
            },
            Send::Link { prev, next } => {
                self.chain.join(prev, next);
                Send::Done
            },
            Send::Done => Send::Done,
        }
    }

    /// The access that any send makes next is to memory that is there.
    pub proof fn lemma_accepts(self, ops: Map<int, Send<T>>, i: int)
        requires
            self.inv(ops),
            ops.contains_key(i),
            ops[i] is Allocate ==> self.has_room(),
        ensures
            self.accepts(ops[i]),
    {
        let hs = holds(ops, self.prepared());
        assert(hs.contains_key(i) && hs[i] == ops[i].hold());
        self.chain.lemma_facts(hs);
        assert(self.op_ok(ops[i]));
        self.lemma_tail(ops);
        assert(hs.contains_key(-1));
        assert(self.chain.hold_ok(hs[-1]));
    }

    /// The tag of the tail never overflows into the address: the tail points to the last block.
    pub proof fn lemma_tail(self, ops: Map<int, Send<T>>)
        requires
            self.inv(ops),
        ensures
            self.tail.cell(BLOCK_ALIGN) == self.chain.last@,
            self.tail.addr % BLOCK_ALIGN == self.bumps(),
            forall|i: int| #[trigger]
                ops.contains_key(i) && !ops[i].overran(self.chain.last@) ==> self.bumps() + 1
                    < BLOCK_ALIGN,
    {
        let a = self.chain.last@;
        let s = overrun(ops, a);
        self.chain.lemma_facts(holds(ops, self.prepared()));
        vstd::set_lib::lemma_len_subset(s, ops.dom());
        assert forall|i: int| #[trigger] ops.contains_key(i) && !ops[i].overran(a) implies self.bumps()
            + 1 < BLOCK_ALIGN by {
            vstd::set_lib::lemma_len_subset(s.insert(i), ops.dom());
        }
    }

    /// How the set of overrunning sends changes with one send.
    proof fn lemma_overrun(ops: Map<int, Send<T>>, i: int, next: Send<T>, a: usize)
        requires
            ops.dom().finite(),
            ops.contains_key(i),
        ensures
            ops.insert(i, next).dom() == ops.dom(),
            overrun(ops.insert(i, next), a).len() == overrun(ops, a).len() + if next.overran(a) {
                1int
            } else {
                0
            } - if ops[i].overran(a) {
                1int
            } else {
                0
            },
    {
        let before = overrun(ops, a);
        let after = overrun(ops.insert(i, next), a);
        assert(ops.insert(i, next).dom() =~= ops.dom());
        assert(before.remove(i) =~= after.remove(i));
        vstd::set_lib::lemma_len_subset(before, ops.dom());
        vstd::set_lib::lemma_len_subset(after, ops.dom());
        assert(before.contains(i) == ops[i].overran(a));
        assert(after.contains(i) == next.overran(a));
        assert(before.len() == before.remove(i).len() + if before.contains(i) {
            1int
        } else {
            0
        });
        assert(after.len() == after.remove(i).len() + if after.contains(i) {
            1int
        } else {
            0
        });
    }

    /// Whatever sends are under way, one access of any of them keeps the invariant. The access
    /// that claims a slot puts the value of the send at the end of the queue, and no other access
    /// changes the queue; the consumer's place is left alone once there is one.
    pub proof fn lemma_send(
        self,
        ops: Map<int, Send<T>>,
        i: int,
        spurious: bool,
        post: Self,
        next: Send<T>,
    )
        requires
            self.inv(ops),
            ops.contains_key(i),
            self.send_next(ops[i], spurious, post, next),
        ensures
            post.inv(ops.insert(i, next)),
            self.chain.head != 0 ==> self.chain.same_place(post.chain),
            post@ == match ops[i] {
                Send::Bump { value, spare } => if open_tail(self.tail) {
                    self@.push(value)
                } else {
                    self@
                },
                Send::Exchange { value, spare, home, next: coming, seen } => if seen == self.tail
                    && seen.cell(BLOCK_ALIGN) == home && !spurious {
                    self@.push(value)
                } else {
                    self@
                },
                _ => self@,
            },
    {
        let c = self.chain;
        let hs = holds(ops, self.prepared());
        let op = ops[i];
        let gs = ops.insert(i, next);
        assert(hs.contains_key(i) && hs[i] == op.hold());
        assert(hs.contains_key(-1));
        c.lemma_facts(hs);
        assert(c.hold_ok(hs[-1]));
        self.lemma_tail(ops);
        Self::lemma_overrun(ops, i, next, c.last@);
        assert(holds(gs, self.prepared()) =~= hs.insert(i, next.hold()));
        assert(self.op_ok(op));
        match op {
            Send::Bump { value, spare } => {
                if open_tail(self.tail) {
                    c.lemma_claim(hs, i, value);
                    assert(post@ =~= self@.push(value));
                } else {
                    assert(hs.insert(i, next.hold()) =~= hs);
                }
            },
            Send::Allocate { value, home } => {
                c.lemma_allocate(post.chain, c.heap.fresh(), hs, i);
            },
            Send::Propose { value, spare, home } => {
                if self.next == home {
                    c.lemma_give_spare(hs, i, -1);
                    assert(holds(gs, post.prepared()) =~= hs.insert(i, next.hold()).insert(
                        -1,
                        Hold { spare, ..idle() },
                    ));
                } else {
                    assert(hs.insert(i, next.hold()) =~= hs);
                }
            },
            Send::Exchange { value, spare, home, next: coming, seen } => {
                if seen.cell(BLOCK_ALIGN) == home && self.tail == seen && !spurious {
                    let mid = c.append(coming);
                    let e = Edge { prev: home, next: coming };
                    c.lemma_append(hs, -1);
                    let ms = hs.insert(-1, Hold { edge: Some(e), ..idle() });
                    mid.lemma_give_edge(ms, -1, i);
                    let g = Hold { spare, edge: Some(e), ..idle() };
                    let h = Hold { edge: Some(e), ..idle() };
                    let rs = ms.insert(-1, idle()).insert(i, g);
                    let ns = rs.insert(i, h);
                    mid.lemma_forget(rs, i);
                    mid.lemma_claim(ns, i, value);
                    assert(holds(gs, post.prepared()) =~= ns.insert(i, next.hold()));
                    assert(post@ =~= self@.push(value));
                    Self::lemma_overrun(ops, i, next, coming);
                } else {
                    assert(hs.insert(i, next.hold()) =~= hs);
                }
            },
            Send::Publish { value, spare, block, index } => {
                if spare == 0 {
                    c.lemma_publish(post.chain, hs, i);
                } else {
                    let mid = choose|mid: Chain<T, BLOCK_SIZE, BLOCK_ALIGN>| #[trigger]
                        c.published(mid, block, index as int, value) && mid.released(
                            post.chain,
                            spare,
                        );
                    c.lemma_publish(mid, hs, i);
                    let h = Hold { spare, ..idle() };
                    assert(hs.insert(i, h)[i] == h);
                    mid.lemma_release(post.chain, hs.insert(i, h), i);
                    assert(hs.insert(i, h).insert(i, next.hold()) =~= hs.insert(i, next.hold()));
                }
            },
            Send::PublishFirst { value, prev, next: appended } => {
                c.lemma_publish(post.chain, hs, i);
            },
            Send::Link { prev, next: appended } => {
                c.lemma_join(post.chain, hs, i);
            },
            _ => {
                assert(hs.insert(i, next.hold()) =~= hs);
            },
        }
        assert forall|j: int| #[trigger] gs.contains_key(j) implies post.op_ok(gs[j]) by {
            assert(self.op_ok(ops[j]));
        }
        if post.next != post.chain.last@ {
            if self.next != c.last@ {
                let j = choose|j: int| #[trigger] ops.contains_key(j) && ops[j].overran(c.last@);
                assert(gs.contains_key(j) && gs.contains_key(i));
            } else {
                assert(gs.contains_key(i) && gs[i].overran(c.last@));
            }
        }
    }

    /// A send that adds one to the tail gets a slot of the last block just if one is left. If not,
    /// it allocates a block only if none is prepared to come next and it has none itself, and
    /// the block that it allocates is prepared unless another one was in the meantime. Which
    /// blocks there are changes only with that, and with the one that a send which gets a slot
    /// frees because it did not need it. The exchange that moves the tail on from the full block
    /// claims the first slot of the next one.
    pub proof fn lemma_blocks(
        self,
        ops: Map<int, Send<T>>,
        i: int,
        spurious: bool,
        post: Self,
        next: Send<T>,
    )
        requires
            self.inv(ops),
            ops.contains_key(i),
            self.send_next(ops[i], spurious, post, next),
        ensures
            post.chain.heap@.dom() == match ops[i] {
                Send::Allocate { .. } => self.chain.heap@.dom().insert(self.chain.heap.fresh()),
                Send::Publish { value, spare, block, index } => if spare != 0 {
                    self.chain.heap@.dom().remove(spare)
                } else {
                    self.chain.heap@.dom()
                },
                _ => self.chain.heap@.dom(),
            },
            ops[i] is Bump ==> next is Publish || next is LoadNext,
            ops[i] is Bump ==> (next is Publish <==> self.chain.last@ != 0 && self.chain.log@.len()
                < self.chain.base@[self.chain.last@] + BLOCK_SIZE),
            next is LoadNext ==> next->LoadNext_home == self.chain.last@,
            next is Allocate ==> {
                &&& ops[i] matches Send::LoadNext { value, spare, home }
                &&& spare == 0 && home == self.next
            },
            ops[i] matches Send::Propose { value, spare, home } ==> post.next == if self.next
                == home {
                spare
            } else {
                self.next
            },
            !(ops[i] is Propose) ==> post.next == self.next,
            ops[i] matches Send::LoadNext { value, spare, home } ==> (self.next != home ==> next
                is LoadTail && next->LoadTail_next == self.next),
            ops[i] matches Send::Propose { value, spare, home } ==> next is LoadTail
                && next->LoadTail_next == post.next,
            ops[i] matches Send::Exchange { value, spare, home, next: coming, seen } ==> {
                &&& next is Bump <==> seen.cell(BLOCK_ALIGN) != home
                &&& next matches Send::PublishFirst { value: v, prev, next: appended } ==> prev == home
                    && appended == coming
                &&& next is PublishFirst <==> seen == self.tail && seen.cell(BLOCK_ALIGN) == home
                    && !spurious
            },
    {
        let hs = holds(ops, self.prepared());
        assert(hs.contains_key(i) && hs[i] == ops[i].hold());
        self.chain.lemma_facts(hs);
        self.lemma_tail(ops);
    }

    /// How many accesses of the send are left at most while nothing else happens.
    pub open spec fn left(self, op: Send<T>) -> nat {
        let here = self.tail.cell(BLOCK_ALIGN);
        match op {
            Send::Bump { .. } => if open_tail(self.tail) {
                2
            } else {
                9
            },
            Send::LoadNext { value, spare, home } => if here == home {
                8
            } else {
                14
            },
            Send::Allocate { value, home } => if here == home {
                7
            } else {
                13
            },
            Send::Propose { value, spare, home } => if here == home {
                6
            } else {
                12
            },
            Send::LoadTail { value, spare, home, next } => if here == home {
                5
            } else {
                11
            },
            Send::Exchange { value, spare, home, next, seen } => if seen.cell(BLOCK_ALIGN) != home {
                10
            } else if here != home {
                11
            } else if seen == self.tail {
                3
            } else {
                4
            },
            Send::PublishFirst { .. } => 2,
            Send::Publish { .. } => 1,
            Send::Link { .. } => 1,
            Send::Done => 0,
        }
    }

    /// Wherever a send is, and whatever the others have done, each access brings it nearer to its
    /// end: with nothing else in between it is over after at most fourteen. It goes to its end and
    /// is never given up.
    pub proof fn lemma_progress(self, ops: Map<int, Send<T>>, i: int, post: Self, next: Send<T>)
        requires
            self.inv(ops),
            ops.contains_key(i),
            !(ops[i] is Done),
            self.send_next(ops[i], false, post, next),
        ensures
            post.left(next) < self.left(ops[i]) <= 14,
            next is Done ==> Self::unsent(ops[i]) is None,
            Self::unsent(next) is Some ==> Self::unsent(next) == Self::unsent(ops[i]),
    {
        self.lemma_tail(ops);
        self.chain.lemma_facts(holds(ops, self.prepared()));
    }

    /// A send may begin as long as not too many are under way.
    pub proof fn lemma_start(self, ops: Map<int, Send<T>>, i: int, value: T)
        requires
            self.inv(ops),
            !ops.contains_key(i),
            i != -1,
            ops.dom().len() < MAX_SENDERS,
        ensures
            self.inv(ops.insert(i, Send::Bump { value, spare: 0 })),
    {
        let op = Send::Bump { value, spare: 0 };
        let gs = ops.insert(i, op);
        let hs = holds(ops, self.prepared());
        self.chain.lemma_enter(hs, i);
        assert(holds(gs, self.prepared()) =~= hs.insert(i, idle()));
        if self.next != self.chain.last@ {
            let j = choose|j: int| #[trigger]
                ops.contains_key(j) && ops[j].overran(self.chain.last@);
            assert(gs.contains_key(j));
        }
        assert(gs.dom() =~= ops.dom().insert(i));
        assert(overrun(gs, self.chain.last@) =~= overrun(ops, self.chain.last@));
    }

    /// A send that is over may be forgotten.
    pub proof fn lemma_finish(self, ops: Map<int, Send<T>>, i: int)
        requires
            self.inv(ops),
            ops.contains_key(i),
            ops[i] is Done,
        ensures
            self.inv(ops.remove(i)),
    {
        assert(ops.remove(i).dom() =~= ops.dom().remove(i));
        assert(overrun(ops.remove(i), self.chain.last@) =~= overrun(ops, self.chain.last@));
        let hs = holds(ops, self.prepared());
        assert(hs.contains_key(i) && hs[i] == idle::<T>());
        self.chain.lemma_leave(hs, i);
        assert(holds(ops.remove(i), self.prepared()) =~= hs.remove(i));
        if self.next != self.chain.last@ {
            let j = choose|j: int| #[trigger]
                ops.contains_key(j) && ops[j].overran(self.chain.last@);
            assert(ops.remove(i).contains_key(j));
        }
    }

    /// Whatever sends are under way, one access of a receive keeps the invariant, and the value
    /// that a receive takes is the oldest of those that were claimed and not yet taken.
    pub proof fn lemma_recv(
        self,
        ops: Map<int, Send<T>>,
        op: Recv<T>,
        post: Self,
        next: Recv<T>,
    )
        requires
            self.inv(ops),
            self.chain.recv_ok(op),
            post.tail == self.tail,
            post.next == self.next,
            self.chain.recv_next(op, post.chain, next, false),
        ensures
            post.inv(ops),
            post.chain.recv_ok(next),
            match (op, next) {
                (Recv::Read, Recv::Done(Some(value))) => {
                    &&& self@.len() > 0
                    &&& value == self@[0]
                    &&& post@ == self@.skip(1)
                },
                _ => post@ == self@,
            },
    {
        self.chain.lemma_recv(op, post.chain, next, false, holds(ops, self.prepared()));
        match (op, next) {
            (Recv::Read, Recv::Done(Some(value))) => {
                assert(post@ =~= self@.skip(1));
            },
            _ => {},
        }
    }

    /// Performs one access of a receive.
    pub fn recv_step(&mut self, op: Recv<T>) -> (next: Recv<T>)
        requires
            old(self).chain.recv_ok(op),
            old(self).chain.recv_safe(),
        ensures
            final(self).tail == old(self).tail,
            final(self).next == old(self).next,
            old(self).chain.recv_next(op, final(self).chain, next, false),
    {
        self.chain.recv_step(op, false)
    }

    /// The next send puts another block on the heap.
    pub open spec fn takes_block(self) -> bool {
        !open_tail(self.tail)
    }

    /// Puts `value` at the end of the queue.
    pub fn send(&mut self, value: T)
        requires
            old(self).wf(),
            old(self).takes_block() ==> old(self).has_room(),
        ensures
            final(self).wf(),
            final(self)@ == old(self)@.push(value),
            final(self).chain.heap@.dom() == if old(self).takes_block() {
                old(self).chain.heap@.dom().insert(old(self).chain.heap.fresh())
            } else {
                old(self).chain.heap@.dom()
            },
            final(self).chain.heap.room() == old(self).chain.heap.room() - if old(self).takes_block() {
                1int
            } else {
                0
            },
    {
        let mut op = Self::start(value);
        let ghost ops = Map::<int, Send<T>>::empty();
        proof {
            self.lemma_start(ops, 0, value);
        }
        loop
            invariant
                old(self).wf(),
                self.inv(ops.insert(0, op)),
                ops == Map::<int, Send<T>>::empty(),
                old(self).takes_block() ==> old(self).has_room(),
                self.chain.heap@.dom() == if old(self).takes_block() && op.rank() < 6 {
                    old(self).chain.heap@.dom().insert(old(self).chain.heap.fresh())
                } else {
                    old(self).chain.heap@.dom()
                },
                old(self).takes_block() && !(op.rank() < 6) ==> self.chain.heap == old(self).chain.heap,
                self.chain.heap.room() == old(self).chain.heap.room() - if old(self).takes_block()
                    && op.rank() < 6 {
                    1int
                } else {
                    0
                },
                match op {
                    Send::Bump { value: v, spare } => v == value && self@ == old(self)@ && spare
                        == 0 && self.tail == old(self).tail && self.next == self.chain.last@,
                    Send::LoadNext { value: v, spare, home } => v == value && self@ == old(self)@
                        && home == self.chain.last@ && spare == 0 && self.next == home
                        && old(self).takes_block(),
                    Send::Allocate { value: v, home } => v == value && self@ == old(self)@ && home
                        == self.chain.last@ && self.next == home && old(self).takes_block(),
                    Send::Propose { value: v, spare, home } => v == value && self@ == old(self)@
                        && home == self.chain.last@ && self.next == home
                        && old(self).takes_block(),
                    Send::LoadTail { value: v, spare, home, next } => v == value && self@
                        == old(self)@ && home == self.chain.last@ && spare == 0
                        && old(self).takes_block(),
                    Send::Exchange { value: v, spare, home, next, seen } => v == value && self@
                        == old(self)@ && home == self.chain.last@ && seen == self.tail && spare
                        == 0 && old(self).takes_block(),
                    Send::PublishFirst { .. } => self@ == old(self)@.push(value)
                        && old(self).takes_block(),
                    Send::Link { .. } => self@ == old(self)@.push(value)
                        && old(self).takes_block(),
                    Send::Publish { spare, .. } => self@ == old(self)@.push(value) && spare == 0
                        && !old(self).takes_block(),
                    _ => self@ == old(self)@.push(value),
                },
            decreases op.rank(),
        {
            let ghost pre = *self;
            let ghost before = op;
            proof {
                assert(ops.insert(0, before)[0] == before);
                pre.lemma_tail(ops.insert(0, before));
                pre.chain.lemma_facts(holds(ops.insert(0, before), pre.prepared()));
                assert(ops.insert(0, before).contains_key(0));
                assert(pre.op_ok(before));
            }
            if let Send::Done = op {
                proof {
                    self.lemma_finish(ops.insert(0, op), 0);
                    assert(ops.insert(0, op).remove(0) =~= ops);
                }
                return;
            }
            proof {
                pre.lemma_accepts(ops.insert(0, before), 0);
            }
            op = self.send_step(op, false);
            proof {
                pre.lemma_send(ops.insert(0, before), 0, false, *self, op);
                assert(ops.insert(0, before).insert(0, op) =~= ops.insert(0, op));
            }
        }
    }

    /// In a queue at rest no block is prepared.
    proof fn lemma_at_rest(self)
        requires
            self.wf(),
        ensures
            self.prepared() == 0,
            self.chain.wf(),
    {
        let none = Map::<int, Hold<T>>::empty();
        let ops = Map::<int, Send<T>>::empty();
        assert(self.next == self.chain.last@);
        assert(holds(ops, 0) =~= none.insert(-1, idle()));
        self.chain.lemma_leave(none.insert(-1, idle()), -1);
        assert(none.insert(-1, idle()).remove(-1) =~= none);
    }

    /// Takes the oldest value out of the queue.
    pub fn try_recv(&mut self) -> (value: Option<T>)
        requires
            old(self).wf(),
        ensures
            final(self).wf(),
            final(self).chain.heap@.dom() == old(self).chain.heap@.dom(),
            final(self).chain.heap.room() == old(self).chain.heap.room(),
            match value {
                Some(v) => {
                    &&& old(self)@.len() > 0
                    &&& v == old(self)@[0]
                    &&& final(self)@ == old(self)@.skip(1)
                },
                None => old(self)@.len() == 0 && final(self)@ == old(self)@,
            },
    {
        let ghost none = Map::<int, Hold<T>>::empty();
        proof {
            self.lemma_at_rest();
            assert(holds(Map::<int, Send<T>>::empty(), 0) =~= none.insert(-1, idle()));
        }
        let value = self.chain.try_recv(false);
        proof {
            self.chain.lemma_enter(none, -1);
        }
        value
    }
}

/// Every run of sends and receives, whatever way their accesses follow each other.
impl<T> Machine for Queue<T> {
    type Item = T;

    type Send = Send<T>;

    type Recv = Recv<T>;

    open spec fn fits(self, sends: Map<int, Send<T>>, recv: Recv<T>) -> bool {
        self.inv(sends) && self.chain.recv_ok(recv)
    }

    open spec fn held(self) -> Seq<T> {
        self@
    }

    open spec fn unsent(send: Send<T>) -> Option<T> {
        match send {
            Send::Bump { value, .. } => Some(value),
            Send::LoadNext { value, .. } => Some(value),
            Send::Allocate { value, .. } => Some(value),
            Send::Propose { value, .. } => Some(value),
            Send::LoadTail { value, .. } => Some(value),
            Send::Exchange { value, .. } => Some(value),
            _ => None,
        }
    }

    open spec fn sent(send: Send<T>) -> bool {
        send is Done
    }

    open spec fn owes(send: Send<T>) -> bool {
        Self::unsent(send) is None && !Self::sent(send)
    }

    open spec fn awaited(sends: Map<int, Send<T>>) -> bool {
        exists|i: int| #[trigger] sends.contains_key(i) && Self::owes(sends[i])
    }

    open spec fn got(recv: Recv<T>) -> Option<T> {
        recv.result()
    }

    open spec fn missed(recv: Recv<T>) -> bool {
        recv is Done && recv.result() is None
    }

    open spec fn starts(self, sends: Map<int, Send<T>>, sender: int, send: Send<T>) -> bool {
        &&& send matches Send::Bump { value, spare } && spare == 0
        &&& sender != -1
        &&& sends.dom().len() < MAX_SENDERS
    }

    open spec fn sends_on(
        self,
        sends: Map<int, Send<T>>,
        sender: int,
        post: Self,
        next: Send<T>,
    ) -> bool {
        exists|spurious: bool| #[trigger] self.send_next(sends[sender], spurious, post, next)
    }

    open spec fn renews(recv: Recv<T>, next: Recv<T>) -> bool {
        recv is Done && next is Head
    }

    open spec fn recvs_on(
        self,
        sends: Map<int, Send<T>>,
        recv: Recv<T>,
        post: Self,
        next: Recv<T>,
    ) -> bool {
        &&& post.tail == self.tail
        &&& post.next == self.next
        &&& self.chain.recv_next(recv, post.chain, next, false)
    }

    proof fn lemma_starts(
        self,
        sends: Map<int, Send<T>>,
        recv: Recv<T>,
        sender: int,
        send: Send<T>,
    ) {
        self.lemma_start(sends, sender, send->Bump_value);
    }

    proof fn lemma_sends_on(
        self,
        sends: Map<int, Send<T>>,
        recv: Recv<T>,
        sender: int,
        post: Self,
        next: Send<T>,
    ) {
        let spurious = choose|spurious: bool| #[trigger]
            self.send_next(sends[sender], spurious, post, next);
        self.lemma_send(sends, sender, spurious, post, next);
    }

    proof fn lemma_sent(self, sends: Map<int, Send<T>>, recv: Recv<T>, sender: int) {
        self.lemma_finish(sends, sender);
    }

    proof fn lemma_renews(self, sends: Map<int, Send<T>>, recv: Recv<T>, next: Recv<T>) {
    }

    proof fn lemma_recvs_on(
        self,
        sends: Map<int, Send<T>>,
        recv: Recv<T>,
        post: Self,
        next: Recv<T>,
    ) {
        self.lemma_recv(sends, recv, post, next);
        if Self::missed(next) && !Self::missed(recv) && self.held().len() > 0 {
            let hs = holds(sends, self.prepared());
            self.chain.lemma_recv_waits(recv, post.chain, false, hs);
            let i = choose|i: int| #[trigger]
                hs.contains_key(i) && (hs[i].slot is Some || hs[i].edge is Some);
            assert(sends.contains_key(i) && Self::owes(sends[i]));
        }
    }
}

} // verus!
