//! An unbounded queue in blocks of 1024 slots, for many senders and one receiver, whose blocks are
//! freed by counting who still uses them.
//!
//! The tail word points to the block that is being filled and carries a tag. A sender adds one to
//! the word; the tag that it found is the slot that it has claimed. If there is no such slot, the
//! sender links a new block behind the full one, unless another sender did, and then tries to move
//! the tail to it. The sender that does so takes off the count of the full block as many as have
//! overrun it; each of the others adds one when it has seen the tail move on, and so does the
//! receiver when it leaves the block. Whoever brings the count to zero frees the block.
//!
//! The sender that moves the tail to the very first block takes one off its count. That block is
//! therefore not freed after an undisturbed use, and must not be while it is in use: see
//! [`Queue::lemma_send`].
//!
//! The tag must not overflow into the address of the block, so no more than [`MAX_SENDERS`] sends
//! may be under way at the same time.
use crate::chain::{idle, Chain, Claim, Edge, Hold, Recv};
use crate::history::Machine;
use crate::pause::Pause;
use crate::shared::Pointer;
use std::collections::HashMap;
use vstd::prelude::*;

verus! {

/// Slots in a block.
pub const BLOCK_SIZE: usize = 1024;

/// Alignment of a block, and so the number of tags of a pointer to one.
pub const BLOCK_ALIGN: usize = 4096;

/// How many sends may be under way at the same time.
pub const MAX_SENDERS: usize = 3071;

/// The counts of the blocks, which begin at zero.
pub struct Counts {
    counts: HashMap<usize, isize>,
}

impl Counts {
    /// The count of the block at `a`.
    pub closed spec fn at(self, a: usize) -> int {
        if self.counts@.contains_key(a) {
            self.counts@[a] as int
        } else {
            0
        }
    }

    /// Counts of zero.
    pub fn new() -> (counts: Self)
        ensures
            forall|a: usize| #[trigger] counts.at(a) == 0,
    {
        broadcast use vstd::std_specs::hash::group_hash_axioms;

        Counts { counts: HashMap::new() }
    }

    /// Adds to the count of the block at `a`, and returns the sum.
    pub fn add(&mut self, a: usize, count: isize) -> (sum: isize)
        requires
            isize::MIN <= old(self).at(a) + count <= isize::MAX,
        ensures
            sum == old(self).at(a) + count,
            final(self).at(a) == sum,
            forall|b: usize| b != a ==> #[trigger] final(self).at(b) == old(self).at(b),
    {
        broadcast use vstd::std_specs::hash::group_hash_axioms;

        let before: isize = match self.counts.get(&a) {
            Some(n) => *n,
            None => 0,
        };
        let sum: isize = before + count;
        self.counts.insert(a, sum);
        sum
    }
}

/// The queue.
pub struct Queue<T> {
    pub chain: Chain<T, BLOCK_SIZE, BLOCK_ALIGN>,
    pub tail: Pointer,
    pub counts: Counts,
    /// The block that the tail points to.
    pub home: Ghost<usize>,
    /// The first block, or zero.
    pub first: Ghost<usize>,
    /// One was taken off the count of the first block for its sake.
    pub lowered: Ghost<bool>,
    /// What is still to be taken off the counts of the blocks that the tail has left.
    pub owed: Ghost<Map<usize, int>>,
}

/// A send that is under way: the access to the memory that comes next. `home` is the block that
/// the send has overrun, or zero before the first block, and `spare` a block that the send has
/// allocated, or zero.
pub enum Send<T> {
    /// Add one to the tail; `lost` if another send has moved it on since the last try.
    Bump { value: T, spare: usize, lost: bool },
    /// Load the link behind `home`.
    Follow { value: T, spare: usize, home: usize },
    /// Allocate a block to link.
    Allocate { value: T, home: usize },
    /// Exchange no link behind `home` for the block.
    Join { value: T, spare: usize, home: usize },
    /// Load the tail; `next` is the block behind `home`.
    Reload { value: T, spare: usize, home: usize, next: usize },
    /// Exchange the tail that was seen for that block, unless it has moved on.
    Exchange { value: T, spare: usize, home: usize, next: usize, seen: Pointer },
    /// Count the send off the block that the tail has left.
    Leave { value: T, spare: usize, home: usize },
    /// Store the value in the first slot of the block that the tail was moved to.
    PublishFirst { value: T, spare: usize, home: usize, next: usize, debt: isize },
    /// Take the senders that have overrun the block off its count.
    Settle { block: usize, debt: isize, first: bool },
    /// Store the value in the claimed slot, and free a block that was not needed.
    Publish { value: T, spare: usize, block: usize, index: usize },
    /// The send is over.
    Done,
}

/// A sender that finds this tail can claim a slot.
pub open spec fn open_tail(seen: Pointer) -> bool {
    seen.cell(BLOCK_ALIGN) != 0 && seen.addr % BLOCK_ALIGN < BLOCK_SIZE
}

impl<T> Send<T> {
    /// What the send owns.
    pub open spec fn hold(self) -> Hold<T> {
        match self {
            Send::Bump { value, spare, lost } => Hold { spare, ..idle() },
            Send::Follow { value, spare, home } => Hold { spare, ..idle() },
            Send::Join { value, spare, home } => Hold { spare, ..idle() },
            Send::Reload { value, spare, home, next } => Hold { spare, ..idle() },
            Send::Exchange { value, spare, home, next, seen } => Hold { spare, ..idle() },
            Send::Leave { value, spare, home } => Hold { spare, ..idle() },
            Send::PublishFirst { value, spare, home, next, debt } => Hold {
                spare,
                slot: Some(Claim { block: next, index: 0, value }),
                ..idle()
            },
            Send::Publish { value, spare, block, index } => Hold {
                spare,
                slot: Some(Claim { block, index: index as int, value }),
                ..idle()
            },
            _ => idle(),
        }
    }

    /// The send has added one to the tail of block `a`, found no slot, and not yet counted itself
    /// off.
    pub open spec fn overran(self, a: usize) -> bool {
        match self {
            Send::Follow { value, spare, home } => home == a,
            Send::Allocate { value, home } => home == a,
            Send::Join { value, spare, home } => home == a,
            Send::Reload { value, spare, home, next } => home == a,
            Send::Exchange { value, spare, home, next, seen } => home == a,
            Send::Leave { value, spare, home } => home == a,
            _ => false,
        }
    }

    /// The block that the send has overrun, or zero.
    pub open spec fn home(self) -> usize {
        match self {
            Send::Follow { value, spare, home } => home,
            Send::Allocate { value, home } => home,
            Send::Join { value, spare, home } => home,
            Send::Reload { value, spare, home, next } => home,
            Send::Exchange { value, spare, home, next, seen } => home,
            Send::Leave { value, spare, home } => home,
            _ => 0,
        }
    }

    /// The block from whose count the send is going to take something off, and whether it does so
    /// for the sake of the first block.
    pub open spec fn settles(self) -> Option<(usize, bool)> {
        match self {
            Send::PublishFirst { value, spare, home, next, debt } => if home == 0 {
                Some((next, true))
            } else {
                Some((home, false))
            },
            Send::Settle { block, debt, first } => Some((block, first)),
            _ => None,
        }
    }

    /// How many accesses are left at most while no other send interferes.
    pub open spec fn rank(self) -> nat {
        match self {
            Send::Bump { .. } => 8,
            Send::Follow { .. } => 7,
            Send::Allocate { .. } => 6,
            Send::Join { .. } => 5,
            Send::Reload { .. } => 4,
            Send::Exchange { .. } => 3,
            Send::PublishFirst { .. } => 2,
            Send::Leave { .. } => 9,
            Send::Settle { .. } => 1,
            Send::Publish { .. } => 1,
            Send::Done => 0,
        }
    }

    /// How the thread waits before the next access: not at all, unless another send has moved the
    /// tail on.
    pub fn pause(&self) -> (pause: Pause)
        ensures
            pause == match *self {
                Send::Bump { value, spare, lost: true } => Pause::Spin(1),
                _ => Pause::Nothing,
            },
    {
        match self {
            Send::Bump { lost: true, .. } => Pause::Spin(1),
            _ => Pause::Nothing,
        }
    }
}

/// The sends that have overrun block `a`.
pub open spec fn overrun<T>(ops: Map<int, Send<T>>, a: usize) -> Set<int> {
    ops.dom().filter(|i: int| ops[i].overran(a))
}

/// Some send is going to take something off the count of block `b`.
pub open spec fn settled<T>(ops: Map<int, Send<T>>, b: usize, first: bool) -> bool {
    exists|i: int| #[trigger] ops.contains_key(i) && ops[i].settles() == Some((b, first))
}

/// What all the sends that are under way own.
pub open spec fn holds<T>(ops: Map<int, Send<T>>) -> Map<int, Hold<T>> {
    ops.map_values(|op: Send<T>| op.hold())
}

impl<T> Queue<T> {
    /// The tag of the tail.
    pub open spec fn tag(self) -> int {
        self.tail.addr - self.home@
    }

    /// The receiver has left the block.
    pub open spec fn left(self, b: usize) -> bool {
        self.chain.head != 0 && self.chain.base@[b] < self.chain.base@[self.chain.head]
    }

    /// The tail has left the block.
    pub open spec fn passed(self, b: usize) -> bool {
        self.home@ != 0 && self.chain.base@[b] < self.chain.base@[self.home@]
    }

    /// The tail points to the block that was linked last, or to the one before it. Its tag counts
    /// the claimed slots and, once the block is full, the sends that have overrun it.
    pub open spec fn tail_ok(self, ops: Map<int, Send<T>>) -> bool {
        let c = self.chain;
        let h = self.home@;
        &&& ops.dom().finite()
        &&& ops.dom().len() <= MAX_SENDERS
        &&& h % BLOCK_ALIGN == 0
        &&& h != 0 ==> c.linked(h)
        &&& 0 <= self.tag()
        &&& c.last@ == 0 ==> h == 0
        &&& if h == 0 {
            &&& self.tag() == overrun(ops, 0).len()
            &&& c.log@.len() == 0
            &&& !self.lowered@
            &&& c.last@ != 0 ==> {
                &&& self.tag() >= 1
                &&& c.base@[c.last@] == 0
                &&& c.head == c.last@
                &&& c.index == 0
            }
        } else {
            &&& self.tag() >= 1
            &&& self.tag() == BLOCK_SIZE + overrun(ops, h).len() || (self.tag() <= BLOCK_SIZE
                && overrun(ops, h).len() == 0)
            &&& if h == c.last@ {
                c.log@.len() == c.base@[h] + if self.tag() < BLOCK_SIZE {
                    self.tag()
                } else {
                    BLOCK_SIZE as int
                }
            } else {
                &&& self.tag() > BLOCK_SIZE
                &&& c.heap@.contains_key(h)
                &&& c.next(h) == c.last@
                &&& c.base@[c.last@] == c.base@[h] + BLOCK_SIZE
                &&& c.log@.len() == c.base@[c.last@]
            }
        }
    }

    /// The count of a block is that of those who are done with it, less those who have to be.
    pub open spec fn count_ok(self, ops: Map<int, Send<T>>, b: usize) -> bool {
        self.counts.at(b) == (if self.left(b) {
            1int
        } else {
            0
        }) + (if self.passed(b) {
            -1 - overrun(ops, b).len() + if self.owed@.contains_key(b) {
                self.owed@[b]
            } else {
                0
            }
        } else {
            0
        }) - if b == self.first@ && self.lowered@ {
            1int
        } else {
            0
        }
    }

    /// Everybody is done with the block.
    pub open spec fn done_with(self, ops: Map<int, Send<T>>, b: usize) -> bool {
        &&& b != self.first@
        &&& self.left(b)
        &&& self.passed(b)
        &&& overrun(ops, b).len() == 0
        &&& !self.owed@.contains_key(b)
    }

    /// The counts fit, and what everybody is done with is off the heap.
    pub open spec fn counts_ok(self, ops: Map<int, Send<T>>) -> bool {
        let c = self.chain;
        &&& forall|b: usize| #[trigger]
            c.linked(b) ==> {
                &&& !self.done_with(ops, b)
                &&& self.count_ok(ops, b)
            }
        &&& forall|b: usize| !c.linked(b) ==> #[trigger] self.counts.at(b) == 0
        &&& forall|b: usize| #[trigger]
            self.owed@.contains_key(b) ==> {
                &&& c.linked(b)
                &&& self.passed(b)
                &&& overrun(ops, b).len() < self.owed@[b] <= MAX_SENDERS
                &&& settled(ops, b, false)
            }
        &&& self.first@ != 0 ==> c.linked(self.first@) && c.base@[self.first@] == 0
        &&& self.first@ == 0 ==> c.last@ == 0
        &&& self.home@ != 0 && !self.lowered@ ==> settled(ops, self.first@, true)
    }

    /// What holds of a send.
    pub open spec fn op_ok(self, op: Send<T>) -> bool {
        let c = self.chain;
        match op {
            Send::Follow { value, spare, home } => self.home_ok(home),
            Send::Allocate { value, home } => self.home_ok(home),
            Send::Join { value, spare, home } => spare != 0 && self.home_ok(home),
            Send::Reload { value, spare, home, next } => self.home_ok(home) && self.next_ok(
                home,
                next,
            ),
            Send::Exchange { value, spare, home, next, seen } => {
                &&& self.home_ok(home)
                &&& self.next_ok(home, next)
                &&& seen.cell(BLOCK_ALIGN) != home ==> self.home@ != home
                &&& seen.cell(BLOCK_ALIGN) == home && home != 0 ==> seen.addr % BLOCK_ALIGN
                    > BLOCK_SIZE
            },
            Send::Leave { value, spare, home } => self.home_ok(home) && home != 0 && self.home@
                != home,
            Send::PublishFirst { value, spare, home, next, debt } => {
                &&& next != 0
                &&& home == 0 ==> self.lowers(next, debt as int)
                &&& home != 0 ==> self.owed@.contains_key(home) && self.owed@[home] == debt
            },
            Send::Settle { block, debt, first } => {
                &&& block != 0
                &&& first ==> self.lowers(block, debt as int)
                &&& !first ==> self.owed@.contains_key(block) && self.owed@[block] == debt
            },
            _ => true,
        }
    }

    /// A send is going to take one off the count of the first block for its sake.
    pub open spec fn lowers(self, block: usize, debt: int) -> bool {
        &&& block == self.first@
        &&& !self.lowered@
        &&& self.home@ != 0
        &&& debt == 1
    }

    /// A send has overrun a block that the tail points to or has left.
    pub open spec fn home_ok(self, home: usize) -> bool {
        home != 0 ==> self.chain.linked(home) && (self.home@ == home || self.passed(home))
    }

    /// What the send takes for the block behind `home`.
    pub open spec fn next_ok(self, home: usize, next: usize) -> bool {
        &&& next != 0
        &&& home != 0 ==> self.chain.next(home) == next
        &&& home == 0 && self.home@ == 0 ==> next == self.chain.last@
    }

    /// The invariant of the queue together with the sends that are under way.
    pub open spec fn inv(self, ops: Map<int, Send<T>>) -> bool {
        &&& self.chain.inv(holds(ops))
        &&& self.tail_ok(ops)
        &&& self.counts_ok(ops)
        &&& forall|i: int| #[trigger] ops.contains_key(i) ==> self.op_ok(ops[i])
        &&& forall|i: int, j: int| #[trigger]
            ops.contains_key(i) && #[trigger] ops.contains_key(j) && i != j && ops[i].settles() is Some
                ==> ops[i].settles() != ops[j].settles()
    }

    /// The invariant while no send is under way.
    pub open spec fn wf(self) -> bool {
        self.inv(Map::empty())
    }

    /// The values in the queue, the oldest first.
    pub open spec fn view(self) -> Seq<T> {
        self.chain.pending()
    }

    /// Another block still has an address.
    pub open spec fn has_room(self) -> bool {
        self.chain.heap.has_room()
    }

    /// A count that is added to stays a machine number.
    pub open spec fn adds(self, a: usize, count: int) -> bool {
        isize::MIN <= self.counts.at(a) + count <= isize::MAX
    }

    /// The next access of the send is to memory that is there.
    pub open spec fn accepts(self, op: Send<T>) -> bool {
        let c = self.chain;
        &&& c.heap.wf()
        &&& match op {
            Send::Follow { value, spare, home } => if home != 0 {
                c.heap@.contains_key(home)
            } else {
                c.index < BLOCK_ALIGN && c.head % BLOCK_ALIGN == 0
            },
            Send::Allocate { .. } => c.heap.has_room(),
            Send::Join { value, spare, home } => if home != 0 {
                c.heap@.contains_key(home)
            } else {
                c.index < BLOCK_ALIGN && c.head % BLOCK_ALIGN == 0
            },
            Send::Exchange { value, spare, home, next, seen } => {
                &&& self.tail == seen && seen.cell(BLOCK_ALIGN) == home ==> next % BLOCK_ALIGN == 0
                &&& seen.cell(BLOCK_ALIGN) == home && home != 0 ==> seen.addr % BLOCK_ALIGN
                    > BLOCK_SIZE
            },
            Send::Leave { value, spare, home } => c.heap@.contains_key(home) && self.adds(home, 1),
            Send::PublishFirst { value, spare, home, next, debt } => {
                &&& c.heap@.contains_key(next)
                &&& 0 < c.heap@[next].slots@.len()
                &&& spare != 0 ==> c.heap@.contains_key(spare) && spare != next
            },
            Send::Settle { block, debt, first } => {
                &&& c.heap@.contains_key(block)
                &&& debt > 0
                &&& self.adds(block, -debt)
            },
            Send::Publish { value, spare, block, index } => {
                &&& c.heap@.contains_key(block)
                &&& index < c.heap@[block].slots@.len()
                &&& spare != 0 ==> c.heap@.contains_key(spare) && spare != block
            },
            _ => true,
        }
    }

    /// The link behind `home`: that of the block, or the receiver's word before the first block.
    pub open spec fn link(self, home: usize) -> int {
        if home != 0 {
            self.chain.next(home) as int
        } else {
            self.chain.head + self.chain.index
        }
    }

    /// The chain and the tail are the same, but for a block that may be off the heap.
    pub open spec fn counted(self, post: Self, a: usize, count: int) -> bool {
        &&& post.tail == self.tail
        &&& post.home == self.home
        &&& post.first == self.first
        &&& post.counts.at(a) == self.counts.at(a) + count
        &&& forall|b: usize| b != a ==> #[trigger] post.counts.at(b) == self.counts.at(b)
        &&& if self.counts.at(a) + count == 0 {
            self.chain.released(post.chain, a)
        } else {
            post.chain == self.chain
        }
    }

    /// Nothing but the chain is different.
    pub open spec fn same_but_chain(self, post: Self) -> bool {
        &&& post.tail == self.tail
        &&& post.counts == self.counts
        &&& post.home == self.home
        &&& post.first == self.first
        &&& post.lowered == self.lowered
        &&& post.owed == self.owed
    }

    /// The access does not bring the count of the first block to zero. The count of that block is
    /// one too low, so it could only do so while the block is in use.
    pub open spec fn spares_first(self, op: Send<T>) -> bool {
        match op {
            Send::Leave { value, spare, home } => home == self.first@ ==> self.counts.at(home) + 1
                != 0,
            Send::Settle { block, debt, first } => block == self.first@ ==> self.counts.at(block)
                - debt != 0,
            _ => true,
        }
    }

    /// One access of a send. A weak exchange may fail though it need not (`spurious`).
    pub open spec fn send_next(self, op: Send<T>, spurious: bool, post: Self, next: Send<T>) -> bool {
        match op {
            Send::Bump { value, spare, lost } => {
                let seen = self.tail;
                let block = seen.cell(BLOCK_ALIGN) as usize;
                &&& post.tail.addr == seen.addr.wrapping_add(1)
                &&& post.counts == self.counts
                &&& post.home == self.home
                &&& post.first == self.first
                &&& post.lowered == self.lowered
                &&& post.owed == self.owed
                &&& if open_tail(seen) {
                    &&& post.chain == self.chain.claim(value)
                    &&& next == Send::Publish {
                        value,
                        spare,
                        block,
                        index: seen.addr % BLOCK_ALIGN,
                    }
                } else {
                    &&& post.chain == self.chain
                    &&& next == Send::Follow { value, spare, home: block }
                }
            },
            Send::Follow { value, spare, home } => {
                let link = self.link(home);
                &&& post == self
                &&& next == if link != 0 {
                    Send::Reload { value, spare, home, next: link as usize }
                } else if spare == 0 {
                    Send::Allocate { value, home }
                } else {
                    Send::Join { value, spare, home }
                }
            },
            Send::Allocate { value, home } => {
                &&& self.same_but_chain(post)
                &&& self.chain.allocated(post.chain, self.chain.heap.fresh())
                &&& next == Send::Join { value, spare: self.chain.heap.fresh(), home }
            },
            Send::Join { value, spare, home } => {
                let link = self.link(home);
                if link == 0 {
                    &&& self.chain.append(spare).joined(post.chain, home, spare)
                    &&& post.tail == self.tail
                    &&& post.counts == self.counts
                    &&& post.home == self.home
                    &&& post.first@ == if home == 0 {
                        spare
                    } else {
                        self.first@
                    }
                    &&& post.lowered == self.lowered
                    &&& post.owed == self.owed
                    &&& next == Send::Reload { value, spare: 0, home, next: spare }
                } else {
                    post == self && next == Send::Reload { value, spare, home, next: link as usize }
                }
            },
            Send::Reload { value, spare, home, next: n } => post == self && next == Send::Exchange {
                value,
                spare,
                home,
                next: n,
                seen: self.tail,
            },
            Send::Exchange { value, spare, home, next: n, seen } => if seen.cell(BLOCK_ALIGN)
                != home {
                &&& post == self
                &&& next == if home == 0 {
                    Send::Bump { value, spare, lost: true }
                } else {
                    Send::Leave { value, spare, home }
                }
            } else if self.tail != seen || spurious {
                &&& post == self
                &&& next == Send::Exchange { value, spare, home, next: n, seen: self.tail }
            } else {
                let debt = if home == 0 {
                    1
                } else {
                    seen.addr % BLOCK_ALIGN - BLOCK_SIZE
                };
                &&& post.chain == self.chain.claim(value)
                &&& post.tail.addr == n + 1
                &&& post.counts == self.counts
                &&& post.home@ == n
                &&& post.first == self.first
                &&& post.lowered == self.lowered
                &&& post.owed@ == if home == 0 {
                    self.owed@
                } else {
                    self.owed@.insert(home, debt)
                }
                &&& next == Send::PublishFirst { value, spare, home, next: n, debt: debt as isize }
            },
            Send::Leave { value, spare, home } => {
                &&& self.counted(post, home, 1)
                &&& post.lowered == self.lowered
                &&& post.owed == self.owed
                &&& next == Send::Bump { value, spare, lost: true }
            },
            Send::PublishFirst { value, spare, home, next: n, debt } => {
                &&& self.same_but_chain(post)
                &&& next == Send::<T>::Settle {
                    block: if home == 0 {
                        n
                    } else {
                        home
                    },
                    debt,
                    first: home == 0,
                }
                &&& if spare == 0 {
                    self.chain.published(post.chain, n, 0, value)
                } else {
                    exists|mid: Chain<T, BLOCK_SIZE, BLOCK_ALIGN>| #[trigger]
                        self.chain.published(mid, n, 0, value) && mid.released(post.chain, spare)
                }
            },
            Send::Settle { block, debt, first } => {
                &&& self.counted(post, block, -debt)
                &&& post.lowered@ == (self.lowered@ || first)
                &&& post.owed@ == if first {
                    self.owed@
                } else {
                    self.owed@.remove(block)
                }
                &&& next == Send::<T>::Done
            },
            Send::Publish { value, spare, block, index } => {
                &&& self.same_but_chain(post)
                &&& next == Send::<T>::Done
                &&& if spare == 0 {
                    self.chain.published(post.chain, block, index as int, value)
                } else {
                    exists|mid: Chain<T, BLOCK_SIZE, BLOCK_ALIGN>| #[trigger]
                        self.chain.published(mid, block, index as int, value) && mid.released(
                            post.chain,
                            spare,
                        )
                }
            },
            Send::Done => post == self && next == op,
        }
    }

    /// A queue without values.
    pub fn empty() -> (queue: Self)
        ensures
            queue.wf(),
            queue@ == Seq::<T>::empty(),
            queue.chain.heap.room() == (usize::MAX - BLOCK_ALIGN) / BLOCK_ALIGN as int,
            queue.has_room(),
    {
        let queue = Queue {
            chain: Chain::new(),
            tail: Pointer { addr: 0 },
            counts: Counts::new(),
            home: Ghost(0usize),
            first: Ghost(0usize),
            lowered: Ghost(false),
            owed: Ghost(Map::empty()),
        };
        proof {
            let ops = Map::<int, Send<T>>::empty();
            queue.chain.lemma_facts(Map::empty());
            assert(overrun(ops, 0) =~= Set::empty());
            assert(holds(ops) =~= Map::empty());
            assert(queue@ =~= Seq::empty());
            assert forall|b: usize| !#[trigger] queue.chain.linked(b) by {
                reveal(Chain::inv);
            }
        }
        queue
    }

    /// A send that has not yet begun.
    pub fn start(value: T) -> (send: Send<T>)
        ensures
            send == (Send::Bump { value, spare: 0, lost: false }),
    {
        Send::Bump { value, spare: 0, lost: false }
    }

    /// The link behind `home`.
    fn load_link(&self, home: usize) -> (link: usize)
        requires
            if home != 0 {
                self.chain.heap@.contains_key(home)
            } else {
                self.chain.index < BLOCK_ALIGN && self.chain.head % BLOCK_ALIGN == 0
            },
        ensures
            link == self.link(home),
    {
        if home != 0 {
            self.chain.follower(home)
        } else {
            Pointer::tagged(self.chain.head, self.chain.index, BLOCK_ALIGN).addr
        }
    }

    /// Adds to the count of a block, and frees the block if the sum is zero.
    fn unref(&mut self, block: usize, count: isize)
        requires
            old(self).chain.heap.wf(),
            old(self).chain.heap@.contains_key(block),
            old(self).adds(block, count as int),
        ensures
            old(self).counted(*final(self), block, count as int),
            final(self).lowered == old(self).lowered,
            final(self).owed == old(self).owed,
    {
        let sum: isize = self.counts.add(block, count);
        if sum == 0 {
            self.chain.release(block);
        }
    }

    /// Performs one access of a send.
    pub fn send_step(&mut self, op: Send<T>, spurious: bool) -> (next: Send<T>)
        requires
            old(self).accepts(op),
        ensures
            old(self).send_next(op, spurious, *final(self), next),
    {
        match op {
            Send::Bump { value, spare, lost } => {
                let seen = self.tail;
                self.tail = Pointer { addr: seen.addr.wrapping_add(1) };
                let block: usize = seen.untagged(BLOCK_ALIGN);
                let index: usize = seen.tag(BLOCK_ALIGN);
                if block != 0 && index < BLOCK_SIZE {
                    self.chain.note_claim(Ghost(value));
                    Send::Publish { value, spare, block, index }
                } else {
                    Send::Follow { value, spare, home: block }
                }
            },
            Send::Follow { value, spare, home } => {
                let next: usize = self.load_link(home);
                if next != 0 {
                    Send::Reload { value, spare, home, next }
                } else if spare == 0 {
                    Send::Allocate { value, home }
                } else {
                    Send::Join { value, spare, home }
                }
            },
            Send::Allocate { value, home } => {
                let spare: usize = self.chain.allocate();
                Send::Join { value, spare, home }
            },
            Send::Join { value, spare, home } => {
                let next: usize = self.load_link(home);
                if next == 0 {
                    self.chain.note_append(spare);
                    self.chain.join(home, spare);
                    if home == 0 {
                        self.first = Ghost(spare);
                    }
                    Send::Reload { value, spare: 0, home, next: spare }
                } else {
                    Send::Reload { value, spare, home, next }
                }
            },
            Send::Reload { value, spare, home, next } => {
                Send::Exchange { value, spare, home, next, seen: self.tail }
            },
            Send::Exchange { value, spare, home, next, seen } => {
                let block: usize = seen.untagged(BLOCK_ALIGN);
                let index: usize = seen.tag(BLOCK_ALIGN);
                if block != home {
                    if home == 0 {
                        Send::Bump { value, spare, lost: true }
                    } else {
                        Send::Leave { value, spare, home }
                    }
                } else if self.tail != seen || spurious {
                    Send::Exchange { value, spare, home, next, seen: self.tail }
                } else {
                    let debt: isize = if home == 0 {
                        1
                    } else {
                        (index - BLOCK_SIZE) as isize
                    };
                    self.tail = Pointer::tagged(next, 1, BLOCK_ALIGN);
                    self.chain.note_claim(Ghost(value));
                    self.home = Ghost(next);
                    let ghost owed = if home == 0 {
                        self.owed@
                    } else {
                        self.owed@.insert(home, debt as int)
                    };
                    self.owed = Ghost(owed);
                    Send::PublishFirst { value, spare, home, next, debt }
                }
            },
            Send::Leave { value, spare, home } => {
                self.unref(home, 1);
                Send::Bump { value, spare, lost: true }
            },
            Send::PublishFirst { value, spare, home, next, debt } => {
                self.chain.publish(next, 0, value);
                if spare != 0 {
                    self.chain.release(spare);
                }
                Send::Settle {
                    block: if home == 0 {
                        next
                    } else {
                        home
                    },
                    debt,
                    first: home == 0,
                }
            },
            Send::Settle { block, debt, first } => {
                self.unref(block, -debt);
                let ghost owed = if first {
                    self.owed@
                } else {
                    self.owed@.remove(block)
                };
                self.owed = Ghost(owed);
                let ghost lowered = self.lowered@ || first;
                self.lowered = Ghost(lowered);
                Send::Done
            },
            Send::Publish { value, spare, block, index } => {
                self.chain.publish(block, index, value);
                if spare != 0 {
                    self.chain.release(spare);
                }
                Send::Done
            },
            Send::Done => Send::Done,
        }
    }

    /// A chain whose links are all stored has no gaps.
    proof fn lemma_chain(c: Chain<T, BLOCK_SIZE, BLOCK_ALIGN>, ops: Map<int, Send<T>>)
        requires
            c.inv(holds(ops)),
        ensures
            c.heap.wf(),
            0 <= c.taken() <= c.log@.len(),
            c.head == 0 <==> c.last@ == 0,
            c.head == 0 ==> c.index == 0,
            c.index <= BLOCK_SIZE,
            c.head != 0 ==> c.live(c.head),
            c.head % BLOCK_ALIGN == 0,
            c.last@ != 0 ==> c.linked(c.last@),
            forall|a: usize| #[trigger]
                c.linked(a) ==> {
                    &&& 0 < a
                    &&& c.heap@.contains_key(a)
                    &&& a % BLOCK_ALIGN == 0
                    &&& c.last@ != 0
                    &&& c.base@[a] <= c.base@[c.last@]
                },
            forall|a: usize, b: usize| #[trigger]
                c.linked(a) && #[trigger] c.linked(b) && a != b ==> c.base@[a] + BLOCK_SIZE
                    <= c.base@[b] || c.base@[b] + BLOCK_SIZE <= c.base@[a],
            forall|a: usize| #[trigger]
                c.live(a) ==> {
                    &&& c.next(a) == 0 <==> a == c.last@
                    &&& c.next(a) != 0 && !c.behind(a) ==> c.linked(c.next(a)) && c.base@[c.next(
                        a,
                    )] == c.base@[a] + BLOCK_SIZE
                },
    {
        let hs = holds(ops);
        reveal(Chain::inv);
        assert forall|a: usize| !#[trigger] Chain::<T, BLOCK_SIZE, BLOCK_ALIGN>::edged(hs, a) by {
            assert forall|i: int| #[trigger] hs.contains_key(i) implies hs[i].edge is None by {
                assert(hs[i] == ops[i].hold());
            }
        }
        assert(c.head != 0 ==> c.live(c.head));
        assert forall|a: usize| #[trigger] c.live(a) implies (c.next(a) == 0 <==> a == c.last@) by {
            if c.next(a) != 0 {
                if !c.behind(a) {
                    assert(c.linked(c.next(a)));
                } else {
                    assert(c.linked(c.head));
                }
            } else if a != c.last@ {
                assert(Chain::<T, BLOCK_SIZE, BLOCK_ALIGN>::edged(hs, a));
            }
        }
        if c.head == 0 && c.last@ != 0 {
            assert(Chain::<T, BLOCK_SIZE, BLOCK_ALIGN>::edged(hs, 0));
        }
    }

    /// What the parts of the invariant give together: the tag of the tail never overflows into
    /// the address, the blocks that are in use are on the heap, and the chain has no gaps.
    proof fn lemma_shape(self, ops: Map<int, Send<T>>)
        requires
            self.inv(ops),
        ensures
            self.tail.cell(BLOCK_ALIGN) == self.home@,
            self.tail.addr % BLOCK_ALIGN == self.tag(),
            forall|i: int| #[trigger]
                ops.contains_key(i) && !ops[i].overran(self.home@) ==> self.tag() + 1 < BLOCK_ALIGN,
            self.home@ != 0 ==> self.chain.heap@.contains_key(self.home@),
            forall|a: usize| #[trigger] overrun(ops, a).len() <= MAX_SENDERS,
            self.chain.heap.wf(),
            0 <= self.chain.taken() <= self.chain.log@.len(),
            self.chain.head == 0 <==> self.chain.last@ == 0,
            self.chain.head == 0 ==> self.chain.index == 0,
            self.chain.index <= BLOCK_SIZE,
            self.chain.head != 0 ==> self.chain.live(self.chain.head),
            self.chain.head % BLOCK_ALIGN == 0,
            self.chain.last@ != 0 ==> self.chain.linked(self.chain.last@),
            forall|a: usize| #[trigger]
                self.chain.linked(a) ==> {
                    &&& 0 < a
                    &&& self.chain.heap@.contains_key(a)
                    &&& a % BLOCK_ALIGN == 0
                    &&& self.chain.last@ != 0
                    &&& self.chain.base@[a] <= self.chain.base@[self.chain.last@]
                },
            forall|a: usize, b: usize| #[trigger]
                self.chain.linked(a) && #[trigger] self.chain.linked(b) && a != b ==> self.chain.base@[a] + BLOCK_SIZE
                    <= self.chain.base@[b] || self.chain.base@[b] + BLOCK_SIZE <= self.chain.base@[a],
            forall|a: usize| #[trigger]
                self.chain.live(a) ==> {
                    &&& self.chain.next(a) == 0 <==> a == self.chain.last@
                    &&& self.chain.next(a) != 0 && !self.chain.behind(a) ==> self.chain.linked(
                        self.chain.next(a),
                    ) && self.chain.base@[self.chain.next(a)] == self.chain.base@[a] + BLOCK_SIZE
                },
    {
        Self::lemma_chain(self.chain, ops);
        assert forall|a: usize| #[trigger] overrun(ops, a).len() <= MAX_SENDERS by {
            vstd::set_lib::lemma_len_subset(overrun(ops, a), ops.dom());
        }
        let h = self.home@;
        assert forall|i: int| #[trigger] ops.contains_key(i) && !ops[i].overran(h) implies self.tag()
            + 1 < BLOCK_ALIGN by {
            vstd::set_lib::lemma_len_subset(overrun(ops, h).insert(i), ops.dom());
        }
        assert(overrun(ops, h).len() <= MAX_SENDERS);
        assert(self.tag() < BLOCK_ALIGN);
        if h != 0 {
            assert(self.chain.linked(h));
        }
    }

    /// A send that has overrun a block finds the block on the heap, and as long as the tail points
    /// to it, full.
    proof fn lemma_home(self, ops: Map<int, Send<T>>, i: int, home: usize)
        requires
            self.inv(ops),
            ops.contains_key(i),
            ops[i].overran(home),
        ensures
            home != 0 ==> self.chain.live(home),
            overrun(ops, home).len() > 0,
            home == self.home@ && home != 0 ==> self.tag() == BLOCK_SIZE + overrun(ops, home).len(),
            self.home_ok(home),
    {
        assert(overrun(ops, home).contains(i));
        vstd::set_lib::lemma_len_subset(overrun(ops, home), ops.dom());
        vstd::set_lib::lemma_len_subset(Set::empty().insert(i), overrun(ops, home));
        self.lemma_shape(ops);
        assert(self.op_ok(ops[i]));
        if home != 0 {
            assert(self.chain.linked(home));
        }
    }

    /// The access that any send makes next is to memory that is there.
    pub proof fn lemma_accepts(self, ops: Map<int, Send<T>>, i: int)
        requires
            self.inv(ops),
            ops.contains_key(i),
            ops[i] is Allocate ==> self.has_room(),
        ensures
            self.accepts(ops[i]),
    {
        let hs = holds(ops);
        assert(hs.contains_key(i) && hs[i] == ops[i].hold());
        self.chain.lemma_facts(hs);
        self.lemma_shape(ops);
        assert(self.op_ok(ops[i]));
        match ops[i] {
            Send::Follow { value, spare, home } => {
                self.lemma_home(ops, i, home);
            },
            Send::Join { value, spare, home } => {
                self.lemma_home(ops, i, home);
            },
            Send::Exchange { value, spare, home, next, seen } => {
                self.lemma_home(ops, i, home);
                if self.tail == seen && seen.cell(BLOCK_ALIGN) == home {
                    assert(home != 0 ==> self.chain.live(home));
                    assert(self.chain.linked(next));
                }
            },
            Send::Leave { value, spare, home } => {
                self.lemma_home(ops, i, home);
                assert(self.chain.linked(home));
            },
            Send::Settle { block, debt, first } => {
                assert(self.chain.linked(block));
            },
            _ => {},
        }
    }

    /// How the set of overrunning sends changes with one send.
    proof fn lemma_overrun(ops: Map<int, Send<T>>, i: int, next: Send<T>, a: usize)
        requires
            ops.dom().finite(),
            ops.contains_key(i),
        ensures
            ops.insert(i, next).dom() == ops.dom(),
            overrun(ops.insert(i, next), a).len() == overrun(ops, a).len() + if next.overran(a) {
                1int
            } else {
                0
            } - if ops[i].overran(a) {
                1int
            } else {
                0
            },
    {
        let before = overrun(ops, a);
        let after = overrun(ops.insert(i, next), a);
        assert(ops.insert(i, next).dom() =~= ops.dom());
        assert(before.remove(i) =~= after.remove(i));
        vstd::set_lib::lemma_len_subset(before, ops.dom());
        vstd::set_lib::lemma_len_subset(after, ops.dom());
        assert(before.contains(i) == ops[i].overran(a));
        assert(after.contains(i) == next.overran(a));
        assert(before.len() == before.remove(i).len() + if before.contains(i) {
            1int
        } else {
            0
        });
        assert(after.len() == after.remove(i).len() + if after.contains(i) {
            1int
        } else {
            0
        });
    }

    /// What is owed stays owed by some send.
    proof fn lemma_settled(ops: Map<int, Send<T>>, i: int, next: Send<T>, b: usize, first: bool)
        requires
            ops.contains_key(i),
        ensures
            settled(ops, b, first) && ops[i].settles() != Some((b, first)) ==> settled(
                ops.insert(i, next),
                b,
                first,
            ),
            next.settles() == Some((b, first)) ==> settled(ops.insert(i, next), b, first),
    {
        let gs = ops.insert(i, next);
        assert(gs.contains_key(i));
        if settled(ops, b, first) {
            let j = choose|j: int| #[trigger]
                ops.contains_key(j) && ops[j].settles() == Some((b, first));
            assert(gs.contains_key(j));
        }
    }

    /// An access that leaves the counts and the links of the chain alone keeps the invariant, if
    /// the tail and the send itself fit.
    proof fn lemma_keep(self, ops: Map<int, Send<T>>, i: int, post: Self, next: Send<T>)
        requires
            self.inv(ops),
            ops.contains_key(i),
            post.counts == self.counts,
            post.home == self.home,
            post.first == self.first,
            post.lowered == self.lowered,
            post.owed == self.owed,
            post.chain.inv(holds(ops.insert(i, next))),
            post.chain.base == self.chain.base,
            post.chain.last == self.chain.last,
            self.chain.same_place(post.chain),
            forall|b: usize| #[trigger]
                self.chain.linked(b) ==> {
                    &&& post.chain.heap@.contains_key(b) == self.chain.heap@.contains_key(b)
                    &&& self.chain.heap@.contains_key(b) ==> post.chain.next(b) == self.chain.next(b)
                    &&& self.passed(b) ==> next.overran(b) == ops[i].overran(b)
                },
            post.tail_ok(ops.insert(i, next)),
            post.op_ok(next),
            next.settles() == ops[i].settles(),
        ensures
            post.inv(ops.insert(i, next)),
    {
        let gs = ops.insert(i, next);
        self.lemma_shape(ops);
        assert forall|b: usize| #[trigger] post.chain.linked(b) implies {
            &&& !post.done_with(gs, b)
            &&& post.count_ok(gs, b)
        } by {
            assert(self.chain.linked(b));
            Self::lemma_overrun(ops, i, next, b);
        }
        assert forall|b: usize| !post.chain.linked(b) implies #[trigger] post.counts.at(b) == 0 by {
            assert(!self.chain.linked(b));
        }
        assert forall|b: usize| #[trigger] post.owed@.contains_key(b) implies {
            &&& post.chain.linked(b)
            &&& post.passed(b)
            &&& overrun(gs, b).len() < post.owed@[b] <= MAX_SENDERS
            &&& settled(gs, b, false)
        } by {
            Self::lemma_settled(ops, i, next, b, false);
            assert(self.owed@.contains_key(b));
            assert(self.chain.linked(b));
            Self::lemma_overrun(ops, i, next, b);
        }
        assert forall|j: int| #[trigger] gs.contains_key(j) implies post.op_ok(gs[j]) by {
            if j != i {
                assert(ops.contains_key(j));
                self.lemma_others(ops, j, post);
            }
        }
        Self::lemma_settled(ops, i, next, self.first@, true);
        assert forall|j: int, k: int| #[trigger]
            gs.contains_key(j) && #[trigger] gs.contains_key(k) && j != k && gs[j].settles() is Some
            implies gs[j].settles() != gs[k].settles() by {
            assert(ops.contains_key(j) && ops.contains_key(k));
        }
    }

    /// What a send knows stays true while the links behind the blocks stay as they are.
    proof fn lemma_others(self, ops: Map<int, Send<T>>, j: int, post: Self)
        requires
            self.inv(ops),
            ops.contains_key(j),
            post.home == self.home,
            post.first == self.first,
            post.lowered == self.lowered,
            post.owed == self.owed,
            post.chain.last == self.chain.last,
            forall|b: usize| #[trigger]
                self.chain.linked(b) && (overrun(ops, b).len() > 0 || b == self.home@) ==> {
                    &&& post.chain.linked(b)
                    &&& post.chain.base@[b] == self.chain.base@[b]
                    &&& post.chain.next(b) == self.chain.next(b)
                },
        ensures
            post.op_ok(ops[j]),
    {
        assert(self.op_ok(ops[j]));
        match ops[j] {
            Send::Follow { value, spare, home } => {
                self.lemma_home(ops, j, home);
            },
            Send::Allocate { value, home } => {
                self.lemma_home(ops, j, home);
            },
            Send::Join { value, spare, home } => {
                self.lemma_home(ops, j, home);
            },
            Send::Reload { value, spare, home, next } => {
                self.lemma_home(ops, j, home);
                assert(home != 0 ==> self.chain.linked(home));
            },
            Send::Exchange { value, spare, home, next, seen } => {
                self.lemma_home(ops, j, home);
                assert(home != 0 ==> self.chain.linked(home));
            },
            Send::Leave { value, spare, home } => {
                self.lemma_home(ops, j, home);
            },
            _ => {},
        }
    }

    /// Counting a send off a block keeps the invariant, whether the block is freed or not.
    proof fn lemma_unref(
        self,
        ops: Map<int, Send<T>>,
        i: int,
        spurious: bool,
        post: Self,
        next: Send<T>,
    )
        requires
            self.inv(ops),
            ops.contains_key(i),
            ops[i] is Leave || ops[i] is Settle,
            self.spares_first(ops[i]),
            self.send_next(ops[i], spurious, post, next),
        ensures
            post.inv(ops.insert(i, next)),
            post.chain.log == self.chain.log,
            post.chain.taken() == self.chain.taken(),
            self.chain.same_place(post.chain),
    {
        let c = self.chain;
        let hs = holds(ops);
        let op = ops[i];
        let gs = ops.insert(i, next);
        self.lemma_shape(ops);
        assert(self.op_ok(op));
        assert(hs.contains_key(i) && hs[i] == op.hold());
        assert(holds(gs) =~= hs);
        let (b, count): (usize, int) = match op {
            Send::Leave { value, spare, home } => (home, 1),
            Send::Settle { block, debt, first } => (block, -debt),
            _ => (0, 0),
        };
        if op is Leave {
            self.lemma_home(ops, i, b);
        }
        assert(c.linked(b) && c.heap@.contains_key(b));
        Self::lemma_overrun(ops, i, next, b);
        let freed = self.counts.at(b) + count == 0;
        assert(self.count_ok(ops, b));
        if freed {
            assert(c.live(b));
            assert(self.left(b) && self.passed(b) && overrun(gs, b).len() == 0
                && !post.owed@.contains_key(b) && b != self.first@);
            assert(c.linked(c.head) && c.base@[b] < c.base@[c.head]);
            assert(b != self.home@);
            c.lemma_retire(post.chain, b, hs);
        } else {
            assert(post.count_ok(gs, b));
        }
        assert forall|a: usize| #[trigger] post.chain.linked(a) == (c.linked(a) && !(freed && a == b)) by {}
        assert forall|a: usize| #[trigger] post.chain.linked(a) implies post.chain.base@[a]
            == c.base@[a] && post.passed(a) == self.passed(a) && post.left(a) == self.left(a) by {
            assert(self.home@ != 0 ==> c.linked(self.home@) && post.chain.linked(self.home@));
            assert(c.head != 0 ==> c.linked(c.head) && post.chain.linked(c.head));
        }
        assert forall|a: usize| #[trigger] post.chain.linked(a) implies {
            &&& !post.done_with(gs, a)
            &&& post.count_ok(gs, a)
        } by {
            assert(c.linked(a));
            Self::lemma_overrun(ops, i, next, a);
        }
        assert forall|a: usize| !post.chain.linked(a) implies #[trigger] post.counts.at(a) == 0 by {
            assert(!c.linked(a) || (freed && a == b));
        }
        assert forall|a: usize| #[trigger] post.owed@.contains_key(a) implies {
            &&& post.chain.linked(a)
            &&& post.passed(a)
            &&& overrun(gs, a).len() < post.owed@[a] <= MAX_SENDERS
            &&& settled(gs, a, false)
        } by {
            Self::lemma_settled(ops, i, next, a, false);
            assert(self.owed@.contains_key(a));
            assert(post.chain.linked(a));
            Self::lemma_overrun(ops, i, next, a);
        }
        Self::lemma_overrun(ops, i, next, self.home@);
        assert(!op.overran(self.home@) && !next.overran(self.home@));
        assert forall|j: int| #[trigger] gs.contains_key(j) implies post.op_ok(gs[j]) by {
            if j != i {
                assert(ops.contains_key(j));
                assert(self.op_ok(ops[j]));
                let home = ops[j].home();
                if home != 0 {
                    self.lemma_home(ops, j, home);
                    assert(overrun(gs, home).contains(j));
                    vstd::set_lib::lemma_len_subset(overrun(gs, home), gs.dom());
                    vstd::set_lib::lemma_len_subset(Set::empty().insert(j), overrun(gs, home));
                    assert(post.chain.linked(home));
                    assert(post.chain.next(home) == c.next(home));
                }
                assert(ops[j].settles() is Some ==> ops[j].settles() != op.settles());
            }
        }
        Self::lemma_settled(ops, i, next, self.first@, true);
        assert forall|j: int, k: int| #[trigger]
            gs.contains_key(j) && #[trigger] gs.contains_key(k) && j != k && gs[j].settles() is Some
            implies gs[j].settles() != gs[k].settles() by {
            assert(ops.contains_key(j) && ops.contains_key(k));
        }
    }

    /// Linking a new block behind the full one keeps the invariant.
    proof fn lemma_link(
        self,
        ops: Map<int, Send<T>>,
        i: int,
        spurious: bool,
        post: Self,
        next: Send<T>,
    )
        requires
            self.inv(ops),
            ops.contains_key(i),
            ops[i] matches Send::Join { value, spare, home } && self.link(home) == 0,
            self.send_next(ops[i], spurious, post, next),
        ensures
            post.inv(ops.insert(i, next)),
            post.chain.log == self.chain.log,
            post.chain.taken() == self.chain.taken(),
            self.chain.head != 0 ==> self.chain.same_place(post.chain),
    {
        let c = self.chain;
        let hs = holds(ops);
        let op = ops[i];
        let gs = ops.insert(i, next);
        let (spare, home) = match op {
            Send::Join { value, spare, home } => (spare, home),
            _ => (0, 0),
        };
        self.lemma_shape(ops);
        c.lemma_facts(hs);
        self.lemma_home(ops, i, home);
        assert(self.op_ok(op));
        assert(hs.contains_key(i) && hs[i] == op.hold());
        assert(home != 0 ==> c.live(home));
        assert(home == c.last@);
        assert(home != 0 ==> home == self.home@);
        let h = Hold { edge: Some(Edge { prev: home, next: spare }), ..idle() };
        let mid = c.append(spare);
        c.lemma_append(hs, i);
        assert(hs.insert(i, h)[i] == h);
        mid.lemma_join(post.chain, hs.insert(i, h), i);
        assert(holds(gs) =~= hs.insert(i, h).insert(i, idle()));
        assert(!c.linked(spare));
        assert(post.chain.linked(spare));
        Self::lemma_overrun(ops, i, next, self.home@);
        assert forall|a: usize| #[trigger] post.chain.linked(a) implies {
            &&& !post.done_with(gs, a)
            &&& post.count_ok(gs, a)
        } by {
            Self::lemma_overrun(ops, i, next, a);
            if a == spare {
                assert(self.counts.at(a) == 0);
                assert(self.home@ != 0 ==> c.linked(self.home@));
                assert(c.head != 0 ==> c.linked(c.head));
            } else {
                assert(c.linked(a));
            }
        }
        assert forall|a: usize| !post.chain.linked(a) implies #[trigger] post.counts.at(a) == 0 by {
            assert(!c.linked(a));
        }
        assert forall|a: usize| #[trigger] post.owed@.contains_key(a) implies {
            &&& post.chain.linked(a)
            &&& post.passed(a)
            &&& overrun(gs, a).len() < post.owed@[a] <= MAX_SENDERS
            &&& settled(gs, a, false)
        } by {
            Self::lemma_settled(ops, i, next, a, false);
            assert(self.owed@.contains_key(a));
            assert(c.linked(a));
            Self::lemma_overrun(ops, i, next, a);
        }
        assert(home != 0 ==> c.linked(self.first@));
        assert forall|j: int| #[trigger] gs.contains_key(j) implies post.op_ok(gs[j]) by {
            if j != i {
                assert(ops.contains_key(j));
                assert(self.op_ok(ops[j]));
                let other = match ops[j] {
                    Send::Reload { value, spare, home, next } => home,
                    Send::Exchange { value, spare, home, next, seen } => home,
                    _ => 0,
                };
                if other != 0 {
                    self.lemma_home(ops, j, other);
                    assert(c.live(other));
                }
            }
        }
        Self::lemma_settled(ops, i, next, self.first@, true);
        assert forall|j: int, k: int| #[trigger]
            gs.contains_key(j) && #[trigger] gs.contains_key(k) && j != k && gs[j].settles() is Some
            implies gs[j].settles() != gs[k].settles() by {
            assert(ops.contains_key(j) && ops.contains_key(k));
        }
    }

    /// Moving the tail to the next block keeps the invariant.
    proof fn lemma_move(
        self,
        ops: Map<int, Send<T>>,
        i: int,
        spurious: bool,
        post: Self,
        next: Send<T>,
    )
        requires
            self.inv(ops),
            ops.contains_key(i),
            ops[i] matches Send::Exchange { value, spare, home, next, seen } && seen == self.tail
                && seen.cell(BLOCK_ALIGN) == home,
            !spurious,
            self.send_next(ops[i], spurious, post, next),
        ensures
            post.inv(ops.insert(i, next)),
            ops[i] matches Send::Exchange { value, spare, home, next, seen } && post.chain
                == self.chain.claim(value),
    {
        let c = self.chain;
        let hs = holds(ops);
        let op = ops[i];
        let gs = ops.insert(i, next);
        let (value, home, n) = match op {
            Send::Exchange { value, spare, home, next, seen } => (value, home, next),
            _ => arbitrary(),
        };
        self.lemma_shape(ops);
        c.lemma_facts(hs);
        self.lemma_home(ops, i, home);
        assert(self.op_ok(op));
        assert(hs.contains_key(i) && hs[i] == op.hold());
        assert(home == self.home@);
        assert(home != 0 ==> c.live(home));
        assert(n == c.last@);
        assert(c.linked(n));
        c.lemma_claim(hs, i, value);
        assert(holds(gs) =~= hs.insert(i, next.hold()));
        assert(n != home);
        assert forall|j: int| #[trigger] gs.contains_key(j) implies !gs[j].overran(n) by {
            if j != i && ops[j].overran(n) {
                assert(ops.contains_key(j));
                self.lemma_home(ops, j, n);
            }
        }
        assert(overrun(gs, n) =~= Set::empty());
        Self::lemma_overrun(ops, i, next, home);
        assert(post.chain.base == c.base && post.chain.heap == c.heap);
        assert forall|a: usize| #[trigger] post.chain.linked(a) implies {
            &&& !post.done_with(gs, a)
            &&& post.count_ok(gs, a)
        } by {
            assert(c.linked(a));
            Self::lemma_overrun(ops, i, next, a);
            assert(home != 0 && a != home ==> post.passed(a) == self.passed(a));
        }
        assert forall|a: usize| !post.chain.linked(a) implies #[trigger] post.counts.at(a) == 0 by {
            assert(!c.linked(a));
        }
        assert forall|a: usize| #[trigger] post.owed@.contains_key(a) implies {
            &&& post.chain.linked(a)
            &&& post.passed(a)
            &&& overrun(gs, a).len() < post.owed@[a] <= MAX_SENDERS
            &&& settled(gs, a, false)
        } by {
            Self::lemma_settled(ops, i, next, a, false);
            Self::lemma_overrun(ops, i, next, a);
            if a != home {
                assert(self.owed@.contains_key(a));
                assert(c.linked(a));
            }
        }
        assert(home == 0 ==> c.linked(self.first@) && self.first@ == n);
        assert forall|j: int| #[trigger] gs.contains_key(j) implies post.op_ok(gs[j]) by {
            if j != i {
                assert(ops.contains_key(j));
                assert(self.op_ok(ops[j]));
            }
        }
        Self::lemma_settled(ops, i, next, self.first@, true);
        assert forall|j: int, k: int| #[trigger]
            gs.contains_key(j) && #[trigger] gs.contains_key(k) && j != k && gs[j].settles() is Some
            implies gs[j].settles() != gs[k].settles() by {
            assert(ops.contains_key(j) && ops.contains_key(k));
            assert(self.op_ok(ops[j]) && self.op_ok(ops[k]));
            assert(home != 0 ==> !self.owed@.contains_key(home));
        }
    }

    /// Whatever sends are under way, one access of any of them keeps the invariant. The access
    /// that claims a slot puts the value of the send at the end of the queue, and no other access
    /// changes the queue; the consumer's place is left alone once there is one.
    ///
    /// Left out are the accesses that bring the count of the first block to zero, because they
    /// free it too early: it takes two sends that overrun the first block to get there.
    #[verifier::rlimit(40)]
    pub proof fn lemma_send(
        self,
        ops: Map<int, Send<T>>,
        i: int,
        spurious: bool,
        post: Self,
        next: Send<T>,
    )
        requires
            self.inv(ops),
            ops.contains_key(i),
            self.send_next(ops[i], spurious, post, next),
            self.spares_first(ops[i]),
        ensures
            post.inv(ops.insert(i, next)),
            self.chain.head != 0 ==> self.chain.same_place(post.chain),
            post@ == match ops[i] {
                Send::Bump { value, spare, lost } => if open_tail(self.tail) {
                    self@.push(value)
                } else {
                    self@
                },
                Send::Exchange { value, spare, home, next, seen } => if seen == self.tail
                    && seen.cell(BLOCK_ALIGN) == home && !spurious {
                    self@.push(value)
                } else {
                    self@
                },
                _ => self@,
            },
    {
        let c = self.chain;
        let hs = holds(ops);
        let op = ops[i];
        let gs = ops.insert(i, next);
        assert(hs.contains_key(i) && hs[i] == op.hold());
        c.lemma_facts(hs);
        self.lemma_shape(ops);
        Self::lemma_overrun(ops, i, next, self.home@);
        assert(holds(gs) =~= hs.insert(i, next.hold()));
        assert(self.op_ok(op));
        match op {
            Send::Bump { value, spare, lost } => {
                if open_tail(self.tail) {
                    assert(self.home@ == c.last@);
                    c.lemma_claim(hs, i, value);
                    assert(post@ =~= self@.push(value));
                } else {
                    assert(hs.insert(i, next.hold()) =~= hs);
                }
                self.lemma_keep(ops, i, post, next);
            },
            Send::Follow { value, spare, home } => {
                self.lemma_home(ops, i, home);
                assert(home != 0 ==> c.live(home));
                assert(hs.insert(i, next.hold()) =~= hs);
                self.lemma_keep(ops, i, post, next);
            },
            Send::Allocate { value, home } => {
                self.lemma_home(ops, i, home);
                c.lemma_allocate(post.chain, c.heap.fresh(), hs, i);
                self.lemma_keep(ops, i, post, next);
            },
            Send::Join { value, spare, home } => {
                self.lemma_home(ops, i, home);
                if self.link(home) == 0 {
                    self.lemma_link(ops, i, spurious, post, next);
                } else {
                    assert(home != 0 ==> c.live(home));
                    assert(hs.insert(i, next.hold()) =~= hs);
                    self.lemma_keep(ops, i, post, next);
                }
            },
            Send::Reload { value, spare, home, next: n } => {
                self.lemma_home(ops, i, home);
                assert(hs.insert(i, next.hold()) =~= hs);
                self.lemma_keep(ops, i, post, next);
            },
            Send::Exchange { value, spare, home, next: n, seen } => {
                self.lemma_home(ops, i, home);
                if seen.cell(BLOCK_ALIGN) == home && self.tail == seen && !spurious {
                    self.lemma_move(ops, i, spurious, post, next);
                    assert(post@ =~= self@.push(value));
                } else {
                    assert(hs.insert(i, next.hold()) =~= hs);
                    self.lemma_keep(ops, i, post, next);
                }
            },
            Send::Leave { value, spare, home } => {
                self.lemma_unref(ops, i, spurious, post, next);
            },
            Send::PublishFirst { value, spare, home, next: n, debt } => {
                self.lemma_publish(ops, i, n, 0, value, post.chain);
                self.lemma_keep(ops, i, post, next);
            },
            Send::Settle { block, debt, first } => {
                self.lemma_unref(ops, i, spurious, post, next);
            },
            Send::Publish { value, spare, block, index } => {
                self.lemma_publish(ops, i, block, index as int, value, post.chain);
                self.lemma_keep(ops, i, post, next);
            },
            Send::Done => {
                assert(hs.insert(i, next.hold()) =~= hs);
                assert(gs =~= ops);
            },
        }
    }

    /// Storing a value and freeing the block that was not needed fits the chain.
    proof fn lemma_publish(
        self,
        ops: Map<int, Send<T>>,
        i: int,
        block: usize,
        index: int,
        value: T,
        post: Chain<T, BLOCK_SIZE, BLOCK_ALIGN>,
    )
        requires
            self.inv(ops),
            ops.contains_key(i),
            ops[i].hold().slot == Some(Claim { block, index, value }),
            ops[i].hold().edge is None,
            ops[i].hold().ready is None,
            if ops[i].hold().spare == 0 {
                self.chain.published(post, block, index, value)
            } else {
                exists|mid: Chain<T, BLOCK_SIZE, BLOCK_ALIGN>| #[trigger]
                    self.chain.published(mid, block, index, value) && mid.released(
                        post,
                        ops[i].hold().spare,
                    )
            },
        ensures
            post.inv(holds(ops).insert(i, idle())),
            self.chain.same_record(post),
            self.chain.same_place(post),
            forall|b: usize| #[trigger]
                self.chain.linked(b) ==> {
                    &&& post.heap@.contains_key(b) == self.chain.heap@.contains_key(b)
                    &&& self.chain.heap@.contains_key(b) ==> post.next(b) == self.chain.next(b)
                },
    {
        let c = self.chain;
        let hs = holds(ops);
        let spare = ops[i].hold().spare;
        assert(hs.contains_key(i) && hs[i] == ops[i].hold());
        c.lemma_facts(hs);
        if spare == 0 {
            c.lemma_publish(post, hs, i);
        } else {
            let mid = choose|mid: Chain<T, BLOCK_SIZE, BLOCK_ALIGN>| #[trigger]
                c.published(mid, block, index, value) && mid.released(post, spare);
            c.lemma_publish(mid, hs, i);
            let h = Hold { spare, ..idle() };
            assert(hs.insert(i, h)[i] == h);
            mid.lemma_release(post, hs.insert(i, h), i);
            assert(hs.insert(i, h).insert(i, idle()) =~= hs.insert(i, idle()));
            assert(!c.linked(spare));
            assert(post.base@ =~= c.base@);
        }
    }

    /// A send that adds one to the tail gets a slot of its block just if one is left. If not, it
    /// allocates a block only if none follows and it has none itself, and frees a block that it
    /// did not need. It counts itself off a block that the tail has left, and the send that moves
    /// the tail on takes the sends that have overrun the block off its count; whoever brings a
    /// count to zero frees the block, and nobody else does. A send pauses only after another one
    /// has moved the tail on.
    pub proof fn lemma_blocks(
        self,
        ops: Map<int, Send<T>>,
        i: int,
        spurious: bool,
        post: Self,
        next: Send<T>,
    )
        requires
            self.inv(ops),
            ops.contains_key(i),
            self.send_next(ops[i], spurious, post, next),
        ensures
            post.chain.heap@.dom() == match ops[i] {
                Send::Allocate { .. } => self.chain.heap@.dom().insert(self.chain.heap.fresh()),
                Send::Publish { value, spare, block, index } => if spare != 0 {
                    self.chain.heap@.dom().remove(spare)
                } else {
                    self.chain.heap@.dom()
                },
                Send::PublishFirst { value, spare, home, next: n, debt } => if spare != 0 {
                    self.chain.heap@.dom().remove(spare)
                } else {
                    self.chain.heap@.dom()
                },
                Send::Leave { value, spare, home } => if self.counts.at(home) == -1 {
                    self.chain.heap@.dom().remove(home)
                } else {
                    self.chain.heap@.dom()
                },
                Send::Settle { block, debt, first } => if self.counts.at(block) == debt {
                    self.chain.heap@.dom().remove(block)
                } else {
                    self.chain.heap@.dom()
                },
                _ => self.chain.heap@.dom(),
            },
            forall|b: usize| #[trigger]
                post.counts.at(b) - self.counts.at(b) == match ops[i] {
                    Send::Leave { value, spare, home } => if b == home {
                        1int
                    } else {
                        0
                    },
                    Send::Settle { block, debt, first } => if b == block {
                        -debt as int
                    } else {
                        0
                    },
                    _ => 0,
                },
            ops[i] is Bump ==> next is Publish || next is Follow,
            ops[i] is Bump ==> (next is Publish <==> self.home@ != 0 && self.tag() < BLOCK_SIZE),
            next is Follow ==> next->Follow_home == self.home@,
            next is Allocate ==> {
                &&& ops[i] matches Send::Follow { value, spare, home }
                &&& spare == 0 && self.link(home) == 0
            },
            ops[i] matches Send::Follow { value, spare, home } ==> (self.link(home) != 0 ==> next
                is Reload && next->Reload_next == self.link(home)),
            next is Bump ==> next->Bump_lost && (ops[i] is Exchange || ops[i] is Leave),
            ops[i] matches Send::Exchange { value, spare, home, next: n, seen } ==> {
                &&& next is PublishFirst <==> seen == self.tail && home == self.home@ && !spurious
                &&& next matches Send::PublishFirst {
                    value: v,
                    spare: kept,
                    home: old_home,
                    next: m,
                    debt,
                } ==> {
                    &&& old_home == home && m == n && kept == spare
                    &&& debt == if home == 0 {
                        1
                    } else {
                        self.tag() - BLOCK_SIZE
                    }
                }
                &&& next is Leave ==> home != 0 && next->Leave_home == home
            },
            ops[i] is Leave ==> next is Bump,
            ops[i] matches Send::PublishFirst { value, spare, home, next: n, debt } ==> next
                is Settle && next->Settle_debt == debt && next->Settle_block == if home == 0 {
                n
            } else {
                home
            },
    {
        let hs = holds(ops);
        assert(hs.contains_key(i) && hs[i] == ops[i].hold());
        self.chain.lemma_facts(hs);
        self.lemma_shape(ops);
        assert(self.op_ok(ops[i]));
    }

    /// How many accesses of the send are left at most while nothing else happens.
    pub open spec fn ahead(self, op: Send<T>) -> nat {
        let here = self.tail.cell(BLOCK_ALIGN);
        match op {
            Send::Bump { .. } => if open_tail(self.tail) {
                2
            } else {
                9
            },
            Send::Follow { value, spare, home } => if here == home {
                8
            } else {
                15
            },
            Send::Allocate { value, home } => if here == home {
                7
            } else {
                14
            },
            Send::Join { value, spare, home } => if here == home {
                6
            } else {
                13
            },
            Send::Reload { value, spare, home, next } => if here == home {
                5
            } else {
                12
            },
            Send::Exchange { value, spare, home, next, seen } => if seen.cell(BLOCK_ALIGN) != home {
                11
            } else if here != home {
                12
            } else if seen == self.tail {
                3
            } else {
                4
            },
            Send::Leave { .. } => 10,
            Send::PublishFirst { .. } => 2,
            Send::Settle { .. } => 1,
            Send::Publish { .. } => 1,
            Send::Done => 0,
        }
    }

    /// Wherever a send is, and whatever the others have done, each access brings it nearer to its
    /// end: with nothing else in between it is over after at most fifteen. It goes to its end and
    /// is never given up.
    pub proof fn lemma_progress(self, ops: Map<int, Send<T>>, i: int, post: Self, next: Send<T>)
        requires
            self.inv(ops),
            ops.contains_key(i),
            !(ops[i] is Done),
            self.send_next(ops[i], false, post, next),
        ensures
            post.ahead(next) < self.ahead(ops[i]) <= 15,
            next is Done ==> Self::unsent(ops[i]) is None,
            Self::unsent(next) is Some ==> Self::unsent(next) == Self::unsent(ops[i]),
    {
        self.lemma_shape(ops);
        self.chain.lemma_facts(holds(ops));
    }

    /// A send may begin as long as not too many are under way.
    pub proof fn lemma_start(self, ops: Map<int, Send<T>>, i: int, value: T)
        requires
            self.inv(ops),
            !ops.contains_key(i),
            ops.dom().len() < MAX_SENDERS,
        ensures
            self.inv(ops.insert(i, Send::Bump { value, spare: 0, lost: false })),
    {
        let op = Send::Bump { value, spare: 0, lost: false };
        let gs = ops.insert(i, op);
        self.chain.lemma_enter(holds(ops), i);
        assert(holds(gs) =~= holds(ops).insert(i, idle()));
        assert(gs.dom() =~= ops.dom().insert(i));
        assert forall|a: usize| #[trigger] overrun(gs, a) == overrun(ops, a) by {
            assert(overrun(gs, a) =~= overrun(ops, a));
        }
        assert forall|b: usize, first: bool| #[trigger] settled(ops, b, first) implies settled(
            gs,
            b,
            first,
        ) by {
            let j = choose|j: int| #[trigger]
                ops.contains_key(j) && ops[j].settles() == Some((b, first));
            assert(gs.contains_key(j));
        }
        assert forall|b: usize| #[trigger] self.chain.linked(b) implies {
            &&& !self.done_with(gs, b)
            &&& self.count_ok(gs, b)
        } by {
            assert(overrun(gs, b) == overrun(ops, b));
        }
        assert(overrun(gs, self.home@) == overrun(ops, self.home@));
        assert forall|b: usize| #[trigger] self.owed@.contains_key(b) implies {
            &&& overrun(gs, b).len() < self.owed@[b] <= MAX_SENDERS
            &&& settled(gs, b, false)
        } by {
            assert(overrun(gs, b) == overrun(ops, b));
        }
    }

    /// A send that is over may be forgotten.
    pub proof fn lemma_finish(self, ops: Map<int, Send<T>>, i: int)
        requires
            self.inv(ops),
            ops.contains_key(i),
            ops[i] is Done,
        ensures
            self.inv(ops.remove(i)),
    {
        let gs = ops.remove(i);
        assert(gs.dom() =~= ops.dom().remove(i));
        let hs = holds(ops);
        assert(hs.contains_key(i) && hs[i] == idle::<T>());
        self.chain.lemma_leave(hs, i);
        assert(holds(gs) =~= hs.remove(i));
        assert forall|a: usize| #[trigger] overrun(gs, a) == overrun(ops, a) by {
            assert(overrun(gs, a) =~= overrun(ops, a));
        }
        assert forall|b: usize, first: bool| #[trigger] settled(ops, b, first) implies settled(
            gs,
            b,
            first,
        ) by {
            let j = choose|j: int| #[trigger]
                ops.contains_key(j) && ops[j].settles() == Some((b, first));
            assert(gs.contains_key(j));
        }
        assert forall|b: usize| #[trigger] self.chain.linked(b) implies {
            &&& !self.done_with(gs, b)
            &&& self.count_ok(gs, b)
        } by {
            assert(overrun(gs, b) == overrun(ops, b));
        }
        assert(overrun(gs, self.home@) == overrun(ops, self.home@));
        assert forall|b: usize| #[trigger] self.owed@.contains_key(b) implies {
            &&& overrun(gs, b).len() < self.owed@[b] <= MAX_SENDERS
            &&& settled(gs, b, false)
        } by {
            assert(overrun(gs, b) == overrun(ops, b));
        }
    }

    /// While no send is under way, a block of the chain that is not yet freed is the first one, or
    /// one from the consumer's on: every other block is freed.
    pub proof fn lemma_freed(self, b: usize)
        requires
            self.wf(),
            self.chain.linked(b),
        ensures
            self.chain.heap@.contains_key(b),
            b == self.first@ || !self.left(b),
    {
        let ops = Map::<int, Send<T>>::empty();
        self.lemma_shape(ops);
        assert(overrun(ops, b) =~= Set::empty());
        assert(overrun(ops, self.home@) =~= Set::empty());
        assert(overrun(ops, 0) =~= Set::empty());
        if self.chain.head != 0 {
            assert(self.chain.linked(self.chain.head));
        }
    }

    /// The receive leaves the consumer's block for the next one.
    pub open spec fn leaves(self, op: Recv<T>) -> bool {
        op is Follow && self.chain.next(self.chain.head) != 0
    }

    /// One access of a receive.
    pub open spec fn recv_next(self, op: Recv<T>, post: Self, next: Recv<T>) -> bool {
        let head = self.chain.head;
        &&& post.tail == self.tail
        &&& post.home == self.home
        &&& post.first == self.first
        &&& post.lowered == self.lowered
        &&& post.owed == self.owed
        &&& if self.leaves(op) {
            &&& post.counts.at(head) == self.counts.at(head) + 1
            &&& forall|b: usize|
                b != head ==> #[trigger] post.counts.at(b) == self.counts.at(b)
            &&& self.chain.recv_next(op, post.chain, next, self.counts.at(head) + 1 == 0)
        } else {
            &&& post.counts == self.counts
            &&& self.chain.recv_next(op, post.chain, next, false)
        }
    }

    /// Performs one access of a receive. The block that the consumer leaves is freed if nobody
    /// else uses it.
    pub fn recv_step(&mut self, op: Recv<T>) -> (next: Recv<T>)
        requires
            old(self).chain.recv_ok(op),
            old(self).chain.recv_safe(),
            old(self).leaves(op) ==> old(self).adds(old(self).chain.head, 1),
        ensures
            old(self).recv_next(op, *final(self), next),
    {
        let mut drop = false;
        if let Recv::Follow = op {
            let head: usize = self.chain.head;
            if self.chain.follower(head) != 0 {
                drop = self.counts.add(head, 1) == 0;
            }
        }
        self.chain.recv_step(op, drop)
    }

    /// The access that a receive makes next is to memory that is there.
    pub proof fn lemma_recv_accepts(self, ops: Map<int, Send<T>>, op: Recv<T>)
        requires
            self.inv(ops),
            self.chain.recv_ok(op),
        ensures
            self.chain.recv_safe(),
            self.leaves(op) ==> self.adds(self.chain.head, 1),
    {
        self.chain.lemma_recv_safe(holds(ops));
        self.lemma_shape(ops);
        if self.leaves(op) {
            assert(self.chain.linked(self.chain.head));
        }
    }

    /// Whatever sends are under way, one access of a receive keeps the invariant, and the value
    /// that a receive takes is the oldest of those that were claimed and not yet taken. It counts
    /// itself off a block when it goes on to the next one, and frees the block just if that brings
    /// the count to zero. Left out is again the access that does so for the first block.
    pub proof fn lemma_recv(
        self,
        ops: Map<int, Send<T>>,
        op: Recv<T>,
        post: Self,
        next: Recv<T>,
    )
        requires
            self.inv(ops),
            self.chain.recv_ok(op),
            self.recv_next(op, post, next),
            self.leaves(op) && self.chain.head == self.first@ ==> self.counts.at(self.chain.head)
                + 1 != 0,
        ensures
            post.inv(ops),
            post.chain.recv_ok(next),
            match (op, next) {
                (Recv::Read, Recv::Done(Some(value))) => {
                    &&& self@.len() > 0
                    &&& value == self@[0]
                    &&& post@ == self@.skip(1)
                },
                _ => post@ == self@,
            },
            next.rank() < op.rank() || op is Done,
            post.chain.heap@.dom() == if op is Follow && self.chain.next(self.chain.head) != 0
                && self.counts.at(self.chain.head) == -1 {
                self.chain.heap@.dom().remove(self.chain.head)
            } else {
                self.chain.heap@.dom()
            },
            forall|b: usize| #[trigger]
                post.counts.at(b) == self.counts.at(b) + if op is Follow && self.chain.next(
                    self.chain.head,
                ) != 0 && b == self.chain.head {
                    1int
                } else {
                    0
                },
    {
        let c = self.chain;
        let head = c.head;
        let drop = self.leaves(op) && self.counts.at(head) + 1 == 0;
        self.lemma_shape(ops);
        c.lemma_recv(op, post.chain, next, drop, holds(ops));
        match (op, next) {
            (Recv::Read, Recv::Done(Some(value))) => {
                assert(post@ =~= self@.skip(1));
            },
            _ => {},
        }
        let g = overrun(ops, head).len();
        if self.leaves(op) {
            assert(c.linked(head) && c.live(head));
            assert(c.linked(c.next(head)));
            assert(self.count_ok(ops, head));
            if drop {
                assert(self.passed(head));
                assert(overrun(ops, head).len() == 0 && !self.owed@.contains_key(head));
            }
        }
        assert forall|b: usize| #[trigger] post.chain.linked(b) == (c.linked(b) && !(drop && b == head)) by {}
        assert forall|b: usize| #[trigger] post.chain.linked(b) implies post.chain.base@[b]
            == c.base@[b] && post.passed(b) == self.passed(b) by {
            assert(self.home@ != 0 ==> c.linked(self.home@) && post.chain.linked(self.home@));
        }
        assert forall|b: usize| #[trigger] post.chain.linked(b) implies {
            &&& !post.done_with(ops, b)
            &&& post.count_ok(ops, b)
        } by {
            assert(c.linked(b));
            if self.leaves(op) {
                assert(post.left(b) == (self.left(b) || b == head));
            }
        }
        assert forall|b: usize| !post.chain.linked(b) implies #[trigger] post.counts.at(b) == 0 by {
            assert(!c.linked(b) || (drop && b == head));
        }
        assert forall|b: usize| #[trigger] post.owed@.contains_key(b) implies post.chain.linked(b)
            && post.passed(b) by {
            assert(self.owed@.contains_key(b));
        }
        assert forall|j: int| #[trigger] ops.contains_key(j) implies post.op_ok(ops[j]) by {
            assert forall|b: usize| #[trigger]
                c.linked(b) && (overrun(ops, b).len() > 0 || b == self.home@) implies {
                &&& post.chain.linked(b)
                &&& post.chain.base@[b] == c.base@[b]
                &&& post.chain.next(b) == c.next(b)
            } by {
                assert(post.chain.linked(b));
                assert(c.heap@.contains_key(b));
            }
            self.lemma_others(ops, j, post);
        }
    }

    /// The next send puts another block on the heap.
    pub open spec fn takes_block(self) -> bool {
        !open_tail(self.tail)
    }

    /// Puts `value` at the end of the queue.
    pub fn send(&mut self, value: T)
        requires
            old(self).wf(),
            old(self).takes_block() ==> old(self).has_room(),
        ensures
            final(self).wf(),
            final(self)@ == old(self)@.push(value),
            final(self).chain.heap@.dom() == if old(self).takes_block() {
                old(self).chain.heap@.dom().insert(old(self).chain.heap.fresh())
            } else {
                old(self).chain.heap@.dom()
            },
            final(self).chain.heap.room() == old(self).chain.heap.room() - if old(self).takes_block() {
                1int
            } else {
                0
            },
    {
        let mut op = Self::start(value);
        let ghost ops = Map::<int, Send<T>>::empty();
        proof {
            self.lemma_start(ops, 0, value);
        }
        loop
            invariant
                old(self).wf(),
                self.inv(ops.insert(0, op)),
                ops == Map::<int, Send<T>>::empty(),
                old(self).takes_block() ==> old(self).has_room(),
                match op {
                    Send::Bump { value: v, spare, lost } => v == value && spare == 0 && *self
                        == *old(self),
                    Send::Follow { value: v, spare, home } => v == value && spare == 0 && home
                        == self.home@ && home == self.chain.last@ && self.chain == old(self).chain,
                    Send::Allocate { value: v, home } => v == value && home == self.home@ && home
                        == self.chain.last@ && self.chain == old(self).chain,
                    Send::Join { value: v, spare, home } => v == value && home == self.home@ && home
                        == self.chain.last@,
                    Send::Reload { value: v, spare, home, next } => v == value && home
                        == self.home@ && spare == 0 && (home != 0 ==> !self.left(home)),
                    Send::Exchange { value: v, spare, home, next, seen } => v == value && home
                        == self.home@ && seen == self.tail && spare == 0 && (home != 0
                        ==> !self.left(home)),
                    Send::Leave { .. } => false,
                    Send::PublishFirst { spare, home, .. } => spare == 0 && (home != 0
                        ==> !self.left(home)),
                    Send::Settle { block, first, .. } => !first ==> !self.left(block),
                    Send::Publish { spare, .. } => spare == 0,
                    _ => true,
                },
                op is Publish ==> !old(self).takes_block(),
                !(op is Bump || op is Publish || op is Done) ==> old(self).takes_block(),
                self.chain.heap@.dom() == if old(self).takes_block() && op.rank() < 6 {
                    old(self).chain.heap@.dom().insert(old(self).chain.heap.fresh())
                } else {
                    old(self).chain.heap@.dom()
                },
                self.chain.heap.room() == old(self).chain.heap.room() - if old(self).takes_block()
                    && op.rank() < 6 {
                    1int
                } else {
                    0
                },
                self@ == if op.rank() >= 3 {
                    old(self)@
                } else {
                    old(self)@.push(value)
                },
            decreases op.rank(),
        {
            let ghost pre = *self;
            let ghost before = op;
            let ghost gs = ops.insert(0, op);
            proof {
                assert(gs.contains_key(0) && gs[0] == before);
                pre.lemma_shape(gs);
                assert(pre.op_ok(gs[0]));
                assert(pre.home@ != 0 ==> pre.chain.live(pre.home@));
                assert(gs.dom() =~= set![0int]);
            }
            if let Send::Done = op {
                proof {
                    self.lemma_finish(gs, 0);
                    assert(gs.remove(0) =~= ops);
                }
                return;
            }
            proof {
                pre.lemma_accepts(gs, 0);
                pre.lemma_alone(before);
            }
            op = self.send_step(op, false);
            proof {
                pre.lemma_send(gs, 0, false, *self, op);
                assert(gs.insert(0, op) =~= ops.insert(0, op));
            }
        }
    }

    /// What holds of a send while it is the only one.
    proof fn lemma_alone(self, op: Send<T>)
        requires
            self.inv(Map::empty().insert(0, op)),
        ensures
            self.spares_first(op),
            op is Bump ==> self.home@ == self.chain.last@,
            op matches Send::Settle { block, debt, first } ==> (!first ==> !self.left(block))
                ==> self.counts.at(block) - debt != 0,
    {
        let ops = Map::<int, Send<T>>::empty().insert(0int, op);
        let b = self.first@;
        self.lemma_shape(ops);
        assert(ops[0] == op && ops.contains_key(0));
        assert(self.op_ok(ops[0]));
        assert forall|a: usize| #[trigger] overrun(ops, a).len() == if op.overran(a) {
            1int
        } else {
            0
        } by {
            if op.overran(a) {
                assert(overrun(ops, a) =~= set![0int]);
            } else {
                assert(overrun(ops, a) =~= Set::empty());
            }
        }
        assert(overrun(ops, self.home@).len() <= 1);
        assert(overrun(ops, b).len() <= 1);
        assert(op is Bump ==> overrun(ops, 0).len() == 0);
        if b != 0 {
            assert(self.chain.linked(b));
        }
    }

    /// Takes the oldest value out of the queue.
    pub fn try_recv(&mut self) -> (value: Option<T>)
        requires
            old(self).wf(),
        ensures
            final(self).wf(),
            final(self).chain.heap@.dom() == if old(self).chain.leaves() && old(self).chain.head
                != old(self).first@ {
                old(self).chain.heap@.dom().remove(old(self).chain.head)
            } else {
                old(self).chain.heap@.dom()
            },
            final(self).chain.heap.room() == old(self).chain.heap.room() + if old(self).chain.leaves()
                && old(self).chain.head != old(self).first@ {
                1int
            } else {
                0
            },
            match value {
                Some(v) => {
                    &&& old(self)@.len() > 0
                    &&& v == old(self)@[0]
                    &&& final(self)@ == old(self)@.skip(1)
                },
                None => old(self)@.len() == 0 && final(self)@ == old(self)@,
            },
    {
        let mut op: Recv<T> = Recv::Head;
        let ghost ops = Map::<int, Send<T>>::empty();
        loop
            invariant
                self.wf(),
                self.chain.recv_ok(op),
                old(self).wf(),
                ops == Map::<int, Send<T>>::empty(),
                op is Head || op is Follow ==> *self == *old(self),
                !(op is Head || op is Follow) ==> self.chain.heap@.dom()
                    == if old(self).chain.leaves() && old(self).chain.head != old(self).first@ {
                    old(self).chain.heap@.dom().remove(old(self).chain.head)
                } else {
                    old(self).chain.heap@.dom()
                },
                self.chain.heap.room() == old(self).chain.heap.room() + if !(op is Head || op is Follow)
                    && old(self).chain.leaves() && old(self).chain.head != old(self).first@ {
                    1int
                } else {
                    0
                },
                match op {
                    Recv::Done(Some(v)) => {
                        &&& old(self)@.len() > 0
                        &&& v == old(self)@[0]
                        &&& self@ == old(self)@.skip(1)
                    },
                    Recv::Done(None) => self@ == old(self)@ && self@.len() == 0,
                    _ => self@ == old(self)@,
                },
            decreases op.rank(),
        {
            if let Recv::Done(value) = op {
                return value;
            }
            let ghost pre = *self;
            let ghost before = op;
            proof {
                pre.lemma_recv_accepts(ops, before);
                pre.lemma_shape(ops);
                assert(overrun(ops, pre.chain.head) =~= Set::empty());
                if pre.chain.head != 0 {
                    assert(pre.chain.linked(pre.chain.head));
                }
                assert(pre.home@ != 0 ==> pre.lowered@);
                assert(overrun(ops, pre.home@) =~= Set::empty());
                if pre.leaves(before) {
                    assert(pre.passed(pre.chain.head));
                    assert(!pre.owed@.contains_key(pre.chain.head));
                    assert(pre.count_ok(ops, pre.chain.head));
                }
            }
            op = self.recv_step(op);
            proof {
                pre.lemma_recv(ops, before, *self, op);
                assert(holds(ops) =~= Map::empty());
                if op == Recv::<T>::Done(None) {
                    pre.chain.lemma_recv_none(before, self.chain, false);
                }
            }
        }
    }
}

/// Every run of sends and receives, whatever way their accesses follow each other. Left out
/// are the accesses that bring the count of the first block to zero: see [`Queue::lemma_send`].
impl<T> Machine for Queue<T> {
    type Item = T;

    type Send = Send<T>;

    type Recv = Recv<T>;

    open spec fn fits(self, sends: Map<int, Send<T>>, recv: Recv<T>) -> bool {
        self.inv(sends) && self.chain.recv_ok(recv)
    }

    open spec fn held(self) -> Seq<T> {
        self@
    }

    open spec fn unsent(send: Send<T>) -> Option<T> {
        match send {
            Send::Bump { value, .. } => Some(value),
            Send::Follow { value, .. } => Some(value),
            Send::Allocate { value, .. } => Some(value),
            Send::Join { value, .. } => Some(value),
            Send::Reload { value, .. } => Some(value),
            Send::Exchange { value, .. } => Some(value),
            Send::Leave { value, .. } => Some(value),
            _ => None,
        }
    }

    open spec fn sent(send: Send<T>) -> bool {
        send is Done
    }

    open spec fn owes(send: Send<T>) -> bool {
        Self::unsent(send) is None && !Self::sent(send)
    }

    open spec fn awaited(sends: Map<int, Send<T>>) -> bool {
        exists|i: int| #[trigger] sends.contains_key(i) && Self::owes(sends[i])
    }

    open spec fn got(recv: Recv<T>) -> Option<T> {
        recv.result()
    }

    open spec fn missed(recv: Recv<T>) -> bool {
        recv is Done && recv.result() is None
    }

    open spec fn starts(self, sends: Map<int, Send<T>>, sender: int, send: Send<T>) -> bool {
        &&& send matches Send::Bump { value, spare, lost } && spare == 0 && !lost
        &&& sends.dom().len() < MAX_SENDERS
    }

    open spec fn sends_on(
        self,
        sends: Map<int, Send<T>>,
        sender: int,
        post: Self,
        next: Send<T>,
    ) -> bool {
        &&& self.spares_first(sends[sender])
        &&& exists|spurious: bool| #[trigger]
            self.send_next(sends[sender], spurious, post, next)
    }

    open spec fn renews(recv: Recv<T>, next: Recv<T>) -> bool {
        recv is Done && next is Head
    }

    open spec fn recvs_on(
        self,
        sends: Map<int, Send<T>>,
        recv: Recv<T>,
        post: Self,
        next: Recv<T>,
    ) -> bool {
        &&& self.recv_next(recv, post, next)
        &&& self.leaves(recv) && self.chain.head == self.first@ ==> self.counts.at(self.chain.head)
            + 1 != 0
    }

    proof fn lemma_starts(
        self,
        sends: Map<int, Send<T>>,
        recv: Recv<T>,
        sender: int,
        send: Send<T>,
    ) {
        self.lemma_start(sends, sender, send->Bump_value);
    }

    proof fn lemma_sends_on(
        self,
        sends: Map<int, Send<T>>,
        recv: Recv<T>,
        sender: int,
        post: Self,
        next: Send<T>,
    ) {
        let spurious = choose|spurious: bool| #[trigger]
            self.send_next(sends[sender], spurious, post, next);
        self.lemma_send(sends, sender, spurious, post, next);
    }

    proof fn lemma_sent(self, sends: Map<int, Send<T>>, recv: Recv<T>, sender: int) {
        self.lemma_finish(sends, sender);
    }

    proof fn lemma_renews(self, sends: Map<int, Send<T>>, recv: Recv<T>, next: Recv<T>) {
    }

    proof fn lemma_recvs_on(
        self,
        sends: Map<int, Send<T>>,
        recv: Recv<T>,
        post: Self,
        next: Recv<T>,
    ) {
        self.lemma_recv(sends, recv, post, next);
        if Self::missed(next) && !Self::missed(recv) && self.held().len() > 0 {
            let hs = holds(sends);
            self.chain.lemma_recv_waits(recv, post.chain, self.leaves(recv) && self.counts.at(
                self.chain.head,
            ) + 1 == 0, hs);
            let i = choose|i: int| #[trigger]
                hs.contains_key(i) && (hs[i].slot is Some || hs[i].edge is Some);
            assert(sends.contains_key(i) && Self::owes(sends[i]));
        }
    }
}

} // verus!
