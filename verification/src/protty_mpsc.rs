//! An unbounded queue in blocks of 31 slots, for many producers and one consumer, whose producers
//! sleep while a block is being appended.
//!
//! The tail word points to the block that is being filled and carries the number of its claimed
//! slots as a tag. The push that claims the last slot appends the next block; the pushes that find
//! the block full meanwhile sleep until it has done so.
use crate::chain::{idle, Chain, Claim, Edge, Hold, Recv};
use crate::history::Machine;
use crate::pause::{Pause, Platform};
use crate::sharded_lock_mpsc::Backoff;
use crate::shared::Pointer;
use crate::wait_list::{off, Duty, Own, WaitList, Wake};
use std::mem::ManuallyDrop;
use vstd::arithmetic::power2::pow2;
use vstd::prelude::*;

verus! {

/// Alignment of a block, and so the number of tags of a pointer to one.
pub const LAP: usize = 32;

/// Slots in a block.
pub const CAPACITY: usize = 31;

/// The last slot of a block.
pub const LAST: usize = 30;

/// The queue. Its blocks, and the values that are left in them, outlive it: nobody drops them.
pub struct MpscQueue<T> {
    pub chain: ManuallyDrop<Chain<T, CAPACITY, LAP>>,
    pub tail: Pointer,
    pub waiters: WaitList,
}

/// The part of a push that comes next. `spare` is a block that the push has allocated, or zero.
pub enum Stage<T> {
    /// Load the tail; `lost` if another push won the last exchange.
    Load { value: T, spare: usize, lost: bool },
    /// Allocate the first block.
    AllocateFirst { value: T },
    /// Exchange no tail for the first block, and free it if there is a tail by now.
    First { value: T, fresh: usize },
    /// Store the first block as the consumer's.
    LinkFirst { value: T, next: usize },
    /// Allocate the block that the push is going to append.
    Allocate { value: T, seen: Pointer },
    /// Exchange the tail that was seen for one that claims a slot.
    Exchange { value: T, spare: usize, seen: Pointer },
    /// The block is full: look whether other pushes sleep.
    Full { value: T, spare: usize, seen: Pointer },
    /// Put a waiter on the list.
    Sleep { value: T, spare: usize, seen: Pointer },
    /// Look whether the tail is still the same.
    Check { value: T, spare: usize, seen: Pointer },
    /// It is not: wake all that sleep.
    Rouse { value: T, spare: usize },
    /// Sleep until woken.
    Rest { value: T, spare: usize },
    /// The last slot was claimed: store the next block as the tail.
    Install { value: T, block: usize, next: usize },
    /// Wake all that sleep.
    Tell { value: T, block: usize, next: usize },
    /// Link the next block.
    Link { value: T, block: usize, next: usize },
    /// Store the value in the slot, and free a block that was not needed.
    Publish { value: T, spare: usize, block: usize, index: usize },
    /// The push is over.
    Done,
}

/// A push that is under way: where it is, and what it does with the list of those that sleep.
pub struct Push<T> {
    pub stage: Stage<T>,
    pub duty: Duty,
}

/// How a push waits.
pub struct Patience {
    pub backoff: Backoff,
}

impl Patience {
    /// A push that has not waited yet.
    pub fn new() -> (patience: Self)
        ensures
            patience.backoff.counter == 0,
    {
        Patience { backoff: Backoff::new() }
    }

    /// Whether a push that found the block full looks again before it sleeps: only while no other
    /// push sleeps, and at most 32 times.
    pub fn again<T>(&mut self, push: &Push<T>, queue: &MpscQueue<T>) -> (again: bool)
        ensures
            again == (push.stage is Full && queue.waiters.stack == 0 && old(self).backoff.counter
                < 32),
            final(self).backoff.counter == old(self).backoff.counter + if again {
                1int
            } else {
                0
            },
    {
        if let Stage::Full { .. } = &push.stage {
            if !queue.waiters.should_park() {
                return self.backoff.try_yield_now();
            }
        }
        false
    }

    /// How the thread waits before the next access: not at all, unless another push won the
    /// exchange.
    pub fn pause<T>(&mut self, push: &Push<T>, platform: Platform) -> (pause: Pause)
        ensures
            match push.stage {
                Stage::Load { value, spare, lost: true } => {
                    let n = old(self).backoff.counter.wrapping_add(1);
                    &&& final(self).backoff.counter == n
                    &&& pause == if n <= 3 {
                        Pause::Spin(pow2(n as nat) as usize)
                    } else if platform.windows {
                        Pause::Spin(
                            pow2(
                                if n < 5 {
                                    n as nat
                                } else {
                                    5
                                },
                            ) as usize,
                        )
                    } else {
                        Pause::Yield
                    }
                },
                _ => pause == Pause::Nothing && final(self).backoff == old(self).backoff,
            },
    {
        if let Stage::Load { lost: true, .. } = &push.stage {
            return self.backoff.yield_now(platform);
        }
        Pause::Nothing
    }
}

impl<T> Stage<T> {
    /// What the push owns.
    pub open spec fn hold(self) -> Hold<T> {
        match self {
            Stage::Load { value, spare, lost } => Hold { spare, ..idle() },
            Stage::First { value, fresh } => Hold { spare: fresh, ..idle() },
            Stage::LinkFirst { value, next } => Hold {
                edge: Some(Edge { prev: 0, next }),
                ..idle()
            },
            Stage::Exchange { value, spare, seen } => Hold { spare, ..idle() },
            Stage::Full { value, spare, seen } => Hold { spare, ..idle() },
            Stage::Sleep { value, spare, seen } => Hold { spare, ..idle() },
            Stage::Check { value, spare, seen } => Hold { spare, ..idle() },
            Stage::Rouse { value, spare } => Hold { spare, ..idle() },
            Stage::Rest { value, spare } => Hold { spare, ..idle() },
            Stage::Install { value, block, next } => Hold {
                spare: next,
                slot: Some(Claim { block, index: LAST as int, value }),
                ..idle()
            },
            Stage::Tell { value, block, next } => Hold {
                slot: Some(Claim { block, index: LAST as int, value }),
                edge: Some(Edge { prev: block, next }),
                ..idle()
            },
            Stage::Link { value, block, next } => Hold {
                slot: Some(Claim { block, index: LAST as int, value }),
                edge: Some(Edge { prev: block, next }),
                ..idle()
            },
            Stage::Publish { value, spare, block, index } => Hold {
                spare,
                slot: Some(Claim { block, index: index as int, value }),
                ..idle()
            },
            _ => idle(),
        }
    }

    /// The block that the push keeps for later.
    pub open spec fn kept(self) -> usize {
        match self {
            Stage::Load { value, spare, lost } => spare,
            Stage::Exchange { value, spare, seen } => spare,
            Stage::Full { value, spare, seen } => spare,
            Stage::Sleep { value, spare, seen } => spare,
            Stage::Check { value, spare, seen } => spare,
            Stage::Rouse { value, spare } => spare,
            Stage::Rest { value, spare } => spare,
            _ => 0,
        }
    }

    /// How many accesses are left at most while no other push interferes.
    pub open spec fn rank(self) -> nat {
        match self {
            Stage::Load { .. } => 12,
            Stage::AllocateFirst { .. } => 11,
            Stage::First { .. } => 10,
            Stage::LinkFirst { .. } => 9,
            Stage::Allocate { .. } => 8,
            Stage::Exchange { .. } => 7,
            Stage::Install { .. } => 6,
            Stage::Tell { .. } => 3,
            Stage::Link { .. } => 2,
            Stage::Publish { .. } => 1,
            _ => 0,
        }
    }
}

impl<T> Push<T> {
    /// A push that has not yet begun.
    pub fn new(value: T) -> (push: Self)
        ensures
            push.stage == (Stage::Load { value, spare: 0, lost: false }),
            push.duty == off(),
    {
        Push {
            stage: Stage::Load { value, spare: 0, lost: false },
            duty: Duty { own: Own::Free, wake: Wake::Idle },
        }
    }

    /// The push has a duty with the list only where it puts itself on it or wakes the others.
    pub open spec fn duty_ok(self) -> bool {
        match self.stage {
            Stage::Sleep { .. } => !(self.duty.own is Listed) && self.duty.wake is Idle,
            Stage::Check { .. } => self.duty.own is Listed && self.duty.wake is Idle,
            Stage::Rouse { .. } => self.duty.own is Listed && !(self.duty.wake is Idle),
            Stage::Rest { .. } => self.duty.own is Listed && self.duty.wake is Idle,
            Stage::Tell { .. } => self.duty.own is Free && !(self.duty.wake is Idle),
            _ => self.duty == off(),
        }
    }

    /// The push is going to wake all that sleep, or to look whether it has to.
    pub open spec fn due(self) -> bool {
        self.stage is Install || self.stage is Check || self.duty.wake is Swap
    }
}

/// What all the pushes that are under way own.
pub open spec fn holds<T>(ops: Map<int, Push<T>>) -> Map<int, Hold<T>> {
    ops.map_values(|op: Push<T>| op.stage.hold())
}

/// What all the pushes that are under way do with the list.
pub open spec fn duties<T>(ops: Map<int, Push<T>>) -> Map<int, Duty> {
    ops.map_values(|op: Push<T>| op.duty)
}

/// What to do about a tail that was seen.
pub open spec fn look<T>(value: T, spare: usize, seen: Pointer) -> Stage<T> {
    if seen.cell(LAP) == 0 {
        Stage::AllocateFirst { value }
    } else if seen.addr % LAP == CAPACITY {
        Stage::Full { value, spare, seen }
    } else if seen.addr % LAP == LAST && spare == 0 {
        Stage::Allocate { value, seen }
    } else {
        Stage::Exchange { value, spare, seen }
    }
}

impl<T> MpscQueue<T> {
    /// The tail points to the block that was appended last and counts its claimed slots.
    pub open spec fn tail_ok(self) -> bool {
        let c = self.chain@;
        &&& c.last@ == 0 ==> self.tail.addr == 0
        &&& c.last@ != 0 ==> self.tail.addr == c.last@ + (c.log@.len() - c.base@[c.last@])
    }

    /// Some push is about to append a block.
    pub open spec fn installing(ops: Map<int, Push<T>>) -> bool {
        exists|i: int| #[trigger] ops.contains_key(i) && ops[i].stage is Install
    }

    /// Some push is going to wake all that sleep, or to look whether it has to.
    pub open spec fn roused(ops: Map<int, Push<T>>) -> bool {
        exists|i: int| #[trigger] ops.contains_key(i) && ops[i].due()
    }

    /// What holds of a push.
    pub open spec fn op_ok(self, op: Push<T>) -> bool {
        &&& op.duty_ok()
        &&& op.stage.kept() != 0 ==> self.chain@.last@ != 0
        &&& match op.stage {
            Stage::First { value, fresh } => fresh != 0,
            Stage::LinkFirst { value, next } => next != 0 && next % LAP == 0
                && self.chain@.last@ != 0,
            Stage::Allocate { value, seen } => seen.cell(LAP) != 0 && seen.addr % LAP == LAST
                && self.chain@.last@ != 0,
            Stage::Exchange { value, spare, seen } => {
                &&& seen.cell(LAP) != 0
                &&& seen.addr % LAP < CAPACITY
                &&& seen.addr % LAP == LAST ==> spare != 0
            },
            Stage::Full { value, spare, seen } => seen.addr % LAP == CAPACITY,
            Stage::Sleep { value, spare, seen } => seen.addr % LAP == CAPACITY,
            Stage::Check { value, spare, seen } => seen.addr % LAP == CAPACITY,
            Stage::Install { value, block, next } => {
                &&& next != 0
                &&& block != 0
                &&& block == self.chain@.last@
                &&& self.chain@.log@.len() == self.chain@.base@[block] + CAPACITY
            },
            _ => true,
        }
    }

    /// The invariant of the queue together with the pushes that are under way. While the block is
    /// full some push is about to append the next, and while threads sleep some push is going to
    /// wake them all.
    pub open spec fn inv(self, ops: Map<int, Push<T>>) -> bool {
        &&& self.chain@.inv(holds(ops))
        &&& self.waiters.inv(duties(ops))
        &&& self.tail_ok()
        &&& forall|i: int| #[trigger] ops.contains_key(i) ==> self.op_ok(ops[i])
        &&& self.tail.addr % LAP == CAPACITY ==> Self::installing(ops)
        &&& self.waiters.list@.len() > 0 ==> Self::roused(ops)
    }

    /// The invariant while no push is under way.
    pub open spec fn wf(self) -> bool {
        self.inv(Map::empty())
    }

    /// The values in the queue, the oldest first.
    pub open spec fn view(self) -> Seq<T> {
        self.chain@.pending()
    }

    /// Another block and another waiter still have an address.
    pub open spec fn has_room(self) -> bool {
        self.chain@.heap.has_room() && self.waiters.waiters.has_room()
    }

    /// The next access of the push finds what it needs.
    pub open spec fn accepts(self, op: Push<T>) -> bool {
        let c = self.chain@;
        &&& c.heap.wf()
        &&& match op.stage {
            Stage::AllocateFirst { .. } => c.heap.has_room(),
            Stage::Allocate { .. } => c.heap.has_room(),
            Stage::First { value, fresh } => c.heap@.contains_key(fresh) && fresh % LAP == 0,
            Stage::LinkFirst { value, next } => next % LAP == 0,
            Stage::Exchange { value, spare, seen } => seen.addr % LAP < CAPACITY,
            Stage::Sleep { .. } => self.waiters.sleeps(op.duty.own),
            Stage::Rouse { .. } => self.waiters.wakes(op.duty.wake),
            Stage::Rest { .. } => self.waiters.sleeps(op.duty.own),
            Stage::Install { value, block, next } => next % LAP == 0,
            Stage::Tell { .. } => self.waiters.wakes(op.duty.wake),
            Stage::Link { value, block, next } => c.heap@.contains_key(block) && c.next(block) == 0
                && block != 0,
            Stage::Publish { value, spare, block, index } => {
                &&& c.heap@.contains_key(block)
                &&& index < c.heap@[block].slots@.len()
                &&& !c.slot(block, index as int).stored
                &&& spare != 0 ==> c.heap@.contains_key(spare) && spare != block
            },
            _ => true,
        }
    }

    /// One access of a push by `thread`. A weak exchange may fail though it need not (`spurious`),
    /// and a push that found the block full may look `again` before it sleeps.
    pub open spec fn push_next(
        self,
        op: Push<T>,
        thread: usize,
        spurious: bool,
        again: bool,
        post: Self,
        next: Push<T>,
    ) -> bool {
        match op.stage {
            Stage::Load { value, spare, lost } => {
                &&& post == self
                &&& next == (Push { stage: look(value, spare, self.tail), duty: op.duty })
            },
            Stage::AllocateFirst { value } => {
                &&& post.tail == self.tail
                &&& post.waiters == self.waiters
                &&& self.chain@.allocated(post.chain@, self.chain@.heap.fresh())
                &&& next.stage == Stage::First { value, fresh: self.chain@.heap.fresh() }
                &&& next.duty == op.duty
            },
            Stage::First { value, fresh } => {
                &&& post.waiters == self.waiters
                &&& next.duty == op.duty
                &&& if self.tail.addr == 0 {
                    &&& post.tail.addr == fresh
                    &&& post.chain@ == self.chain@.append(fresh)
                    &&& next.stage == Stage::LinkFirst { value, next: fresh }
                } else {
                    &&& post.tail == self.tail
                    &&& self.chain@.released(post.chain@, fresh)
                    &&& next.stage == Stage::Load { value, spare: 0, lost: false }
                }
            },
            Stage::LinkFirst { value, next: first } => {
                &&& post.tail == self.tail
                &&& post.waiters == self.waiters
                &&& self.chain@.joined(post.chain@, 0, first)
                &&& next.stage == Stage::Exchange { value, spare: 0, seen: Pointer { addr: first } }
                &&& next.duty == op.duty
            },
            Stage::Allocate { value, seen } => {
                &&& post.tail == self.tail
                &&& post.waiters == self.waiters
                &&& self.chain@.allocated(post.chain@, self.chain@.heap.fresh())
                &&& next.stage == Stage::Exchange { value, spare: self.chain@.heap.fresh(), seen }
                &&& next.duty == op.duty
            },
            Stage::Exchange { value, spare, seen } => {
                let block = seen.cell(LAP) as usize;
                let index = seen.addr % LAP;
                &&& post.waiters == self.waiters
                &&& next.duty == op.duty
                &&& if self.tail == seen {
                    &&& post.tail.addr == seen.addr + 1
                    &&& post.chain@ == self.chain@.claim(value)
                    &&& next.stage == if index == LAST {
                        Stage::Install { value, block, next: spare }
                    } else {
                        Stage::Publish { value, spare, block, index }
                    }
                } else {
                    post == self && next.stage == Stage::Load { value, spare, lost: true }
                }
            },
            Stage::Full { value, spare, seen } => {
                &&& post == self
                &&& next.duty == op.duty
                &&& next.stage == if self.waiters.stack == 0 && again {
                    Stage::Load { value, spare, lost: false }
                } else {
                    Stage::Sleep { value, spare, seen }
                }
            },
            Stage::Sleep { value, spare, seen } => {
                &&& post.chain@ == self.chain@
                &&& post.tail == self.tail
                &&& self.waiters.own_next(
                    op.duty.own,
                    thread,
                    spurious,
                    post.waiters,
                    next.duty.own,
                )
                &&& next.duty.wake == op.duty.wake
                &&& next.stage == if next.duty.own is Listed {
                    Stage::Check { value, spare, seen }
                } else {
                    Stage::Sleep { value, spare, seen }
                }
            },
            Stage::Check { value, spare, seen } => {
                &&& post == self
                &&& next.duty.own == op.duty.own
                &&& if self.tail == seen {
                    next.duty.wake == op.duty.wake && next.stage == Stage::Rest { value, spare }
                } else {
                    next.duty.wake == Wake::Swap && next.stage == Stage::Rouse { value, spare }
                }
            },
            Stage::Rouse { value, spare } => {
                &&& post.chain@ == self.chain@
                &&& post.tail == self.tail
                &&& self.waiters.wake_next(op.duty.wake, post.waiters, next.duty.wake)
                &&& next.duty.own == op.duty.own
                &&& next.stage == if next.duty.wake is Idle {
                    Stage::Rest { value, spare }
                } else {
                    Stage::Rouse { value, spare }
                }
            },
            Stage::Rest { value, spare } => {
                &&& post.chain@ == self.chain@
                &&& post.tail == self.tail
                &&& self.waiters.own_next(
                    op.duty.own,
                    thread,
                    spurious,
                    post.waiters,
                    next.duty.own,
                )
                &&& next.duty.wake == op.duty.wake
                &&& next.stage == if next.duty.own is Free {
                    Stage::Load { value, spare, lost: false }
                } else {
                    Stage::Rest { value, spare }
                }
            },
            Stage::Install { value, block, next: appended } => {
                &&& post.tail.addr == appended
                &&& post.waiters == self.waiters
                &&& post.chain@ == self.chain@.append(appended)
                &&& next.stage == Stage::Tell { value, block, next: appended }
                &&& next.duty.own == op.duty.own
                &&& next.duty.wake == Wake::Swap
            },
            Stage::Tell { value, block, next: appended } => {
                &&& post.chain@ == self.chain@
                &&& post.tail == self.tail
                &&& self.waiters.wake_next(op.duty.wake, post.waiters, next.duty.wake)
                &&& next.duty.own == op.duty.own
                &&& next.stage == if next.duty.wake is Idle {
                    Stage::Link { value, block, next: appended }
                } else {
                    Stage::Tell { value, block, next: appended }
                }
            },
            Stage::Link { value, block, next: appended } => {
                &&& post.tail == self.tail
                &&& post.waiters == self.waiters
                &&& self.chain@.joined(post.chain@, block, appended)
                &&& next.stage == Stage::Publish { value, spare: 0, block, index: LAST }
                &&& next.duty == op.duty
            },
            Stage::Publish { value, spare, block, index } => {
                &&& post.tail == self.tail
                &&& post.waiters == self.waiters
                &&& next.stage == Stage::<T>::Done
                &&& next.duty == op.duty
                &&& if spare == 0 {
                    self.chain@.published(post.chain@, block, index as int, value)
                } else {
                    exists|mid: Chain<T, CAPACITY, LAP>| #[trigger]
                        self.chain@.published(mid, block, index as int, value) && mid.released(
                            post.chain@,
                            spare,
                        )
                }
            },
            Stage::Done => post == self && next == op,
        }
    }

    /// A queue without values.
    pub fn new() -> (queue: Self)
        ensures
            queue.wf(),
            queue@ == Seq::<T>::empty(),
            queue.chain@.heap.room() == (usize::MAX - LAP) / LAP as int,
            queue.waiters.waiters.room() == usize::MAX - 1,
            queue.has_room(),
    {
        let queue = MpscQueue {
            chain: ManuallyDrop::new(Chain::new()),
            tail: Pointer { addr: 0 },
            waiters: WaitList::new(),
        };
        assert(holds(Map::<int, Push<T>>::empty()) =~= Map::empty());
        assert(duties(Map::<int, Push<T>>::empty()) =~= Map::empty());
        assert(queue@ =~= Seq::empty());
        queue
    }

    /// Takes the chain out of the queue for an access to it.
    fn lend(&mut self) -> (chain: Chain<T, CAPACITY, LAP>)
        ensures
            chain == old(self).chain@,
            final(self).tail == old(self).tail,
            final(self).waiters == old(self).waiters,
    {
        let mut chain = ManuallyDrop::new(Chain::new());
        std::mem::swap(&mut chain, &mut self.chain);
        ManuallyDrop::into_inner(chain)
    }

    /// What to do about a tail that was seen.
    fn look(value: T, spare: usize, seen: Pointer) -> (stage: Stage<T>)
        ensures
            stage == look(value, spare, seen),
    {
        let index: usize = seen.tag(LAP);
        if seen.untagged(LAP) == 0 {
            Stage::AllocateFirst { value }
        } else if index == CAPACITY {
            Stage::Full { value, spare, seen }
        } else if index == LAST && spare == 0 {
            Stage::Allocate { value, seen }
        } else {
            Stage::Exchange { value, spare, seen }
        }
    }

    /// Performs one access of a push by `thread`.
    pub fn push_step(&mut self, op: Push<T>, thread: usize, spurious: bool, again: bool) -> (next:
        Push<T>)
        requires
            old(self).accepts(op),
        ensures
            old(self).push_next(op, thread, spurious, again, *final(self), next),
    {
        let Push { stage, duty } = op;
        match stage {
            Stage::Load { value, spare, lost } => Push {
                stage: Self::look(value, spare, self.tail),
                duty,
            },
            Stage::AllocateFirst { value } => {
                let mut chain = self.lend();
                let fresh: usize = chain.allocate();
                self.chain = ManuallyDrop::new(chain);
                Push { stage: Stage::First { value, fresh }, duty }
            },
            Stage::First { value, fresh } => if self.tail.addr == 0 {
                self.tail = Pointer::tagged(fresh, 0, LAP);
                let mut chain = self.lend();
                chain.note_append(fresh);
                self.chain = ManuallyDrop::new(chain);
                Push { stage: Stage::LinkFirst { value, next: fresh }, duty }
            } else {
                let mut chain = self.lend();
                chain.release(fresh);
                self.chain = ManuallyDrop::new(chain);
                Push { stage: Stage::Load { value, spare: 0, lost: false }, duty }
            },
            Stage::LinkFirst { value, next } => {
                let mut chain = self.lend();
                chain.join(0, next);
                self.chain = ManuallyDrop::new(chain);
                Push {
                    stage: Stage::Exchange { value, spare: 0, seen: Pointer { addr: next } },
                    duty,
                }
            },
            Stage::Allocate { value, seen } => {
                let mut chain = self.lend();
                let spare: usize = chain.allocate();
                self.chain = ManuallyDrop::new(chain);
                Push { stage: Stage::Exchange { value, spare, seen }, duty }
            },
            Stage::Exchange { value, spare, seen } => if self.tail == seen {
                let block: usize = seen.untagged(LAP);
                let index: usize = seen.tag(LAP);
                self.tail = Pointer::tagged(block, index + 1, LAP);
                let mut chain = self.lend();
                chain.note_claim(Ghost(value));
                self.chain = ManuallyDrop::new(chain);
                if index == LAST {
                    Push { stage: Stage::Install { value, block, next: spare }, duty }
                } else {
                    Push { stage: Stage::Publish { value, spare, block, index }, duty }
                }
            } else {
                Push { stage: Stage::Load { value, spare, lost: true }, duty }
            },
            Stage::Full { value, spare, seen } => if !self.waiters.should_park() && again {
                Push { stage: Stage::Load { value, spare, lost: false }, duty }
            } else {
                Push { stage: Stage::Sleep { value, spare, seen }, duty }
            },
            Stage::Sleep { value, spare, seen } => {
                let own = self.waiters.own_step(duty.own, thread, spurious);
                let listed: bool = match &own {
                    Own::Listed { .. } => true,
                    _ => false,
                };
                let duty = Duty { own, wake: duty.wake };
                if listed {
                    Push { stage: Stage::Check { value, spare, seen }, duty }
                } else {
                    Push { stage: Stage::Sleep { value, spare, seen }, duty }
                }
            },
            Stage::Check { value, spare, seen } => if self.tail == seen {
                Push { stage: Stage::Rest { value, spare }, duty }
            } else {
                Push {
                    stage: Stage::Rouse { value, spare },
                    duty: Duty { own: duty.own, wake: Wake::Swap },
                }
            },
            Stage::Rouse { value, spare } => {
                let wake = self.waiters.wake_step(duty.wake);
                let over: bool = match &wake {
                    Wake::Idle => true,
                    _ => false,
                };
                let duty = Duty { own: duty.own, wake };
                if over {
                    Push { stage: Stage::Rest { value, spare }, duty }
                } else {
                    Push { stage: Stage::Rouse { value, spare }, duty }
                }
            },
            Stage::Rest { value, spare } => {
                let own = self.waiters.own_step(duty.own, thread, spurious);
                let free: bool = match &own {
                    Own::Free => true,
                    _ => false,
                };
                let duty = Duty { own, wake: duty.wake };
                if free {
                    Push { stage: Stage::Load { value, spare, lost: false }, duty }
                } else {
                    Push { stage: Stage::Rest { value, spare }, duty }
                }
            },
            Stage::Install { value, block, next } => {
                self.tail = Pointer::tagged(next, 0, LAP);
                let mut chain = self.lend();
                chain.note_append(next);
                self.chain = ManuallyDrop::new(chain);
                Push {
                    stage: Stage::Tell { value, block, next },
                    duty: Duty { own: duty.own, wake: Wake::Swap },
                }
            },
            Stage::Tell { value, block, next } => {
                let wake = self.waiters.wake_step(duty.wake);
                let over: bool = match &wake {
                    Wake::Idle => true,
                    _ => false,
                };
                let duty = Duty { own: duty.own, wake };
                if over {
                    Push { stage: Stage::Link { value, block, next }, duty }
                } else {
                    Push { stage: Stage::Tell { value, block, next }, duty }
                }
            },
            Stage::Link { value, block, next } => {
                let mut chain = self.lend();
                chain.join(block, next);
                self.chain = ManuallyDrop::new(chain);
                Push { stage: Stage::Publish { value, spare: 0, block, index: LAST }, duty }
            },
            Stage::Publish { value, spare, block, index } => {
                let mut chain = self.lend();
                chain.publish(block, index, value);
                if spare != 0 {
                    chain.release(spare);
                }
                self.chain = ManuallyDrop::new(chain);
                Push { stage: Stage::Done, duty }
            },
            Stage::Done => Push { stage: Stage::Done, duty },
        }
    }

    /// The access that any push makes next finds what it needs.
    pub proof fn lemma_accepts(self, ops: Map<int, Push<T>>, i: int)
        requires
            self.inv(ops),
            ops.contains_key(i),
            ops[i].stage is Allocate || ops[i].stage is AllocateFirst
                ==> self.chain@.heap.has_room(),
            ops[i].stage is Sleep ==> self.waiters.waiters.has_room(),
        ensures
            self.accepts(ops[i]),
    {
        let hs = holds(ops);
        let ds = duties(ops);
        let op = ops[i];
        assert(hs.contains_key(i) && hs[i] == op.stage.hold());
        assert(ds.contains_key(i) && ds[i] == op.duty);
        self.chain@.lemma_facts(hs);
        assert(self.chain@.hold_ok(hs[i]));
        assert(self.op_ok(op));
        self.waiters.lemma_accepts(ds, i);
        match op.stage {
            Stage::Publish { value, spare, block, index } => {
                assert(self.chain@.heap@.contains_key(block));
            },
            _ => {},
        }
    }

    /// The chain after one access of a push.
    proof fn lemma_chain(
        self,
        ops: Map<int, Push<T>>,
        i: int,
        thread: usize,
        spurious: bool,
        again: bool,
        post: Self,
        next: Push<T>,
    )
        requires
            self.inv(ops),
            ops.contains_key(i),
            self.push_next(ops[i], thread, spurious, again, post, next),
        ensures
            post.chain@.inv(holds(ops.insert(i, next))),
            post.tail_ok(),
            self.chain@.last@ != 0 ==> post.chain@.last@ != 0,
            post@ == if ops[i].stage is Exchange && ops[i].stage->Exchange_seen == self.tail {
                self@.push(ops[i].stage->Exchange_value)
            } else {
                self@
            },
            self.chain@.head != 0 ==> self.chain@.same_place(post.chain@),
    {
        let c = self.chain@;
        let hs = holds(ops);
        let op = ops[i].stage;
        let h = next.stage.hold();
        assert(hs.contains_key(i) && hs[i] == op.hold());
        c.lemma_facts(hs);
        assert(c.hold_ok(hs[i]));
        assert(self.op_ok(ops[i]));
        assert(holds(ops.insert(i, next)) =~= hs.insert(i, h));
        match op {
            Stage::AllocateFirst { value } => {
                c.lemma_allocate(post.chain@, c.heap.fresh(), hs, i);
            },
            Stage::Allocate { value, seen } => {
                c.lemma_allocate(post.chain@, c.heap.fresh(), hs, i);
            },
            Stage::First { value, fresh } => {
                if self.tail.addr == 0 {
                    assert(c.last@ == 0);
                    c.lemma_append(hs, i);
                } else {
                    c.lemma_release(post.chain@, hs, i);
                }
            },
            Stage::LinkFirst { value, next: first } => {
                c.lemma_join(post.chain@, hs, i);
            },
            Stage::Exchange { value, spare, seen } => {
                if self.tail == seen {
                    assert(c.last@ != 0);
                    c.lemma_claim(hs, i, value);
                    assert(post@ =~= self@.push(value));
                } else {
                    assert(hs.insert(i, h) =~= hs);
                }
            },
            Stage::Install { value, block, next: appended } => {
                c.lemma_append(hs, i);
            },
            Stage::Link { value, block, next: appended } => {
                c.lemma_join(post.chain@, hs, i);
            },
            Stage::Publish { value, spare, block, index } => {
                if spare == 0 {
                    c.lemma_publish(post.chain@, hs, i);
                } else {
                    let mid = choose|mid: Chain<T, CAPACITY, LAP>| #[trigger]
                        c.published(mid, block, index as int, value) && mid.released(
                            post.chain@,
                            spare,
                        );
                    c.lemma_publish(mid, hs, i);
                    let g = Hold { spare, ..idle() };
                    assert(hs.insert(i, g)[i] == g);
                    mid.lemma_release(post.chain@, hs.insert(i, g), i);
                    assert(hs.insert(i, g).insert(i, h) =~= hs.insert(i, h));
                }
            },
            _ => {
                assert(hs.insert(i, h) =~= hs);
            },
        }
    }

    /// The list of those that sleep after one access of a push.
    proof fn lemma_list(
        self,
        ops: Map<int, Push<T>>,
        i: int,
        thread: usize,
        spurious: bool,
        again: bool,
        post: Self,
        next: Push<T>,
    )
        requires
            self.inv(ops),
            ops.contains_key(i),
            self.push_next(ops[i], thread, spurious, again, post, next),
        ensures
            post.waiters.inv(duties(ops.insert(i, next))),
            next.duty_ok(),
            post.waiters.list@.len() > 0 && !(next.due() && !ops[i].due()) ==> self.waiters.list@.len()
                > 0 && !(ops[i].duty.wake is Swap),
    {
        let ds = duties(ops);
        let op = ops[i];
        let gs = duties(ops.insert(i, next));
        assert(ds.contains_key(i) && ds[i] == op.duty);
        assert(self.op_ok(op));
        assert(gs =~= ds.insert(i, next.duty));
        match op.stage {
            Stage::Sleep { .. } => {
                self.waiters.lemma_own(ds, i, thread, spurious, post.waiters, next.duty.own);
                assert(gs =~= ds.insert(i, Duty { own: next.duty.own, wake: ds[i].wake }));
            },
            Stage::Rest { .. } => {
                self.waiters.lemma_own(ds, i, thread, spurious, post.waiters, next.duty.own);
                assert(gs =~= ds.insert(i, Duty { own: next.duty.own, wake: ds[i].wake }));
            },
            Stage::Check { .. } => {
                if self.tail == op.stage->Check_seen {
                    assert(gs =~= ds);
                } else {
                    self.waiters.lemma_start(ds, i, Wake::Swap);
                    assert(gs =~= ds.insert(i, Duty { own: ds[i].own, wake: Wake::Swap }));
                }
            },
            Stage::Rouse { .. } => {
                self.waiters.lemma_wake(ds, i, post.waiters, next.duty.wake);
                assert(gs =~= ds.insert(i, Duty { own: ds[i].own, wake: next.duty.wake }));
            },
            Stage::Tell { .. } => {
                self.waiters.lemma_wake(ds, i, post.waiters, next.duty.wake);
                assert(gs =~= ds.insert(i, Duty { own: ds[i].own, wake: next.duty.wake }));
            },
            Stage::Install { .. } => {
                self.waiters.lemma_start(ds, i, Wake::Swap);
                assert(gs =~= ds.insert(i, Duty { own: ds[i].own, wake: Wake::Swap }));
            },
            _ => {
                assert(gs =~= ds);
            },
        }
    }

    /// No two pushes are about to append a block.
    proof fn lemma_installer(self, ops: Map<int, Push<T>>, i: int, j: int)
        requires
            self.inv(ops),
            ops.contains_key(i),
            ops.contains_key(j),
            ops[i].stage is Install,
            ops[j].stage is Install,
        ensures
            i == j,
    {
        let hs = holds(ops);
        assert(hs.contains_key(i) && hs[i] == ops[i].stage.hold());
        assert(hs.contains_key(j) && hs[j] == ops[j].stage.hold());
        assert(self.op_ok(ops[i]) && self.op_ok(ops[j]));
        reveal(Chain::inv);
        if i != j {
            assert(Chain::<T, CAPACITY, LAP>::apart(hs[i], hs[j]));
        }
    }

    /// Whatever pushes are under way, one access of any of them keeps the invariant. The access
    /// that wins the exchange puts the value of the push at the end of the queue, and no other
    /// access changes the queue. While the block is full some push is about to append the next,
    /// and while pushes sleep on the list some push is going to wake them all, so that none sleeps
    /// for good.
    pub proof fn lemma_push(
        self,
        ops: Map<int, Push<T>>,
        i: int,
        thread: usize,
        spurious: bool,
        again: bool,
        post: Self,
        next: Push<T>,
    )
        requires
            self.inv(ops),
            ops.contains_key(i),
            self.push_next(ops[i], thread, spurious, again, post, next),
        ensures
            post.inv(ops.insert(i, next)),
            self.chain@.head != 0 ==> self.chain@.same_place(post.chain@),
            post@ == if ops[i].stage is Exchange && ops[i].stage->Exchange_seen == self.tail {
                self@.push(ops[i].stage->Exchange_value)
            } else {
                self@
            },
    {
        let c = self.chain@;
        let hs = holds(ops);
        let op = ops[i];
        let gs = ops.insert(i, next);
        assert(gs.contains_key(i));
        assert(hs.contains_key(i) && hs[i] == op.stage.hold());
        c.lemma_facts(hs);
        assert(c.hold_ok(hs[i]));
        assert(self.op_ok(op));
        self.lemma_chain(ops, i, thread, spurious, again, post, next);
        self.lemma_list(ops, i, thread, spurious, again, post, next);
        post.chain@.lemma_facts(holds(gs));
        // The pushes.
        let won = op.stage is Exchange && op.stage->Exchange_seen == self.tail;
        if c.last@ != 0 {
            assert(self.tail.addr % LAP == c.log@.len() - c.base@[c.last@]);
            assert(self.tail.cell(LAP) == c.last@);
        }
        assert forall|j: int| #[trigger] gs.contains_key(j) implies post.op_ok(gs[j]) by {
            assert(ops.contains_key(j));
            assert(self.op_ok(ops[j]));
            if j != i {
                if ops[j].stage is Install {
                    if won {
                        assert(self.tail.addr % LAP == CAPACITY);
                    }
                    if op.stage is Install {
                        self.lemma_installer(ops, i, j);
                    }
                }
            }
        }
        // Who is about to append a block.
        if post.tail.addr % LAP == CAPACITY {
            if won {
                assert(next.stage is Install);
                assert(Self::installing(gs));
            } else {
                assert(post.tail == self.tail);
                let j = choose|j: int| #[trigger] ops.contains_key(j) && ops[j].stage is Install;
                assert(gs.contains_key(j));
                assert(j != i);
            }
        }
        // Who is going to wake the others.
        if post.waiters.list@.len() > 0 {
            if next.due() {
                assert(Self::roused(gs));
            } else {
                let j = choose|j: int| #[trigger] ops.contains_key(j) && ops[j].due();
                assert(gs.contains_key(j));
                if j == i {
                    assert(op.stage is Check);
                    assert(self.tail.addr % LAP == CAPACITY);
                    let k = choose|k: int| #[trigger]
                        ops.contains_key(k) && ops[k].stage is Install;
                    assert(gs.contains_key(k) && gs[k].due());
                } else {
                    assert(gs[j].due());
                }
            }
        }
    }

    /// How many accesses of a push that does not wait are left at most, while nothing else
    /// happens, until it is over or has the others to wake.
    pub open spec fn left(self, stage: Stage<T>) -> nat {
        match stage {
            Stage::Load { .. } => if self.tail.cell(LAP) == 0 {
                11
            } else {
                8
            },
            Stage::AllocateFirst { .. } => 10,
            Stage::First { .. } => 9,
            Stage::LinkFirst { value, next } => if self.tail.addr == next {
                7
            } else {
                14
            },
            Stage::Allocate { value, seen } => if seen == self.tail {
                7
            } else {
                14
            },
            Stage::Exchange { value, spare, seen } => if seen == self.tail {
                6
            } else {
                13
            },
            Stage::Install { .. } => 5,
            Stage::Tell { .. } => 4,
            Stage::Link { .. } => 2,
            Stage::Publish { .. } => 1,
            _ => 0,
        }
    }

    /// While the block is not full, a push does not wait, wherever it is and whatever the others
    /// have done: each access brings it nearer to its end. It goes to its end and is never given
    /// up.
    pub proof fn lemma_progress(
        self,
        ops: Map<int, Push<T>>,
        op: Push<T>,
        thread: usize,
        again: bool,
        post: Self,
        next: Push<T>,
    )
        requires
            self.inv(ops),
            self.tail.addr % LAP != CAPACITY,
            self.push_next(op, thread, false, again, post, next),
        ensures
            match op.stage {
                Stage::Full { .. } => true,
                Stage::Sleep { .. } => true,
                Stage::Check { value, spare, seen } => seen.addr % LAP == CAPACITY ==> next.stage is Rouse,
                Stage::Rouse { .. } => true,
                Stage::Rest { .. } => true,
                Stage::Tell { .. } => next.stage is Tell || next.stage is Link,
                Stage::Done => next == op && post == self,
                _ => post.left(next.stage) < self.left(op.stage),
            },
            next.stage is Done && !(op.stage is Done) ==> op.stage is Publish,
            Self::unsent(next) is Some ==> Self::unsent(next) == Self::unsent(op),
    {
        self.chain@.lemma_facts(holds(ops));
    }

    /// A push goes to sleep only while the block is full: it looks at the tail once more after it
    /// has put itself on the list, and if the tail is another by then it wakes all that sleep.
    pub proof fn lemma_sleeps(
        self,
        op: Push<T>,
        thread: usize,
        spurious: bool,
        again: bool,
        post: Self,
        next: Push<T>,
    )
        requires
            self.push_next(op, thread, spurious, again, post, next),
        ensures
            next.stage is Full && !(op.stage is Full) ==> self.tail.addr % LAP == CAPACITY,
            next.stage is Sleep && !(op.stage is Sleep) ==> op.stage is Full,
            op.stage is Full ==> next.stage is Sleep || (next.stage is Load && again
                && self.waiters.stack == 0),
            next.stage is Rest && !(op.stage is Rest) ==> {
                ||| op.stage is Rouse
                ||| op.stage matches Stage::Check { value, spare, seen } && seen == self.tail
            },
            op.stage matches Stage::Check { value, spare, seen } ==> if seen == self.tail {
                next.stage is Rest
            } else {
                next.stage is Rouse && next.duty.wake is Swap
            },
            op.stage is Install ==> next.stage is Tell && next.duty.wake is Swap,
    {
    }

    /// A push puts a block on the heap only if there is none yet, or if the slot that it found is
    /// the last of its block, and a block that it then did not need it takes off the heap again;
    /// no other access changes which blocks there are. It pauses only after an exchange that
    /// another push won; one that finds the tail that it expects claims the slot.
    pub proof fn lemma_blocks(
        self,
        ops: Map<int, Push<T>>,
        i: int,
        thread: usize,
        spurious: bool,
        again: bool,
        post: Self,
        next: Push<T>,
    )
        requires
            self.inv(ops),
            ops.contains_key(i),
            self.push_next(ops[i], thread, spurious, again, post, next),
        ensures
            post.chain@.heap@.dom() == match ops[i].stage {
                Stage::AllocateFirst { .. } => self.chain@.heap@.dom().insert(
                    self.chain@.heap.fresh(),
                ),
                Stage::Allocate { .. } => self.chain@.heap@.dom().insert(self.chain@.heap.fresh()),
                Stage::First { value, fresh } => if self.chain@.last@ == 0 {
                    self.chain@.heap@.dom()
                } else {
                    self.chain@.heap@.dom().remove(fresh)
                },
                Stage::Publish { value, spare, block, index } => if spare != 0 {
                    self.chain@.heap@.dom().remove(spare)
                } else {
                    self.chain@.heap@.dom()
                },
                _ => self.chain@.heap@.dom(),
            },
            next.stage is AllocateFirst ==> self.chain@.last@ == 0,
            next.stage is Allocate ==> self.chain@.log@.len() + 1
                == self.chain@.base@[self.chain@.last@] + CAPACITY,
            next.stage matches Stage::Load { value, spare, lost } ==> (lost
                <==> ops[i].stage is Exchange),
            ops[i].stage matches Stage::Exchange { value, spare, seen } ==> {
                &&& seen == self.tail ==> next.stage is Install || next.stage is Publish
                &&& seen != self.tail ==> next.stage == (Stage::Load { value, spare, lost: true })
            },
            ops[i].stage matches Stage::First { value, fresh } ==> (if self.chain@.last@ == 0 {
                next.stage is LinkFirst && post.chain@.last@ == fresh
            } else {
                next.stage is Load
            }),
    {
        let hs = holds(ops);
        assert(hs.contains_key(i) && hs[i] == ops[i].stage.hold());
        self.chain@.lemma_facts(hs);
    }

    /// Each access of a push heeds what it is given. A push that finds the block full spins once
    /// more just if it wants to (`again`) and nobody sleeps; otherwise its waiter gets on the list
    /// unless the exchange may fail (`spurious`) or another thread came first. It sleeps under its
    /// own number, and looks at the tail again only once it was woken. A push that wakes the
    /// others goes on only when it has told all of them.
    pub proof fn lemma_heeds(
        self,
        op: Push<T>,
        thread: usize,
        spurious: bool,
        again: bool,
        post: Self,
        next: Push<T>,
    )
        requires
            self.push_next(op, thread, spurious, again, post, next),
        ensures
            op.stage is Full ==> (next.stage is Load <==> again && self.waiters.stack == 0),
            op.stage is Sleep ==> (op.duty.own matches Own::Push { id, seen } ==> (seen
                == self.waiters.stack ==> (next.stage is Check <==> !spurious))),
            op.stage is Sleep ==> next.stage is Sleep || next.stage is Check,
            op.stage is Rest ==> (op.duty.own matches Own::Listed { id, park } ==> (park is Exchange
                && (next.duty.own matches Own::Listed { id: own, park: p } && p is Wait)
                ==> post.waiters.waiters@[id].place.thread == Some(thread))),
            op.stage is Rest && next.stage is Load ==> next.duty.own is Free,
            op.stage is Rest && !(next.stage is Load) ==> next.stage is Rest,
            op.stage is Tell && next.stage is Link ==> next.duty.wake is Idle,
            op.stage is Rouse && next.stage is Rest ==> next.duty.wake is Idle,
            op.stage is Rouse ==> next.stage is Rouse || next.stage is Rest,
    {
    }

    /// A push may begin at any time.
    pub proof fn lemma_start(self, ops: Map<int, Push<T>>, i: int, op: Push<T>, value: T)
        requires
            self.inv(ops),
            !ops.contains_key(i),
            op.stage == (Stage::Load { value, spare: 0, lost: false }),
            op.duty == off(),
        ensures
            self.inv(ops.insert(i, op)),
    {
        let gs = ops.insert(i, op);
        self.chain@.lemma_enter(holds(ops), i);
        assert(holds(gs) =~= holds(ops).insert(i, idle()));
        self.waiters.lemma_start(duties(ops), i, Wake::Idle);
        assert(duties(gs) =~= duties(ops).insert(i, off()));
        if Self::installing(ops) {
            let j = choose|j: int| #[trigger] ops.contains_key(j) && ops[j].stage is Install;
            assert(gs.contains_key(j));
        }
        if Self::roused(ops) {
            let j = choose|j: int| #[trigger] ops.contains_key(j) && ops[j].due();
            assert(gs.contains_key(j));
        }
    }

    /// A push that is over may be forgotten.
    pub proof fn lemma_finish(self, ops: Map<int, Push<T>>, i: int)
        requires
            self.inv(ops),
            ops.contains_key(i),
            ops[i].stage is Done,
        ensures
            self.inv(ops.remove(i)),
    {
        let gs = ops.remove(i);
        let hs = holds(ops);
        assert(self.op_ok(ops[i]));
        assert(hs.contains_key(i) && hs[i] == idle::<T>());
        self.chain@.lemma_leave(hs, i);
        assert(holds(gs) =~= hs.remove(i));
        assert(duties(ops).contains_key(i) && duties(ops)[i] == off());
        self.waiters.lemma_finish(duties(ops), i);
        assert(duties(gs) =~= duties(ops).remove(i));
        assert forall|j: int| #[trigger] gs.contains_key(j) implies self.op_ok(gs[j]) by {
            assert(ops.contains_key(j));
        }
        if Self::installing(ops) {
            let j = choose|j: int| #[trigger] ops.contains_key(j) && ops[j].stage is Install;
            assert(gs.contains_key(j));
        }
        if Self::roused(ops) {
            let j = choose|j: int| #[trigger] ops.contains_key(j) && ops[j].due();
            assert(gs.contains_key(j));
        }
    }

    /// Whatever pushes are under way, one access of a pop keeps the invariant, and the value that
    /// a pop takes is the oldest of those that were claimed and not yet taken.
    pub proof fn lemma_pop(self, ops: Map<int, Push<T>>, op: Recv<T>, post: Self, next: Recv<T>)
        requires
            self.inv(ops),
            self.chain@.recv_ok(op),
            post.tail == self.tail,
            post.waiters == self.waiters,
            self.chain@.recv_next(op, post.chain@, next, false),
        ensures
            post.inv(ops),
            post.chain@.recv_ok(next),
            match (op, next) {
                (Recv::Read, Recv::Done(Some(value))) => {
                    &&& self@.len() > 0
                    &&& value == self@[0]
                    &&& post@ == self@.skip(1)
                },
                _ => post@ == self@,
            },
    {
        self.chain@.lemma_recv(op, post.chain@, next, false, holds(ops));
        match (op, next) {
            (Recv::Read, Recv::Done(Some(value))) => {
                assert(post@ =~= self@.skip(1));
            },
            _ => {},
        }
        assert forall|j: int| #[trigger] ops.contains_key(j) implies post.op_ok(ops[j]) by {
            assert(self.op_ok(ops[j]));
        }
    }

    /// Performs one access of a pop.
    pub fn pop_step(&mut self, op: Recv<T>) -> (next: Recv<T>)
        requires
            old(self).chain@.recv_ok(op),
            old(self).chain@.recv_safe(),
        ensures
            final(self).tail == old(self).tail,
            final(self).waiters == old(self).waiters,
            old(self).chain@.recv_next(op, final(self).chain@, next, false),
    {
        let mut chain = self.lend();
        let next = chain.recv_step(op, false);
        self.chain = ManuallyDrop::new(chain);
        next
    }

    /// The next push puts another block on the heap.
    pub open spec fn takes_block(self) -> bool {
        self.tail.cell(LAP) == 0 || self.tail.addr % LAP == LAST
    }

    /// Puts `value` at the end of the queue.
    pub fn push(&mut self, value: T)
        requires
            old(self).wf(),
            old(self).takes_block() ==> old(self).chain@.heap.has_room(),
        ensures
            final(self).wf(),
            final(self)@ == old(self)@.push(value),
            final(self).chain@.heap@.dom() == if old(self).takes_block() {
                old(self).chain@.heap@.dom().insert(old(self).chain@.heap.fresh())
            } else {
                old(self).chain@.heap@.dom()
            },
            final(self).chain@.heap.room() == old(self).chain@.heap.room() - if old(self).takes_block() {
                1int
            } else {
                0
            },
            final(self).waiters.waiters.room() == old(self).waiters.waiters.room(),
    {
        let mut op = Push::new(value);
        let ghost ops = Map::<int, Push<T>>::empty();
        proof {
            self.lemma_start(ops, 0, op, value);
            self.lemma_quiet();
        }
        loop
            invariant
                old(self).wf(),
                self.inv(ops.insert(0, op)),
                ops == Map::<int, Push<T>>::empty(),
                old(self).takes_block() ==> old(self).chain@.heap.has_room(),
                self.chain@.heap@.dom() == if old(self).takes_block() && op.stage.rank() < 11 && !(op.stage is Allocate) {
                    old(self).chain@.heap@.dom().insert(old(self).chain@.heap.fresh())
                } else {
                    old(self).chain@.heap@.dom()
                },
                old(self).takes_block() && !(op.stage.rank() < 11 && !(op.stage is Allocate)) ==> self.chain@.heap == old(self).chain@.heap,
                self.chain@.heap.room() == old(self).chain@.heap.room() - if old(self).takes_block()
                    && op.stage.rank() < 11 && !(op.stage is Allocate) {
                    1int
                } else {
                    0
                },
                self.waiters.stack == 0,
                self.waiters.waiters.room() == old(self).waiters.waiters.room(),
                op.stage is Tell ==> op.duty.wake is Swap || (op.duty.wake is Walk
                    && op.duty.wake.top() == 0),
                match op.stage {
                    Stage::Load { value: v, spare, lost } => v == value && self@ == old(self)@
                        && spare == 0 && self.tail.addr % LAP != CAPACITY && self.tail
                        == old(self).tail,
                    Stage::AllocateFirst { value: v } => v == value && self@ == old(self)@
                        && self.tail.addr == 0 && old(self).takes_block(),
                    Stage::First { value: v, fresh } => v == value && self@ == old(self)@
                        && self.tail.addr == 0 && old(self).takes_block(),
                    Stage::LinkFirst { value: v, next } => v == value && self@ == old(self)@
                        && self.tail.addr == next && old(self).takes_block(),
                    Stage::Allocate { value: v, seen } => v == value && self@ == old(self)@
                        && self.tail == seen && seen.addr % LAP == LAST && old(self).takes_block(),
                    Stage::Exchange { value: v, spare, seen } => v == value && self@ == old(self)@
                        && self.tail == seen && (seen.addr % LAP != LAST ==> spare == 0),
                    Stage::Publish { spare, .. } => self@ == old(self)@.push(value) && spare == 0,
                    Stage::Full { .. } => false,
                    Stage::Sleep { .. } => false,
                    Stage::Check { .. } => false,
                    Stage::Rouse { .. } => false,
                    Stage::Rest { .. } => false,
                    _ => self@ == old(self)@.push(value),
                },
            decreases
                    op.stage.rank(),
                    if op.duty.wake is Swap {
                        1int
                    } else {
                        0
                    },
        {
            let ghost pre = *self;
            let ghost before = op;
            let done: bool = match &op.stage {
                Stage::Done => true,
                _ => false,
            };
            if done {
                proof {
                    self.lemma_finish(ops.insert(0, op), 0);
                    assert(ops.insert(0, op).remove(0) =~= ops);
                }
                return;
            }
            proof {
                let all = ops.insert(0, before);
                assert(all.contains_key(0) && all[0] == before);
                assert(pre.op_ok(all[0]));
                pre.chain@.lemma_facts(holds(all));
                assert(pre.chain@.last@ != 0 ==> pre.tail.cell(LAP) == pre.chain@.last@);
                pre.lemma_accepts(all, 0);
            }
            op = self.push_step(op, 0, false, false);
            proof {
                pre.lemma_push(ops.insert(0, before), 0, 0, false, false, *self, op);
                assert(ops.insert(0, before).insert(0, op) =~= ops.insert(0, op));
            }
        }
    }

    /// Takes the oldest value out of the queue.
    pub fn pop(&mut self) -> (value: Option<T>)
        requires
            old(self).wf(),
        ensures
            final(self).wf(),
            final(self).chain@.heap@.dom() == old(self).chain@.heap@.dom(),
            final(self).chain@.heap.room() == old(self).chain@.heap.room(),
            final(self).waiters == old(self).waiters,
            match value {
                Some(v) => {
                    &&& old(self)@.len() > 0
                    &&& v == old(self)@[0]
                    &&& final(self)@ == old(self)@.skip(1)
                },
                None => old(self)@.len() == 0 && final(self)@ == old(self)@,
            },
    {
        assert(holds(Map::<int, Push<T>>::empty()) =~= Map::empty());
        let mut chain = self.lend();
        let value = chain.try_recv(false);
        self.chain = ManuallyDrop::new(chain);
        value
    }

    /// In a queue at rest nobody sleeps, and the block is not full.
    proof fn lemma_quiet(self)
        requires
            self.wf(),
        ensures
            self.waiters.stack == 0,
            self.tail.addr % LAP != CAPACITY,
    {
        let ops = Map::<int, Push<T>>::empty();
        if self.waiters.list@.len() > 0 {
            let j = choose|j: int| #[trigger] ops.contains_key(j) && ops[j].due();
            assert(false);
        }
        if self.tail.addr % LAP == CAPACITY {
            let j = choose|j: int| #[trigger] ops.contains_key(j) && ops[j].stage is Install;
            assert(false);
        }
    }
}

/// Every run of sends and receives, whatever way their accesses follow each other.
impl<T> Machine for MpscQueue<T> {
    type Item = T;

    type Send = Push<T>;

    type Recv = Recv<T>;

    open spec fn fits(self, sends: Map<int, Push<T>>, recv: Recv<T>) -> bool {
        self.inv(sends) && self.chain@.recv_ok(recv)
    }

    open spec fn held(self) -> Seq<T> {
        self@
    }

    open spec fn unsent(send: Push<T>) -> Option<T> {
        match send.stage {
            Stage::Load { value, .. } => Some(value),
            Stage::AllocateFirst { value, .. } => Some(value),
            Stage::First { value, .. } => Some(value),
            Stage::LinkFirst { value, .. } => Some(value),
            Stage::Allocate { value, .. } => Some(value),
            Stage::Exchange { value, .. } => Some(value),
            Stage::Full { value, .. } => Some(value),
            Stage::Sleep { value, .. } => Some(value),
            Stage::Check { value, .. } => Some(value),
            Stage::Rouse { value, .. } => Some(value),
            Stage::Rest { value, .. } => Some(value),
            _ => None,
        }
    }

    open spec fn sent(send: Push<T>) -> bool {
        send.stage is Done
    }

    open spec fn owes(send: Push<T>) -> bool {
        send.stage is LinkFirst || (Self::unsent(send) is None && !Self::sent(send))
    }

    open spec fn awaited(sends: Map<int, Push<T>>) -> bool {
        exists|i: int| #[trigger] sends.contains_key(i) && Self::owes(sends[i])
    }

    open spec fn got(recv: Recv<T>) -> Option<T> {
        recv.result()
    }

    open spec fn missed(recv: Recv<T>) -> bool {
        recv is Done && recv.result() is None
    }

    open spec fn starts(self, sends: Map<int, Push<T>>, sender: int, send: Push<T>) -> bool {
        &&& send.stage matches Stage::Load { value, spare, lost } && spare == 0 && !lost
        &&& send.duty == off()
    }

    open spec fn sends_on(
        self,
        sends: Map<int, Push<T>>,
        sender: int,
        post: Self,
        next: Push<T>,
    ) -> bool {
        exists|thread: usize, spurious: bool, again: bool| #[trigger]
            self.push_next(sends[sender], thread, spurious, again, post, next)
    }

    open spec fn renews(recv: Recv<T>, next: Recv<T>) -> bool {
        recv is Done && next is Head
    }

    open spec fn recvs_on(
        self,
        sends: Map<int, Push<T>>,
        recv: Recv<T>,
        post: Self,
        next: Recv<T>,
    ) -> bool {
        &&& post.tail == self.tail
        &&& post.waiters == self.waiters
        &&& self.chain@.recv_next(recv, post.chain@, next, false)
    }

    proof fn lemma_starts(
        self,
        sends: Map<int, Push<T>>,
        recv: Recv<T>,
        sender: int,
        send: Push<T>,
    ) {
        self.lemma_start(sends, sender, send, send.stage->Load_value);
    }

    proof fn lemma_sends_on(
        self,
        sends: Map<int, Push<T>>,
        recv: Recv<T>,
        sender: int,
        post: Self,
        next: Push<T>,
    ) {
        let (thread, spurious, again) = choose|thread: usize, spurious: bool, again: bool| #[trigger]
            self.push_next(sends[sender], thread, spurious, again, post, next);
        self.lemma_push(sends, sender, thread, spurious, again, post, next);
    }

    proof fn lemma_sent(self, sends: Map<int, Push<T>>, recv: Recv<T>, sender: int) {
        self.lemma_finish(sends, sender);
    }

    proof fn lemma_renews(self, sends: Map<int, Push<T>>, recv: Recv<T>, next: Recv<T>) {
    }

    proof fn lemma_recvs_on(
        self,
        sends: Map<int, Push<T>>,
        recv: Recv<T>,
        post: Self,
        next: Recv<T>,
    ) {
        self.lemma_pop(sends, recv, post, next);
        if Self::missed(next) && !Self::missed(recv) && self.held().len() > 0 {
            let hs = holds(sends);
            self.chain@.lemma_recv_waits(recv, post.chain@, false, hs);
            let i = choose|i: int| #[trigger]
                hs.contains_key(i) && (hs[i].slot is Some || hs[i].edge is Some);
            assert(sends.contains_key(i) && Self::owes(sends[i]));
        }
    }
}

} // verus!
