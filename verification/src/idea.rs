//! A bounded queue for many producers and one consumer, both of which may sleep: the producers
//! while the queue is full, the consumer while it is empty.
use crate::history::{values, Event, Machine, Run};
use crate::lock::{Locking, Unlocking};
use crate::masked::{is_power_of_two, next_power_of_two, Again, Masked, Pop, Stage};
use crate::pause::{power_of_two, Pause, Platform};
use crate::ring::wrap;
use crate::shared;
use crate::usync_mpsc::utils::parker::{Park, Parker, Unpark};
use crate::wait_queue;
use crate::wait_queue::{Sleep, WaitQueue, Wake};
use vstd::arithmetic::power2::pow2;
use vstd::prelude::*;

verus! {

/// How often a thread has waited.
pub struct Backoff(pub usize);

/// How long a thread waits for the `n`-th time.
pub open spec fn pause_at(n: usize, platform: Platform) -> Pause {
    if n <= 3 || platform.windows {
        Pause::Spin(
            pow2(
                if n < 10 {
                    n as nat
                } else {
                    10
                },
            ) as usize,
        )
    } else {
        Pause::Yield
    }
}

/// A thread waits ever longer: at first it spins, each time twice as long as the time before. After
/// the third time it yields, or where it goes on to spin it does so up to 1024 times at once.
pub proof fn lemma_pauses(n: usize, platform: Platform)
    requires
        n < usize::MAX,
    ensures
        n <= 3 ==> pause_at(n, platform) is Spin,
        n > 3 && !platform.windows ==> pause_at(n, platform) == Pause::Yield,
        n > 3 && platform.windows ==> pause_at(n, platform) is Spin,
        pause_at(n, platform) matches Pause::Spin(times) ==> 1 <= times <= 1024,
        pause_at(n, platform) matches Pause::Spin(times) ==> (pause_at(
            (n + 1) as usize,
            platform,
        ) matches Pause::Spin(more) ==> more == if n < 10 {
            2 * times
        } else {
            times as int
        }),
        pause_at(0, platform) == Pause::Spin(1),
{
    let k: nat = if n < 10 {
        n as nat
    } else {
        10
    };
    vstd::arithmetic::power2::lemma2_to64();
    vstd::arithmetic::power2::lemma_pow2_pos(k);
    vstd::arithmetic::power2::lemma_pow2_unfold(k + 1);
    if k < 10 {
        vstd::arithmetic::power2::lemma_pow2_strictly_increases(k, 10);
    }
}

impl Backoff {
    /// A thread that has not waited yet.
    pub fn new() -> (backoff: Self)
        ensures
            backoff.0 == 0,
    {
        Backoff(0)
    }

    /// Whether it is of no use to spin any more.
    pub fn is_completed(&self) -> (completed: bool)
        ensures
            completed == (self.0 > 3),
    {
        self.0 > 3
    }

    /// Spins twice as long as the last time, up to 8 spins or, on Windows, up to 1024; after that
    /// it yields.
    pub fn yield_now(&mut self, platform: Platform) -> (pause: Pause)
        ensures
            final(self).0 == old(self).0.wrapping_add(1),
            pause == pause_at(final(self).0, platform),
            pause is Yield <==> final(self).0 > 3 && !platform.windows,
            pause matches Pause::Spin(times) ==> times == pow2(
                if final(self).0 < 10 {
                    final(self).0 as nat
                } else {
                    10
                },
            ) as usize,
            pause is Spin || pause is Yield,
    {
        self.0 = self.0.wrapping_add(1);
        if !self.is_completed() || platform.windows {
            let exponent: usize = if self.0 < 10 {
                self.0
            } else {
                10
            };
            Pause::Spin(power_of_two(exponent))
        } else {
            Pause::Yield
        }
    }
}

/// How a thread waits: for a lock, in a place where it sleeps, or after a lost exchange.
pub struct Waiting {
    /// Before it queues up for a lock.
    pub spin: Backoff,
    /// After a lost exchange.
    pub backoff: Backoff,
    /// Before it goes to sleep.
    pub rest: Backoff,
}

impl Waiting {
    /// A thread that has not waited yet.
    pub fn new() -> (waiting: Self)
        ensures
            waiting.spin.0 == 0,
            waiting.backoff.0 == 0,
            waiting.rest.0 == 0,
    {
        Waiting { spin: Backoff::new(), backoff: Backoff::new(), rest: Backoff::new() }
    }

    /// Whether a thread that is `about` to sleep looks once more before it does, and how long it
    /// waits until then: it spins a few times, and starts anew the next time.
    pub fn look(&mut self, about: bool, platform: Platform) -> (again: (bool, Pause))
        ensures
            final(self).spin == old(self).spin,
            final(self).backoff == old(self).backoff,
            again.0 == (about && old(self).rest.0 <= 3),
            again.1 == if again.0 {
                pause_at((old(self).rest.0 + 1) as usize, platform)
            } else {
                Pause::Nothing
            },
            final(self).rest.0 == if again.0 {
                old(self).rest.0 + 1
            } else if about {
                old(self).rest.0 as int
            } else {
                0
            },
    {
        if !about {
            self.rest = Backoff::new();
            return (false, Pause::Nothing);
        }
        if self.rest.is_completed() {
            return (false, Pause::Nothing);
        }
        let pause = self.rest.yield_now(platform);
        (true, pause)
    }

    /// Whether a thread that wants a lock looks once more before it queues up or goes to sleep,
    /// and how long it waits until then. It does not spin for a lock that others queue up for.
    pub fn again(&mut self, op: &Locking, platform: Platform) -> (again: (bool, Pause))
        ensures
            final(self).backoff == old(self).backoff,
            match *op {
                Locking::Check { id, seen } => {
                    &&& again.0 == (seen.cell(2) == 0 && old(self).spin.0 <= 3)
                    &&& again.1 == if again.0 {
                        pause_at((old(self).spin.0 + 1) as usize, platform)
                    } else {
                        Pause::Nothing
                    }
                    &&& final(self).spin.0 == old(self).spin.0 + if again.0 {
                        1int
                    } else {
                        0
                    }
                    &&& final(self).rest.0 == 0
                },
                Locking::Park { id, park: shared::Park::Load } => {
                    &&& again.0 == (old(self).rest.0 <= 3)
                    &&& again.1 == if again.0 {
                        pause_at((old(self).rest.0 + 1) as usize, platform)
                    } else {
                        Pause::Nothing
                    }
                    &&& final(self).rest.0 == old(self).rest.0 + if again.0 {
                        1int
                    } else {
                        0
                    }
                    &&& final(self).spin == old(self).spin
                },
                _ => {
                    &&& again == (false, Pause::Nothing)
                    &&& final(self).spin == old(self).spin
                    &&& final(self).rest.0 == 0
                },
            },
    {
        match op {
            Locking::Check { seen, .. } => {
                self.look(false, platform);
                if seen.untagged(2) == 0 && !self.spin.is_completed() {
                    let pause = self.spin.yield_now(platform);
                    (true, pause)
                } else {
                    (false, Pause::Nothing)
                }
            },
            Locking::Park { park: shared::Park::Load, .. } => self.look(true, platform),
            _ => self.look(false, platform),
        }
    }

    /// How the thread waits before its next access for a lock: not at all, unless another thread
    /// won the exchange of a free lock. The intervals start anew once the lock was seen held.
    pub fn pause(&mut self, op: &Locking, platform: Platform) -> (pause: Pause)
        ensures
            match *op {
                Locking::Load { id, lost: true } => {
                    &&& final(self).backoff.0 == old(self).backoff.0.wrapping_add(1)
                    &&& pause == pause_at(final(self).backoff.0, platform)
                },
                Locking::Check { id, seen } => {
                    &&& final(self).backoff.0 == 0
                    &&& pause == Pause::Nothing
                },
                _ => final(self).backoff == old(self).backoff && pause == Pause::Nothing,
            },
            final(self).spin == old(self).spin,
            final(self).rest == old(self).rest,
    {
        match op {
            Locking::Load { lost: true, .. } => self.backoff.yield_now(platform),
            Locking::Check { .. } => {
                self.backoff = Backoff::new();
                Pause::Nothing
            },
            _ => Pause::Nothing,
        }
    }

    /// How the thread waits before its next access to give a lock back: not at all, unless another
    /// thread won the exchange.
    pub fn release(&self, op: &Unlocking) -> (pause: Pause)
        ensures
            pause == match *op {
                Unlocking::Load { lost: true } => Pause::Spin(1),
                _ => Pause::Nothing,
            },
    {
        match op {
            Unlocking::Load { lost: true } => Pause::Spin(1),
            _ => Pause::Nothing,
        }
    }

    /// How a send waits before its next access: once around if the position moved on, ever longer
    /// after an exchange that another send won, and not at all otherwise.
    pub fn retry<T>(&mut self, stage: &Stage<T>, platform: Platform) -> (pause: Pause)
        ensures
            final(self).spin == old(self).spin,
            final(self).rest == old(self).rest,
            match *stage {
                Stage::Load { value, again: Again::Moved } => {
                    &&& final(self).backoff == old(self).backoff
                    &&& pause == Pause::Spin(1)
                },
                Stage::Load { value, again: Again::Lost } => {
                    &&& final(self).backoff.0 == old(self).backoff.0.wrapping_add(1)
                    &&& pause == pause_at(final(self).backoff.0, platform)
                },
                _ => final(self).backoff == old(self).backoff && pause == Pause::Nothing,
            },
    {
        match stage {
            Stage::Load { again: Again::Moved, .. } => Pause::Spin(1),
            Stage::Load { again: Again::Lost, .. } => self.backoff.yield_now(platform),
            _ => Pause::Nothing,
        }
    }
}

/// The queue.
pub struct Queue<T> {
    pub slots: Masked<T>,
    pub wait: WaitQueue,
    pub parker: Parker,
}

/// Whether the queue is still full: the part of the question that comes next. `at` is the position
/// that was seen.
pub enum Ask {
    /// Load the producers' position.
    Load,
    /// Look whether the slot is stored.
    Look { seen: usize, at: Ghost<nat> },
    /// The slot is stored: look whether the position is still the same.
    Recheck { seen: usize, at: Ghost<nat> },
    /// The answer.
    Answer(bool),
}

/// The part of a send that comes next.
pub enum Send<T> {
    /// Try to put the value into the queue; `block` if the send is to wait for room.
    Try { stage: Stage<T>, block: bool },
    /// Tell the consumer that there is a value.
    Tell { unpark: Unpark },
    /// Wait for room.
    Wait { value: T, op: Sleep },
    /// Ask whether the queue is still full, before going to sleep.
    Check { value: T, id: usize, ask: Ask },
    /// The send is over; the value comes back if the queue was full.
    Done(Result<(), T>),
}

/// The part of a receive that comes next.
pub enum Recv<T> {
    /// Look whether there is a value; `block` if the receive is to wait for one.
    Look { block: bool },
    /// Take it.
    Take,
    /// Wake a producer that waits for room.
    Wake { value: T, op: Wake },
    /// Sleep until there may be a value.
    Park { park: Park },
    /// The receive is over.
    Done(Option<T>),
}

/// What a send does after an access to the slots.
pub open spec fn after_try<T>(stage: Stage<T>, block: bool) -> Send<T> {
    match stage {
        Stage::Done(Ok(())) => Send::Tell { unpark: Unpark::Load },
        Stage::Done(Err(value)) => if block {
            Send::Wait { value, op: Sleep::Start }
        } else {
            Send::Done(Err(value))
        },
        stage => Send::Try { stage, block },
    }
}

/// What a send does after an access to the place where it waits.
pub open spec fn after_wait<T>(value: T, op: Sleep) -> Send<T> {
    match op {
        Sleep::Ask { id } => Send::Check { value, id, ask: Ask::Load },
        Sleep::Done => Send::Try { stage: Stage::Load { value, again: Again::No }, block: true },
        op => Send::Wait { value, op },
    }
}

impl<T> Send<T> {
    /// What the send does with the slots.
    pub open spec fn stage(self) -> Option<Stage<T>> {
        match self {
            Send::Try { stage, block } => Some(stage),
            _ => None,
        }
    }

    /// What the send does with the consumer's place.
    pub open spec fn tell(self) -> Option<Unpark> {
        match self {
            Send::Tell { unpark } => Some(unpark),
            _ => None,
        }
    }

    /// The send is about to tell the consumer that there is a value.
    pub open spec fn tells(self) -> bool {
        self matches Send::Tell { unpark } && (unpark is Load || unpark is Exchange)
    }

    /// What the send does with the place where it waits.
    pub open spec fn wait_op(self) -> Option<wait_queue::Op> {
        match self {
            Send::Wait { value, op } => Some(wait_queue::Op::Sleep(op)),
            Send::Check { value, id, ask } => Some(wait_queue::Op::Sleep(Sleep::Ask { id })),
            _ => None,
        }
    }
}

impl<T> Recv<T> {
    /// What the receive does with its own place.
    pub open spec fn park(self) -> Park {
        match self {
            Recv::Park { park } => park,
            _ => Park::Done(true),
        }
    }

    /// What the receive does with the place where sends wait.
    pub open spec fn wait_op(self) -> Option<wait_queue::Op> {
        match self {
            Recv::Wake { value, op } => Some(wait_queue::Op::Wake(op)),
            _ => None,
        }
    }

    /// The receive has freed a slot and not yet taken a waiter off the list.
    pub open spec fn freed(self) -> bool {
        self matches Recv::Wake { value, op } && (op is Peek || op is Lock)
    }
}

/// What the sends do with the slots.
pub open spec fn stages<T>(ops: Map<int, Send<T>>) -> Map<int, Stage<T>> {
    Map::new(
        |i: int| ops.contains_key(i) && ops[i].stage() is Some,
        |i: int| ops[i].stage()->0,
    )
}

/// What the sends do with the consumer's place.
pub open spec fn tells<T>(ops: Map<int, Send<T>>) -> Map<int, Unpark> {
    Map::new(
        |i: int| ops.contains_key(i) && ops[i].tell() is Some,
        |i: int| ops[i].tell()->0,
    )
}

/// What the sends and the receive do with the place where sends wait. The receive goes by the
/// number -1.
pub open spec fn wait_ops<T>(ops: Map<int, Send<T>>, recv: Recv<T>) -> Map<int, wait_queue::Op> {
    Map::new(
        |i: int|
            if i == -1 {
                recv.wait_op() is Some
            } else {
                ops.contains_key(i) && ops[i].wait_op() is Some
            },
        |i: int|
            if i == -1 {
                recv.wait_op()->0
            } else {
                ops[i].wait_op()->0
            },
    )
}

/// Some send is about to tell the consumer that there is a value.
pub open spec fn teller<T>(ops: Map<int, Send<T>>) -> bool {
    exists|i: int| #[trigger]
        ops.contains_key(i) && ops[i].tells()
}

impl<T> Queue<T> {
    /// How many values were ever sent.
    pub open spec fn sent(self) -> nat {
        self.slots.ring.log@.len()
    }

    /// The values in the queue, the oldest first.
    pub open spec fn view(self) -> Seq<T> {
        self.slots@
    }

    /// The most values that the queue can hold.
    pub open spec fn capacity(self) -> int {
        self.slots.capacity()
    }

    /// How many more values the queue has room for.
    pub open spec fn free(self) -> int {
        self.capacity() - self@.len()
    }

    /// The consumer would find a value.
    pub open spec fn ready(self) -> bool {
        self.slots.ring.cell(self.slots.ring.taken@ as int).stored
    }

    /// A send that waits, or is about to, and did not yet find out that it need not.
    pub open spec fn waits(self, op: Send<T>) -> bool {
        op matches Send::Check { value, id, ask } && match ask {
            Ask::Recheck { seen, at } => at@ == self.sent(),
            Ask::Answer(full) => full,
            _ => false,
        }
    }

    /// A send that is going to try to put its value into the queue.
    pub open spec fn tries(self, op: Send<T>) -> bool {
        match op {
            Send::Try { stage, block } => match stage {
                Stage::Recheck { value, seen, at } => at@ != self.sent(),
                Stage::Publish { .. } => false,
                Stage::Done(_) => false,
                _ => true,
            },
            Send::Wait { value, op } => wait_queue::Op::Sleep(op).sleeps()
                ==> !self.wait.list@.contains(wait_queue::Op::Sleep(op).owns()),
            Send::Check { value, id, ask } => !self.waits(op),
            _ => false,
        }
    }

    /// The sends that are going to try.
    pub open spec fn trying(self, ops: Map<int, Send<T>>) -> Set<int> {
        ops.dom().filter(|i: int| self.tries(ops[i]))
    }

    /// Some send waits or is about to.
    pub open spec fn crowded(self, ops: Map<int, Send<T>>) -> bool {
        self.wait.list@.len() > 0 || exists|i: int| #[trigger]
            ops.contains_key(i) && self.waits(ops[i])
    }

    /// What holds of a send.
    pub open spec fn send_ok(self, op: Send<T>) -> bool {
        match op {
            Send::Try { stage, block } => !(stage is Done),
            Send::Tell { unpark } => !(unpark is Done),
            Send::Wait { value, op } => !(op is Ask) && !(op is Done),
            Send::Check { value, id, ask } => match ask {
                Ask::Look { seen, at } => at@ <= self.sent() && seen == at@ as int % wrap(),
                Ask::Recheck { seen, at } => at@ <= self.sent() && seen == at@ as int % wrap(),
                _ => true,
            },
            Send::Done(_) => true,
        }
    }

    /// What holds of the receive.
    pub open spec fn recv_ok(self, recv: Recv<T>) -> bool {
        match recv {
            Recv::Take => self.slots.pop_ok(Pop::Take),
            Recv::Wake { value, op } => !(op is Done),
            Recv::Park { park } => !(park is Done),
            _ => true,
        }
    }

    /// While sends wait, there is no more room than for the sends that are going to try and the
    /// one that the receive is about to wake.
    pub open spec fn room_ok(self, ops: Map<int, Send<T>>, recv: Recv<T>) -> bool {
        self.crowded(ops) ==> self.free() <= self.trying(ops).len() + if recv.freed() {
            1int
        } else {
            0
        }
    }

    /// While the consumer sleeps, or is about to, and there is a value, it was told so or is about
    /// to be.
    pub open spec fn ready_ok(self, ops: Map<int, Send<T>>, recv: Recv<T>) -> bool {
        recv is Park && self.ready() ==> self.parker.told() || teller(ops)
    }

    /// The invariant of the queue together with the sends and the receive that are under way.
    pub open spec fn inv(self, ops: Map<int, Send<T>>, recv: Recv<T>) -> bool {
        &&& ops.dom().finite()
        &&& !ops.contains_key(-1)
        &&& self.slots.inv(stages(ops))
        &&& self.wait.inv(wait_ops(ops, recv))
        &&& self.parker.inv(recv.park(), tells(ops))
        &&& forall|i: int| #[trigger] ops.contains_key(i) ==> self.send_ok(ops[i])
        &&& self.recv_ok(recv)
        &&& self.room_ok(ops, recv)
        &&& self.ready_ok(ops, recv)
    }

    /// The invariant while nothing is under way.
    pub open spec fn wf(self) -> bool {
        self.inv(Map::empty(), Recv::Done(None))
    }

    /// Another waiter still has an address.
    pub open spec fn has_room(self) -> bool {
        self.wait.has_room()
    }

    /// The next access of the send finds what it needs.
    pub open spec fn sends(self, op: Send<T>, spurious: bool) -> bool {
        &&& is_power_of_two(self.capacity())
        &&& match op {
            Send::Tell { unpark } => self.parker.unparks(unpark),
            Send::Wait { value, op } => self.wait.sleeping(op, spurious),
            Send::Check { value, id, ask } => self.wait.sleeping(Sleep::Ask { id }, spurious),
            _ => true,
        }
    }

    /// The next access of the receive finds what it needs.
    pub open spec fn recvs(self, op: Recv<T>, spurious: bool) -> bool {
        &&& is_power_of_two(self.capacity())
        &&& match op {
            Recv::Take => self.slots.ring.slots@[self.slots.index(
                self.slots.consumer,
            )].value is Some,
            Recv::Wake { value, op } => self.wait.waking(op, spurious),
            Recv::Park { park } => self.parker.parks(park),
            _ => true,
        }
    }

    /// One access of a send by `thread`; see [`WaitQueue::sleep_next`].
    pub open spec fn send_next(
        self,
        op: Send<T>,
        thread: usize,
        spurious: bool,
        again: bool,
        post: Self,
        next: Send<T>,
    ) -> bool {
        match op {
            Send::Try { stage, block } => {
                &&& post.wait == self.wait
                &&& post.parker == self.parker
                &&& exists|s: Stage<T>| #[trigger]
                    self.slots.push_next(stage, post.slots, s) && next == after_try(s, block)
            },
            Send::Tell { unpark } => {
                &&& post.slots == self.slots
                &&& post.wait == self.wait
                &&& exists|u: Unpark| #[trigger]
                    self.parker.unpark_next(unpark, post.parker, u) && next == if u is Done {
                        Send::<T>::Done(Ok(()))
                    } else {
                        Send::Tell { unpark: u }
                    }
            },
            Send::Wait { value, op } => {
                &&& post.slots == self.slots
                &&& post.parker == self.parker
                &&& exists|o: Sleep| #[trigger]
                    self.wait.sleep_next(op, thread, spurious, again, false, post.wait, o) && next
                        == after_wait(value, o)
            },
            Send::Check { value, id, ask } => match ask {
                Ask::Load => {
                    let ask = Ask::Look { seen: self.slots.producer, at: Ghost(self.sent()) };
                    post == self && next == Send::Check { value, id, ask }
                },
                Ask::Look { seen, at } => {
                    let ask = if self.slots.ring.slots@[self.slots.index(seen)].stored {
                        Ask::Recheck { seen, at }
                    } else {
                        Ask::Answer(false)
                    };
                    post == self && next == Send::Check { value, id, ask }
                },
                Ask::Recheck { seen, at } => {
                    let ask = Ask::Answer(self.slots.producer == seen);
                    post == self && next == Send::Check { value, id, ask }
                },
                Ask::Answer(full) => {
                    &&& post.slots == self.slots
                    &&& post.parker == self.parker
                    &&& exists|o: Sleep| #[trigger]
                        self.wait.sleep_next(
                            Sleep::Ask { id },
                            thread,
                            spurious,
                            again,
                            full,
                            post.wait,
                            o,
                        ) && next == Send::Wait { value, op: o }
                },
            },
            Send::Done(_) => post == self && next == op,
        }
    }

    /// One access of a sleep in the consumer's place; see [`Parker::park_next`]. A consumer that
    /// finds that it was told to go on looks once more.
    pub open spec fn park_next(
        self,
        park: Park,
        thread: usize,
        again: bool,
        post: Self,
        next: Park,
    ) -> bool {
        &&& self.parker.park_next(
            park,
            thread,
            false,
            post.parker,
            if park is Exchange && self.parker.told() {
                Park::Complete
            } else {
                next
            },
        )
        &&& park is Exchange && self.parker.told() ==> next == Park::Reload
        &&& park is Spin ==> next == if again {
            Park::Look
        } else {
            Park::Exchange
        }
    }

    /// One access of a receive by `thread`; see [`WaitQueue::wake_next`].
    pub open spec fn recv_next(
        self,
        op: Recv<T>,
        thread: usize,
        spurious: bool,
        again: bool,
        post: Self,
        next: Recv<T>,
    ) -> bool {
        match op {
            Recv::Look { block } => {
                &&& post == self
                &&& next == if self.slots.ring.slots@[self.slots.index(
                    self.slots.consumer,
                )].stored {
                    Recv::<T>::Take
                } else if block {
                    Recv::Park { park: Park::Look }
                } else {
                    Recv::Done(None)
                }
            },
            Recv::Take => {
                &&& post.wait == self.wait
                &&& post.parker == self.parker
                &&& next matches Recv::Wake { value, op: o }
                &&& o == Wake::Peek
                &&& self.slots.pop_next(Pop::Take, post.slots, Pop::Done(Some(value)))
            },
            Recv::Wake { value, op } => {
                &&& post.slots == self.slots
                &&& post.parker == self.parker
                &&& exists|o: Wake| #[trigger]
                    self.wait.wake_next(op, thread, spurious, again, post.wait, o) && next
                        == if o is Done {
                        Recv::Done(Some(value))
                    } else {
                        Recv::Wake { value, op: o }
                    }
            },
            Recv::Park { park } => {
                &&& post.slots == self.slots
                &&& post.wait == self.wait
                &&& exists|p: Park| #[trigger]
                    self.park_next(park, thread, again, post, p) && next == if p is Done {
                        Recv::<T>::Look { block: true }
                    } else {
                        Recv::Park { park: p }
                    }
            },
            Recv::Done(_) => post == self && next == op,
        }
    }

    /// An empty queue with room for `capacity` values, made up to a power of two.
    pub fn new(capacity: usize) -> (queue: Self)
        requires
            capacity <= usize::MAX / 2 + 1,
        ensures
            queue.wf(),
            queue.has_room(),
            queue@ == Seq::<T>::empty(),
            is_power_of_two(queue.capacity()),
            queue.slots.ring.slots@.len() == queue.capacity(),
            capacity <= queue.capacity(),
            queue.capacity() == 1 || queue.capacity() < 2 * capacity,
            0 < capacity && is_power_of_two(capacity as int) ==> queue.capacity() == capacity,
            queue.wait.waiters.room() == (usize::MAX - 2) / 2,
            queue.wait.queue.waiters.room() == (usize::MAX - 2) / 2,
    {
        let least: usize = if capacity < 1 {
            1
        } else {
            capacity
        };
        let len: usize = next_power_of_two(least);
        let queue = Queue {
            slots: Masked::new(len),
            wait: WaitQueue::new(),
            parker: Parker::new(),
        };
        proof {
            let ops = Map::<int, Send<T>>::empty();
            assert(stages(ops) =~= Map::empty());
            assert(tells(ops) =~= Map::empty());
            let recv = Recv::<T>::Done(None);
            assert(wait_ops(ops, recv) =~= Map::empty());
        }
        queue
    }

    /// A send that has not yet begun. It is to wait for room if `block`.
    pub fn start(value: T, block: bool) -> (send: Send<T>)
        ensures
            send == (Send::Try { stage: Stage::Load { value, again: Again::No }, block }),
    {
        Send::Try { stage: Stage::Load { value, again: Again::No }, block }
    }

    /// What a send does after an access to the slots.
    fn after_try(stage: Stage<T>, block: bool) -> (next: Send<T>)
        ensures
            next == after_try(stage, block),
    {
        match stage {
            Stage::Done(Ok(())) => Send::Tell { unpark: Unpark::Load },
            Stage::Done(Err(value)) => if block {
                Send::Wait { value, op: Sleep::Start }
            } else {
                Send::Done(Err(value))
            },
            stage => Send::Try { stage, block },
        }
    }

    /// What a send does after an access to the place where it waits.
    fn after_wait(value: T, op: Sleep) -> (next: Send<T>)
        ensures
            next == after_wait(value, op),
    {
        match op {
            Sleep::Ask { id } => Send::Check { value, id, ask: Ask::Load },
            Sleep::Done => Self::start(value, true),
            op => Send::Wait { value, op },
        }
    }

    /// Performs one access of a send by `thread`.
    pub fn send_step(&mut self, op: Send<T>, thread: usize, spurious: bool, again: bool) -> (next:
        Send<T>)
        requires
            old(self).sends(op, spurious),
        ensures
            old(self).send_next(op, thread, spurious, again, *final(self), next),
    {
        match op {
            Send::Try { stage, block } => {
                let ghost before = stage;
                let stage = self.slots.push_step(stage);
                assert(old(self).slots.push_next(before, self.slots, stage));
                Self::after_try(stage, block)
            },
            Send::Tell { unpark } => {
                let ghost before = unpark;
                let unpark = self.parker.unpark(unpark);
                assert(old(self).parker.unpark_next(before, self.parker, unpark));
                match unpark {
                    Unpark::Done => Send::Done(Ok(())),
                    unpark => Send::Tell { unpark },
                }
            },
            Send::Wait { value, op } => {
                let ghost before = op;
                let op = self.wait.park_if(op, thread, spurious, again, false);
                assert(old(self).wait.sleep_next(
                    before,
                    thread,
                    spurious,
                    again,
                    false,
                    self.wait,
                    op,
                ));
                Self::after_wait(value, op)
            },
            Send::Check { value, id, ask } => match ask {
                Ask::Load => {
                    let at: Ghost<nat> = Ghost(self.sent());
                    Send::Check { value, id, ask: Ask::Look { seen: self.slots.producer, at } }
                },
                Ask::Look { seen, at } => {
                    let ask = if self.slots.is_stored(seen) {
                        Ask::Recheck { seen, at }
                    } else {
                        Ask::Answer(false)
                    };
                    Send::Check { value, id, ask }
                },
                Ask::Recheck { seen, at } => {
                    Send::Check { value, id, ask: Ask::Answer(self.slots.producer == seen) }
                },
                Ask::Answer(full) => {
                    let op = self.wait.park_if(Sleep::Ask { id }, thread, spurious, again, full);
                    assert(old(self).wait.sleep_next(
                        Sleep::Ask { id },
                        thread,
                        spurious,
                        again,
                        full,
                        self.wait,
                        op,
                    ));
                    Send::Wait { value, op }
                },
            },
            Send::Done(result) => Send::Done(result),
        }
    }

    /// Performs one access of a sleep in the consumer's place.
    fn park_step(&mut self, park: Park, thread: usize, again: bool) -> (next: Park)
        requires
            old(self).parker.parks(park),
        ensures
            old(self).park_next(park, thread, again, *final(self), next),
            final(self).slots == old(self).slots,
            final(self).wait == old(self).wait,
    {
        match park {
            Park::Look => self.parker.park_fast(),
            Park::Spin => if again {
                Park::Look
            } else {
                Park::Exchange
            },
            Park::Exchange => match self.parker.park_slow(Park::Exchange, thread, false) {
                Park::Complete => Park::Reload,
                next => next,
            },
            park => self.parker.park_slow(park, thread, false),
        }
    }

    /// Performs one access of a receive by `thread`.
    pub fn recv_step(&mut self, op: Recv<T>, thread: usize, spurious: bool, again: bool) -> (next:
        Recv<T>)
        requires
            old(self).recvs(op, spurious),
        ensures
            old(self).recv_next(op, thread, spurious, again, *final(self), next),
    {
        match op {
            Recv::Look { block } => if self.slots.is_stored(self.slots.consumer) {
                Recv::Take
            } else if block {
                Recv::Park { park: Park::Look }
            } else {
                Recv::Done(None)
            },
            Recv::Take => match self.slots.pop_step(Pop::Take) {
                Pop::Done(Some(value)) => Recv::Wake { value, op: Wake::Peek },
                _ => {
                    assert(false);
                    Recv::Done(None)
                },
            },
            Recv::Wake { value, op } => {
                let ghost before = op;
                let op = self.wait.unpark_one(op, thread, spurious, again);
                assert(old(self).wait.wake_next(before, thread, spurious, again, self.wait, op));
                match op {
                    Wake::Done => Recv::Done(Some(value)),
                    op => Recv::Wake { value, op },
                }
            },
            Recv::Park { park } => {
                let ghost before = park;
                let park = self.park_step(park, thread, again);
                assert(old(self).park_next(before, thread, again, *self, park));
                match park {
                    Park::Done(_) => Recv::Look { block: true },
                    park => Recv::Park { park },
                }
            },
            Recv::Done(value) => Recv::Done(value),
        }
    }
}

impl<T> Queue<T> {
    /// A send claims a position only while there is room for it, and not after it has looked at
    /// the position of a full turn of the counter ago.
    pub open spec fn in_turn(self, op: Send<T>) -> bool {
        match op {
            Send::Try { stage, block } => match stage {
                Stage::Exchange { value, seen, at } => {
                    &&& seen == self.slots.producer ==> self.free() > 0
                    &&& self.sent() - at@ < wrap()
                },
                Stage::Recheck { value, seen, at } => self.sent() - at@ < wrap(),
                _ => true,
            },
            Send::Check { value, id, ask } => match ask {
                Ask::Recheck { seen, at } => self.sent() - at@ < wrap(),
                _ => true,
            },
            _ => true,
        }
    }

    /// The send claims a position with its next access.
    pub open spec fn claims(self, op: Send<T>) -> bool {
        op matches Send::Try { stage, block } && (stage matches Stage::Exchange { value, seen, at }
            && seen == self.slots.producer)
    }

    /// What the operations do changes with one send only as far as that send is concerned.
    proof fn lemma_maps(ops: Map<int, Send<T>>, recv: Recv<T>, i: int, next: Send<T>)
        requires
            i != -1,
        ensures
            next.stage() is Some ==> stages(ops.insert(i, next)) == stages(ops).insert(
                i,
                next.stage()->0,
            ),
            next.stage() is None ==> stages(ops.insert(i, next)) == stages(ops).remove(i),
            next.tell() is Some ==> tells(ops.insert(i, next)) == tells(ops).insert(
                i,
                next.tell()->0,
            ),
            next.tell() is None ==> tells(ops.insert(i, next)) == tells(ops).remove(i),
            next.wait_op() is Some ==> wait_ops(ops.insert(i, next), recv) == wait_ops(
                ops,
                recv,
            ).insert(i, next.wait_op()->0),
            next.wait_op() is None ==> wait_ops(ops.insert(i, next), recv) == wait_ops(
                ops,
                recv,
            ).remove(i),
            stages(ops).contains_key(i) == (ops.contains_key(i) && ops[i].stage() is Some),
            tells(ops).contains_key(i) == (ops.contains_key(i) && ops[i].tell() is Some),
            wait_ops(ops, recv).contains_key(i) == (ops.contains_key(i) && ops[i].wait_op() is Some),
            stages(ops).contains_key(i) ==> stages(ops)[i] == ops[i].stage()->0,
            tells(ops).contains_key(i) ==> tells(ops)[i] == ops[i].tell()->0,
            wait_ops(ops, recv).contains_key(i) ==> wait_ops(ops, recv)[i] == ops[i].wait_op()->0,
            !stages(ops).contains_key(i) ==> stages(ops).remove(i) == stages(ops),
            !tells(ops).contains_key(i) ==> tells(ops).remove(i) == tells(ops),
            !wait_ops(ops, recv).contains_key(i) ==> wait_ops(ops, recv).remove(i) == wait_ops(
                ops,
                recv,
            ),
    {
        let gs = ops.insert(i, next);
        if next.stage() is Some {
            assert(stages(gs) =~= stages(ops).insert(i, next.stage()->0));
        } else {
            assert(stages(gs) =~= stages(ops).remove(i));
        }
        if next.tell() is Some {
            assert(tells(gs) =~= tells(ops).insert(i, next.tell()->0));
        } else {
            assert(tells(gs) =~= tells(ops).remove(i));
        }
        if next.wait_op() is Some {
            assert(wait_ops(gs, recv) =~= wait_ops(ops, recv).insert(i, next.wait_op()->0));
        } else {
            assert(wait_ops(gs, recv) =~= wait_ops(ops, recv).remove(i));
        }
        if !stages(ops).contains_key(i) {
            assert(stages(ops).remove(i) =~= stages(ops));
        }
        if !tells(ops).contains_key(i) {
            assert(tells(ops).remove(i) =~= tells(ops));
        }
        if !wait_ops(ops, recv).contains_key(i) {
            assert(wait_ops(ops, recv).remove(i) =~= wait_ops(ops, recv));
        }
    }

    /// How many sends are going to try after one of them went on.
    proof fn lemma_trying(self, ops: Map<int, Send<T>>, i: int, post: Self, next: Send<T>)
        requires
            ops.dom().finite(),
            ops.contains_key(i),
            forall|j: int| #[trigger]
                ops.contains_key(j) && j != i && self.tries(ops[j]) ==> post.tries(ops[j]),
        ensures
            ops.insert(i, next).dom() == ops.dom(),
            post.trying(ops.insert(i, next)).len() >= self.trying(ops).len() - (if self.tries(
                ops[i],
            ) {
                1int
            } else {
                0
            }) + if post.tries(next) {
                1int
            } else {
                0
            },
    {
        let gs = ops.insert(i, next);
        let before = self.trying(ops);
        let after = post.trying(gs);
        assert(gs.dom() =~= ops.dom());
        vstd::set_lib::lemma_len_subset(before, ops.dom());
        vstd::set_lib::lemma_len_subset(after, ops.dom());
        assert(before.contains(i) == self.tries(ops[i]));
        assert(after.contains(i) == post.tries(next));
        assert(before.remove(i).subset_of(after.remove(i))) by {
            assert forall|j: int| before.remove(i).contains(j) implies after.remove(i).contains(j) by {
                assert(ops.contains_key(j));
            }
        }
        vstd::set_lib::lemma_len_subset(before.remove(i), after.remove(i));
        assert(before.len() == before.remove(i).len() + if before.contains(i) {
            1int
        } else {
            0
        });
        assert(after.len() == after.remove(i).len() + if after.contains(i) {
            1int
        } else {
            0
        });
    }

    /// Some send still waits, or is about to, that did so before.
    proof fn lemma_crowded(self, ops: Map<int, Send<T>>, i: int, post: Self, next: Send<T>)
        requires
            ops.contains_key(i),
            post.wait.list@.len() > 0 ==> self.wait.list@.len() > 0,
            self.sent() <= post.sent(),
            post.sent() == self.sent() || forall|j: int| #[trigger]
                ops.contains_key(j) ==> self.send_ok(ops[j]),
            post.waits(next) ==> self.waits(ops[i]),
            post.crowded(ops.insert(i, next)),
        ensures
            self.crowded(ops),
    {
        let gs = ops.insert(i, next);
        if self.wait.list@.len() == 0 {
            let j = choose|j: int| #[trigger] gs.contains_key(j) && post.waits(gs[j]);
            assert(ops.contains_key(j));
            assert(self.send_ok(ops[j]) || post.sent() == self.sent());
            assert(self.waits(ops[j]));
        }
    }

    /// An access of a send to the slots keeps the invariant.
    #[verifier::rlimit(30)]
    proof fn lemma_try(
        self,
        ops: Map<int, Send<T>>,
        recv: Recv<T>,
        i: int,
        thread: usize,
        spurious: bool,
        again: bool,
        post: Self,
        next: Send<T>,
    )
        requires
            self.inv(ops, recv),
            ops.contains_key(i),
            ops[i] is Try,
            self.in_turn(ops[i]),
            self.send_next(ops[i], thread, spurious, again, post, next),
        ensures
            post.inv(ops.insert(i, next), recv),
            post.capacity() == self.capacity(),
            post@ == if self.claims(ops[i]) {
                self@.push(ops[i]->Try_stage->Exchange_value)
            } else {
                self@
            },
    {
        let gs = ops.insert(i, next);
        let (stage, block) = match ops[i] {
            Send::Try { stage, block } => (stage, block),
            _ => arbitrary(),
        };
        let st = stages(ops);
        let s = choose|s: Stage<T>| #[trigger]
            self.slots.push_next(stage, post.slots, s) && next == after_try(s, block);
        Self::lemma_maps(ops, recv, i, next);
        assert(self.send_ok(ops[i]));
        assert(self.slots.op_ok(st[i]));
        self.slots.lemma_push(st, i, post.slots, s);
        if s is Done {
            assert(st.insert(i, s)[i] == s);
            post.slots.lemma_finish(st.insert(i, s), i);
            assert(st.insert(i, s).remove(i) =~= st.remove(i));
        }
        if next is Wait {
            self.wait.lemma_start(
                wait_ops(ops, recv),
                i,
                wait_queue::Op::Sleep(Sleep::Start),
            );
        }
        if next is Tell {
            self.parker.lemma_start(recv.park(), tells(ops), i);
        }
        assert(self.slots.pop_ok(Pop::Take) ==> post.slots.pop_ok(Pop::Take));
        assert forall|j: int| #[trigger] gs.contains_key(j) implies post.send_ok(gs[j]) by {
            if j != i {
                assert(ops.contains_key(j));
                assert(self.send_ok(ops[j]));
            }
        }
        // How much room there is.
        assert forall|j: int| #[trigger]
            ops.contains_key(j) && j != i && self.tries(ops[j]) implies post.tries(ops[j]) by {
            if self.sent() != post.sent() {
                assert(self.send_ok(ops[j]));
                if ops[j] is Try {
                    Self::lemma_maps(ops, recv, j, ops[j]);
                    assert(st.contains_key(j) && self.slots.op_ok(st[j]));
                }
            }
        }
        self.lemma_trying(ops, i, post, next);
        if post.crowded(gs) {
            self.lemma_crowded(ops, i, post, next);
            match stage {
                Stage::Look { value, seen, at } => {},
                Stage::Recheck { value, seen, at } => {
                    if self.slots.producer == seen {
                        crate::ring::lemma_same_counter(at@, self.sent());
                    }
                },
                _ => {},
            }
        }
        // Whether the consumer is told.
        if recv is Park && post.ready() {
            if stage is Publish {
                assert(gs.contains_key(i) && gs[i].tells());
            } else {
                assert(self.ready());
                if teller(ops) {
                    let j = choose|j: int| #[trigger] ops.contains_key(j) && ops[j].tells();
                    assert(gs.contains_key(j));
                }
            }
        }
    }

    /// An access of a send to the consumer's place keeps the invariant.
    proof fn lemma_tell(
        self,
        ops: Map<int, Send<T>>,
        recv: Recv<T>,
        i: int,
        thread: usize,
        spurious: bool,
        again: bool,
        post: Self,
        next: Send<T>,
    )
        requires
            self.inv(ops, recv),
            ops.contains_key(i),
            ops[i] is Tell,
            self.send_next(ops[i], thread, spurious, again, post, next),
        ensures
            post.inv(ops.insert(i, next), recv),
    {
        let gs = ops.insert(i, next);
        let unpark = ops[i]->Tell_unpark;
        let ts = tells(ops);
        let u = choose|u: Unpark| #[trigger]
            self.parker.unpark_next(unpark, post.parker, u) && next == if u is Done {
                Send::<T>::Done(Ok(()))
            } else {
                Send::Tell { unpark: u }
            };
        Self::lemma_maps(ops, recv, i, next);
        self.parker.lemma_unpark(recv.park(), ts, i, post.parker, u);
        if u is Done {
            assert(ts.insert(i, u)[i] == u);
            post.parker.lemma_finish(recv.park(), ts.insert(i, u), i);
            assert(ts.insert(i, u).remove(i) =~= ts.remove(i));
        }
        assert forall|j: int| #[trigger] gs.contains_key(j) implies post.send_ok(gs[j]) by {
            if j != i {
                assert(ops.contains_key(j));
                assert(self.send_ok(ops[j]));
            }
        }
        self.lemma_trying(ops, i, post, next);
        if post.crowded(gs) {
            self.lemma_crowded(ops, i, post, next);
        }
        if recv is Park && post.ready() && !post.parker.told() {
            let j = choose|j: int| #[trigger] ops.contains_key(j) && ops[j].tells();
            assert(gs.contains_key(j));
            assert(gs[j].tells());
        }
    }

    /// An access of a send to the place where it waits keeps the invariant.
    proof fn lemma_wait(
        self,
        ops: Map<int, Send<T>>,
        recv: Recv<T>,
        i: int,
        thread: usize,
        spurious: bool,
        again: bool,
        post: Self,
        next: Send<T>,
    )
        requires
            self.inv(ops, recv),
            ops.contains_key(i),
            ops[i] is Wait,
            self.send_next(ops[i], thread, spurious, again, post, next),
        ensures
            post.inv(ops.insert(i, next), recv),
    {
        let gs = ops.insert(i, next);
        let (value, op) = match ops[i] {
            Send::Wait { value, op } => (value, op),
            _ => arbitrary(),
        };
        let ws = wait_ops(ops, recv);
        let o = choose|o: Sleep| #[trigger]
            self.wait.sleep_next(op, thread, spurious, again, false, post.wait, o) && next
                == after_wait(value, o);
        Self::lemma_maps(ops, recv, i, next);
        assert(self.send_ok(ops[i]));
        assert(self.wait.op_ok(ws, ws[i]));
        self.wait.lemma_sleep(ws, i, thread, spurious, again, false, post.wait, o);
        let after = ws.insert(i, wait_queue::Op::Sleep(o));
        if o is Done {
            assert(after[i] == wait_queue::Op::Sleep(Sleep::Done));
            post.wait.lemma_finish(after, i);
            assert(after.remove(i) =~= ws.remove(i));
            self.slots.lemma_start(stages(ops), i, next->Try_stage);
        }
        assert forall|j: int| #[trigger] gs.contains_key(j) implies post.send_ok(gs[j]) by {
            if j != i {
                assert(ops.contains_key(j));
                assert(self.send_ok(ops[j]));
            }
        }
        self.lemma_trying(ops, i, post, next);
        if self.tries(ops[i]) {
            self.lemma_still(ws, i, thread, spurious, again, post, o, op);
            assert(post.tries(next));
        }
        if post.crowded(gs) {
            self.lemma_crowded(ops, i, post, next);
        }
        if recv is Park && post.ready() && teller(ops) {
            let j = choose|j: int| #[trigger] ops.contains_key(j) && ops[j].tells();
            assert(gs.contains_key(j));
        }
    }

    /// A send that is not on the list does not get there but by asking whether the queue is full.
    proof fn lemma_still(
        self,
        ws: Map<int, wait_queue::Op>,
        i: int,
        thread: usize,
        spurious: bool,
        again: bool,
        post: Self,
        next: Sleep,
        op: Sleep,
    )
        requires
            self.wait.inv(ws),
            ws.contains_key(i),
            ws[i] == wait_queue::Op::Sleep(op),
            !(op is Ask),
            self.wait.sleep_next(op, thread, spurious, again, false, post.wait, next),
            wait_queue::Op::Sleep(op).sleeps() ==> !self.wait.list@.contains(
                wait_queue::Op::Sleep(op).owns(),
            ),
            post.wait.list@ == self.wait.list@,
        ensures
            wait_queue::Op::Sleep(next).sleeps() ==> !post.wait.list@.contains(
                wait_queue::Op::Sleep(next).owns(),
            ),
    {
        assert(self.wait.op_ok(ws, ws[i]));
    }

    /// An access of a send that asks whether the queue is full keeps the invariant.
    proof fn lemma_check(
        self,
        ops: Map<int, Send<T>>,
        recv: Recv<T>,
        i: int,
        thread: usize,
        spurious: bool,
        again: bool,
        post: Self,
        next: Send<T>,
    )
        requires
            self.inv(ops, recv),
            ops.contains_key(i),
            ops[i] is Check,
            self.in_turn(ops[i]),
            self.send_next(ops[i], thread, spurious, again, post, next),
        ensures
            post.inv(ops.insert(i, next), recv),
    {
        let gs = ops.insert(i, next);
        let (value, id, ask) = match ops[i] {
            Send::Check { value, id, ask } => (value, id, ask),
            _ => arbitrary(),
        };
        let ws = wait_ops(ops, recv);
        Self::lemma_maps(ops, recv, i, next);
        assert(self.send_ok(ops[i]));
        assert(self.wait.op_ok(ws, ws[i]));
        assert forall|j: int| #[trigger] gs.contains_key(j) && j != i implies self.send_ok(gs[j]) by {
            assert(ops.contains_key(j));
        }
        match ask {
            Ask::Answer(full) => {
                let o = choose|o: Sleep| #[trigger]
                    self.wait.sleep_next(
                        Sleep::Ask { id },
                        thread,
                        spurious,
                        again,
                        full,
                        post.wait,
                        o,
                    ) && next == Send::Wait { value, op: o };
                self.wait.lemma_sleep(ws, i, thread, spurious, again, full, post.wait, o);
                assert forall|j: int| #[trigger]
                    ops.contains_key(j) && j != i && self.tries(ops[j]) implies post.tries(
                    ops[j],
                ) by {
                    if ops[j] is Wait && full {
                        Self::lemma_maps(ops, recv, j, ops[j]);
                        assert(ws.contains_key(j) && ws.contains_key(i));
                        assert(self.wait.pair_ok(ws[i], ws[j]));
                        let x = ws[j].owns();
                        if post.wait.list@.contains(x) {
                            let k = choose|k: int|
                                0 <= k < post.wait.list@.len() && post.wait.list@[k] == x;
                            if k > 0 {
                                assert(self.wait.list@[k - 1] == x);
                            }
                        }
                    }
                }
                self.lemma_trying(ops, i, post, next);
                if full {
                    assert(self.waits(ops[i]));
                } else if post.crowded(gs) {
                    self.lemma_crowded(ops, i, post, next);
                }
            },
            _ => {
                assert(ws.insert(i, ws[i]) =~= ws);
                self.lemma_trying(ops, i, post, next);
                match ask {
                    Ask::Look { seen, at } => {
                        if self.slots.ring.slots@[self.slots.index(seen)].stored && at@
                            == self.sent() {
                            self.slots.lemma_full(stages(ops));
                        } else if post.crowded(gs) {
                            self.lemma_crowded(ops, i, post, next);
                        }
                    },
                    Ask::Recheck { seen, at } => {
                        if self.slots.producer == seen {
                            crate::ring::lemma_same_counter(at@, self.sent());
                        }
                        if post.crowded(gs) {
                            self.lemma_crowded(ops, i, post, next);
                        }
                    },
                    _ => {
                        if post.crowded(gs) {
                            self.lemma_crowded(ops, i, post, next);
                        }
                    },
                }
            },
        }
        if recv is Park && post.ready() && teller(ops) {
            let j = choose|j: int| #[trigger] ops.contains_key(j) && ops[j].tells();
            assert(gs.contains_key(j));
        }
    }

    /// Whatever sends and receive are under way, one access of any send keeps the invariant. The
    /// access that claims a position puts the value of the send at the end of the queue, and no
    /// other access changes the queue.
    pub proof fn lemma_send(
        self,
        ops: Map<int, Send<T>>,
        recv: Recv<T>,
        i: int,
        thread: usize,
        spurious: bool,
        again: bool,
        post: Self,
        next: Send<T>,
    )
        requires
            self.inv(ops, recv),
            ops.contains_key(i),
            self.in_turn(ops[i]),
            self.send_next(ops[i], thread, spurious, again, post, next),
        ensures
            post.inv(ops.insert(i, next), recv),
            post.capacity() == self.capacity(),
            post@ == if self.claims(ops[i]) {
                self@.push(ops[i]->Try_stage->Exchange_value)
            } else {
                self@
            },
    {
        match ops[i] {
            Send::Try { .. } => {
                self.lemma_try(ops, recv, i, thread, spurious, again, post, next);
            },
            Send::Tell { .. } => {
                self.lemma_tell(ops, recv, i, thread, spurious, again, post, next);
            },
            Send::Wait { .. } => {
                self.lemma_wait(ops, recv, i, thread, spurious, again, post, next);
            },
            Send::Check { .. } => {
                self.lemma_check(ops, recv, i, thread, spurious, again, post, next);
            },
            Send::Done(_) => {
                assert(ops.insert(i, next) =~= ops);
            },
        }
    }

    /// What the operations do changes with the receive only as far as it is concerned.
    proof fn lemma_recv_maps(ops: Map<int, Send<T>>, recv: Recv<T>, next: Recv<T>)
        requires
            !ops.contains_key(-1),
        ensures
            next.wait_op() is Some ==> wait_ops(ops, next) == wait_ops(ops, recv).insert(
                -1,
                next.wait_op()->0,
            ),
            next.wait_op() is None ==> wait_ops(ops, next) == wait_ops(ops, recv).remove(-1),
            wait_ops(ops, recv).contains_key(-1) == (recv.wait_op() is Some),
            recv.wait_op() is Some ==> wait_ops(ops, recv)[-1] == recv.wait_op()->0,
            recv.wait_op() is None && next.wait_op() is None ==> wait_ops(ops, next) == wait_ops(
                ops,
                recv,
            ),
    {
        if next.wait_op() is Some {
            assert(wait_ops(ops, next) =~= wait_ops(ops, recv).insert(-1, next.wait_op()->0));
        } else {
            assert(wait_ops(ops, next) =~= wait_ops(ops, recv).remove(-1));
        }
        if recv.wait_op() is None && next.wait_op() is None {
            assert(wait_ops(ops, next) =~= wait_ops(ops, recv));
        }
    }

    /// An access of a receive that wakes a send keeps the invariant.
    proof fn lemma_waking(
        self,
        ops: Map<int, Send<T>>,
        recv: Recv<T>,
        thread: usize,
        spurious: bool,
        again: bool,
        post: Self,
        next: Recv<T>,
    )
        requires
            self.inv(ops, recv),
            recv is Wake,
            self.recv_next(recv, thread, spurious, again, post, next),
        ensures
            post.inv(ops, next),
    {
        let ws = wait_ops(ops, recv);
        let (value, op) = match recv {
            Recv::Wake { value, op } => (value, op),
            _ => arbitrary(),
        };
        let o = choose|o: Wake| #[trigger]
            self.wait.wake_next(op, thread, spurious, again, post.wait, o) && next == if o is Done {
                Recv::Done(Some(value))
            } else {
                Recv::Wake { value, op: o }
            };
        Self::lemma_recv_maps(ops, recv, next);
        self.wait.lemma_wake(ws, -1, thread, spurious, again, post.wait, o);
        if o is Done {
            let after = ws.insert(-1, wait_queue::Op::Wake(o));
            assert(after[-1] == wait_queue::Op::Wake(Wake::Done));
            post.wait.lemma_finish(after, -1);
            assert(after.remove(-1) =~= ws.remove(-1));
        }
        assert forall|j: int| #[trigger] ops.contains_key(j) implies post.send_ok(ops[j]) by {
            assert(self.send_ok(ops[j]));
        }
        let list = self.wait.list@;
        assert forall|x: usize| #[trigger] post.wait.list@.contains(x) implies list.contains(x) by {
            let k = choose|k: int| 0 <= k < post.wait.list@.len() && post.wait.list@[k] == x;
            if post.wait.list@ != list {
                assert(list[k + 1] == x);
            }
        }
        let before = self.trying(ops);
        let after = post.trying(ops);
        vstd::set_lib::lemma_len_subset(before, ops.dom());
        vstd::set_lib::lemma_len_subset(after, ops.dom());
        vstd::set_lib::lemma_len_subset(before, after);
        if post.crowded(ops) {
            if post.wait.list@.len() == 0 {
                let j = choose|j: int| #[trigger] ops.contains_key(j) && post.waits(ops[j]);
                assert(self.waits(ops[j]));
                Self::lemma_maps(ops, recv, j, ops[j]);
                assert(ws.contains_key(j) && ws[j] is Sleep && ws[j]->Sleep_0 is Ask);
            }
            assert(self.crowded(ops));
            if op == (Wake::Lock { op: Locking::Held }) {
                assert(list.len() > 0);
                let id = list[0];
                assert(wait_queue::sleeper(ws, id));
                let m = choose|m: int| #[trigger]
                    ws.contains_key(m) && ws[m].sleeps() && ws[m].owns() == id;
                assert(m != -1);
                assert(ops.contains_key(m) && ops[m] is Wait);
                assert(list.contains(id));
                assert(!post.wait.list@.contains(id)) by {
                    if post.wait.list@.contains(id) {
                        let k = choose|k: int|
                            0 <= k < post.wait.list@.len() && post.wait.list@[k] == id;
                        assert(list[k + 1] == id);
                    }
                }
                assert(!before.contains(m) && after.contains(m));
                assert(before.insert(m).subset_of(after));
                vstd::set_lib::lemma_len_subset(before.insert(m), after);
            }
        }
    }

    /// Whatever sends are under way, one access of a receive keeps the invariant, and the value
    /// that it takes is the oldest of the queue.
    pub proof fn lemma_recv(
        self,
        ops: Map<int, Send<T>>,
        recv: Recv<T>,
        thread: usize,
        spurious: bool,
        again: bool,
        post: Self,
        next: Recv<T>,
    )
        requires
            self.inv(ops, recv),
            self.recv_next(recv, thread, spurious, again, post, next),
        ensures
            post.inv(ops, next),
            post.capacity() == self.capacity(),
            if recv is Take {
                &&& self@.len() > 0
                &&& post@ == self@.skip(1)
                &&& next == (Recv::Wake { value: self@[0], op: Wake::Peek })
            } else {
                &&& post@ == self@
                &&& next matches Recv::Done(Some(value)) ==> (recv matches Recv::Wake {
                    value: taken,
                    op,
                } ==> value == taken)
            },
            match recv {
                Recv::Look { block } => if self.ready() {
                    next is Take
                } else if block {
                    next is Park
                } else {
                    next == Recv::<T>::Done(None)
                },
                Recv::Take => true,
                Recv::Wake { value, op } => next == Recv::Done(Some(value)) || (next matches Recv::Wake {
                    value: kept,
                    op: o,
                } && kept == value),
                Recv::Park { park } => next is Park || next == Recv::<T>::Look { block: true },
                Recv::Done(_) => next == recv && post == self,
            },
    {
        let ws = wait_ops(ops, recv);
        Self::lemma_recv_maps(ops, recv, next);
        assert forall|j: int| #[trigger] ops.contains_key(j) implies post.send_ok(ops[j]) by {
            assert(self.send_ok(ops[j]));
        }
        match recv {
            Recv::Look { block } => {
                self.slots.lemma_pop_accepts(stages(ops), Pop::Look);
                self.parker.lemma_begin(Park::Done(true), tells(ops));
            },
            Recv::Take => {
                let value = next->Wake_value;
                self.slots.lemma_pop(stages(ops), Pop::Take, post.slots, Pop::Done(Some(value)));
                self.wait.lemma_start(ws, -1, wait_queue::Op::Wake(Wake::Peek));
                assert(post.trying(ops) =~= self.trying(ops));
                if post.crowded(ops) {
                    if self.wait.list@.len() == 0 {
                        let j = choose|j: int| #[trigger] ops.contains_key(j) && post.waits(ops[j]);
                        assert(self.waits(ops[j]));
                    }
                    assert(self.crowded(ops));
                }
            },
            Recv::Wake { value, op } => {
                self.lemma_waking(ops, recv, thread, spurious, again, post, next);
            },
            Recv::Park { park } => {
                let p = choose|p: Park| #[trigger]
                    self.park_next(park, thread, again, post, p) && next == if p is Done {
                        Recv::<T>::Look { block: true }
                    } else {
                        Recv::Park { park: p }
                    };
                let q = if park is Exchange && self.parker.told() {
                    Park::Complete
                } else {
                    p
                };
                self.parker.lemma_park(park, tells(ops), thread, false, post.parker, q);
                assert(post.trying(ops) =~= self.trying(ops));
                if post.crowded(ops) {
                    if self.wait.list@.len() == 0 {
                        let j = choose|j: int| #[trigger] ops.contains_key(j) && post.waits(ops[j]);
                        assert(self.waits(ops[j]));
                    }
                    assert(self.crowded(ops));
                }
            },
            Recv::Done(_) => {},
        }
    }

    /// No send sleeps beside free room: while sends sleep, and neither the receive is about to wake
    /// one nor any send is going to try, the queue is full.
    pub proof fn lemma_full(self, ops: Map<int, Send<T>>, recv: Recv<T>)
        requires
            self.inv(ops, recv),
            self.wait.list@.len() > 0,
            !recv.freed(),
            forall|i: int| #[trigger] ops.contains_key(i) ==> !self.tries(ops[i]),
        ensures
            self@.len() == self.capacity(),
    {
        assert(self.trying(ops) =~= Set::empty());
    }

    /// The consumer does not sleep beside a value: while it sleeps, or is about to, was not told
    /// to go on, and no send is about to tell it, it would find no value.
    pub proof fn lemma_empty(self, ops: Map<int, Send<T>>, recv: Recv<T>)
        requires
            self.inv(ops, recv),
            recv is Park,
            !self.parker.told(),
            forall|i: int| #[trigger] ops.contains_key(i) ==> !ops[i].tells(),
        ensures
            !self.ready(),
    {
    }

    /// A send may begin at any time.
    pub proof fn lemma_start(
        self,
        ops: Map<int, Send<T>>,
        recv: Recv<T>,
        i: int,
        value: T,
        block: bool,
    )
        requires
            self.inv(ops, recv),
            !ops.contains_key(i),
            i != -1,
        ensures
            self.inv(
                ops.insert(i, Send::Try { stage: Stage::Load { value, again: Again::No }, block }),
                recv,
            ),
    {
        let next = Send::Try { stage: Stage::Load { value, again: Again::No }, block };
        let gs = ops.insert(i, next);
        Self::lemma_maps(ops, recv, i, next);
        self.slots.lemma_start(stages(ops), i, next->Try_stage);
        assert(gs.dom() =~= ops.dom().insert(i));
        vstd::set_lib::lemma_len_subset(self.trying(ops), ops.dom());
        vstd::set_lib::lemma_len_subset(self.trying(gs), gs.dom());
        assert(self.trying(ops).subset_of(self.trying(gs)));
        vstd::set_lib::lemma_len_subset(self.trying(ops), self.trying(gs));
        if self.crowded(gs) && self.wait.list@.len() == 0 {
            let j = choose|j: int| #[trigger] gs.contains_key(j) && self.waits(gs[j]);
            assert(ops.contains_key(j));
        }
        if teller(ops) {
            let j = choose|j: int| #[trigger] ops.contains_key(j) && ops[j].tells();
            assert(gs.contains_key(j));
        }
        assert forall|j: int| #[trigger] gs.contains_key(j) implies self.send_ok(gs[j]) by {
            if j != i {
                assert(ops.contains_key(j));
            }
        }
    }

    /// A send that is over may be forgotten.
    pub proof fn lemma_finish(self, ops: Map<int, Send<T>>, recv: Recv<T>, i: int)
        requires
            self.inv(ops, recv),
            ops.contains_key(i),
            ops[i] is Done,
        ensures
            self.inv(ops.remove(i), recv),
    {
        let gs = ops.remove(i);
        assert(stages(gs) =~= stages(ops));
        assert(tells(gs) =~= tells(ops));
        assert(wait_ops(gs, recv) =~= wait_ops(ops, recv));
        assert(gs.dom() =~= ops.dom().remove(i));
        assert(self.trying(gs) =~= self.trying(ops));
        if self.crowded(gs) && self.wait.list@.len() == 0 {
            let j = choose|j: int| #[trigger] gs.contains_key(j) && self.waits(gs[j]);
            assert(ops.contains_key(j));
        }
        if teller(ops) {
            let j = choose|j: int| #[trigger] ops.contains_key(j) && ops[j].tells();
            assert(gs.contains_key(j));
        }
        assert forall|j: int| #[trigger] gs.contains_key(j) implies self.send_ok(gs[j]) by {
            assert(ops.contains_key(j));
        }
    }

    /// A receive may begin when the one before is over.
    pub proof fn lemma_start_recv(self, ops: Map<int, Send<T>>, recv: Recv<T>, next: Recv<T>)
        requires
            self.inv(ops, recv),
            recv is Done,
            next is Look || next is Done,
        ensures
            self.inv(ops, next),
    {
        Self::lemma_recv_maps(ops, recv, next);
    }

    /// The access that any send makes next finds what it needs.
    pub proof fn lemma_accepts(
        self,
        ops: Map<int, Send<T>>,
        recv: Recv<T>,
        i: int,
        spurious: bool,
    )
        requires
            self.inv(ops, recv),
            ops.contains_key(i),
            ops[i] is Wait ==> self.has_room(),
        ensures
            self.sends(ops[i], spurious),
    {
        Self::lemma_maps(ops, recv, i, ops[i]);
        match ops[i] {
            Send::Tell { unpark } => {
                self.lemma_unparks(ops, recv, i);
            },
            Send::Wait { value, op } => {
                self.wait.lemma_accepts(wait_ops(ops, recv), i, spurious);
            },
            Send::Check { value, id, ask } => {
                self.wait.lemma_accepts(wait_ops(ops, recv), i, spurious);
            },
            _ => {},
        }
    }

    /// A send that tells the consumer finds it.
    proof fn lemma_unparks(self, ops: Map<int, Send<T>>, recv: Recv<T>, i: int)
        requires
            self.inv(ops, recv),
            ops.contains_key(i),
            ops[i] is Tell,
        ensures
            self.parker.unparks(ops[i]->Tell_unpark),
    {
        Self::lemma_maps(ops, recv, i, ops[i]);
        let ts = tells(ops);
        assert(ts.contains_key(i));
        if ts[i] is Release {
            assert(crate::usync_mpsc::utils::parker::releasing(ts));
        }
    }

    /// The access that the receive makes next finds what it needs.
    pub proof fn lemma_recv_accepts(self, ops: Map<int, Send<T>>, recv: Recv<T>, spurious: bool)
        requires
            self.inv(ops, recv),
            recv is Wake ==> self.has_room(),
        ensures
            self.recvs(recv, spurious),
    {
        Self::lemma_recv_maps(ops, recv, recv);
        match recv {
            Recv::Take => {
                self.slots.lemma_pop_accepts(stages(ops), Pop::Take);
            },
            Recv::Wake { value, op } => {
                self.wait.lemma_accepts(wait_ops(ops, recv), -1, spurious);
            },
            _ => {},
        }
    }

    /// A queue that nobody uses rests.
    proof fn lemma_rest(self)
        ensures
            self.wf() <==> {
                &&& self.slots.wf()
                &&& self.wait.inv(Map::empty())
                &&& self.parker.rests(Map::empty())
            },
    {
        let ops = Map::<int, Send<T>>::empty();
        let recv = Recv::<T>::Done(None);
        assert(stages(ops) =~= Map::empty());
        assert(tells(ops) =~= Map::empty());
        assert(wait_ops(ops, recv) =~= Map::empty());
        if self.wait.inv(Map::empty()) && self.wait.list@.len() > 0 {
            assert(wait_queue::sleeper(Map::empty(), self.wait.list@[0]));
        }
    }

    /// Puts `value` at the end of the queue if there is room.
    pub fn try_send(&mut self, value: T) -> (sent: Result<(), T>)
        requires
            old(self).wf(),
        ensures
            final(self).wf(),
            final(self).capacity() == old(self).capacity(),
            final(self).wait == old(self).wait,
            match sent {
                Ok(()) => {
                    &&& old(self).free() > 0
                    &&& final(self)@ == old(self)@.push(value)
                    &&& final(self).parker.told()
                },
                Err(v) => {
                    &&& old(self).free() == 0
                    &&& v == value
                    &&& *final(self) == *old(self)
                },
            },
    {
        proof {
            self.lemma_rest();
        }
        match self.slots.push(value) {
            Ok(()) => {
                let unpark = self.parker.unpark(Unpark::Load);
                let unpark = self.parker.unpark(unpark);
                assert(unpark is Done);
                proof {
                    self.lemma_rest();
                }
                Ok(())
            },
            Err(value) => Err(value),
        }
    }

    /// Puts `value` at the end of the queue. While the queue is full a send has to wait, which is
    /// what the steps of [`Queue::send_step`] are for.
    pub fn send(&mut self, value: T)
        requires
            old(self).wf(),
            old(self).free() > 0,
        ensures
            final(self).wf(),
            final(self).capacity() == old(self).capacity(),
            final(self).wait == old(self).wait,
            final(self)@ == old(self)@.push(value),
            final(self).parker.told(),
    {
        let sent = self.try_send(value);
        assert(sent is Ok);
    }

    /// Takes the oldest value out of the queue, if there is one.
    pub fn try_recv(&mut self) -> (value: Option<T>)
        requires
            old(self).wf(),
        ensures
            final(self).wf(),
            final(self).wait == old(self).wait,
            final(self).capacity() == old(self).capacity(),
            final(self).parker == old(self).parker,
            match value {
                Some(v) => {
                    &&& old(self)@.len() > 0
                    &&& v == old(self)@[0]
                    &&& final(self)@ == old(self)@.skip(1)
                },
                None => old(self)@.len() == 0 && *final(self) == *old(self),
            },
    {
        proof {
            self.lemma_rest();
        }
        match self.slots.pop() {
            Some(value) => {
                self.wait.unpark_none();
                proof {
                    self.lemma_rest();
                }
                Some(value)
            },
            None => None,
        }
    }

    /// Takes the oldest value out of the queue. While the queue is empty a receive has to wait,
    /// which is what the steps of [`Queue::recv_step`] are for.
    pub fn recv(&mut self) -> (value: T)
        requires
            old(self).wf(),
            old(self)@.len() > 0,
        ensures
            final(self).wf(),
            final(self).wait == old(self).wait,
            final(self).capacity() == old(self).capacity(),
            final(self).parker == old(self).parker,
            value == old(self)@[0],
            final(self)@ == old(self)@.skip(1),
    {
        self.try_recv().unwrap()
    }
}

/// Every run of sends and receives, whatever way their accesses follow each other. Left out is
/// what [`Queue::in_turn`] leaves out.
impl<T> Machine for Queue<T> {
    type Item = T;

    type Send = Send<T>;

    type Recv = Recv<T>;

    open spec fn fits(self, sends: Map<int, Send<T>>, recv: Recv<T>) -> bool {
        self.inv(sends, recv)
    }

    open spec fn held(self) -> Seq<T> {
        self@
    }

    open spec fn unsent(send: Send<T>) -> Option<T> {
        match send {
            Send::Try { stage, block } => Masked::<T>::unsent(stage),
            Send::Wait { value, op } => Some(value),
            Send::Check { value, id, ask } => Some(value),
            Send::Tell { unpark } => None,
            Send::Done(Ok(())) => None,
            Send::Done(Err(value)) => Some(value),
        }
    }

    open spec fn sent(send: Send<T>) -> bool {
        send is Done
    }

    open spec fn owes(send: Send<T>) -> bool {
        send matches Send::Try { stage, block } && Masked::<T>::owes(stage)
    }

    open spec fn awaited(sends: Map<int, Send<T>>) -> bool {
        exists|i: int| #[trigger] sends.contains_key(i) && Self::owes(sends[i])
    }

    open spec fn got(recv: Recv<T>) -> Option<T> {
        match recv {
            Recv::Wake { value, op } => Some(value),
            Recv::Done(value) => value,
            _ => None,
        }
    }

    open spec fn missed(recv: Recv<T>) -> bool {
        recv matches Recv::Done(value) && value is None
    }

    open spec fn starts(self, sends: Map<int, Send<T>>, sender: int, send: Send<T>) -> bool {
        &&& sender != -1
        &&& send matches Send::Try { stage, block }
        &&& stage matches Stage::Load { value, again }
        &&& again is No
    }

    open spec fn sends_on(
        self,
        sends: Map<int, Send<T>>,
        sender: int,
        post: Self,
        next: Send<T>,
    ) -> bool {
        &&& self.in_turn(sends[sender])
        &&& exists|thread: usize, spurious: bool, again: bool| #[trigger]
            self.send_next(sends[sender], thread, spurious, again, post, next)
    }

    open spec fn renews(recv: Recv<T>, next: Recv<T>) -> bool {
        recv is Done && next is Look
    }

    open spec fn recvs_on(
        self,
        sends: Map<int, Send<T>>,
        recv: Recv<T>,
        post: Self,
        next: Recv<T>,
    ) -> bool {
        exists|thread: usize, spurious: bool, again: bool| #[trigger]
            self.recv_next(recv, thread, spurious, again, post, next)
    }

    proof fn lemma_starts(
        self,
        sends: Map<int, Send<T>>,
        recv: Recv<T>,
        sender: int,
        send: Send<T>,
    ) {
        let (value, block) = match send {
            Send::Try { stage: Stage::Load { value, again }, block } => (value, block),
            _ => arbitrary(),
        };
        self.lemma_start(sends, recv, sender, value, block);
    }

    proof fn lemma_sends_on(
        self,
        sends: Map<int, Send<T>>,
        recv: Recv<T>,
        sender: int,
        post: Self,
        next: Send<T>,
    ) {
        let (thread, spurious, again) = choose|thread: usize, spurious: bool, again: bool| #[trigger]
            self.send_next(sends[sender], thread, spurious, again, post, next);
        self.lemma_send(sends, recv, sender, thread, spurious, again, post, next);
    }

    proof fn lemma_sent(self, sends: Map<int, Send<T>>, recv: Recv<T>, sender: int) {
        self.lemma_finish(sends, recv, sender);
    }

    proof fn lemma_renews(self, sends: Map<int, Send<T>>, recv: Recv<T>, next: Recv<T>) {
        self.lemma_start_recv(sends, recv, next);
    }

    proof fn lemma_recvs_on(
        self,
        sends: Map<int, Send<T>>,
        recv: Recv<T>,
        post: Self,
        next: Recv<T>,
    ) {
        let (thread, spurious, again) = choose|thread: usize, spurious: bool, again: bool| #[trigger]
            self.recv_next(recv, thread, spurious, again, post, next);
        self.lemma_recv(sends, recv, thread, spurious, again, post, next);
        if Self::missed(next) && !Self::missed(recv) && self@.len() > 0 {
            let ss = stages(sends);
            self.slots.lemma_recvs_on(ss, Pop::Look, post.slots, Pop::Done(None));
            let i = choose|i: int| #[trigger] ss.contains_key(i) && Masked::<T>::owes(ss[i]);
            assert(sends.contains_key(i) && Self::owes(sends[i]));
        }
    }
}

impl<T> Send<T> {
    /// The send is one that waits for room.
    pub open spec fn blocks(self) -> bool {
        match self {
            Send::Try { stage, block } => block,
            Send::Wait { .. } | Send::Check { .. } => true,
            _ => false,
        }
    }
}

impl<T> Recv<T> {
    /// The receive waits for a value, or has taken one.
    pub open spec fn insists(self) -> bool {
        match self {
            Recv::Look { block } => block,
            Recv::Done(value) => value is Some,
            _ => true,
        }
    }
}

impl<T> Queue<T> {
    /// A receive that waits for a value never ends without one: it goes on to look, or to sleep,
    /// until the access with which it takes the oldest value of the queue, and that value is what
    /// it returns. A receive that does not wait never sleeps, and ends without a value only if it
    /// would find none.
    pub proof fn lemma_insists(
        self,
        ops: Map<int, Send<T>>,
        recv: Recv<T>,
        thread: usize,
        spurious: bool,
        again: bool,
        post: Self,
        next: Recv<T>,
    )
        requires
            self.inv(ops, recv),
            self.recv_next(recv, thread, spurious, again, post, next),
        ensures
            recv.insists() ==> next.insists(),
            recv == (Recv::<T>::Look { block: false }) ==> next is Take || (next == Recv::<T>::Done(
                None,
            ) && !self.ready()),
            Self::got(recv) is None && Self::got(next) is Some ==> {
                &&& self@.len() > 0
                &&& Self::got(next) == Some(self@[0])
                &&& post@ == self@.skip(1)
            },
            Self::got(recv) is Some ==> Self::got(next) == Self::got(recv) && post@ == self@,
            Self::got(next) is None ==> post@ == self@,
    {
        self.lemma_recv(ops, recv, thread, spurious, again, post, next);
    }

    /// The same of whole runs: however often a receive that waits for a value is put to sleep and
    /// woken, when it is over it has one.
    pub proof fn lemma_insisted(run: Run<Self>, n: int)
        requires
            run.valid(),
            0 <= n <= run.events.len(),
            run.moments[n].recv.insists(),
            forall|k: int| n <= k < run.events.len() ==> !((#[trigger] run.events[k]) is Renew),
        ensures
            run.end().recv.insists(),
            run.end().recv matches Recv::Done(value) ==> value is Some,
        decreases run.events.len() - n,
    {
        if n < run.events.len() {
            let a = run.moments[n];
            let b = run.moments[n + 1];
            assert(a.leads(run.events[n], b));
            run.lemma_first(n);
            run.first(n).lemma_fits();
            if run.events[n] is Recv {
                let (thread, spurious, again) = choose|thread: usize, spurious: bool, again: bool| #[trigger]
                    a.queue.recv_next(a.recv, thread, spurious, again, b.queue, b.recv);
                a.queue.lemma_insists(a.sends, a.recv, thread, spurious, again, b.queue, b.recv);
            }
            Self::lemma_insisted(run, n + 1);
        }
    }

    /// What a send answers: one that does not wait for room gives its own value back, only after
    /// it has looked at the slot of the position that comes next and found it stored, with which
    /// the queue was full, and never sleeps; every other send is over only once its value can be
    /// taken and the consumer was told, and woken by its number if it sleeps.
    pub proof fn lemma_answered(
        self,
        ops: Map<int, Send<T>>,
        recv: Recv<T>,
        i: int,
        thread: usize,
        spurious: bool,
        again: bool,
        post: Self,
        next: Send<T>,
    )
        requires
            self.inv(ops, recv),
            ops.contains_key(i),
            !(ops[i] is Done),
            self.in_turn(ops[i]),
            self.send_next(ops[i], thread, spurious, again, post, next),
        ensures
            match next {
                Send::Done(Err(back)) => {
                    &&& Self::unsent(ops[i]) == Some(back)
                    &&& ops[i] matches Send::Try { stage, block }
                    &&& !block
                    &&& stage matches Stage::Recheck { value, seen, at }
                    &&& at@ == self.sent()
                },
                Send::Done(Ok(())) => ops[i] is Tell,
                Send::Tell { unpark } => !(ops[i] is Tell) ==> {
                    &&& unpark is Load
                    &&& ops[i] matches Send::Try { stage, block }
                    &&& stage.hold() matches Some(c)
                    &&& post.slots.ring.cell(c.at as int).stored
                    &&& post.slots.ring.cell(c.at as int).value == Some(c.value)
                },
                Send::Try { stage, block } => stage matches Stage::Recheck { value, seen, at } ==> at@
                    == self.sent() ==> self.free() == 0,
                _ => true,
            },
            ops[i] matches Send::Try { stage, block } && !block ==> match next {
                Send::Try { stage: s, block: b } => !b,
                Send::Tell { .. } => true,
                Send::Done(_) => true,
                _ => false,
            },
            ops[i] matches Send::Try { stage, block } ==> (next matches Send::Try {
                stage: s,
                block: b,
            } ==> b == block && post.slots.left(s) < self.slots.left(stage)),
            ops[i] is Tell ==> next is Tell || next == Send::<T>::Done(Ok(())),
            ops[i] matches Send::Tell { unpark } ==> {
                &&& next is Done ==> unpark is Wake || unpark is Done || post.parker.told()
                &&& unpark is Release ==> next == Send::<T>::Tell {
                    unpark: Unpark::Wake(self.parker.place.thread->0),
                }
            },
            Self::unsent(next) is Some ==> Self::unsent(next) == Self::unsent(ops[i]),
    {
        if let Send::Try { stage, block } = ops[i] {
            let ss = stages(ops);
            assert(ss.contains_key(i) && ss[i] == stage);
            let s = choose|s: Stage<T>| #[trigger]
                self.slots.push_next(stage, post.slots, s) && next == after_try(s, block);
            self.slots.lemma_push(ss, i, post.slots, s);
            if !(stage is Done) {
                self.slots.lemma_progress(stage, post.slots, s);
            }
            assert(self.send_ok(ops[i]));
        }
    }

    /// A send that found the queue full asks once more before it sleeps, and sleeps just if the
    /// slot of the position that comes next was stored and the position had not moved on in the
    /// meantime. The question changes nothing. A send that was woken, or need not sleep, tries
    /// again. Each access heeds what it is given: see [`WaitQueue::lemma_sleep_heeds`].
    pub proof fn lemma_asks(
        self,
        op: Send<T>,
        thread: usize,
        spurious: bool,
        again: bool,
        post: Self,
        next: Send<T>,
    )
        requires
            self.send_next(op, thread, spurious, again, post, next),
        ensures
            op matches Send::Check { value, id, ask } ==> match ask {
                Ask::Load => {
                    &&& post == self
                    &&& next matches Send::Check { value: kept, id: same, ask: a }
                    &&& kept == value && same == id
                    &&& a matches Ask::Look { seen, at }
                    &&& seen == self.slots.producer && at@ == self.sent()
                },
                Ask::Look { seen, at } => {
                    &&& post == self
                    &&& next matches Send::Check { value: kept, id: same, ask: a }
                    &&& kept == value && same == id
                    &&& a is Recheck || a == Ask::Answer(false)
                    &&& a is Recheck <==> self.slots.ring.slots@[self.slots.index(seen)].stored
                    &&& a is Recheck ==> a->Recheck_seen == seen && a->Recheck_at == at
                },
                Ask::Recheck { seen, at } => {
                    &&& post == self
                    &&& next matches Send::Check { value: kept, id: same, ask: a }
                    &&& kept == value && same == id
                    &&& a == Ask::Answer(seen == self.slots.producer)
                },
                Ask::Answer(full) => {
                    &&& next matches Send::Wait { value: kept, op: o }
                    &&& kept == value
                    &&& o matches Sleep::Unlock { id: same, end, asleep }
                    &&& same == id && asleep == full
                },
            },
            op matches Send::Wait { value, op: s } ==> match next {
                Send::Wait { value: kept, op: o } => {
                    &&& kept == value
                    &&& s matches Sleep::Lock { id, op: l } ==> (o matches Sleep::Lock {
                        id: own,
                        op: m,
                    } ==> self.wait.queue.heeds(
                        l,
                        thread,
                        spurious && !(l is Try),
                        again,
                        post.wait.queue,
                        m,
                    ))
                    &&& s matches Sleep::Park { id, park } ==> {
                        &&& park is Load && self.wait.waiters@[id].parker != shared::Word::Notified ==> (
                        o == Sleep::Park { id, park: shared::Park::Load } <==> again)
                        &&& park is Exchange && o == Sleep::Park { id, park: shared::Park::Wait }
                            ==> post.wait.waiters@[id].place.thread == Some(thread)
                    }
                },
                Send::Check { value: kept, id, ask } => kept == value && ask is Load,
                Send::Try { stage, block } => {
                    &&& block
                    &&& stage == Stage::Load { value, again: Again::No }
                    &&& s is Park || s is Unlock || s is Done
                },
                _ => false,
            },
    {
        if let Send::Wait { value, op: s } = op {
            let o = choose|o: Sleep| #[trigger]
                self.wait.sleep_next(s, thread, spurious, again, false, post.wait, o) && next
                    == after_wait(value, o);
            self.wait.lemma_sleep_heeds(s, thread, spurious, again, false, post.wait, o);
        }
    }

    /// A receive that finds no value sleeps in the consumer's place only if nobody has told it to
    /// go on since: it looks as often as it wants to before, goes to sleep under its own number,
    /// and looks for a value again only after it was told. What it was told is taken note of, so
    /// that the next sleep waits to be told anew.
    pub proof fn lemma_rests(
        self,
        park: Park,
        thread: usize,
        spurious: bool,
        again: bool,
        post: Self,
        next: Recv<T>,
    )
        requires
            self.recv_next(Recv::Park { park }, thread, spurious, again, post, next),
            !(park is Done),
            !(park is Withdraw),
        ensures
            post.slots == self.slots,
            post.wait == self.wait,
            park is Look && self.parker.told() ==> next == (Recv::<T>::Park { park: Park::Complete }),
            park is Look && !self.parker.told() ==> next == (Recv::<T>::Park { park: Park::Spin }),
            park is Spin && again ==> next == (Recv::<T>::Park { park: Park::Look }),
            park is Spin && !again ==> next == (Recv::<T>::Park { park: Park::Exchange }),
            park is Exchange && self.parker.told() ==> post == self && next is Park
                && !(next->park is Wait),
            park is Exchange && self.parker.event == shared::Word::Empty ==> {
                &&& next == (Recv::<T>::Park { park: Park::Wait })
                &&& post.parker.event == shared::Word::Parked
                &&& post.parker.place.thread == Some(thread)
            },
            park is Wait && !self.parker.place.is_set ==> next == (Recv::<T>::Park {
                park: Park::Wait,
            }) && post == self,
            park is Wait && self.parker.place.is_set ==> next is Park && !(next->park is Wait),
            next is Look <==> park is Complete,
            next is Look ==> next == (Recv::<T>::Look { block: true }) && !post.parker.told(),
            !(park is Complete) ==> post.parker.told() == self.parker.told(),
    {
        let p = choose|p: Park| #[trigger]
            self.park_next(park, thread, again, post, p) && next == if p is Done {
                Recv::<T>::Look { block: true }
            } else {
                Recv::Park { park: p }
            };
        assert(self.park_next(park, thread, again, post, p));
    }

    /// After it has taken a value, a receive looks whether a send waits for room, and is over only
    /// once it has seen that none does or has done with the one that waits. Each access heeds
    /// what it is given: see [`WaitQueue::lemma_wake_heeds`].
    pub proof fn lemma_relieves(
        self,
        value: T,
        op: Wake,
        thread: usize,
        spurious: bool,
        again: bool,
        post: Self,
        next: Recv<T>,
    )
        requires
            self.recv_next(Recv::Wake { value, op }, thread, spurious, again, post, next),
        ensures
            op is Peek && self.wait.pending ==> next is Wake && next->Wake_op is Lock,
            op is Peek && !self.wait.pending ==> next == Recv::Done(Some(value)) && post.wait
                == self.wait,
            op matches Wake::Lock { op: l } ==> (!(l is Held) ==> {
                &&& next matches Recv::Wake { value: kept, op: o }
                &&& o matches Wake::Lock { op: m }
                &&& self.wait.queue.heeds(
                    l,
                    thread,
                    spurious && !(l is Try),
                    again,
                    post.wait.queue,
                    m,
                )
            }),
            op matches Wake::Unlock { id, end } ==> (end is Done && id != 0 ==> next is Wake
                && next->Wake_op is Tell),
            op matches Wake::Tell { id, unpark } ==> (unpark is Release ==> next is Wake
                && next->Wake_op == Wake::Tell {
                id,
                unpark: shared::Unpark::Wake(self.wait.waiters@[id].place.thread->0),
            }),
    {
        let o = choose|o: Wake| #[trigger]
            self.wait.wake_next(op, thread, spurious, again, post.wait, o) && next == if o is Done {
                Recv::Done(Some(value))
            } else {
                Recv::Wake { value, op: o }
            };
        self.wait.lemma_wake_heeds(op, thread, spurious, again, post.wait, o);
    }

    /// A send that waits for room never gives its value back: it goes on to wait or to try until
    /// the access with which it puts its value at the end of the queue, which has room then.
    /// Nothing that the queue holds is overwritten or dropped.
    pub proof fn lemma_blocking(
        self,
        ops: Map<int, Send<T>>,
        recv: Recv<T>,
        i: int,
        thread: usize,
        spurious: bool,
        again: bool,
        post: Self,
        next: Send<T>,
    )
        requires
            self.inv(ops, recv),
            ops.contains_key(i),
            ops[i].blocks(),
            self.in_turn(ops[i]),
            self.send_next(ops[i], thread, spurious, again, post, next),
        ensures
            next.blocks() || next is Tell,
            Self::unsent(ops[i]) is Some && Self::unsent(next) is None ==> {
                &&& self.free() > 0
                &&& post@ == self@.push(Self::unsent(ops[i])->0)
            },
            !(Self::unsent(ops[i]) is Some && Self::unsent(next) is None) ==> post@ == self@
                && Self::unsent(next) == Self::unsent(ops[i]),
    {
        self.lemma_send(ops, recv, i, thread, spurious, again, post, next);
    }

    /// While it does not find the queue full, a send that would wait for room makes the same
    /// accesses as one that would not, with the same results.
    pub proof fn lemma_alike(
        self,
        stage: Stage<T>,
        thread: usize,
        spurious: bool,
        again: bool,
        post: Self,
        next: Send<T>,
    )
        requires
            self.send_next(
                Send::Try { stage, block: false },
                thread,
                spurious,
                again,
                post,
                next,
            ),
            !(next is Done),
        ensures
            self.send_next(
                Send::Try { stage, block: true },
                thread,
                spurious,
                again,
                post,
                match next {
                    Send::Try { stage: s, block } => Send::Try { stage: s, block: true },
                    _ => next,
                },
            ),
    {
        let s = choose|s: Stage<T>| #[trigger]
            self.slots.push_next(stage, post.slots, s) && next == after_try(s, false);
        assert(self.slots.push_next(stage, post.slots, s));
    }

    /// A send that found the queue full puts its value into it only once a receive has made room:
    /// in a run in which the queue was full at some moment and whose last event puts a value into
    /// it, a value was received in between. The value is then the last one in the queue.
    pub proof fn lemma_made_room(run: Run<Self>, n: int)
        requires
            run.valid(),
            0 <= n < run.events.len(),
            run.moments[n].queue.free() == 0,
            run.last_put() is Some,
        ensures
            run.received().len() > run.first(n).received().len(),
            run.before().end().queue.free() > 0,
            run.last_put() matches Some((sender, value)) && run.end().queue@
                == run.before().end().queue@.push(value),
    {
        run.lemma_fits();
        run.lemma_first(n);
        run.lemma_order();
        run.first(n).lemma_order();
        run.before().lemma_fits();
        let a = run.before().end();
        let b = run.end();
        let (i, value) = run.last_put().unwrap();
        assert(run.events.last() == Event::Send(i));
        let (thread, spurious, again) = choose|thread: usize, spurious: bool, again: bool| #[trigger]
            a.queue.send_next(a.sends[i], thread, spurious, again, b.queue, b.sends[i]);
        a.queue.lemma_send(a.sends, a.recv, i, thread, spurious, again, b.queue, b.sends[i]);
        Self::lemma_capacity(run, n);
        Self::lemma_capacity(run, run.events.len() - 1);
        run.lemma_first(run.events.len() - 1);
        let c = run.first(run.events.len() - 1);
        assert(c.moments =~= run.before().moments);
        assert(c.events =~= run.before().events);
        run.before().lemma_order();
        run.before().lemma_first(n);
        assert(run.before().first(n).moments =~= run.first(n).moments);
        assert(run.before().first(n).events =~= run.first(n).events);
        let start = run.moments[0].queue@.len();
        assert(run.first(n).moments[0] == run.moments[0]);
        assert(run.before().moments[0] == run.moments[0]);
        assert((run.moments[0].queue.held() + values(run.before().puts())).len() == start
            + run.before().puts().len());
        assert((run.moments[0].queue.held() + values(run.first(n).puts())).len() == start
            + run.first(n).puts().len());
        assert(run.first(n).end().queue.held().len() == a.queue.capacity());
        assert(a.queue.held().len() < a.queue.capacity());
    }

    /// The capacity of a queue stays as it is.
    proof fn lemma_capacity(run: Run<Self>, n: int)
        requires
            run.valid(),
            0 <= n <= run.events.len(),
        ensures
            run.moments[n].queue.capacity() == run.moments[0].queue.capacity(),
        decreases n,
    {
        if n > 0 {
            Self::lemma_capacity(run, n - 1);
            run.lemma_first(n - 1);
            let a = run.moments[n - 1];
            let b = run.moments[n];
            run.first(n - 1).lemma_fits();
            assert(a.leads(run.events[n - 1], b));
            match run.events[n - 1] {
                Event::Send(i) => {
                    let (thread, spurious, again) = choose|
                        thread: usize,
                        spurious: bool,
                        again: bool,
                    | #[trigger]
                        a.queue.send_next(a.sends[i], thread, spurious, again, b.queue, b.sends[i]);
                    a.queue.lemma_send(
                        a.sends,
                        a.recv,
                        i,
                        thread,
                        spurious,
                        again,
                        b.queue,
                        b.sends[i],
                    );
                },
                Event::Recv => {
                    let (thread, spurious, again) = choose|
                        thread: usize,
                        spurious: bool,
                        again: bool,
                    | #[trigger]
                        a.queue.recv_next(a.recv, thread, spurious, again, b.queue, b.recv);
                    a.queue.lemma_recv(
                        a.sends,
                        a.recv,
                        thread,
                        spurious,
                        again,
                        b.queue,
                        b.recv,
                    );
                },
                _ => {},
            }
        }
    }
}

} // verus!
