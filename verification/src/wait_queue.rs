//! A place where threads sleep until a condition may have changed.
//!
//! A thread that wants to sleep notes that somebody is waiting, and then asks for its condition
//! once more, both under a lock. If the condition still holds it puts its waiter on a list, gives
//! the lock back, and sleeps. A thread that has changed what the condition speaks of looks whether
//! somebody is waiting, takes the waiter that came last off the list, and tells its thread to go
//! on.
use crate::arena::Arena;
use crate::lock;
use crate::lock::{Lock, Locking, Unlocking};
use crate::shared::{Park, Unpark, Waiter, Word};
use vstd::prelude::*;

verus! {

/// The list of waiters behind a lock, and whether it may hold any.
pub struct WaitQueue {
    pub queue: Lock<Option<usize>>,
    pub pending: bool,
    pub waiters: Arena<Waiter, 2>,
    /// The waiters on the list, the one that came last first.
    pub list: Ghost<Seq<usize>>,
}

/// The part of going to sleep that comes next. `id` is the thread's waiter.
pub enum Sleep {
    /// Set up the waiter.
    Start,
    /// Get the lock; once it is held, note that somebody is waiting.
    Lock { id: usize, op: Locking },
    /// Ask for the condition; if it holds, put the waiter on the list.
    Ask { id: usize },
    /// Give the lock back.
    Unlock { id: usize, end: Unlocking, asleep: bool },
    /// Sleep until another thread says to go on.
    Park { id: usize, park: Park },
    /// It is over.
    Done,
}

/// The part of waking a thread that comes next.
pub enum Wake {
    /// Look whether somebody is waiting.
    Peek,
    /// Get the lock; once it is held, take a waiter off the list.
    Lock { op: Locking },
    /// Give the lock back; `id` is the waiter, or zero for none.
    Unlock { id: usize, end: Unlocking },
    /// Tell the thread of the waiter to go on.
    Tell { id: usize, unpark: Unpark },
    /// It is over.
    Done,
}

/// What a thread does with the place.
pub enum Op {
    Sleep(Sleep),
    Wake(Wake),
}

impl Op {
    /// What the thread does with the lock.
    pub open spec fn lock_op(self) -> Option<lock::Op> {
        match self {
            Op::Sleep(Sleep::Lock { id, op }) => Some(lock::Op::Lock(op)),
            Op::Sleep(Sleep::Ask { id }) => Some(lock::Op::Lock(Locking::Held)),
            Op::Sleep(Sleep::Unlock { id, end, asleep }) => Some(lock::Op::Unlock(end)),
            Op::Wake(Wake::Lock { op }) => Some(lock::Op::Lock(op)),
            Op::Wake(Wake::Unlock { id, end }) => Some(lock::Op::Unlock(end)),
            _ => None,
        }
    }

    /// The waiter of the thread.
    pub open spec fn owns(self) -> usize {
        match self {
            Op::Sleep(Sleep::Lock { id, op }) => id,
            Op::Sleep(Sleep::Ask { id }) => id,
            Op::Sleep(Sleep::Unlock { id, end, asleep }) => id,
            Op::Sleep(Sleep::Park { id, park }) => id,
            _ => 0,
        }
    }

    /// The waiter that the thread speaks of is one.
    pub open spec fn named(self) -> bool {
        match self {
            Op::Sleep(Sleep::Start) | Op::Sleep(Sleep::Done) => true,
            Op::Sleep(_) => self.owns() != 0,
            Op::Wake(Wake::Tell { id, unpark }) => id != 0,
            Op::Wake(_) => true,
        }
    }

    /// The thread has put its waiter on the list, and sleeps or is about to.
    pub open spec fn sleeps(self) -> bool {
        match self {
            Op::Sleep(Sleep::Unlock { id, end, asleep }) => asleep,
            Op::Sleep(Sleep::Park { id, park }) => true,
            _ => false,
        }
    }

    /// Where the thread is with going to sleep.
    pub open spec fn park(self) -> Park {
        match self {
            Op::Sleep(Sleep::Park { id, park }) => park,
            _ => Park::Load,
        }
    }

    /// The waiter whose thread is about to be told to go on.
    pub open spec fn wakes(self) -> usize {
        match self {
            Op::Wake(Wake::Unlock { id, end }) => id,
            Op::Wake(Wake::Tell { id, unpark }) => if unpark is Swap || unpark is Release {
                id
            } else {
                0
            },
            _ => 0,
        }
    }

    /// Where the thread is with telling it.
    pub open spec fn unpark(self) -> Unpark {
        match self {
            Op::Wake(Wake::Tell { id, unpark }) => unpark,
            _ => Unpark::Swap,
        }
    }
}

/// What the threads do with the lock.
pub open spec fn lock_ops(ops: Map<int, Op>) -> Map<int, lock::Op> {
    Map::new(
        |i: int| ops.contains_key(i) && ops[i].lock_op() is Some,
        |i: int| ops[i].lock_op()->0,
    )
}

/// Some thread sleeps, or is about to, in the place of the waiter.
pub open spec fn sleeper(ops: Map<int, Op>, id: usize) -> bool {
    exists|i: int| #[trigger] ops.contains_key(i) && ops[i].sleeps() && ops[i].owns() == id
}

/// Some thread is about to tell the thread of the waiter to go on.
pub open spec fn woken(ops: Map<int, Op>, id: usize) -> bool {
    exists|i: int| #[trigger] ops.contains_key(i) && ops[i].wakes() == id
}

impl WaitQueue {
    /// The waiters form a list that can be walked.
    pub open spec fn list_ok(self) -> bool {
        let s = self.list@;
        &&& self.queue.value == if s.len() > 0 {
            Some(s[0])
        } else {
            None
        }
        &&& forall|k: int|
            0 <= k < s.len() ==> {
                &&& #[trigger] s[k] != 0
                &&& self.waiters@.contains_key(s[k])
                &&& self.waiters@[s[k]].next == if k + 1 < s.len() {
                    Some(s[k + 1])
                } else {
                    None
                }
            }
        &&& forall|j: int, k: int| 0 <= j < k < s.len() ==> #[trigger] s[j] != #[trigger] s[k]
        &&& s.len() > 0 ==> self.pending
    }

    /// What holds of one thread.
    pub open spec fn op_ok(self, ops: Map<int, Op>, op: Op) -> bool {
        let id = op.owns();
        &&& op.named()
        &&& id != 0 ==> self.waiters@.contains_key(id)
        &&& id != 0 && !op.sleeps() ==> {
            &&& self.waiters@[id].parker == Word::Empty
            &&& !self.list@.contains(id)
        }
        &&& op.sleeps() && self.list@.contains(id) ==> self.waiters@[id].handshake(
            op.park(),
            Unpark::Swap,
        )
        &&& op.sleeps() && !self.list@.contains(id) && !woken(ops, id)
            ==> self.waiters@[id].handshake(op.park(), Unpark::Done)
        &&& op == Op::Sleep(Sleep::Ask { id }) ==> self.pending
        &&& op.wakes() != 0 ==> !self.list@.contains(op.wakes()) && sleeper(ops, op.wakes())
    }

    /// What holds of two threads.
    pub open spec fn pair_ok(self, a: Op, b: Op) -> bool {
        &&& a.owns() != 0 ==> a.owns() != b.owns()
        &&& a.wakes() != 0 ==> a.wakes() != b.wakes()
        &&& a.sleeps() && b.wakes() == a.owns() ==> self.waiters@[a.owns()].handshake(
            a.park(),
            b.unpark(),
        )
    }

    /// The invariant of the place together with the threads that use it.
    pub open spec fn inv(self, ops: Map<int, Op>) -> bool {
        &&& self.queue.inv(lock_ops(ops))
        &&& self.waiters.wf()
        &&& self.list_ok()
        &&& forall|i: int| #[trigger] ops.contains_key(i) ==> self.op_ok(ops, ops[i])
        &&& forall|i: int, j: int| #[trigger]
            ops.contains_key(i) && #[trigger] ops.contains_key(j) && i != j ==> self.pair_ok(
                ops[i],
                ops[j],
            )
        &&& forall|k: int| 0 <= k < self.list@.len() ==> sleeper(ops, #[trigger] self.list@[k])
    }

    /// Another waiter still has an address, here and in the lock.
    pub open spec fn has_room(self) -> bool {
        self.waiters.has_room() && self.queue.waiters.has_room()
    }

    /// A place where nobody waits.
    pub fn new() -> (queue: Self)
        ensures
            queue.inv(Map::empty()),
            queue.list@.len() == 0,
            !queue.pending,
            queue.waiters.room() == (usize::MAX - 2) / 2,
            queue.queue.waiters.room() == (usize::MAX - 2) / 2,
            queue.has_room(),
    {
        let queue = WaitQueue {
            queue: Lock::new(None),
            pending: false,
            waiters: Arena::new(),
            list: Ghost(Seq::empty()),
        };
        assert(lock_ops(Map::empty()) =~= Map::empty());
        queue
    }

    /// The next access of a thread that goes to sleep finds what it needs.
    pub open spec fn sleeping(self, op: Sleep, spurious: bool) -> bool {
        &&& self.waiters.wf()
        &&& Op::Sleep(op).owns() != 0 ==> self.waiters@.contains_key(Op::Sleep(op).owns())
        &&& match op {
            Sleep::Start => self.waiters.has_room(),
            Sleep::Lock { id, op } => op is Held || self.queue.locks(op, spurious),
            Sleep::Ask { id } => id != 0,
            Sleep::Unlock { id, end, asleep } => id != 0 && self.queue.unlocks(end),
            Sleep::Park { id, park } => id != 0 && self.waiters@[id].parks(park),
            Sleep::Done => true,
        }
    }

    /// The next access of a thread that wakes another finds what it needs.
    pub open spec fn waking(self, op: Wake, spurious: bool) -> bool {
        &&& self.waiters.wf()
        &&& match op {
            Wake::Lock { op } => if op is Held {
                self.pending ==> (self.queue.value matches Some(id)
                    ==> self.waiters@.contains_key(id))
            } else {
                self.queue.locks(op, spurious)
            },
            Wake::Unlock { id, end } => self.queue.unlocks(end),
            Wake::Tell { id, unpark } => unpark is Swap || unpark is Release
                ==> self.waiters@.contains_key(id) && self.waiters@[id].unparks(unpark),
            _ => true,
        }
    }

    /// Nothing but the lock is different.
    pub open spec fn same_but_lock(self, post: Self) -> bool {
        &&& post.pending == self.pending
        &&& post.waiters == self.waiters
        &&& post.list == self.list
    }

    /// One access of a thread that goes to sleep. The condition is asked for at [`Sleep::Ask`], and
    /// `held` is the answer; for the others see [`Lock::lock_next`]. The exchange of a free lock does
    /// not fail if it need not.
    pub open spec fn sleep_next(
        self,
        op: Sleep,
        thread: usize,
        spurious: bool,
        again: bool,
        held: bool,
        post: Self,
        next: Sleep,
    ) -> bool {
        match op {
            Sleep::Start => {
                let id = self.waiters.fresh();
                &&& post.queue == self.queue
                &&& post.pending == self.pending
                &&& post.list == self.list
                &&& post.waiters.wf()
                &&& exists|w: Waiter|
                    w.parker == Word::Empty && #[trigger] self.waiters@.insert(id, w)
                        == post.waiters@
                &&& next == Sleep::Lock { id, op: Locking::Fast }
            },
            Sleep::Lock { id, op } => if op is Held {
                post == WaitQueue { pending: true, ..self } && next == Sleep::Ask { id }
            } else {
                &&& self.same_but_lock(post)
                &&& next matches Sleep::Lock { id: own, op: o }
                &&& own == id
                &&& self.queue.lock_next(op, thread, spurious && !(op is Try), again, post.queue, o)
            },
            Sleep::Ask { id } => if held {
                let w = Waiter { next: self.queue.value, ..self.waiters@[id] };
                &&& post.queue == Lock { value: Some(id), ..self.queue }
                &&& post.pending == self.pending
                &&& post.waiters.wf()
                &&& post.waiters@ == self.waiters@.insert(id, w)
                &&& post.list@ == seq![id] + self.list@
                &&& next == Sleep::Unlock { id, end: Unlocking::Fast, asleep: true }
            } else {
                &&& post == WaitQueue {
                    pending: self.pending && self.queue.value is Some,
                    ..self
                }
                &&& next == Sleep::Unlock { id, end: Unlocking::Fast, asleep: false }
            },
            Sleep::Unlock { id, end, asleep } => if end is Done {
                if asleep {
                    post == self && next == Sleep::Park { id, park: Park::Load }
                } else {
                    self.retired(post, id) && next == Sleep::Done
                }
            } else {
                &&& self.same_but_lock(post)
                &&& next matches Sleep::Unlock { id: own, end: e, asleep: a }
                &&& own == id && a == asleep
                &&& self.queue.unlock_next(end, false, true, post.queue, e)
            },
            Sleep::Park { id, park } => if park is Done {
                self.retired(post, id) && next == Sleep::Done
            } else {
                &&& post.queue == self.queue
                &&& post.pending == self.pending
                &&& post.list == self.list
                &&& post.waiters.wf()
                &&& exists|w: Waiter, p: Park|
                    {
                        &&& #[trigger] self.waiters@[id].park_next(park, thread, again, w, p)
                        &&& post.waiters@ == self.waiters@.insert(id, w)
                        &&& next == Sleep::Park { id, park: p }
                    }
            },
            Sleep::Done => post == self && next == op,
        }
    }

    /// The waiter is not needed any more.
    pub open spec fn retired(self, post: Self, id: usize) -> bool {
        &&& post.queue == self.queue
        &&& post.pending == self.pending
        &&& post.list == self.list
        &&& post.waiters.wf()
        &&& post.waiters@ == self.waiters@.remove(id)
    }

    /// One access of a thread that wakes another; see [`Lock::lock_next`].
    pub open spec fn wake_next(
        self,
        op: Wake,
        thread: usize,
        spurious: bool,
        again: bool,
        post: Self,
        next: Wake,
    ) -> bool {
        match op {
            Wake::Peek => post == self && next == if self.pending {
                Wake::Lock { op: Locking::Fast }
            } else {
                Wake::Done
            },
            Wake::Lock { op } => if op is Held {
                match self.queue.value {
                    Some(id) if self.pending => {
                        let below = self.waiters@[id].next;
                        &&& post == WaitQueue {
                            queue: Lock { value: below, ..self.queue },
                            pending: below is Some,
                            list: Ghost(self.list@.skip(1)),
                            ..self
                        }
                        &&& next == Wake::Unlock { id, end: Unlocking::Fast }
                    },
                    _ => post == self && next == Wake::Unlock { id: 0, end: Unlocking::Fast },
                }
            } else {
                &&& self.same_but_lock(post)
                &&& next matches Wake::Lock { op: o }
                &&& self.queue.lock_next(op, thread, spurious && !(op is Try), again, post.queue, o)
            },
            Wake::Unlock { id, end } => if end is Done {
                post == self && next == if id == 0 {
                    Wake::Done
                } else {
                    Wake::Tell { id, unpark: Unpark::Swap }
                }
            } else {
                &&& self.same_but_lock(post)
                &&& next matches Wake::Unlock { id: own, end: e }
                &&& own == id
                &&& self.queue.unlock_next(end, false, true, post.queue, e)
            },
            Wake::Tell { id, unpark } => if unpark is Swap || unpark is Release {
                &&& post.queue == self.queue
                &&& post.pending == self.pending
                &&& post.list == self.list
                &&& post.waiters.wf()
                &&& exists|w: Waiter, u: Unpark|
                    {
                        &&& #[trigger] self.waiters@[id].unpark_next(unpark, w, u)
                        &&& post.waiters@ == self.waiters@.insert(id, w)
                        &&& next == if u is Done {
                            Wake::Done
                        } else {
                            Wake::Tell { id, unpark: u }
                        }
                    }
            } else {
                post == self && next == Wake::Done
            },
            Wake::Done => post == self && next == op,
        }
    }

    /// Performs one access of a thread that goes to sleep.
    pub fn park_if(
        &mut self,
        op: Sleep,
        thread: usize,
        spurious: bool,
        again: bool,
        held: bool,
    ) -> (next: Sleep)
        requires
            old(self).sleeping(op, spurious),
        ensures
            old(self).sleep_next(op, thread, spurious, again, held, *final(self), next),
    {
        match op {
            Sleep::Start => {
                let id: usize = self.waiters.allocate(Waiter::new());
                Sleep::Lock { id, op: Locking::Fast }
            },
            Sleep::Lock { id, op } => match op {
                Locking::Held => {
                    self.pending = true;
                    Sleep::Ask { id }
                },
                op => {
                    let weak: bool = match &op {
                        Locking::Try { .. } => false,
                        _ => spurious,
                    };
                    let op = self.queue.lock_step(op, thread, weak, again);
                    Sleep::Lock { id, op }
                },
            },
            Sleep::Ask { id } => {
                if held {
                    let mut waiter = self.waiters.lend(id);
                    waiter.next = self.queue.value;
                    self.waiters.put(id, waiter);
                    assert(self.waiters@ =~= old(self).waiters@.insert(id, waiter));
                    self.queue.value = Some(id);
                    self.list = Ghost(seq![id] + self.list@);
                } else if self.queue.value.is_none() {
                    self.pending = false;
                }
                Sleep::Unlock { id, end: Unlocking::Fast, asleep: held }
            },
            Sleep::Unlock { id, end, asleep } => match end {
                Unlocking::Done => if asleep {
                    Sleep::Park { id, park: Park::Load }
                } else {
                    self.waiters.free(id);
                    Sleep::Done
                },
                end => {
                    let end = self.queue.unlock_step(end, false, true);
                    Sleep::Unlock { id, end, asleep }
                },
            },
            Sleep::Park { id, park } => match park {
                Park::Done => {
                    self.waiters.free(id);
                    Sleep::Done
                },
                park => {
                    let mut waiter = self.waiters.lend(id);
                    let next = waiter.park(park, thread, again);
                    let ghost after = waiter;
                    self.waiters.put(id, waiter);
                    assert(self.waiters@ =~= old(self).waiters@.insert(id, after));
                    assert(old(self).waiters@[id].park_next(park, thread, again, after, next));
                    Sleep::Park { id, park: next }
                },
            },
            Sleep::Done => Sleep::Done,
        }
    }

    /// Performs one access of a thread that wakes another.
    pub fn unpark_one(&mut self, op: Wake, thread: usize, spurious: bool, again: bool) -> (next: Wake)
        requires
            old(self).waking(op, spurious),
        ensures
            old(self).wake_next(op, thread, spurious, again, *final(self), next),
    {
        match op {
            Wake::Peek => if self.pending {
                Wake::Lock { op: Locking::Fast }
            } else {
                Wake::Done
            },
            Wake::Lock { op } => match op {
                Locking::Held => {
                    if self.pending {
                        if let Some(id) = self.queue.value {
                            let below = self.waiters.get(id).next;
                            self.queue.value = below;
                            self.list = Ghost(self.list@.skip(1));
                            if below.is_none() {
                                self.pending = false;
                            }
                            return Wake::Unlock { id, end: Unlocking::Fast };
                        }
                    }
                    Wake::Unlock { id: 0, end: Unlocking::Fast }
                },
                op => {
                    let weak: bool = match &op {
                        Locking::Try { .. } => false,
                        _ => spurious,
                    };
                    let op = self.queue.lock_step(op, thread, weak, again);
                    Wake::Lock { op }
                },
            },
            Wake::Unlock { id, end } => match end {
                Unlocking::Done => if id == 0 {
                    Wake::Done
                } else {
                    Wake::Tell { id, unpark: Unpark::Swap }
                },
                end => {
                    let end = self.queue.unlock_step(end, false, true);
                    Wake::Unlock { id, end }
                },
            },
            Wake::Tell { id, unpark } => match unpark {
                Unpark::Wake(_) => Wake::Done,
                Unpark::Done => Wake::Done,
                unpark => {
                    let mut waiter = self.waiters.lend(id);
                    let next = waiter.unpark(unpark);
                    let ghost after = waiter;
                    self.waiters.put(id, waiter);
                    assert(self.waiters@ =~= old(self).waiters@.insert(id, after));
                    assert(old(self).waiters@[id].unpark_next(unpark, after, next));
                    if let Unpark::Done = next {
                        Wake::Done
                    } else {
                        Wake::Tell { id, unpark: next }
                    }
                },
            },
            Wake::Done => Wake::Done,
        }
    }
}

impl WaitQueue {
    /// The lock is used as before by the other threads.
    proof fn lemma_lock_ops(ops: Map<int, Op>, i: int, op: Op)
        ensures
            op.lock_op() is Some ==> lock_ops(ops.insert(i, op)) == lock_ops(ops).insert(
                i,
                op.lock_op()->0,
            ),
            op.lock_op() is None ==> lock_ops(ops.insert(i, op)) == lock_ops(ops).remove(i),
    {
        if op.lock_op() is Some {
            assert(lock_ops(ops.insert(i, op)) =~= lock_ops(ops).insert(i, op.lock_op()->0));
        } else {
            assert(lock_ops(ops.insert(i, op)) =~= lock_ops(ops).remove(i));
        }
    }

    /// Who sleeps and who is about to be told depends on one thread only as far as that thread is
    /// concerned.
    proof fn lemma_same(ops: Map<int, Op>, i: int, op: Op, id: usize)
        requires
            ops.contains_key(i),
        ensures
            (op.wakes() == id) == (ops[i].wakes() == id) ==> woken(ops.insert(i, op), id) == woken(
                ops,
                id,
            ),
            (op.sleeps() && op.owns() == id) == (ops[i].sleeps() && ops[i].owns() == id) ==> sleeper(
                ops.insert(i, op),
                id,
            ) == sleeper(ops, id),
            op.wakes() == id ==> woken(ops.insert(i, op), id),
            op.sleeps() && op.owns() == id ==> sleeper(ops.insert(i, op), id),
            sleeper(ops, id) && !(ops[i].sleeps() && ops[i].owns() == id) ==> sleeper(
                ops.insert(i, op),
                id,
            ),
    {
        let gs = ops.insert(i, op);
        assert(gs.contains_key(i));
        if woken(ops, id) {
            let j = choose|j: int| #[trigger] ops.contains_key(j) && ops[j].wakes() == id;
            assert(gs.contains_key(j));
        }
        if woken(gs, id) {
            let j = choose|j: int| #[trigger] gs.contains_key(j) && gs[j].wakes() == id;
            assert(ops.contains_key(j));
        }
        if sleeper(ops, id) {
            let j = choose|j: int| #[trigger]
                ops.contains_key(j) && ops[j].sleeps() && ops[j].owns() == id;
            assert(gs.contains_key(j));
        }
        if sleeper(gs, id) {
            let j = choose|j: int| #[trigger]
                gs.contains_key(j) && gs[j].sleeps() && gs[j].owns() == id;
            assert(ops.contains_key(j));
        }
    }

    /// A thread that has not put its waiter on the list is not about to be told anything.
    proof fn lemma_unwoken(self, ops: Map<int, Op>, i: int)
        requires
            self.inv(ops),
            ops.contains_key(i),
            ops[i].owns() != 0,
        ensures
            !ops[i].sleeps() ==> !woken(ops, ops[i].owns()),
            self.list@.contains(ops[i].owns()) ==> !woken(ops, ops[i].owns()),
    {
        let id = ops[i].owns();
        if woken(ops, id) {
            let j = choose|j: int| #[trigger] ops.contains_key(j) && ops[j].wakes() == id;
            assert(self.op_ok(ops, ops[j]));
            let k = choose|k: int| #[trigger]
                ops.contains_key(k) && ops[k].sleeps() && ops[k].owns() == id;
            if k != i {
                assert(self.pair_ok(ops[i], ops[k]));
            }
        }
    }

    /// Only one thread asks for its condition.
    proof fn lemma_alone(self, ops: Map<int, Op>, i: int, j: int)
        requires
            self.inv(ops),
            ops.contains_key(i),
            ops.contains_key(j),
            i != j,
            ops[i].lock_op() == Some(lock::Op::Lock(Locking::Held)),
        ensures
            ops[j].lock_op() != Some(lock::Op::Lock(Locking::Held)),
    {
        let ls = lock_ops(ops);
        assert(ls.contains_key(i) && ls[i] == ops[i].lock_op()->0);
        if ops[j].lock_op() == Some(lock::Op::Lock(Locking::Held)) {
            assert(ls.contains_key(j) && ls[j] == ops[j].lock_op()->0);
            assert(ls[i].holds() && ls[j].holds());
        }
    }

    /// An access to the lock, or to the note that somebody is waiting, keeps the invariant.
    proof fn lemma_quiet(self, ops: Map<int, Op>, i: int, op: Op, post: Self)
        requires
            self.inv(ops),
            ops.contains_key(i),
            post.queue.inv(lock_ops(ops.insert(i, op))),
            post.queue.value == self.queue.value,
            post.waiters == self.waiters,
            post.list == self.list,
            op.owns() == ops[i].owns(),
            op.sleeps() == ops[i].sleeps(),
            op.park() == ops[i].park(),
            op.wakes() == ops[i].wakes(),
            op.wakes() != 0 ==> op.unpark() == ops[i].unpark(),
            op.named(),
            post.list@.len() > 0 ==> post.pending,
            forall|j: int| #[trigger]
                ops.contains_key(j) && j != i && ops[j] == Op::Sleep(Sleep::Ask { id: ops[j].owns() })
                    ==> post.pending,
            op == Op::Sleep(Sleep::Ask { id: op.owns() }) ==> post.pending,
        ensures
            post.inv(ops.insert(i, op)),
    {
        let gs = ops.insert(i, op);
        assert forall|j: int| #[trigger] gs.contains_key(j) implies post.op_ok(gs, gs[j]) by {
            assert(ops.contains_key(j));
            assert(self.op_ok(ops, ops[j]));
            Self::lemma_same(ops, i, op, gs[j].owns());
            Self::lemma_same(ops, i, op, gs[j].wakes());
        }
        assert forall|j: int, k: int| #[trigger]
            gs.contains_key(j) && #[trigger] gs.contains_key(k) && j != k implies post.pair_ok(
            gs[j],
            gs[k],
        ) by {
            assert(ops.contains_key(j) && ops.contains_key(k));
            assert(self.pair_ok(ops[j], ops[k]));
        }
        assert forall|k: int| 0 <= k < post.list@.len() implies sleeper(gs, #[trigger] post.list@[k]) by {
            assert(sleeper(ops, self.list@[k]));
            Self::lemma_same(ops, i, op, self.list@[k]);
        }
    }

    /// Setting a waiter up keeps the invariant.
    proof fn lemma_set_up(
        self,
        ops: Map<int, Op>,
        i: int,
        thread: usize,
        spurious: bool,
        again: bool,
        held: bool,
        post: Self,
        next: Sleep,
    )
        requires
            self.inv(ops),
            ops.contains_key(i),
            ops[i] == Op::Sleep(Sleep::Start),
            self.sleep_next(Sleep::Start, thread, spurious, again, held, post, next),
        ensures
            post.inv(ops.insert(i, Op::Sleep(next))),
    {
        let op = Op::Sleep(next);
        let gs = ops.insert(i, op);
        let id = self.waiters.fresh();
        let ls = lock_ops(ops);
        Self::lemma_lock_ops(ops, i, op);
        assert(!ls.contains_key(i));
        self.queue.lemma_start(ls, i);
        let w = choose|w: Waiter|
            w.parker == Word::Empty && #[trigger] self.waiters@.insert(id, w) == post.waiters@;
        assert(!self.waiters@.contains_key(id));
        assert forall|k: int| 0 <= k < self.list@.len() implies #[trigger] self.list@[k] != id by {
            assert(self.waiters@.contains_key(self.list@[k]));
        }
        assert forall|j: int| #[trigger] ops.contains_key(j) implies ops[j].owns() != id by {
            assert(self.op_ok(ops, ops[j]));
        }
        assert(!sleeper(ops, id));
        assert forall|j: int| #[trigger] gs.contains_key(j) implies post.op_ok(gs, gs[j]) by {
            assert(ops.contains_key(j));
            assert(self.op_ok(ops, ops[j]));
            Self::lemma_same(ops, i, op, gs[j].owns());
            Self::lemma_same(ops, i, op, gs[j].wakes());
        }
        assert forall|j: int, k: int| #[trigger]
            gs.contains_key(j) && #[trigger] gs.contains_key(k) && j != k implies post.pair_ok(
            gs[j],
            gs[k],
        ) by {
            assert(ops.contains_key(j) && ops.contains_key(k));
            assert(self.pair_ok(ops[j], ops[k]));
            assert(self.op_ok(ops, ops[j]) && self.op_ok(ops, ops[k]));
        }
        assert forall|k: int| 0 <= k < post.list@.len() implies sleeper(gs, #[trigger] post.list@[k]) by {
            assert(sleeper(ops, self.list@[k]));
            Self::lemma_same(ops, i, op, self.list@[k]);
        }
    }

    /// A thread that goes on without its waiter leaves the rest as it is.
    proof fn lemma_retire(self, ops: Map<int, Op>, i: int, post: Self)
        requires
            self.inv(ops),
            ops.contains_key(i),
            ops[i].owns() != 0,
            match ops[i] {
                Op::Sleep(Sleep::Unlock { id, end, asleep }) => end is Done && !asleep,
                Op::Sleep(Sleep::Park { id, park }) => park is Done,
                _ => false,
            },
            self.retired(post, ops[i].owns()),
        ensures
            post.inv(ops.insert(i, Op::Sleep(Sleep::Done))),
            !self.list@.contains(ops[i].owns()),
    {
        let op = Op::Sleep(Sleep::Done);
        let gs = ops.insert(i, op);
        let id = ops[i].owns();
        let ls = lock_ops(ops);
        Self::lemma_lock_ops(ops, i, op);
        if ls.contains_key(i) {
            self.queue.lemma_finish(ls, i);
        } else {
            assert(ls.remove(i) =~= ls);
        }
        assert(self.op_ok(ops, ops[i]));
        self.lemma_unwoken(ops, i);
        if woken(ops, id) {
            let j = choose|j: int| #[trigger] ops.contains_key(j) && ops[j].wakes() == id;
            assert(j != i);
            assert(self.pair_ok(ops[i], ops[j]));
        }
        assert forall|k: int| 0 <= k < self.list@.len() implies #[trigger] self.list@[k] != id by {
            assert(self.list@.contains(self.list@[k]));
        }
        assert forall|j: int| #[trigger] gs.contains_key(j) implies post.op_ok(gs, gs[j]) by {
            assert(ops.contains_key(j));
            assert(self.op_ok(ops, ops[j]));
            if j != i {
                assert(self.pair_ok(ops[i], ops[j]));
            }
            Self::lemma_same(ops, i, op, gs[j].owns());
            Self::lemma_same(ops, i, op, gs[j].wakes());
        }
        assert forall|j: int, k: int| #[trigger]
            gs.contains_key(j) && #[trigger] gs.contains_key(k) && j != k implies post.pair_ok(
            gs[j],
            gs[k],
        ) by {
            assert(ops.contains_key(j) && ops.contains_key(k));
            assert(self.pair_ok(ops[j], ops[k]));
            if j != i {
                assert(self.pair_ok(ops[i], ops[j]));
            }
        }
        assert forall|k: int| 0 <= k < post.list@.len() implies sleeper(gs, #[trigger] post.list@[k]) by {
            assert(sleeper(ops, self.list@[k]));
            Self::lemma_same(ops, i, op, self.list@[k]);
        }
    }

    /// Putting a waiter on the list keeps the invariant.
    proof fn lemma_enlist(
        self,
        ops: Map<int, Op>,
        i: int,
        thread: usize,
        spurious: bool,
        again: bool,
        post: Self,
        next: Sleep,
    )
        requires
            self.inv(ops),
            ops.contains_key(i),
            ops[i] == Op::Sleep(Sleep::Ask { id: ops[i].owns() }),
            self.sleep_next(ops[i]->Sleep_0, thread, spurious, again, true, post, next),
        ensures
            post.inv(ops.insert(i, Op::Sleep(next))),
    {
        let op = Op::Sleep(next);
        let gs = ops.insert(i, op);
        let id = ops[i].owns();
        let ls = lock_ops(ops);
        Self::lemma_lock_ops(ops, i, op);
        assert(ls.contains_key(i) && ls[i] == lock::Op::Lock(Locking::Held));
        self.queue.lemma_release(ls, i, Some(id));
        assert(self.op_ok(ops, ops[i]));
        self.lemma_unwoken(ops, i);
        let s = self.list@;
        let t = post.list@;
        assert forall|k: int| 0 <= k < s.len() implies #[trigger] s[k] != id by {
            assert(s.contains(s[k]));
        }
        assert(t[0] == id);
        assert(t.contains(id));
        assert forall|k: int| 0 < k < t.len() implies #[trigger] t[k] == s[k - 1] by {}
        assert forall|x: usize| x != id implies #[trigger] t.contains(x) == s.contains(x) by {
            if s.contains(x) {
                let k = choose|k: int| 0 <= k < s.len() && s[k] == x;
                assert(t[k + 1] == x);
            }
            if t.contains(x) {
                let k = choose|k: int| 0 <= k < t.len() && t[k] == x;
                assert(s[k - 1] == x);
            }
        }
        assert(post.list_ok());
        assert forall|j: int| #[trigger] gs.contains_key(j) implies post.op_ok(gs, gs[j]) by {
            assert(ops.contains_key(j));
            assert(self.op_ok(ops, ops[j]));
            if j != i {
                assert(self.pair_ok(ops[i], ops[j]));
            }
            Self::lemma_same(ops, i, op, gs[j].owns());
            Self::lemma_same(ops, i, op, gs[j].wakes());
            if gs[j].wakes() == id && id != 0 {
                assert(woken(ops, id));
            }
        }
        assert forall|j: int, k: int| #[trigger]
            gs.contains_key(j) && #[trigger] gs.contains_key(k) && j != k implies post.pair_ok(
            gs[j],
            gs[k],
        ) by {
            assert(ops.contains_key(j) && ops.contains_key(k));
            assert(self.pair_ok(ops[j], ops[k]));
            if j != i {
                assert(self.pair_ok(ops[i], ops[j]));
            }
            if gs[k].wakes() == id && k != i {
                assert(woken(ops, id));
            }
        }
        assert forall|k: int| 0 <= k < t.len() implies sleeper(gs, #[trigger] t[k]) by {
            Self::lemma_same(ops, i, op, t[k]);
            if k > 0 {
                assert(sleeper(ops, s[k - 1]));
            }
        }
    }

    /// An access of a thread that sleeps keeps the invariant.
    proof fn lemma_parked(
        self,
        ops: Map<int, Op>,
        i: int,
        thread: usize,
        spurious: bool,
        again: bool,
        held: bool,
        post: Self,
        next: Sleep,
    )
        requires
            self.inv(ops),
            ops.contains_key(i),
            ops[i] is Sleep,
            ops[i]->Sleep_0 is Park,
            !(ops[i].park() is Done),
            self.sleep_next(ops[i]->Sleep_0, thread, spurious, again, held, post, next),
        ensures
            post.inv(ops.insert(i, Op::Sleep(next))),
            self.waiters@[ops[i].owns()].parks(ops[i].park()),
            Op::Sleep(next).park() is Done ==> !self.list@.contains(ops[i].owns()),
    {
        let op = Op::Sleep(next);
        let gs = ops.insert(i, op);
        let id = ops[i].owns();
        let park = ops[i].park();
        let ls = lock_ops(ops);
        Self::lemma_lock_ops(ops, i, op);
        assert(ls.remove(i) =~= ls);
        assert(self.op_ok(ops, ops[i]));
        let (w, p) = choose|w: Waiter, p: Park|
            {
                &&& #[trigger] self.waiters@[id].park_next(park, thread, again, w, p)
                &&& post.waiters@ == self.waiters@.insert(id, w)
                &&& next == Sleep::Park { id, park: p }
            };
        assert(next == Sleep::Park { id, park: p });
        Self::lemma_same(ops, i, op, id);
        if self.list@.contains(id) {
            self.lemma_unwoken(ops, i);
            self.waiters@[id].lemma_park(park, Unpark::Swap, thread, again, w, p);
        } else if woken(ops, id) {
            let j = choose|j: int| #[trigger] ops.contains_key(j) && ops[j].wakes() == id;
            assert(j != i);
            assert(self.pair_ok(ops[i], ops[j]));
            self.waiters@[id].lemma_park(park, ops[j].unpark(), thread, again, w, p);
        } else {
            self.waiters@[id].lemma_park(park, Unpark::Done, thread, again, w, p);
        }
        assert(w.next == self.waiters@[id].next);
        assert forall|j: int| #[trigger] gs.contains_key(j) implies post.op_ok(gs, gs[j]) by {
            assert(ops.contains_key(j));
            assert(self.op_ok(ops, ops[j]));
            if j != i {
                assert(self.pair_ok(ops[i], ops[j]));
            }
            Self::lemma_same(ops, i, op, gs[j].owns());
            Self::lemma_same(ops, i, op, gs[j].wakes());
        }
        assert forall|j: int, k: int| #[trigger]
            gs.contains_key(j) && #[trigger] gs.contains_key(k) && j != k implies post.pair_ok(
            gs[j],
            gs[k],
        ) by {
            assert(ops.contains_key(j) && ops.contains_key(k));
            assert(self.pair_ok(ops[j], ops[k]));
            if j != i {
                assert(self.pair_ok(ops[i], ops[j]));
            } else if ops[k].wakes() == id {
                self.waiters@[id].lemma_park(park, ops[k].unpark(), thread, again, w, p);
            }
        }
        assert forall|k: int| 0 <= k < post.list@.len() implies sleeper(gs, #[trigger] post.list@[k]) by {
            assert(sleeper(ops, self.list@[k]));
            Self::lemma_same(ops, i, op, self.list@[k]);
        }
    }

    /// Taking a waiter off the list keeps the invariant.
    #[verifier::spinoff_prover]
    #[verifier::rlimit(40)]
    proof fn lemma_pop(
        self,
        ops: Map<int, Op>,
        i: int,
        thread: usize,
        spurious: bool,
        again: bool,
        post: Self,
        next: Wake,
    )
        requires
            self.inv(ops),
            ops.contains_key(i),
            ops[i] == Op::Wake(Wake::Lock { op: Locking::Held }),
            self.list@.len() > 0,
            self.wake_next(ops[i]->Wake_0, thread, spurious, again, post, next),
        ensures
            post.inv(ops.insert(i, Op::Wake(next))),
            post.list@ == self.list@.skip(1),
            next == (Wake::Unlock { id: self.list@[0], end: Unlocking::Fast }),
    {
        let op = Op::Wake(next);
        let gs = ops.insert(i, op);
        let ls = lock_ops(ops);
        let s = self.list@;
        let t = post.list@;
        let id = s[0];
        Self::lemma_lock_ops(ops, i, op);
        assert(ls.contains_key(i) && ls[i] == lock::Op::Lock(Locking::Held));
        self.queue.lemma_release(ls, i, post.queue.value);
        assert forall|k: int| 0 <= k < t.len() implies #[trigger] t[k] == s[k + 1] by {}
        assert(s.contains(id));
        assert forall|x: usize| #[trigger] t.contains(x) == (s.contains(x) && x != id) by {
            if s.contains(x) && x != id {
                let k = choose|k: int| 0 <= k < s.len() && s[k] == x;
                assert(t[k - 1] == x);
            }
            if t.contains(x) {
                let k = choose|k: int| 0 <= k < t.len() && t[k] == x;
                assert(s[k + 1] == x);
            }
        }
        assert(post.list_ok());
        assert(sleeper(ops, id));
        let m = choose|m: int| #[trigger]
            ops.contains_key(m) && ops[m].sleeps() && ops[m].owns() == id;
        assert(self.op_ok(ops, ops[m]));
        self.lemma_unwoken(ops, m);
        assert forall|j: int| #[trigger] gs.contains_key(j) implies post.op_ok(gs, gs[j]) by {
            assert(ops.contains_key(j));
            assert(self.op_ok(ops, ops[j]));
            Self::lemma_same(ops, i, op, gs[j].owns());
            Self::lemma_same(ops, i, op, gs[j].wakes());
            if j != i && ops[j] == Op::Sleep(Sleep::Ask { id: ops[j].owns() }) {
                self.lemma_alone(ops, i, j);
            }
        }
        assert forall|j: int, k: int| #[trigger]
            gs.contains_key(j) && #[trigger] gs.contains_key(k) && j != k implies post.pair_ok(
            gs[j],
            gs[k],
        ) by {
            assert(ops.contains_key(j) && ops.contains_key(k));
            assert(self.pair_ok(ops[j], ops[k]));
            assert(self.op_ok(ops, ops[j]) && self.op_ok(ops, ops[k]));
        }
        assert forall|k: int| 0 <= k < t.len() implies sleeper(gs, #[trigger] t[k]) by {
            assert(sleeper(ops, s[k + 1]));
            Self::lemma_same(ops, i, op, t[k]);
        }
    }

    /// Telling a thread to go on keeps the invariant.
    proof fn lemma_tell(
        self,
        ops: Map<int, Op>,
        i: int,
        thread: usize,
        spurious: bool,
        again: bool,
        post: Self,
        next: Wake,
    )
        requires
            self.inv(ops),
            ops.contains_key(i),
            ops[i] is Wake,
            ops[i]->Wake_0 is Tell,
            ops[i].wakes() != 0,
            self.wake_next(ops[i]->Wake_0, thread, spurious, again, post, next),
        ensures
            post.inv(ops.insert(i, Op::Wake(next))),
            self.waiters@.contains_key(ops[i].wakes()),
            self.waiters@[ops[i].wakes()].unparks(ops[i].unpark()),
    {
        let op = Op::Wake(next);
        let gs = ops.insert(i, op);
        let id = ops[i].wakes();
        let unpark = ops[i].unpark();
        let ls = lock_ops(ops);
        Self::lemma_lock_ops(ops, i, op);
        assert(ls.remove(i) =~= ls);
        assert(self.op_ok(ops, ops[i]));
        let (w, u) = choose|w: Waiter, u: Unpark|
            {
                &&& #[trigger] self.waiters@[id].unpark_next(unpark, w, u)
                &&& post.waiters@ == self.waiters@.insert(id, w)
                &&& next == if u is Done {
                    Wake::Done
                } else {
                    Wake::Tell { id, unpark: u }
                }
            };
        let m = choose|m: int| #[trigger]
            ops.contains_key(m) && ops[m].sleeps() && ops[m].owns() == id;
        assert(m != i);
        assert(self.op_ok(ops, ops[m]));
        assert(self.pair_ok(ops[m], ops[i]));
        let park = ops[m].park();
        self.waiters@[id].lemma_unpark(park, unpark, w, u);
        assert(w.next == self.waiters@[id].next);
        assert(op.wakes() != 0 ==> op.wakes() == id && op.unpark() == u);
        assert(op.wakes() == 0 ==> !woken(gs, id)) by {
            if woken(gs, id) {
                let j = choose|j: int| #[trigger] gs.contains_key(j) && gs[j].wakes() == id;
                if j != i {
                    assert(ops.contains_key(j));
                    assert(self.pair_ok(ops[i], ops[j]));
                }
            }
        }
        assert forall|j: int| #[trigger] gs.contains_key(j) implies post.op_ok(gs, gs[j]) by {
            assert(ops.contains_key(j));
            assert(self.op_ok(ops, ops[j]));
            Self::lemma_same(ops, i, op, gs[j].owns());
            Self::lemma_same(ops, i, op, gs[j].wakes());
            if j != m {
                assert(self.pair_ok(ops[m], ops[j]));
            }
        }
        assert forall|j: int, k: int| #[trigger]
            gs.contains_key(j) && #[trigger] gs.contains_key(k) && j != k implies post.pair_ok(
            gs[j],
            gs[k],
        ) by {
            assert(ops.contains_key(j) && ops.contains_key(k));
            assert(self.pair_ok(ops[j], ops[k]));
            if j != m {
                assert(self.pair_ok(ops[m], ops[j]));
            }
            if k != i {
                assert(self.pair_ok(ops[i], ops[k]));
            }
        }
        assert forall|k: int| 0 <= k < post.list@.len() implies sleeper(gs, #[trigger] post.list@[k]) by {
            assert(sleeper(ops, self.list@[k]));
            Self::lemma_same(ops, i, op, self.list@[k]);
        }
    }

    /// Whatever threads go to sleep and wake others, one access of any that goes to sleep keeps
    /// the invariant. A thread puts its waiter on the list only if its condition held when it asked
    /// for it, after it had noted that somebody is waiting; and its sleep is over only once the
    /// waiter was taken off the list, or if the condition did not hold. Where it did not hold,
    /// it is noted that somebody waits just if somebody does.
    pub proof fn lemma_sleep(
        self,
        ops: Map<int, Op>,
        i: int,
        thread: usize,
        spurious: bool,
        again: bool,
        held: bool,
        post: Self,
        next: Sleep,
    )
        requires
            self.inv(ops),
            ops.contains_key(i),
            ops[i] is Sleep,
            self.sleep_next(ops[i]->Sleep_0, thread, spurious, again, held, post, next),
        ensures
            post.inv(ops.insert(i, Op::Sleep(next))),
            ops[i]->Sleep_0 is Ask ==> self.pending,
            post.list@ == if ops[i]->Sleep_0 is Ask && held {
                seq![ops[i].owns()] + self.list@
            } else {
                self.list@
            },
            Op::Sleep(next).owns() != 0 && ops[i].owns() != 0 ==> Op::Sleep(next).owns()
                == ops[i].owns(),
            next is Done && ops[i].sleeps() ==> !self.list@.contains(ops[i].owns()),
            ops[i].sleeps() ==> Op::Sleep(next).sleeps() || next is Done,
            ops[i]->Sleep_0 is Ask && !held ==> (post.pending <==> self.list@.len() > 0),
            ops[i]->Sleep_0 is Ask ==> (Op::Sleep(next).sleeps() <==> held),
            !ops[i].sleeps() && Op::Sleep(next).sleeps() ==> ops[i]->Sleep_0 is Ask,
            next is Done && !ops[i].sleeps() ==> ops[i]->Sleep_0 is Unlock
                || ops[i]->Sleep_0 is Done,
            next is Unlock ==> ops[i]->Sleep_0 is Unlock || ops[i]->Sleep_0 is Ask,
            !(ops[i]->Sleep_0 is Ask) ==> post.pending == (self.pending || next is Ask),
            next is Ask ==> post.pending && ops[i].lock_op() == Some(lock::Op::Lock(Locking::Held)),
    {
        let op = Op::Sleep(next);
        let ls = lock_ops(ops);
        Self::lemma_lock_ops(ops, i, op);
        assert(self.op_ok(ops, ops[i]));
        assert(ls.contains_key(i) == (ops[i].lock_op() is Some));
        if ls.contains_key(i) {
            assert(ls[i] == ops[i].lock_op()->0);
        }
        assert forall|j: int| #[trigger]
            ops.contains_key(j) && j != i && ops[j] == Op::Sleep(Sleep::Ask { id: ops[j].owns() })
            implies self.pending && ops[i].lock_op() != Some(lock::Op::Lock(Locking::Held)) by {
            assert(self.op_ok(ops, ops[j]));
            if ops[i].lock_op() == Some(lock::Op::Lock(Locking::Held)) {
                self.lemma_alone(ops, i, j);
            }
        }
        match ops[i]->Sleep_0 {
            Sleep::Start => {
                self.lemma_set_up(ops, i, thread, spurious, again, held, post, next);
            },
            Sleep::Lock { id, op: l } => {
                if l is Held {
                    assert(ls.insert(i, ls[i]) =~= ls);
                } else {
                    self.queue.lemma_lock(
                        ls,
                        i,
                        thread,
                        spurious && !(l is Try),
                        again,
                        post.queue,
                        next->Lock_op,
                    );
                }
                self.lemma_quiet(ops, i, op, post);
            },
            Sleep::Ask { id } => {
                if held {
                    self.lemma_enlist(ops, i, thread, spurious, again, post, next);
                } else {
                    self.queue.lemma_release(ls, i, self.queue.value);
                    self.lemma_quiet(ops, i, op, post);
                }
            },
            Sleep::Unlock { id, end, asleep } => {
                if end is Done {
                    if asleep {
                        self.queue.lemma_finish(ls, i);
                        self.lemma_quiet(ops, i, op, post);
                    } else {
                        self.lemma_retire(ops, i, post);
                    }
                } else {
                    self.queue.lemma_unlock(ls, i, false, true, post.queue, next->Unlock_end);
                    self.lemma_quiet(ops, i, op, post);
                }
            },
            Sleep::Park { id, park } => {
                if park is Done {
                    self.lemma_retire(ops, i, post);
                } else {
                    self.lemma_parked(ops, i, thread, spurious, again, held, post, next);
                }
            },
            Sleep::Done => {
                assert(ls.remove(i) =~= ls);
                self.lemma_quiet(ops, i, op, post);
            },
        }
    }

    /// Whatever threads go to sleep and wake others, one access of any that wakes another keeps
    /// the invariant. It finds that nobody is waiting only if the list is empty and nobody is
    /// asking for its condition; otherwise it takes the waiter that came last off the list, and it
    /// is over only once it has told the thread of that waiter to go on. It is noted that somebody
    /// waits just as long as the list is not empty. A thread that sleeps is woken by its number.
    pub proof fn lemma_wake(
        self,
        ops: Map<int, Op>,
        i: int,
        thread: usize,
        spurious: bool,
        again: bool,
        post: Self,
        next: Wake,
    )
        requires
            self.inv(ops),
            ops.contains_key(i),
            ops[i] is Wake,
            self.wake_next(ops[i]->Wake_0, thread, spurious, again, post, next),
        ensures
            post.inv(ops.insert(i, Op::Wake(next))),
            ops[i]->Wake_0 is Peek && next is Done ==> {
                &&& self.list@.len() == 0
                &&& forall|j: int| #[trigger]
                    ops.contains_key(j) ==> !(ops[j] is Sleep && ops[j]->Sleep_0 is Ask)
            },
            if ops[i] == Op::Wake(Wake::Lock { op: Locking::Held }) && self.list@.len() > 0 {
                &&& post.list@ == self.list@.skip(1)
                &&& Op::Wake(next).wakes() == self.list@[0]
            } else {
                &&& post.list@ == self.list@
                &&& ops[i] == Op::Wake(Wake::Lock { op: Locking::Held }) ==> Op::Wake(next).wakes()
                    == 0 && forall|j: int| #[trigger]
                    ops.contains_key(j) ==> !(ops[j] is Sleep && ops[j]->Sleep_0 is Ask)
            },
            ops[i]->Wake_0 is Peek ==> (next is Done <==> !self.pending),
            if Op::Wake(next).wakes() != 0 && ops[i].wakes() == 0 {
                post.pending <==> post.list@.len() > 0
            } else {
                post.pending == self.pending
            },
            ops[i].wakes() != 0 ==> {
                ||| Op::Wake(next).wakes() == ops[i].wakes()
                ||| next is Tell || next is Done && post.waiters@[ops[i].wakes()].parker
                    == Word::Notified
            },
            ops[i]->Wake_0 matches Wake::Tell { id, unpark } ==> (unpark is Release ==> next
                == Wake::Tell { id, unpark: Unpark::Wake(self.waiters@[id].place.thread->0) }),
            ops[i]->Wake_0 matches Wake::Tell { id, unpark } ==> (unpark is Swap
                && self.waiters@[id].parker == Word::Parked ==> next == Wake::Tell {
                id,
                unpark: Unpark::Release,
            }),
            next is Done ==> ops[i]->Wake_0 is Peek || ops[i]->Wake_0 is Done || ops[i]->Wake_0
                is Tell || ops[i]->Wake_0 is Unlock && ops[i].wakes() == 0,
    {
        let op = Op::Wake(next);
        let ls = lock_ops(ops);
        Self::lemma_lock_ops(ops, i, op);
        assert(self.op_ok(ops, ops[i]));
        assert(ls.contains_key(i) == (ops[i].lock_op() is Some));
        if ls.contains_key(i) {
            assert(ls[i] == ops[i].lock_op()->0);
        }
        assert forall|j: int| #[trigger]
            ops.contains_key(j) && ops[j] is Sleep && ops[j]->Sleep_0 is Ask implies self.pending
            && ops[i].lock_op() != Some(lock::Op::Lock(Locking::Held)) by {
            assert(self.op_ok(ops, ops[j]));
            if ops[i].lock_op() == Some(lock::Op::Lock(Locking::Held)) {
                self.lemma_alone(ops, i, j);
            }
        }
        match ops[i]->Wake_0 {
            Wake::Peek => {
                if next is Lock {
                    self.queue.lemma_start(ls, i);
                } else {
                    assert(ls.remove(i) =~= ls);
                }
                self.lemma_quiet(ops, i, op, post);
            },
            Wake::Lock { op: l } => {
                if l is Held {
                    if self.list@.len() > 0 {
                        self.lemma_pop(ops, i, thread, spurious, again, post, next);
                    } else {
                        self.queue.lemma_release(ls, i, self.queue.value);
                        self.lemma_quiet(ops, i, op, post);
                    }
                } else {
                    self.queue.lemma_lock(
                        ls,
                        i,
                        thread,
                        spurious && !(l is Try),
                        again,
                        post.queue,
                        next->Lock_op,
                    );
                    self.lemma_quiet(ops, i, op, post);
                }
            },
            Wake::Unlock { id, end } => {
                if end is Done {
                    self.queue.lemma_finish(ls, i);
                } else {
                    self.queue.lemma_unlock(ls, i, false, true, post.queue, next->Unlock_end);
                }
                self.lemma_quiet(ops, i, op, post);
            },
            Wake::Tell { id, unpark } => {
                if unpark is Swap || unpark is Release {
                    self.lemma_tell(ops, i, thread, spurious, again, post, next);
                } else {
                    assert(ls.remove(i) =~= ls);
                    self.lemma_quiet(ops, i, op, post);
                }
            },
            Wake::Done => {
                assert(ls.remove(i) =~= ls);
                self.lemma_quiet(ops, i, op, post);
            },
        }
    }

    /// An access of a thread that goes to sleep heeds what it is given: see [`Lock::heeds`]. The
    /// exchange of a lock that was seen free fails only if another thread came first. The thread
    /// sleeps under its own number.
    pub proof fn lemma_sleep_heeds(
        self,
        op: Sleep,
        thread: usize,
        spurious: bool,
        again: bool,
        held: bool,
        post: Self,
        next: Sleep,
    )
        requires
            self.sleep_next(op, thread, spurious, again, held, post, next),
        ensures
            op matches Sleep::Lock { id, op: l } ==> (!(l is Held) ==> {
                &&& next matches Sleep::Lock { id: own, op: o }
                &&& self.queue.heeds(l, thread, spurious && !(l is Try), again, post.queue, o)
            }),
            op matches Sleep::Unlock { id, end, asleep } ==> (!(end is Done) ==> {
                &&& next matches Sleep::Unlock { id: own, end: e, asleep: a }
                &&& self.queue.yields(end, false, true, e)
            }),
            op matches Sleep::Park { id, park } ==> {
                &&& park is Load && self.waiters@[id].parker != Word::Notified ==> (next
                    == Sleep::Park { id, park: Park::Load } <==> again)
                &&& park is Exchange && next == Sleep::Park { id, park: Park::Wait }
                    ==> post.waiters@[id].place.thread == Some(thread)
            },
    {
    }

    /// An access of a thread that wakes another heeds what it is given: see
    /// [`WaitQueue::lemma_sleep_heeds`].
    pub proof fn lemma_wake_heeds(
        self,
        op: Wake,
        thread: usize,
        spurious: bool,
        again: bool,
        post: Self,
        next: Wake,
    )
        requires
            self.wake_next(op, thread, spurious, again, post, next),
        ensures
            op matches Wake::Lock { op: l } ==> (!(l is Held) ==> {
                &&& next matches Wake::Lock { op: o }
                &&& self.queue.heeds(l, thread, spurious && !(l is Try), again, post.queue, o)
            }),
            op matches Wake::Unlock { id, end } ==> (!(end is Done) ==> {
                &&& next matches Wake::Unlock { id: own, end: e }
                &&& self.queue.yields(end, false, true, e)
            }),
    {
    }

    /// The access that any thread makes next finds what it needs.
    pub proof fn lemma_accepts(self, ops: Map<int, Op>, i: int, spurious: bool)
        requires
            self.inv(ops),
            ops.contains_key(i),
            ops[i] == Op::Sleep(Sleep::Start) ==> self.waiters.has_room(),
            ops[i].lock_op() matches Some(lock::Op::Lock(op)) && self.queue.adds_waiter(op, spurious)
                ==> self.queue.waiters.has_room(),
        ensures
            match ops[i] {
                Op::Sleep(op) => self.sleeping(op, spurious),
                Op::Wake(op) => self.waking(op, spurious),
            },
    {
        let ls = lock_ops(ops);
        assert(self.op_ok(ops, ops[i]));
        if ops[i].lock_op() is Some {
            assert(ls.contains_key(i) && ls[i] == ops[i].lock_op()->0);
            self.queue.lemma_accepts(ls, i, spurious);
        }
        match ops[i] {
            Op::Sleep(Sleep::Park { id, park }) => {
                if self.list@.contains(id) {
                } else if woken(ops, id) {
                    let j = choose|j: int| #[trigger] ops.contains_key(j) && ops[j].wakes() == id;
                    assert(j != i);
                    assert(self.pair_ok(ops[i], ops[j]));
                }
            },
            Op::Wake(Wake::Lock { op }) => {
                if op is Held && self.list@.len() > 0 {
                    assert(self.waiters@.contains_key(self.list@[0]));
                }
            },
            Op::Wake(Wake::Tell { id, unpark }) => {
                if unpark is Swap || unpark is Release {
                    let m = choose|m: int| #[trigger]
                        ops.contains_key(m) && ops[m].sleeps() && ops[m].owns() == id;
                    assert(self.op_ok(ops, ops[m]));
                    assert(self.pair_ok(ops[m], ops[i]));
                }
            },
            _ => {},
        }
    }

    /// A thread may begin to go to sleep or to wake another at any time, and what is over may be
    /// forgotten by beginning something else.
    pub proof fn lemma_start(self, ops: Map<int, Op>, i: int, op: Op)
        requires
            self.inv(ops),
            ops.contains_key(i) ==> ops[i].lock_op() is None && ops[i].owns() == 0
                && ops[i].wakes() == 0,
            op.lock_op() is None,
            op.owns() == 0,
            op.wakes() == 0,
            op.named(),
        ensures
            self.inv(ops.insert(i, op)),
    {
        let gs = ops.insert(i, op);
        Self::lemma_lock_ops(ops, i, op);
        assert(lock_ops(ops).remove(i) =~= lock_ops(ops));
        assert forall|j: int| #[trigger] gs.contains_key(j) implies self.op_ok(gs, gs[j]) by {
            if j != i {
                assert(ops.contains_key(j));
                assert(self.op_ok(ops, ops[j]));
                Self::lemma_started(ops, i, op, gs[j].owns());
                Self::lemma_started(ops, i, op, gs[j].wakes());
            }
        }
        assert forall|j: int, k: int| #[trigger]
            gs.contains_key(j) && #[trigger] gs.contains_key(k) && j != k implies self.pair_ok(
            gs[j],
            gs[k],
        ) by {
            if j != i && k != i {
                assert(ops.contains_key(j) && ops.contains_key(k));
                assert(self.pair_ok(ops[j], ops[k]));
            }
            if j != i {
                assert(self.op_ok(ops, ops[j]));
            }
        }
        assert forall|k: int| 0 <= k < self.list@.len() implies sleeper(gs, #[trigger] self.list@[k]) by {
            assert(sleeper(ops, self.list@[k]));
            Self::lemma_started(ops, i, op, self.list@[k]);
        }
    }

    /// Nobody new sleeps or is about to be told.
    proof fn lemma_started(ops: Map<int, Op>, i: int, op: Op, x: usize)
        requires
            ops.contains_key(i) ==> ops[i].owns() == 0 && ops[i].wakes() == 0,
            op.owns() == 0,
            op.wakes() == 0,
        ensures
            x != 0 ==> woken(ops.insert(i, op), x) == woken(ops, x),
            x != 0 ==> sleeper(ops.insert(i, op), x) == sleeper(ops, x),
    {
        let gs = ops.insert(i, op);
        if x != 0 && woken(ops, x) {
            let j = choose|j: int| #[trigger] ops.contains_key(j) && ops[j].wakes() == x;
            assert(gs.contains_key(j));
        }
        if x != 0 && woken(gs, x) {
            let j = choose|j: int| #[trigger] gs.contains_key(j) && gs[j].wakes() == x;
            assert(ops.contains_key(j));
        }
        if x != 0 && sleeper(ops, x) {
            let j = choose|j: int| #[trigger]
                ops.contains_key(j) && ops[j].sleeps() && ops[j].owns() == x;
            assert(gs.contains_key(j));
        }
        if x != 0 && sleeper(gs, x) {
            let j = choose|j: int| #[trigger]
                gs.contains_key(j) && gs[j].sleeps() && gs[j].owns() == x;
            assert(ops.contains_key(j));
        }
    }

    /// A thread that does nothing with the place may be forgotten.
    pub proof fn lemma_finish(self, ops: Map<int, Op>, i: int)
        requires
            self.inv(ops),
            ops.contains_key(i),
            ops[i].lock_op() is None,
            ops[i].owns() == 0,
            ops[i].wakes() == 0,
        ensures
            self.inv(ops.remove(i)),
    {
        let gs = ops.remove(i);
        assert(lock_ops(gs) =~= lock_ops(ops));
        assert forall|x: usize| x != 0 && #[trigger] sleeper(ops, x) implies sleeper(gs, x) by {
            let j = choose|j: int| #[trigger]
                ops.contains_key(j) && ops[j].sleeps() && ops[j].owns() == x;
            assert(gs.contains_key(j));
        }
        assert forall|x: usize| x != 0 && #[trigger] woken(ops, x) implies woken(gs, x) by {
            let j = choose|j: int| #[trigger] ops.contains_key(j) && ops[j].wakes() == x;
            assert(gs.contains_key(j));
        }
        assert forall|j: int| #[trigger] gs.contains_key(j) implies self.op_ok(gs, gs[j]) by {
            assert(ops.contains_key(j));
            assert(self.op_ok(ops, ops[j]));
            if woken(ops, ops[j].owns()) {
                assert(ops[j].owns() != 0 ==> woken(gs, ops[j].owns()));
            }
        }
        assert forall|j: int, k: int| #[trigger]
            gs.contains_key(j) && #[trigger] gs.contains_key(k) && j != k implies self.pair_ok(
            gs[j],
            gs[k],
        ) by {
            assert(ops.contains_key(j) && ops.contains_key(k));
        }
    }

    /// Wakes nobody, because nobody waits: the place is left exactly as it was, whether or not it
    /// says that somebody may be waiting.
    pub fn unpark_none(&mut self)
        requires
            old(self).inv(Map::empty()),
        ensures
            *final(self) == *old(self),
            final(self).queue.value is None,
            final(self).list@.len() == 0,
    {
        let ghost ops = Map::<int, Op>::empty();
        proof {
            assert(lock_ops(ops) =~= Map::empty());
            self.queue.lemma_rest();
            if self.list@.len() > 0 {
                assert(sleeper(ops, self.list@[0]));
            }
        }
        if self.pending {
            self.queue.lock();
            self.queue.unlock();
        }
    }
}

} // verus!
