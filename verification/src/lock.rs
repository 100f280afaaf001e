//! A lock whose waiters sleep in a stack.
//!
//! The low bit of the state says that the lock is held; the rest points to the waiter that came
//! last. A thread that does not get the lock puts its waiter on the stack and sleeps. The holder
//! that gives the lock back takes the top waiter off the stack and tells its thread to try again.
use crate::arena::Arena;
use crate::shared::{Park, Pointer, Unpark, Waiter, Word};
use vstd::prelude::*;

verus! {

/// A value that only the holder of the lock may touch.
pub struct Lock<T> {
    pub state: Pointer,
    pub value: T,
    pub waiters: Arena<Waiter, 2>,
    /// The waiters on the stack, the one that came last first.
    pub stack: Ghost<Seq<usize>>,
}

/// The part of an attempt to get the lock that comes next. `id` is the thread's waiter.
pub enum Locking {
    /// Exchange the state of a free lock without waiters.
    Fast,
    /// Load the state; `lost` if another thread won the last exchange.
    Load { id: usize, lost: bool },
    /// The lock was seen held: spin a little, or go to sleep.
    Check { id: usize, seen: Pointer },
    /// The lock was seen free: exchange the state for one that says that it is held.
    Try { id: usize, seen: Pointer },
    /// Exchange the state for one that points to the waiter.
    Push { id: usize, seen: Pointer },
    /// Sleep until a holder tells the thread to try again.
    Park { id: usize, park: Park },
    /// The thread holds the lock.
    Held,
}

/// The part of giving the lock back that comes next.
pub enum Unlocking {
    /// Exchange the state of a lock without waiters.
    Fast,
    /// Load the state; `lost` if another thread won the last exchange.
    Load { lost: bool },
    /// Exchange the state for one without the top waiter.
    Pop { seen: Pointer },
    /// Tell the thread of that waiter to try again.
    Wake { id: usize, unpark: Unpark },
    /// The lock was given back.
    Done,
}

/// What a thread does with the lock.
pub enum Op {
    Lock(Locking),
    Unlock(Unlocking),
}

/// The lock is held.
pub open spec fn locked(state: Pointer) -> bool {
    state.addr % 2 == 1
}

/// The waiter that the state points to.
pub open spec fn top(state: Pointer) -> usize {
    state.cell(2) as usize
}

/// What to do about a state that was seen.
pub open spec fn look(id: usize, seen: Pointer) -> Locking {
    if locked(seen) {
        Locking::Check { id, seen }
    } else {
        Locking::Try { id, seen }
    }
}

impl Locking {
    /// The thread's waiter, if it has one.
    pub open spec fn id(self) -> usize {
        match self {
            Locking::Load { id, lost } => id,
            Locking::Check { id, seen } => id,
            Locking::Try { id, seen } => id,
            Locking::Push { id, seen } => id,
            Locking::Park { id, park } => id,
            _ => 0,
        }
    }
}

impl Op {
    /// The thread holds the lock, or has not yet given it back.
    pub open spec fn holds(self) -> bool {
        match self {
            Op::Lock(op) => op is Held,
            Op::Unlock(op) => op is Fast || op is Load || op is Pop,
        }
    }

    /// The waiter of the thread.
    pub open spec fn owns(self) -> usize {
        match self {
            Op::Lock(op) => op.id(),
            Op::Unlock(_) => 0,
        }
    }

    /// The waiter whose thread is about to be told to try again.
    pub open spec fn wakes(self) -> usize {
        match self {
            Op::Unlock(Unlocking::Wake { id, unpark }) => if unpark is Swap || unpark is Release {
                id
            } else {
                0
            },
            _ => 0,
        }
    }
}

impl<T> Lock<T> {
    /// The waiters form a list through which the stack can be walked.
    pub open spec fn stack_ok(self) -> bool {
        let s = self.stack@;
        &&& top(self.state) == if s.len() > 0 {
            s[0]
        } else {
            0
        }
        &&& forall|k: int|
            0 <= k < s.len() ==> {
                &&& self.waiters@.contains_key(#[trigger] s[k])
                &&& self.waiters@[s[k]].next == if k + 1 < s.len() {
                    Some(s[k + 1])
                } else {
                    None
                }
            }
        &&& forall|j: int, k: int| 0 <= j < k < s.len() ==> #[trigger] s[j] != #[trigger] s[k]
    }

    /// Some thread is about to tell the thread of the waiter to try again.
    pub open spec fn woken(ops: Map<int, Op>, id: usize) -> bool {
        exists|j: int| #[trigger] ops.contains_key(j) && ops[j].wakes() == id
    }

    /// What holds of an attempt to get the lock.
    pub open spec fn locking_ok(self, ops: Map<int, Op>, op: Locking) -> bool {
        let id = op.id();
        &&& id != 0 ==> self.waiters@.contains_key(id)
        &&& match op {
            Locking::Fast => true,
            Locking::Held => true,
            Locking::Park { id, park } => {
                &&& id != 0
                &&& if self.stack@.contains(id) {
                    self.waiters@[id].handshake(park, Unpark::Swap) && !Self::woken(ops, id)
                } else {
                    !Self::woken(ops, id) ==> self.waiters@[id].handshake(park, Unpark::Done)
                }
            },
            _ => {
                &&& id != 0
                &&& self.waiters@[id].parker == Word::Empty
                &&& !self.stack@.contains(id)
                &&& !Self::woken(ops, id)
            },
        }
        &&& match op {
            Locking::Check { id, seen } => locked(seen),
            Locking::Try { id, seen } => !locked(seen),
            Locking::Push { id, seen } => locked(seen),
            _ => true,
        }
    }

    /// Some thread sleeps, or is about to, in the place of the waiter, or was told to go on there.
    pub open spec fn sleeper(ops: Map<int, Op>, id: usize) -> bool {
        exists|i: int| #[trigger]
            ops.contains_key(i) && (ops[i] matches Op::Lock(Locking::Park { id: own, park }) && own
                == id)
    }

    /// What holds of a thread that gives the lock back.
    pub open spec fn unlocking_ok(self, ops: Map<int, Op>, op: Unlocking) -> bool {
        match op {
            Unlocking::Load { lost } => self.stack@.len() > 0,
            Unlocking::Pop { seen } => locked(seen) && self.stack@.contains(top(seen)),
            Unlocking::Wake { id, unpark } => unpark is Swap || unpark is Release ==> {
                &&& id != 0
                &&& !self.stack@.contains(id)
                &&& exists|i: int| #[trigger]
                    ops.contains_key(i) && (ops[i] matches Op::Lock(
                        Locking::Park { id: own, park },
                    ) && own == id && self.waiters@.contains_key(id)
                        && self.waiters@[id].handshake(park, unpark))
            },
            _ => true,
        }
    }

    /// What holds of a thread's operation.
    pub open spec fn op_ok(self, ops: Map<int, Op>, op: Op) -> bool {
        match op {
            Op::Lock(op) => self.locking_ok(ops, op),
            Op::Unlock(op) => self.unlocking_ok(ops, op),
        }
    }

    /// A thread that tries to get the lock is not asleep on the stack.
    pub open spec fn awake(self, op: Op) -> bool {
        op matches Op::Lock(op) && !(op is Held) && !self.stack@.contains(op.id())
    }

    /// The invariant of the lock together with the operations that are under way.
    pub open spec fn inv(self, ops: Map<int, Op>) -> bool {
        &&& self.waiters.wf()
        &&& self.stack_ok()
        &&& locked(self.state) <==> exists|i: int| #[trigger] ops.contains_key(i) && ops[i].holds()
        &&& forall|i: int, j: int| #[trigger]
            ops.contains_key(i) && #[trigger] ops.contains_key(j) && i != j ==> {
                &&& !(ops[i].holds() && ops[j].holds())
                &&& ops[i].owns() != 0 ==> ops[i].owns() != ops[j].owns()
                &&& ops[i].wakes() != 0 ==> ops[i].wakes() != ops[j].wakes()
            }
        &&& forall|i: int| #[trigger] ops.contains_key(i) ==> self.op_ok(ops, ops[i])
        &&& forall|k: int|
            0 <= k < self.stack@.len() ==> Self::sleeper(ops, #[trigger] self.stack@[k])
        &&& !locked(self.state) && self.stack@.len() > 0 ==> exists|i: int| #[trigger]
            ops.contains_key(i) && self.awake(ops[i])
    }

    /// A free lock.
    pub fn new(value: T) -> (lock: Self)
        ensures
            lock.inv(Map::empty()),
            lock.value == value,
            !locked(lock.state),
            lock.waiters.room() == (usize::MAX - 2) / 2,
            lock.stack@.len() == 0,
    {
        Lock {
            state: Pointer { addr: 0 },
            value,
            waiters: Arena::new(),
            stack: Ghost(Seq::empty()),
        }
    }

    /// The next access of an attempt to get the lock puts a waiter on the heap: its first one, if
    /// the lock is not free or the exchange fails though it need not.
    pub open spec fn adds_waiter(self, op: Locking, spurious: bool) -> bool {
        op is Fast && (self.state.addr != 0 || spurious)
    }

    /// The next access of an attempt to get the lock finds what it needs.
    pub open spec fn locks(self, op: Locking, spurious: bool) -> bool {
        &&& self.waiters.wf()
        &&& op.id() != 0 ==> self.waiters@.contains_key(op.id())
        &&& match op {
            Locking::Fast => self.adds_waiter(op, spurious) ==> self.waiters.has_room(),
            Locking::Try { id, seen } => id != 0 && !locked(seen),
            Locking::Push { id, seen } => id != 0,
            Locking::Park { id, park } => id != 0 && self.waiters@[id].parks(park),
            _ => true,
        }
    }

    /// The next access of a thread that gives the lock back finds what it needs.
    pub open spec fn unlocks(self, op: Unlocking) -> bool {
        &&& self.waiters.wf()
        &&& match op {
            Unlocking::Pop { seen } => self.waiters@.contains_key(top(seen)),
            Unlocking::Wake { id, unpark } => unpark is Swap || unpark is Release ==> {
                &&& self.waiters@.contains_key(id)
                &&& self.waiters@[id].unparks(unpark)
            },
            _ => true,
        }
    }

    /// One access of an attempt of `thread` to get the lock. A weak exchange may fail though it
    /// need not (`spurious`), and the thread may want to spin `again` before it goes to sleep.
    pub open spec fn lock_next(
        self,
        op: Locking,
        thread: usize,
        spurious: bool,
        again: bool,
        post: Self,
        next: Locking,
    ) -> bool {
        &&& post.value == self.value
        &&& match op {
            Locking::Fast => {
                &&& post.stack == self.stack
                &&& if self.state.addr == 0 && !spurious {
                    &&& post.state.addr == 1
                    &&& post.waiters == self.waiters
                    &&& next == Locking::Held
                } else {
                    let id = self.waiters.fresh();
                    &&& post.state == self.state
                    &&& post.waiters.wf()
                    &&& exists|w: Waiter|
                        w.parker == Word::Empty && #[trigger] self.waiters@.insert(id, w)
                            == post.waiters@
                    &&& next == Locking::Load { id, lost: false }
                }
            },
            Locking::Load { id, lost } => post == self && next == look(id, self.state),
            Locking::Check { id, seen } => post == self && next == if top(seen) == 0 && again {
                Locking::Load { id, lost: false }
            } else {
                Locking::Push { id, seen }
            },
            Locking::Try { id, seen } => {
                &&& post.stack == self.stack
                &&& if self.state == seen && !spurious {
                    &&& post.state.addr == seen.addr + 1
                    &&& post.waiters.wf()
                    &&& post.waiters@ == self.waiters@.remove(id)
                    &&& next == Locking::Held
                } else {
                    post == self && next == Locking::Load { id, lost: true }
                }
            },
            Locking::Push { id, seen } => {
                let w = Waiter {
                    next: if top(seen) == 0 {
                        None
                    } else {
                        Some(top(seen))
                    },
                    ..self.waiters@[id]
                };
                &&& post.waiters.wf()
                &&& post.waiters@ == self.waiters@.insert(id, w)
                &&& if self.state == seen && !spurious {
                    &&& post.state.addr == id + 1
                    &&& post.stack@ == seq![id] + self.stack@
                    &&& next == Locking::Park { id, park: Park::Load }
                } else {
                    post.state == self.state && post.stack == self.stack && next == look(
                        id,
                        self.state,
                    )
                }
            },
            Locking::Park { id, park } => {
                &&& post.state == self.state
                &&& post.stack == self.stack
                &&& post.waiters.wf()
                &&& exists|w: Waiter, p: Park|
                    {
                        &&& #[trigger] self.waiters@[id].park_next(park, thread, again, w, p)
                        &&& post.waiters@ == self.waiters@.insert(id, w)
                        &&& next == if p is Done {
                            Locking::Load { id, lost: false }
                        } else {
                            Locking::Park { id, park: p }
                        }
                    }
            },
            Locking::Held => post == self && next == op,
        }
    }

    /// One access of a thread that gives the lock back. After an exchange that another thread won
    /// it loads the state again (`reload`), or goes on with the state that the exchange has found.
    pub open spec fn unlock_next(
        self,
        op: Unlocking,
        spurious: bool,
        reload: bool,
        post: Self,
        next: Unlocking,
    ) -> bool {
        &&& post.value == self.value
        &&& match op {
            Unlocking::Fast => if self.state.addr == 1 {
                &&& post.state.addr == 0
                &&& post.stack == self.stack
                &&& post.waiters == self.waiters
                &&& next == Unlocking::Done
            } else {
                post == self && next == Unlocking::Load { lost: false }
            },
            Unlocking::Load { lost } => post == self && next == Unlocking::Pop { seen: self.state },
            Unlocking::Pop { seen } => if self.state == seen && !spurious {
                &&& post.state.addr == match self.waiters@[top(seen)].next {
                    Some(id) => id,
                    None => 0,
                }
                &&& post.stack@ == self.stack@.skip(1)
                &&& post.waiters == self.waiters
                &&& next == Unlocking::Wake { id: top(seen), unpark: Unpark::Swap }
            } else {
                post == self && next == if reload {
                    Unlocking::Load { lost: true }
                } else {
                    Unlocking::Pop { seen: self.state }
                }
            },
            Unlocking::Wake { id, unpark } => {
                &&& post.state == self.state
                &&& post.stack == self.stack
                &&& if unpark is Swap || unpark is Release {
                    &&& post.waiters.wf()
                    &&& exists|w: Waiter, u: Unpark|
                        {
                            &&& #[trigger] self.waiters@[id].unpark_next(unpark, w, u)
                            &&& post.waiters@ == self.waiters@.insert(id, w)
                            &&& next == if u is Done {
                                Unlocking::Done
                            } else {
                                Unlocking::Wake { id, unpark: u }
                            }
                        }
                } else {
                    post.waiters == self.waiters && next == Unlocking::Done
                }
            },
            Unlocking::Done => post == self && next == op,
        }
    }

    /// What to do about a state that was seen.
    fn look(id: usize, seen: Pointer) -> (next: Locking)
        ensures
            next == look(id, seen),
    {
        if seen.tag(2) == 1 {
            Locking::Check { id, seen }
        } else {
            Locking::Try { id, seen }
        }
    }

    /// Performs one access of an attempt of `thread` to get the lock.
    pub fn lock_step(&mut self, op: Locking, thread: usize, spurious: bool, again: bool) -> (next:
        Locking)
        requires
            old(self).locks(op, spurious),
        ensures
            old(self).lock_next(op, thread, spurious, again, *final(self), next),
    {
        match op {
            Locking::Fast => if self.state.addr == 0 && !spurious {
                self.state = Pointer { addr: 1 };
                Locking::Held
            } else {
                let id: usize = self.waiters.allocate(Waiter::new());
                Locking::Load { id, lost: false }
            },
            Locking::Load { id, lost } => Self::look(id, self.state),
            Locking::Check { id, seen } => if seen.untagged(2) == 0 && again {
                Locking::Load { id, lost: false }
            } else {
                Locking::Push { id, seen }
            },
            Locking::Try { id, seen } => if self.state == seen && !spurious {
                self.state = Pointer::tagged(seen.untagged(2), 1, 2);
                self.waiters.free(id);
                Locking::Held
            } else {
                Locking::Load { id, lost: true }
            },
            Locking::Push { id, seen } => {
                let head: usize = seen.untagged(2);
                let mut waiter = self.waiters.lend(id);
                waiter.next = if head == 0 {
                    None
                } else {
                    Some(head)
                };
                self.waiters.put(id, waiter);
                assert(self.waiters@ =~= old(self).waiters@.insert(id, waiter));
                if self.state == seen && !spurious {
                    self.state = Pointer::tagged(id, 1, 2);
                    self.stack = Ghost(seq![id] + self.stack@);
                    Locking::Park { id, park: Park::Load }
                } else {
                    Self::look(id, self.state)
                }
            },
            Locking::Park { id, park } => {
                let mut waiter = self.waiters.lend(id);
                let ghost before = waiter;
                let next = waiter.park(park, thread, again);
                let ghost after = waiter;
                self.waiters.put(id, waiter);
                assert(self.waiters@ =~= old(self).waiters@.insert(id, after));
                assert(old(self).waiters@[id].park_next(park, thread, again, after, next));
                if let Park::Done = next {
                    Locking::Load { id, lost: false }
                } else {
                    Locking::Park { id, park: next }
                }
            },
            Locking::Held => Locking::Held,
        }
    }

    /// Performs one access of a thread that gives the lock back.
    pub fn unlock_step(&mut self, op: Unlocking, spurious: bool, reload: bool) -> (next: Unlocking)
        requires
            old(self).unlocks(op),
        ensures
            old(self).unlock_next(op, spurious, reload, *final(self), next),
    {
        match op {
            Unlocking::Fast => if self.state.addr == 1 {
                self.state = Pointer { addr: 0 };
                Unlocking::Done
            } else {
                Unlocking::Load { lost: false }
            },
            Unlocking::Load { lost } => Unlocking::Pop { seen: self.state },
            Unlocking::Pop { seen } => {
                let id: usize = seen.untagged(2);
                let below = self.waiters.get(id).next;
                if self.state == seen && !spurious {
                    let addr: usize = match below {
                        Some(next) => next,
                        None => 0,
                    };
                    self.state = Pointer { addr };
                    self.stack = Ghost(self.stack@.skip(1));
                    Unlocking::Wake { id, unpark: Unpark::Swap }
                } else if reload {
                    Unlocking::Load { lost: true }
                } else {
                    Unlocking::Pop { seen: self.state }
                }
            },
            Unlocking::Wake { id, unpark } => match unpark {
                Unpark::Wake(_) => Unlocking::Done,
                Unpark::Done => Unlocking::Done,
                unpark => {
                    let mut waiter = self.waiters.lend(id);
                    let next = waiter.unpark(unpark);
                    let ghost after = waiter;
                    self.waiters.put(id, waiter);
                    assert(self.waiters@ =~= old(self).waiters@.insert(id, after));
                    assert(old(self).waiters@[id].unpark_next(unpark, after, next));
                    if let Unpark::Done = next {
                        Unlocking::Done
                    } else {
                        Unlocking::Wake { id, unpark: next }
                    }
                },
            },
            Unlocking::Done => Unlocking::Done,
        }
    }

    /// The access that any operation makes next finds what it needs.
    pub proof fn lemma_accepts(self, ops: Map<int, Op>, i: int, spurious: bool)
        requires
            self.inv(ops),
            ops.contains_key(i),
            ops[i] matches Op::Lock(op) && self.adds_waiter(op, spurious)
                ==> self.waiters.has_room(),
        ensures
            match ops[i] {
                Op::Lock(op) => self.locks(op, spurious),
                Op::Unlock(op) => self.unlocks(op),
            },
    {
        assert(self.op_ok(ops, ops[i]));
        match ops[i] {
            Op::Lock(Locking::Park { id, park }) => {
                if Self::woken(ops, id) {
                    let j = choose|j: int| #[trigger] ops.contains_key(j) && ops[j].wakes() == id;
                    assert(self.op_ok(ops, ops[j]));
                }
            },
            _ => {},
        }
    }

    /// Whether a waiter's thread is about to be told depends only on who is about to tell.
    proof fn lemma_woken(ops: Map<int, Op>, i: int, op: Op, id: usize)
        requires
            ops.contains_key(i),
            id != 0,
            op.wakes() == ops[i].wakes() || (op.wakes() != id && ops[i].wakes() != id),
        ensures
            Self::woken(ops.insert(i, op), id) == Self::woken(ops, id),
    {
        let gs = ops.insert(i, op);
        if Self::woken(ops, id) {
            let j = choose|j: int| #[trigger] ops.contains_key(j) && ops[j].wakes() == id;
            assert(gs.contains_key(j));
            assert(gs[j].wakes() == id);
        }
        if Self::woken(gs, id) {
            let j = choose|j: int| #[trigger] gs.contains_key(j) && gs[j].wakes() == id;
            assert(ops.contains_key(j));
            assert(ops[j].wakes() == id);
        }
    }

    /// The waiter of another thread is not that of this one.
    proof fn lemma_others(self, ops: Map<int, Op>, i: int, j: int)
        requires
            self.inv(ops),
            ops.contains_key(i),
            ops.contains_key(j),
            i != j,
            ops[i] is Lock,
        ensures
            ops[i].owns() != 0 ==> ops[j].owns() != ops[i].owns(),
            !(ops[i]->Lock_0 is Park) && ops[i].owns() != 0 ==> ops[j].wakes() != ops[i].owns(),
            ops[j].owns() != 0 ==> self.waiters@.contains_key(ops[j].owns()),
            ops[j].wakes() != 0 ==> self.waiters@.contains_key(ops[j].wakes()),
    {
        assert(self.op_ok(ops, ops[j]));
        assert(self.op_ok(ops, ops[i]));
        if !(ops[i]->Lock_0 is Park) && ops[i].owns() != 0 {
            assert(!Self::woken(ops, ops[i].owns()));
        }
    }

    /// Mutual exclusion, and no thread sleeps for ever beside a free lock: whatever threads get
    /// the lock and give it back, one access of any that tries to get it keeps the invariant. So
    /// at most one thread holds the lock, and while the lock is free and threads sleep on the
    /// stack, some thread that tries to get the lock is awake.
    pub proof fn lemma_lock(
        self,
        ops: Map<int, Op>,
        i: int,
        thread: usize,
        spurious: bool,
        again: bool,
        post: Self,
        next: Locking,
    )
        requires
            self.inv(ops),
            ops.contains_key(i),
            ops[i] is Lock,
            self.lock_next(ops[i]->Lock_0, thread, spurious, again, post, next),
        ensures
            post.inv(ops.insert(i, Op::Lock(next))),
            post.value == self.value,
    {
        let op = ops[i]->Lock_0;
        let gs = ops.insert(i, Op::Lock(next));
        let own = op.id();
        let s = self.stack@;
        assert(self.op_ok(ops, ops[i]));
        assert(gs.contains_key(i));
        assert forall|j: int| #[trigger] gs.contains_key(j) implies ops.contains_key(j) by {}
        assert forall|x: usize| x != 0 implies #[trigger] Self::woken(gs, x) == Self::woken(
            ops,
            x,
        ) by {
            Self::lemma_woken(ops, i, Op::Lock(next), x);
        }
        let mine = next.id();
        assert(op is Fast && mine != 0 ==> mine == self.waiters.fresh());
        assert(!(op is Fast) && mine != 0 ==> mine == own);
        assert forall|x: usize| x != own && x != mine implies (#[trigger] post.waiters@.contains_key(
            x,
        ) == self.waiters@.contains_key(x)) && (self.waiters@.contains_key(x) ==> post.waiters@[x]
            == self.waiters@[x]) by {}
        // What the threads on the stack do.
        assert forall|k: int| 0 <= k < s.len() implies s[k] != mine || op is Park by {
            assert(self.waiters@.contains_key(s[k]));
            assert(s.contains(s[k]));
        }
        if op is Push && next is Park {
            self.lemma_pushed(ops, i, thread, spurious, again, post, next);
        } else {
            assert(post.stack == self.stack);
            assert forall|k: int| 0 <= k < s.len() implies {
                &&& post.waiters@.contains_key(#[trigger] s[k])
                &&& post.waiters@[s[k]].next == self.waiters@[s[k]].next
            } by {
                assert(s.contains(s[k]));
                assert(self.waiters@.contains_key(s[k]));
                if s[k] == own {
                    assert(op is Park);
                }
            }
            assert(post.stack_ok());
            self.lemma_lock_ops(ops, i, thread, spurious, again, post, next);
            assert forall|k: int| 0 <= k < post.stack@.len() implies Self::sleeper(
                gs,
                #[trigger] post.stack@[k],
            ) by {
                let x = s[k];
                assert(Self::sleeper(ops, x));
                let j = choose|j: int| #[trigger]
                    ops.contains_key(j) && (ops[j] matches Op::Lock(
                        Locking::Park { id: o, park },
                    ) && o == x);
                assert(gs.contains_key(j));
                if j == i {
                    assert(s.contains(x));
                    assert(next is Park);
                }
            }
            // Who holds the lock.
            if next is Held && !(op is Held) {
                assert(!locked(self.state));
                assert(gs[i].holds());
            } else {
                assert(locked(post.state) == locked(self.state));
                if locked(self.state) {
                    let j = choose|j: int| #[trigger] ops.contains_key(j) && ops[j].holds();
                    assert(gs.contains_key(j) && gs[j].holds());
                }
            }
            assert forall|a: int, b: int| #[trigger]
                gs.contains_key(a) && #[trigger] gs.contains_key(b) && a != b implies {
                &&& !(gs[a].holds() && gs[b].holds())
                &&& gs[a].owns() != 0 ==> gs[a].owns() != gs[b].owns()
                &&& gs[a].wakes() != 0 ==> gs[a].wakes() != gs[b].wakes()
            } by {
                assert(ops.contains_key(a) && ops.contains_key(b));
                if a == i {
                    self.lemma_others(ops, i, b);
                } else if b == i {
                    self.lemma_others(ops, i, a);
                }
            }
            // Who is awake.
            if !locked(post.state) && post.stack@.len() > 0 {
                let j = choose|j: int| #[trigger] ops.contains_key(j) && self.awake(ops[j]);
                assert(gs.contains_key(j));
                if j == i {
                    assert(post.awake(gs[i]));
                } else {
                    assert(post.awake(gs[j]));
                }
            }
        }
    }

    /// The operations of the threads after an access that does not change the stack.
    proof fn lemma_lock_ops(
        self,
        ops: Map<int, Op>,
        i: int,
        thread: usize,
        spurious: bool,
        again: bool,
        post: Self,
        next: Locking,
    )
        requires
            self.inv(ops),
            ops.contains_key(i),
            ops[i] is Lock,
            self.lock_next(ops[i]->Lock_0, thread, spurious, again, post, next),
            post.stack == self.stack,
        ensures
            forall|j: int| #[trigger]
                ops.contains_key(j) ==> post.op_ok(
                    ops.insert(i, Op::Lock(next)),
                    ops.insert(i, Op::Lock(next))[j],
                ),
            ops[i]->Lock_0 is Park && self.stack@.contains(ops[i].owns()) ==> next is Park,
    {
        let op = ops[i]->Lock_0;
        let gs = ops.insert(i, Op::Lock(next));
        let own = op.id();
        let mine = next.id();
        assert(self.op_ok(ops, ops[i]));
        assert(gs.contains_key(i));
        assert forall|x: usize| x != 0 implies #[trigger] Self::woken(gs, x) == Self::woken(
            ops,
            x,
        ) by {
            Self::lemma_woken(ops, i, Op::Lock(next), x);
        }
        if let Locking::Park { id, park } = op {
            let (w, p) = choose|w: Waiter, p: Park|
                {
                    &&& #[trigger] self.waiters@[id].park_next(park, thread, again, w, p)
                    &&& post.waiters@ == self.waiters@.insert(id, w)
                    &&& next == if p is Done {
                        Locking::Load { id, lost: false }
                    } else {
                        Locking::Park { id, park: p }
                    }
                };
            if Self::woken(ops, id) {
                let j = choose|j: int| #[trigger] ops.contains_key(j) && ops[j].wakes() == id;
                assert(self.op_ok(ops, ops[j]));
                let u = ops[j]->Unlock_0->Wake_unpark;
                let k = choose|k: int| #[trigger]
                    ops.contains_key(k) && (ops[k] matches Op::Lock(
                        Locking::Park { id: o, park: q },
                    ) && o == id && self.waiters@.contains_key(id)
                        && self.waiters@[id].handshake(q, u));
                assert(k == i);
                self.waiters@[id].lemma_park(park, u, thread, again, w, p);
            } else if self.stack@.contains(id) {
                self.waiters@[id].lemma_park(park, Unpark::Swap, thread, again, w, p);
            } else {
                self.waiters@[id].lemma_park(park, Unpark::Done, thread, again, w, p);
            }
        }
        assert forall|j: int| #[trigger] ops.contains_key(j) implies post.op_ok(gs, gs[j]) by {
            assert(self.op_ok(ops, ops[j]));
            if j != i {
                self.lemma_others(ops, i, j);
                match ops[j] {
                    Op::Lock(other) => {
                        if other.id() != 0 {
                            assert(other.id() != mine);
                        }
                    },
                    Op::Unlock(Unlocking::Wake { id, unpark }) => {
                        if unpark is Swap || unpark is Release {
                            let k = choose|k: int| #[trigger]
                                ops.contains_key(k) && (ops[k] matches Op::Lock(
                                    Locking::Park { id: o, park: q },
                                ) && o == id && self.waiters@.contains_key(id)
                                    && self.waiters@[id].handshake(q, unpark));
                            assert(gs.contains_key(k));
                            if k == i {
                                assert(Self::woken(ops, id));
                                assert(next is Park);
                            } else {
                                self.lemma_others(ops, i, k);
                                assert(id != own);
                                assert(id != mine);
                            }
                        }
                    },
                    _ => {},
                }
            } else {
                if op is Fast && mine != 0 {
                    if Self::woken(ops, mine) {
                        let k = choose|k: int| #[trigger]
                            ops.contains_key(k) && ops[k].wakes() == mine;
                        assert(self.op_ok(ops, ops[k]));
                    }
                    if self.stack@.contains(mine) {
                        let k = choose|k: int|
                            0 <= k < self.stack@.len() && self.stack@[k] == mine;
                        assert(self.waiters@.contains_key(self.stack@[k]));
                    }
                }
            }
        }
    }

    /// What holds after a thread has put its waiter on the stack.
    proof fn lemma_pushed(
        self,
        ops: Map<int, Op>,
        i: int,
        thread: usize,
        spurious: bool,
        again: bool,
        post: Self,
        next: Locking,
    )
        requires
            self.inv(ops),
            ops.contains_key(i),
            ops[i] is Lock,
            ops[i]->Lock_0 is Push,
            next is Park,
            self.lock_next(ops[i]->Lock_0, thread, spurious, again, post, next),
        ensures
            post.inv(ops.insert(i, Op::Lock(next))),
    {
        let op = ops[i]->Lock_0;
        let gs = ops.insert(i, Op::Lock(next));
        let own = op.id();
        let s = self.stack@;
        assert(self.op_ok(ops, ops[i]));
        assert(gs.contains_key(i));
        assert forall|x: usize| x != 0 implies #[trigger] Self::woken(gs, x) == Self::woken(
            ops,
            x,
        ) by {
            Self::lemma_woken(ops, i, Op::Lock(next), x);
        }
        assert(own % 2 == 0);
        assert(top(post.state) == own);
        assert(post.stack@ =~= seq![own] + s);
        assert forall|k: int| 0 <= k < s.len() implies {
            &&& #[trigger] s[k] != own
            &&& post.waiters@.contains_key(s[k])
            &&& post.waiters@[s[k]] == self.waiters@[s[k]]
        } by {
            assert(s.contains(s[k]));
        }
        assert forall|k: int| 0 <= k < post.stack@.len() implies {
            &&& post.waiters@.contains_key(#[trigger] post.stack@[k])
            &&& post.waiters@[post.stack@[k]].next == if k + 1 < post.stack@.len() {
                Some(post.stack@[k + 1])
            } else {
                None
            }
        } by {
            if k > 0 {
                assert(post.stack@[k] == s[k - 1]);
            }
            if k + 1 < post.stack@.len() {
                assert(post.stack@[k + 1] == s[k]);
            }
        }
        assert forall|j: int, k: int| 0 <= j < k < post.stack@.len() implies #[trigger] post.stack@[j]
            != #[trigger] post.stack@[k] by {
            assert(post.stack@[k] == s[k - 1]);
            if j > 0 {
                assert(post.stack@[j] == s[j - 1]);
            }
        }
        assert(post.stack_ok());
        assert forall|x: usize| #[trigger] post.stack@.contains(x) == (s.contains(x) || x == own) by {
            if s.contains(x) {
                let k = choose|k: int| 0 <= k < s.len() && s[k] == x;
                assert(post.stack@[k + 1] == x);
            }
            if x == own {
                assert(post.stack@[0] == x);
            }
            if post.stack@.contains(x) && x != own {
                let k = choose|k: int| 0 <= k < post.stack@.len() && post.stack@[k] == x;
                assert(s[k - 1] == x);
            }
        }
        assert forall|j: int| #[trigger] gs.contains_key(j) implies post.op_ok(gs, gs[j]) by {
            assert(ops.contains_key(j));
            assert(self.op_ok(ops, ops[j]));
            if j != i {
                self.lemma_others(ops, i, j);
                match ops[j] {
                    Op::Unlock(Unlocking::Wake { id, unpark }) => {
                        if unpark is Swap || unpark is Release {
                            let k = choose|k: int| #[trigger]
                                ops.contains_key(k) && (ops[k] matches Op::Lock(
                                    Locking::Park { id: o, park: q },
                                ) && o == id && self.waiters@.contains_key(id)
                                    && self.waiters@[id].handshake(q, unpark));
                            assert(gs.contains_key(k));
                            self.lemma_others(ops, i, k);
                        }
                    },
                    _ => {},
                }
            }
        }
        assert forall|k: int| 0 <= k < post.stack@.len() implies Self::sleeper(
            gs,
            #[trigger] post.stack@[k],
        ) by {
            if k > 0 {
                let x = s[k - 1];
                assert(post.stack@[k] == x);
                assert(Self::sleeper(ops, x));
                let j = choose|j: int| #[trigger]
                    ops.contains_key(j) && (ops[j] matches Op::Lock(
                        Locking::Park { id: o, park },
                    ) && o == x);
                assert(gs.contains_key(j));
            }
        }
        let h = choose|h: int| #[trigger] ops.contains_key(h) && ops[h].holds();
        assert(gs.contains_key(h) && gs[h].holds());
        assert forall|a: int, b: int| #[trigger]
            gs.contains_key(a) && #[trigger] gs.contains_key(b) && a != b implies {
            &&& !(gs[a].holds() && gs[b].holds())
            &&& gs[a].owns() != 0 ==> gs[a].owns() != gs[b].owns()
            &&& gs[a].wakes() != 0 ==> gs[a].wakes() != gs[b].wakes()
        } by {
            assert(ops.contains_key(a) && ops.contains_key(b));
        }
    }

    /// Whatever threads get the lock and give it back, one access of any that gives it back keeps
    /// the invariant: see [`Lock::lemma_lock`]. Its last access under the lock makes the lock free,
    /// and a waiter that it takes off the stack is woken.
    pub proof fn lemma_unlock(
        self,
        ops: Map<int, Op>,
        i: int,
        spurious: bool,
        reload: bool,
        post: Self,
        next: Unlocking,
    )
        requires
            self.inv(ops),
            ops.contains_key(i),
            ops[i] is Unlock,
            self.unlock_next(ops[i]->Unlock_0, spurious, reload, post, next),
        ensures
            post.inv(ops.insert(i, Op::Unlock(next))),
            post.value == self.value,
            next is Done ==> !Op::Unlock(next).holds(),
    {
        let op = ops[i]->Unlock_0;
        if op is Wake {
            self.lemma_wake(ops, i, spurious, reload, post, next);
        } else if op is Pop && self.state == op->Pop_seen && !spurious {
            self.lemma_pop(ops, i, spurious, reload, post, next);
        } else if op is Done {
            assert(ops.insert(i, Op::Unlock(next)) =~= ops);
        } else {
            self.lemma_kept(ops, i, spurious, reload, post, next);
        }
    }

    /// What holds after an access of the holder that leaves the stack alone.
    proof fn lemma_kept(
        self,
        ops: Map<int, Op>,
        i: int,
        spurious: bool,
        reload: bool,
        post: Self,
        next: Unlocking,
    )
        requires
            self.inv(ops),
            ops.contains_key(i),
            ops[i] is Unlock,
            ops[i].holds(),
            ops[i]->Unlock_0 is Pop ==> self.state != ops[i]->Unlock_0->Pop_seen || spurious,
            self.unlock_next(ops[i]->Unlock_0, spurious, reload, post, next),
        ensures
            post.inv(ops.insert(i, Op::Unlock(next))),
    {
        let op = ops[i]->Unlock_0;
        let gs = ops.insert(i, Op::Unlock(next));
        let s = self.stack@;
        assert(self.op_ok(ops, ops[i]));
        assert(gs.contains_key(i));
        assert(ops[i].holds());
        assert(locked(self.state));
        assert forall|x: usize| x != 0 implies #[trigger] Self::woken(gs, x) == Self::woken(
            ops,
            x,
        ) by {
            Self::lemma_woken(ops, i, Op::Unlock(next), x);
        }
        if op is Fast && self.state.addr != 1 {
            assert(top(self.state) != 0);
        }
        if op is Load {
            assert(s.contains(s[0]));
        }
        if op is Pop {
            assert(s.len() > 0);
            assert(s.contains(s[0]));
        }
        if next is Done {
            assert(top(self.state) == 0);
            if s.len() > 0 {
                assert(self.waiters@.contains_key(s[0]));
            }
        }
        assert forall|j: int| #[trigger] gs.contains_key(j) implies post.op_ok(gs, gs[j]) by {
            assert(ops.contains_key(j));
            assert(self.op_ok(ops, ops[j]));
            if j != i {
                self.lemma_sleepers(ops, i, Op::Unlock(next), j);
            }
        }
        assert forall|k: int| 0 <= k < post.stack@.len() implies Self::sleeper(
            gs,
            #[trigger] post.stack@[k],
        ) by {
            self.lemma_sleeper(ops, i, Op::Unlock(next), k);
        }
        if next is Done {
            assert forall|j: int| #[trigger] gs.contains_key(j) implies !gs[j].holds() by {
                assert(ops.contains_key(j));
            }
        } else {
            assert(gs[i].holds());
        }
        assert forall|a: int, b: int| #[trigger]
            gs.contains_key(a) && #[trigger] gs.contains_key(b) && a != b implies {
            &&& !(gs[a].holds() && gs[b].holds())
            &&& gs[a].owns() != 0 ==> gs[a].owns() != gs[b].owns()
            &&& gs[a].wakes() != 0 ==> gs[a].wakes() != gs[b].wakes()
        } by {
            assert(ops.contains_key(a) && ops.contains_key(b));
        }
    }

    /// The thread that sleeps in a waiter on the stack is still there when another operation goes
    /// on.
    proof fn lemma_sleeper(self, ops: Map<int, Op>, i: int, op: Op, k: int)
        requires
            self.inv(ops),
            ops.contains_key(i),
            ops[i] is Unlock,
            0 <= k < self.stack@.len(),
        ensures
            Self::sleeper(ops.insert(i, op), self.stack@[k]),
    {
        let x = self.stack@[k];
        assert(Self::sleeper(ops, x));
        let j = choose|j: int| #[trigger]
            ops.contains_key(j) && (ops[j] matches Op::Lock(Locking::Park { id: o, park }) && o
                == x);
        assert(ops.insert(i, op).contains_key(j));
    }

    /// The thread that another one is about to tell is still there when operation `i` goes on.
    proof fn lemma_sleepers(self, ops: Map<int, Op>, i: int, op: Op, j: int)
        requires
            self.inv(ops),
            ops.contains_key(i),
            ops[i] is Unlock,
            ops.contains_key(j),
            j != i,
        ensures
            ops[j] matches Op::Unlock(u) ==> self.unlocking_ok(ops.insert(i, op), u),
    {
        assert(self.op_ok(ops, ops[j]));
        if let Op::Unlock(Unlocking::Wake { id, unpark }) = ops[j] {
            if unpark is Swap || unpark is Release {
                let k = choose|k: int| #[trigger]
                    ops.contains_key(k) && (ops[k] matches Op::Lock(
                        Locking::Park { id: o, park: q },
                    ) && o == id && self.waiters@.contains_key(id) && self.waiters@[id].handshake(
                        q,
                        unpark,
                    ));
                assert(ops.insert(i, op).contains_key(k));
            }
        }
    }

    /// What holds after the holder has taken a waiter off the stack and made the lock free.
    proof fn lemma_pop(
        self,
        ops: Map<int, Op>,
        i: int,
        spurious: bool,
        reload: bool,
        post: Self,
        next: Unlocking,
    )
        requires
            self.inv(ops),
            ops.contains_key(i),
            ops[i] is Unlock,
            ops[i]->Unlock_0 is Pop,
            ops[i]->Unlock_0->Pop_seen == self.state,
            !spurious,
            self.unlock_next(ops[i]->Unlock_0, spurious, reload, post, next),
        ensures
            post.inv(ops.insert(i, Op::Unlock(next))),
    {
        let gs = ops.insert(i, Op::Unlock(next));
        let s = self.stack@;
        let id = top(self.state);
        assert(self.op_ok(ops, ops[i]));
        assert(gs.contains_key(i));
        assert(ops[i].holds());
        assert(s.len() > 0 && s[0] == id);
        assert(self.waiters@.contains_key(s[0]));
        let rest = post.stack@;
        assert forall|k: int| 0 <= k < rest.len() implies #[trigger] rest[k] == s[k + 1] by {}
        if s.len() > 1 {
            assert(self.waiters@.contains_key(s[1]));
            assert(rest[0] == s[1]);
        }
        assert(!locked(post.state));
        assert(post.stack_ok()) by {
            assert forall|k: int| 0 <= k < rest.len() implies {
                &&& post.waiters@.contains_key(#[trigger] rest[k])
                &&& post.waiters@[rest[k]].next == if k + 1 < rest.len() {
                    Some(rest[k + 1])
                } else {
                    None
                }
            } by {
                assert(self.waiters@.contains_key(s[k + 1]));
            }
        }
        assert forall|x: usize| #[trigger] rest.contains(x) == (s.contains(x) && x != id) by {
            if rest.contains(x) {
                let k = choose|k: int| 0 <= k < rest.len() && rest[k] == x;
                assert(s[k + 1] == x);
            }
            if s.contains(x) && x != id {
                let k = choose|k: int| 0 <= k < s.len() && s[k] == x;
                assert(rest[k - 1] == x);
            }
        }
        // The thread that is about to be told.
        assert(Self::sleeper(ops, s[0]));
        let p = choose|p: int| #[trigger]
            ops.contains_key(p) && (ops[p] matches Op::Lock(Locking::Park { id: o, park }) && o
                == id);
        assert(self.op_ok(ops, ops[p]));
        assert(s.contains(id));
        assert(gs.contains_key(p) && p != i);
        assert(post.awake(gs[p]));
        assert(gs[i].wakes() == id);
        assert(Self::woken(gs, id));
        assert forall|x: usize| x != 0 && x != id implies #[trigger] Self::woken(gs, x)
            == Self::woken(ops, x) by {
            Self::lemma_woken(ops, i, Op::Unlock(next), x);
        }
        assert forall|j: int| #[trigger] gs.contains_key(j) implies post.op_ok(gs, gs[j]) by {
            assert(ops.contains_key(j));
            assert(self.op_ok(ops, ops[j]));
            if j != i {
                self.lemma_sleepers(ops, i, Op::Unlock(next), j);
                assert(!ops[j].holds());
                match ops[j] {
                    Op::Lock(other) => {
                        if j != p && other.id() != 0 {
                            assert(other.id() != id);
                        }
                    },
                    Op::Unlock(Unlocking::Wake { id: other, unpark }) => {
                        if unpark is Swap || unpark is Release {
                            assert(other != id);
                        }
                    },
                    _ => {},
                }
            }
        }
        assert forall|k: int| 0 <= k < rest.len() implies Self::sleeper(gs, #[trigger] rest[k]) by {
            self.lemma_sleeper(ops, i, Op::Unlock(next), k + 1);
        }
        assert forall|j: int| #[trigger] gs.contains_key(j) implies !gs[j].holds() by {
            assert(ops.contains_key(j));
        }
        assert forall|a: int, b: int| #[trigger]
            gs.contains_key(a) && #[trigger] gs.contains_key(b) && a != b implies {
            &&& gs[a].owns() != 0 ==> gs[a].owns() != gs[b].owns()
            &&& gs[a].wakes() != 0 ==> gs[a].wakes() != gs[b].wakes()
        } by {
            assert(ops.contains_key(a) && ops.contains_key(b));
            assert(!Self::woken(ops, id));
        }
    }

    /// What holds after an access of a thread that tells another one to try again.
    proof fn lemma_wake(
        self,
        ops: Map<int, Op>,
        i: int,
        spurious: bool,
        reload: bool,
        post: Self,
        next: Unlocking,
    )
        requires
            self.inv(ops),
            ops.contains_key(i),
            ops[i] is Unlock,
            ops[i]->Unlock_0 is Wake,
            self.unlock_next(ops[i]->Unlock_0, spurious, reload, post, next),
        ensures
            post.inv(ops.insert(i, Op::Unlock(next))),
    {
        let gs = ops.insert(i, Op::Unlock(next));
        let id = ops[i]->Unlock_0->Wake_id;
        let unpark = ops[i]->Unlock_0->Wake_unpark;
        let told = unpark is Swap || unpark is Release;
        let s = self.stack@;
        assert(self.op_ok(ops, ops[i]));
        assert(gs.contains_key(i));
        assert forall|x: usize| x != 0 && x != id implies #[trigger] Self::woken(gs, x)
            == Self::woken(ops, x) by {
            Self::lemma_woken(ops, i, Op::Unlock(next), x);
        }
        if told {
            assert(ops[i].wakes() == id);
            assert(Self::woken(ops, id));
            let (w, u) = choose|w: Waiter, u: Unpark|
                {
                    &&& #[trigger] self.waiters@[id].unpark_next(unpark, w, u)
                    &&& post.waiters@ == self.waiters@.insert(id, w)
                    &&& next == if u is Done {
                        Unlocking::Done
                    } else {
                        Unlocking::Wake { id, unpark: u }
                    }
                };
            let p = choose|p: int| #[trigger]
                ops.contains_key(p) && (ops[p] matches Op::Lock(Locking::Park { id: o, park: q })
                    && o == id && self.waiters@.contains_key(id) && self.waiters@[id].handshake(
                    q,
                    unpark,
                ));
            let q = ops[p]->Lock_0->Park_park;
            self.waiters@[id].lemma_unpark(q, unpark, w, u);
            assert(gs.contains_key(p));
            if u is Release {
                assert(gs[i].wakes() == id);
                assert(Self::woken(gs, id));
            } else {
                if Self::woken(gs, id) {
                    let j = choose|j: int| #[trigger] gs.contains_key(j) && gs[j].wakes() == id;
                    assert(ops.contains_key(j));
                }
                assert(post.waiters@[id].handshake(q, Unpark::Done));
            }
        } else {
            if id != 0 {
                Self::lemma_woken(ops, i, Op::Unlock(next), id);
            }
        }
        assert forall|k: int| 0 <= k < s.len() && told implies #[trigger] s[k] != id by {
            assert(s.contains(s[k]));
        }
        assert(post.stack_ok()) by {
            assert forall|k: int| 0 <= k < s.len() implies {
                &&& post.waiters@.contains_key(#[trigger] s[k])
                &&& post.waiters@[s[k]].next == self.waiters@[s[k]].next
            } by {
                assert(self.waiters@.contains_key(s[k]));
            }
        }
        assert forall|j: int| #[trigger] gs.contains_key(j) implies post.op_ok(gs, gs[j]) by {
            assert(ops.contains_key(j));
            assert(self.op_ok(ops, ops[j]));
            if j != i {
                self.lemma_sleepers(ops, i, Op::Unlock(next), j);
                match ops[j] {
                    Op::Lock(other) => {
                        if told && other.id() == id {
                            assert(other is Park);
                        }
                    },
                    Op::Unlock(Unlocking::Wake { id: other, unpark: v }) => {
                        if v is Swap || v is Release {
                            assert(told ==> other != id);
                            let k = choose|k: int| #[trigger]
                                gs.contains_key(k) && (gs[k] matches Op::Lock(
                                    Locking::Park { id: o, park: q },
                                ) && o == other && self.waiters@.contains_key(other)
                                    && self.waiters@[other].handshake(q, v));
                            assert(post.waiters@[other] == self.waiters@[other]);
                        }
                    },
                    _ => {},
                }
            }
        }
        assert forall|k: int| 0 <= k < s.len() implies Self::sleeper(gs, #[trigger] s[k]) by {
            self.lemma_sleeper(ops, i, Op::Unlock(next), k);
        }
        if locked(self.state) {
            let h = choose|h: int| #[trigger] ops.contains_key(h) && ops[h].holds();
            assert(gs.contains_key(h) && gs[h].holds());
        }
        assert forall|a: int, b: int| #[trigger]
            gs.contains_key(a) && #[trigger] gs.contains_key(b) && a != b implies {
            &&& !(gs[a].holds() && gs[b].holds())
            &&& gs[a].owns() != 0 ==> gs[a].owns() != gs[b].owns()
            &&& gs[a].wakes() != 0 ==> gs[a].wakes() != gs[b].wakes()
        } by {
            assert(ops.contains_key(a) && ops.contains_key(b));
        }
        if !locked(self.state) && s.len() > 0 {
            let a = choose|a: int| #[trigger] ops.contains_key(a) && self.awake(ops[a]);
            assert(gs.contains_key(a) && post.awake(gs[a]));
        }
    }

    /// How many accesses a thread that is awake needs at most to get a free lock while nothing
    /// else happens.
    pub open spec fn to_get(self, op: Locking) -> nat {
        match op {
            Locking::Fast => 5,
            Locking::Load { .. } => 2,
            Locking::Check { .. } => 4,
            Locking::Try { id, seen } => if seen == self.state {
                1
            } else {
                3
            },
            Locking::Push { .. } => 3,
            Locking::Park { .. } => 0,
            Locking::Held => 0,
        }
    }

    /// An access of an attempt to get the lock heeds what it is given: an exchange of the state
    /// that it expects fails just if it may (`spurious`), the thread spins once more just if it
    /// wants to (`again`) and nobody sleeps, and it goes to sleep under its own number.
    pub open spec fn heeds(
        self,
        op: Locking,
        thread: usize,
        spurious: bool,
        again: bool,
        post: Self,
        next: Locking,
    ) -> bool {
        match op {
            Locking::Fast => self.state.addr == 0 ==> (next is Held <==> !spurious),
            Locking::Try { id, seen } => self.state == seen ==> (next is Held <==> !spurious),
            Locking::Push { id, seen } => self.state == seen ==> (next is Park <==> !spurious),
            Locking::Check { id, seen } => next is Load <==> again && top(seen) == 0,
            Locking::Park { id, park } => match park {
                Park::Load => self.waiters@[id].parker != Word::Notified ==> (next
                    == Locking::Park { id, park: Park::Load } <==> again),
                Park::Exchange => next == Locking::Park { id, park: Park::Wait }
                    ==> post.waiters@[id].place.thread == Some(thread),
                _ => true,
            },
            _ => true,
        }
    }

    /// An access of a thread that gives the lock back heeds what it is given: the exchange of the
    /// state that it expects fails just if it may (`spurious`), and after an exchange that failed
    /// the state is loaded again just if that is wanted (`reload`).
    pub open spec fn yields(
        self,
        op: Unlocking,
        spurious: bool,
        reload: bool,
        next: Unlocking,
    ) -> bool {
        op matches Unlocking::Pop { seen } ==> {
            &&& next is Wake <==> self.state == seen && !spurious
            &&& !(next is Wake) ==> (next is Load <==> reload)
        }
    }

    /// Each access of an attempt to get the lock heeds what it is given.
    pub proof fn lemma_heeds(
        self,
        op: Locking,
        thread: usize,
        spurious: bool,
        again: bool,
        post: Self,
        next: Locking,
    )
        requires
            self.lock_next(op, thread, spurious, again, post, next),
        ensures
            self.heeds(op, thread, spurious, again, post, next),
    {
    }

    /// Each access of a thread that gives the lock back heeds what it is given.
    pub proof fn lemma_yields(
        self,
        op: Unlocking,
        spurious: bool,
        reload: bool,
        post: Self,
        next: Unlocking,
    )
        requires
            self.unlock_next(op, spurious, reload, post, next),
        ensures
            self.yields(op, spurious, reload, next),
    {
    }

    /// A thread gets the lock only while it is free, with the access that makes it held, and no
    /// other access makes it held or free. If the lock is free, each access of a thread that is
    /// awake brings it nearer to getting it, and what it has got it keeps. While the lock is held
    /// it spins as long as it wants to if nobody sleeps on the stack that it saw, and otherwise
    /// goes there. Only an exchange for a free lock that it lost makes it pause.
    pub proof fn lemma_gets(
        self,
        ops: Map<int, Op>,
        i: int,
        thread: usize,
        spurious: bool,
        again: bool,
        post: Self,
        next: Locking,
    )
        requires
            self.inv(ops),
            ops.contains_key(i),
            ops[i] is Lock,
            self.lock_next(ops[i]->Lock_0, thread, spurious, again, post, next),
        ensures
            ({
                let op = ops[i]->Lock_0;
                &&& if next is Held && !(op is Held) {
                    !locked(self.state) && locked(post.state)
                } else {
                    locked(post.state) == locked(self.state)
                }
                &&& op is Held ==> next is Held && post == self
                &&& op is Fast && self.state.addr == 0 && !spurious ==> next is Held
                &&& op matches Locking::Try { id, seen } ==> (seen == self.state && !spurious
                    ==> next is Held)
                &&& op matches Locking::Push { id, seen } ==> (seen == self.state && !spurious
                    ==> next is Park && post.stack@ == seq![id] + self.stack@)
                &&& op is Park ==> next is Park || next is Load
                &&& op is Load && locked(self.state) ==> next is Check && next->Check_seen
                    == self.state
                &&& op matches Locking::Check { id, seen } ==> {
                    &&& next is Load || next is Push && next->Push_seen == seen
                    &&& next is Load <==> again && top(seen) == 0
                }
                &&& next matches Locking::Load { id, lost } ==> (lost <==> op is Try)
                &&& op.id() != 0 && next.id() != 0 ==> next.id() == op.id()
                &&& next is Park && !(op is Park) ==> op is Push
                &&& !(next is Park && op is Push) ==> post.stack == self.stack
                &&& !spurious && !locked(self.state) && !(op is Held) && !(op is Park)
                    ==> post.to_get(next) < self.to_get(op)
            }),
    {
        assert(self.op_ok(ops, ops[i]));
        let op = ops[i]->Lock_0;
        if let Locking::Push { id, seen } = op {
            if self.state == seen && !spurious {
                assert(self.waiters@.contains_key(id));
            }
        }
    }

    /// How many accesses are left at most to give the lock back while nothing else happens.
    pub open spec fn to_give(self, op: Unlocking) -> nat {
        match op {
            Unlocking::Fast => 8,
            Unlocking::Load { .. } => 5,
            Unlocking::Pop { seen } => if seen == self.state {
                4
            } else {
                6
            },
            Unlocking::Wake { id, unpark } => match unpark {
                Unpark::Swap => 3,
                Unpark::Release => 2,
                _ => 1,
            },
            Unlocking::Done => 0,
        }
    }

    /// The access with which the holder gives the lock back makes it free, and no other access
    /// does. If threads sleep on the stack, it takes the one that came last off it, and that is
    /// the one that is woken, by its number if it sleeps; if none does, there is nothing more to
    /// do. Each access brings the thread nearer to its end. Only an exchange that it lost makes it
    /// pause, and only if it loads the state again.
    pub proof fn lemma_gives(
        self,
        ops: Map<int, Op>,
        i: int,
        spurious: bool,
        reload: bool,
        post: Self,
        next: Unlocking,
    )
        requires
            self.inv(ops),
            ops.contains_key(i),
            ops[i] is Unlock,
            self.unlock_next(ops[i]->Unlock_0, spurious, reload, post, next),
        ensures
            ({
                let op = ops[i]->Unlock_0;
                &&& if ops[i].holds() && !Op::Unlock(next).holds() {
                    &&& !locked(post.state)
                    &&& if self.stack@.len() > 0 {
                        &&& next == Unlocking::Wake { id: self.stack@[0], unpark: Unpark::Swap }
                        &&& post.stack@ == self.stack@.skip(1)
                    } else {
                        next is Done && post.stack == self.stack
                    }
                } else {
                    &&& post.state == self.state
                    &&& post.stack == self.stack
                    &&& Op::Unlock(next).holds() == ops[i].holds()
                }
                &&& op matches Unlocking::Wake { id, unpark } ==> next is Done || (
                next matches Unlocking::Wake { id: same, unpark: u } && same == id)
                &&& op matches Unlocking::Wake { id, unpark } ==> {
                    &&& unpark is Swap && self.waiters@[id].parker == Word::Parked ==> next
                        == Unlocking::Wake { id, unpark: Unpark::Release }
                    &&& unpark is Release ==> next == Unlocking::Wake {
                        id,
                        unpark: Unpark::Wake(self.waiters@[id].place.thread->0),
                    }
                    &&& unpark is Swap ==> post.waiters@[id].parker == Word::Notified
                }
                &&& next matches Unlocking::Load { lost } ==> (lost <==> op is Pop)
                &&& op is Pop && next is Load ==> reload
                &&& op is Pop && next is Pop ==> !reload && next->seen == self.state
                &&& op is Done ==> next is Done && post == self
                &&& !spurious && !(op is Done) ==> post.to_give(next) < self.to_give(op)
            }),
    {
        assert(self.op_ok(ops, ops[i]));
        let op = ops[i]->Unlock_0;
        let s = self.stack@;
        assert(ops[i].holds() ==> locked(self.state));
        if s.len() > 0 {
            assert(self.waiters@.contains_key(s[0]));
        }
        if s.len() > 1 {
            assert(self.waiters@.contains_key(s[1]));
        }
    }

    /// A thread may begin to get the lock at any time.
    pub proof fn lemma_start(self, ops: Map<int, Op>, i: int)
        requires
            self.inv(ops),
            !ops.contains_key(i),
        ensures
            self.inv(ops.insert(i, Op::Lock(Locking::Fast))),
    {
        self.lemma_change(ops, i, Op::Lock(Locking::Fast), self.value);
    }

    /// The holder may change the value, and give the lock back.
    pub proof fn lemma_release(self, ops: Map<int, Op>, i: int, value: T)
        requires
            self.inv(ops),
            ops.contains_key(i),
            ops[i] == Op::Lock(Locking::Held),
        ensures
            (Lock { value, ..self }).inv(ops.insert(i, Op::Unlock(Unlocking::Fast))),
    {
        self.lemma_change(ops, i, Op::Unlock(Unlocking::Fast), value);
    }

    /// An operation without a waiter may be replaced by another that holds the lock if it did.
    proof fn lemma_change(self, ops: Map<int, Op>, i: int, op: Op, value: T)
        requires
            self.inv(ops),
            op == Op::Lock(Locking::Fast) || op == Op::Unlock(Unlocking::Fast),
            if ops.contains_key(i) {
                ops[i] == Op::Lock(Locking::Held) && op.holds()
            } else {
                !op.holds()
            },
        ensures
            (Lock { value, ..self }).inv(ops.insert(i, op)),
    {
        let post = Lock { value, ..self };
        let gs = ops.insert(i, op);
        assert(gs.contains_key(i));
        assert forall|x: usize| x != 0 implies #[trigger] Self::woken(gs, x) == Self::woken(
            ops,
            x,
        ) by {
            if Self::woken(ops, x) {
                let j = choose|j: int| #[trigger] ops.contains_key(j) && ops[j].wakes() == x;
                assert(gs.contains_key(j) && gs[j].wakes() == x);
            }
            if Self::woken(gs, x) {
                let j = choose|j: int| #[trigger] gs.contains_key(j) && gs[j].wakes() == x;
                assert(ops.contains_key(j) && ops[j].wakes() == x);
            }
        }
        assert forall|j: int| #[trigger] gs.contains_key(j) implies post.op_ok(gs, gs[j]) by {
            if j != i {
                assert(ops.contains_key(j));
                assert(self.op_ok(ops, ops[j]));
                if let Op::Unlock(Unlocking::Wake { id, unpark }) = ops[j] {
                    if unpark is Swap || unpark is Release {
                        let k = choose|k: int| #[trigger]
                            ops.contains_key(k) && (ops[k] matches Op::Lock(
                                Locking::Park { id: o, park: q },
                            ) && o == id && self.waiters@.contains_key(id)
                                && self.waiters@[id].handshake(q, unpark));
                        assert(gs.contains_key(k));
                    }
                }
            }
        }
        assert forall|k: int| 0 <= k < post.stack@.len() implies Self::sleeper(
            gs,
            #[trigger] post.stack@[k],
        ) by {
            let x = self.stack@[k];
            assert(Self::sleeper(ops, x));
            let j = choose|j: int| #[trigger]
                ops.contains_key(j) && (ops[j] matches Op::Lock(
                    Locking::Park { id: o, park },
                ) && o == x);
            assert(gs.contains_key(j));
        }
        if locked(self.state) {
            let h = choose|h: int| #[trigger] ops.contains_key(h) && ops[h].holds();
            assert(gs.contains_key(h) && gs[h].holds());
        } else {
            assert forall|j: int| #[trigger] gs.contains_key(j) implies !gs[j].holds() by {
                assert(j != i ==> ops.contains_key(j));
            }
        }
        assert forall|a: int, b: int| #[trigger]
            gs.contains_key(a) && #[trigger] gs.contains_key(b) && a != b implies {
            &&& !(gs[a].holds() && gs[b].holds())
            &&& gs[a].owns() != 0 ==> gs[a].owns() != gs[b].owns()
            &&& gs[a].wakes() != 0 ==> gs[a].wakes() != gs[b].wakes()
        } by {
            assert(a != i ==> ops.contains_key(a));
            assert(b != i ==> ops.contains_key(b));
        }
        if !locked(self.state) && self.stack@.len() > 0 {
            let a = choose|a: int| #[trigger] ops.contains_key(a) && self.awake(ops[a]);
            assert(gs.contains_key(a) && post.awake(gs[a]));
        }
    }

    /// A thread that has given the lock back may be forgotten.
    pub proof fn lemma_finish(self, ops: Map<int, Op>, i: int)
        requires
            self.inv(ops),
            ops.contains_key(i),
            ops[i] == Op::Unlock(Unlocking::Done),
        ensures
            self.inv(ops.remove(i)),
    {
        let gs = ops.remove(i);
        assert forall|x: usize| x != 0 implies #[trigger] Self::woken(gs, x) == Self::woken(
            ops,
            x,
        ) by {
            if Self::woken(ops, x) {
                let j = choose|j: int| #[trigger] ops.contains_key(j) && ops[j].wakes() == x;
                assert(gs.contains_key(j) && gs[j].wakes() == x);
            }
            if Self::woken(gs, x) {
                let j = choose|j: int| #[trigger] gs.contains_key(j) && gs[j].wakes() == x;
                assert(ops.contains_key(j) && ops[j].wakes() == x);
            }
        }
        assert forall|j: int| #[trigger] gs.contains_key(j) implies self.op_ok(gs, gs[j]) by {
            assert(ops.contains_key(j));
            assert(self.op_ok(ops, ops[j]));
            if let Op::Unlock(Unlocking::Wake { id, unpark }) = ops[j] {
                if unpark is Swap || unpark is Release {
                    let k = choose|k: int| #[trigger]
                        ops.contains_key(k) && (ops[k] matches Op::Lock(
                            Locking::Park { id: o, park: q },
                        ) && o == id && self.waiters@.contains_key(id)
                            && self.waiters@[id].handshake(q, unpark));
                    assert(gs.contains_key(k));
                }
            }
        }
        assert forall|k: int| 0 <= k < self.stack@.len() implies Self::sleeper(
            gs,
            #[trigger] self.stack@[k],
        ) by {
            let x = self.stack@[k];
            assert(Self::sleeper(ops, x));
            let j = choose|j: int| #[trigger]
                ops.contains_key(j) && (ops[j] matches Op::Lock(
                    Locking::Park { id: o, park },
                ) && o == x);
            assert(gs.contains_key(j));
        }
        if locked(self.state) {
            let h = choose|h: int| #[trigger] ops.contains_key(h) && ops[h].holds();
            assert(gs.contains_key(h) && gs[h].holds());
        } else {
            assert forall|j: int| #[trigger] gs.contains_key(j) implies !gs[j].holds() by {
                assert(ops.contains_key(j));
            }
        }
        assert forall|a: int, b: int| #[trigger]
            gs.contains_key(a) && #[trigger] gs.contains_key(b) && a != b implies {
            &&& !(gs[a].holds() && gs[b].holds())
            &&& gs[a].owns() != 0 ==> gs[a].owns() != gs[b].owns()
            &&& gs[a].wakes() != 0 ==> gs[a].wakes() != gs[b].wakes()
        } by {
            assert(ops.contains_key(a) && ops.contains_key(b));
        }
        if !locked(self.state) && self.stack@.len() > 0 {
            let a = choose|a: int| #[trigger] ops.contains_key(a) && self.awake(ops[a]);
            assert(gs.contains_key(a) && self.awake(gs[a]));
        }
    }

    /// A lock that no operation is under way on is free, and nobody sleeps on its stack.
    pub proof fn lemma_rest(self)
        requires
            self.inv(Map::empty()),
        ensures
            self.state.addr == 0,
            self.stack@.len() == 0,
    {
        let ops = Map::<int, Op>::empty();
        if self.stack@.len() > 0 {
            assert(Self::sleeper(ops, self.stack@[0]));
            let j = choose|j: int| #[trigger] ops.contains_key(j);
            assert(false);
        }
        if locked(self.state) {
            let j = choose|j: int| #[trigger] ops.contains_key(j) && ops[j].holds();
            assert(false);
        }
    }

    /// Gets a lock that no operation is under way on.
    pub fn lock(&mut self)
        requires
            old(self).inv(Map::empty()),
        ensures
            final(self).inv(Map::empty().insert(0, Op::Lock(Locking::Held))),
            *final(self) == (Lock { state: Pointer { addr: 1 }, ..*old(self) }),
    {
        let ghost before = *self;
        let ghost none = Map::<int, Op>::empty();
        proof {
            self.lemma_rest();
            self.lemma_start(none, 0);
        }
        let op = self.lock_step(Locking::Fast, 0, false, false);
        proof {
            let ops = none.insert(0, Op::Lock(Locking::Fast));
            assert(ops[0] == Op::Lock(Locking::Fast));
            before.lemma_lock(ops, 0, 0, false, false, *self, op);
            assert(ops.insert(0, Op::Lock(op)) =~= none.insert(0, Op::Lock(op)));
        }
    }

    /// Gives a lock back that no other operation is under way on.
    pub fn unlock(&mut self)
        requires
            old(self).inv(Map::empty().insert(0, Op::Lock(Locking::Held))),
        ensures
            final(self).inv(Map::empty()),
            *final(self) == (Lock { state: Pointer { addr: 0 }, ..*old(self) }),
    {
        let ghost before = *self;
        let ghost none = Map::<int, Op>::empty();
        let ghost held = none.insert(0, Op::Lock(Locking::Held));
        let ghost ops = none.insert(0, Op::Unlock(Unlocking::Fast));
        proof {
            assert(held[0] == Op::Lock(Locking::Held));
            self.lemma_release(held, 0, self.value);
            assert(held.insert(0, Op::Unlock(Unlocking::Fast)) =~= ops);
            assert(ops[0] == Op::Unlock(Unlocking::Fast));
            assert(self.state.addr == 1) by {
                assert(ops.contains_key(0) && ops[0].holds());
                if self.stack@.len() > 0 {
                    assert(Self::sleeper(ops, self.stack@[0]));
                    let j = choose|j: int| #[trigger]
                        ops.contains_key(j) && (ops[j] matches Op::Lock(
                            Locking::Park { id, park },
                        ) && id == self.stack@[0]);
                    assert(j == 0);
                }
            }
        }
        let op = self.unlock_step(Unlocking::Fast, false, false);
        proof {
            before.lemma_unlock(ops, 0, false, false, *self, op);
            let over = ops.insert(0, Op::Unlock(op));
            assert(over[0] == Op::Unlock(Unlocking::Done));
            self.lemma_finish(over, 0);
            assert(over.remove(0) =~= none);
        }
    }
}

} // verus!
