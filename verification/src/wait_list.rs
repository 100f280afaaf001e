//! A list of threads that sleep until another thread wakes them all.
//!
//! A thread puts its waiter on a stack and sleeps. A thread that wakes the others takes the whole
//! stack at once, and walks it.
use crate::arena::Arena;
use crate::shared::{Park, Unpark, Waiter, Word};
use vstd::prelude::*;

verus! {

/// The list.
pub struct WaitList {
    pub stack: usize,
    pub waiters: Arena<Waiter, 1>,
    /// The waiters on the stack, the one that came last first.
    pub list: Ghost<Seq<usize>>,
}

/// What a thread does to sleep. `id` is its waiter.
pub enum Own {
    /// Nothing.
    Free,
    /// Load the stack.
    Load { id: usize },
    /// Exchange the stack that was seen for one with the waiter on top.
    Push { id: usize, seen: usize },
    /// The waiter is on the stack, or was taken off it: sleep until woken.
    Listed { id: usize, park: Park },
}

/// What a thread does to wake the others.
pub enum Wake {
    /// Nothing.
    Idle,
    /// Take the whole stack.
    Swap,
    /// Look at the next waiter of those that were taken.
    Walk { top: usize, list: Ghost<Seq<usize>> },
    /// Tell its thread to go on; `rest` is the waiter after it.
    Tell { id: usize, unpark: Unpark, rest: usize, list: Ghost<Seq<usize>> },
}

/// What a thread does with the list: it may wake the others before it sleeps itself.
pub struct Duty {
    pub own: Own,
    pub wake: Wake,
}

impl Own {
    /// The thread's waiter, if it has one.
    pub open spec fn id(self) -> usize {
        match self {
            Own::Free => 0,
            Own::Load { id } => id,
            Own::Push { id, seen } => id,
            Own::Listed { id, park } => id,
        }
    }
}

impl Wake {
    /// The waiters that were taken off the stack and not yet told.
    pub open spec fn list(self) -> Seq<usize> {
        match self {
            Wake::Walk { top, list } => list@,
            Wake::Tell { id, unpark, rest, list } => list@,
            _ => Seq::empty(),
        }
    }

    /// The first of them.
    pub open spec fn top(self) -> usize {
        match self {
            Wake::Walk { top, list } => top,
            Wake::Tell { id, unpark, rest, list } => rest,
            _ => 0,
        }
    }

    /// The waiter whose thread is about to be told to go on.
    pub open spec fn tells(self) -> usize {
        match self {
            Wake::Tell { id, unpark, rest, list } => if unpark is Swap || unpark is Release {
                id
            } else {
                0
            },
            _ => 0,
        }
    }
}

/// No duty.
pub open spec fn off() -> Duty {
    Duty { own: Own::Free, wake: Wake::Idle }
}

impl WaitList {
    /// The waiters of `s` form a list that begins at `top`.
    pub open spec fn chained(self, top: usize, s: Seq<usize>) -> bool {
        &&& top == if s.len() > 0 {
            s[0]
        } else {
            0
        }
        &&& forall|k: int|
            0 <= k < s.len() ==> {
                &&& self.waiters@.contains_key(#[trigger] s[k])
                &&& self.waiters@[s[k]].next == if k + 1 < s.len() {
                    Some(s[k + 1])
                } else {
                    None
                }
            }
        &&& forall|j: int, k: int| 0 <= j < k < s.len() ==> #[trigger] s[j] != #[trigger] s[k]
    }

    /// Some thread has taken the waiter off the stack and not yet told its thread.
    pub open spec fn taken(ds: Map<int, Duty>, id: usize) -> bool {
        exists|j: int| #[trigger] ds.contains_key(j) && ds[j].wake.list().contains(id)
    }

    /// Some thread is about to tell the waiter's thread.
    pub open spec fn told(ds: Map<int, Duty>, id: usize) -> bool {
        exists|j: int| #[trigger] ds.contains_key(j) && ds[j].wake.tells() == id
    }

    /// The waiter is on the stack, or was taken off it and not yet told.
    pub open spec fn listed(self, ds: Map<int, Duty>, id: usize) -> bool {
        self.list@.contains(id) || Self::taken(ds, id)
    }

    /// Some thread sleeps, or is about to, in the place of the waiter, and `unpark` is how far it
    /// was told to go on.
    pub open spec fn sleeper(self, ds: Map<int, Duty>, id: usize, unpark: Unpark) -> bool {
        exists|i: int| #[trigger]
            ds.contains_key(i) && (ds[i].own matches Own::Listed { id: own, park } && own == id
                && self.waiters@.contains_key(id) && self.waiters@[id].handshake(park, unpark))
    }

    /// What holds of a thread that sleeps or is about to.
    pub open spec fn own_ok(self, ds: Map<int, Duty>, own: Own) -> bool {
        let id = own.id();
        &&& id != 0 ==> self.waiters@.contains_key(id)
        &&& match own {
            Own::Free => true,
            Own::Listed { id, park } => {
                &&& id != 0
                &&& if self.listed(ds, id) {
                    self.waiters@[id].handshake(park, Unpark::Swap) && !Self::told(ds, id)
                } else {
                    !Self::told(ds, id) ==> self.waiters@[id].handshake(park, Unpark::Done)
                }
            },
            _ => {
                &&& id != 0
                &&& self.waiters@[id].parker == Word::Empty
                &&& !self.listed(ds, id)
                &&& !Self::told(ds, id)
            },
        }
    }

    /// What holds of a thread that wakes the others.
    pub open spec fn wake_ok(self, ds: Map<int, Duty>, wake: Wake) -> bool {
        &&& self.chained(wake.top(), wake.list())
        &&& forall|k: int|
            0 <= k < wake.list().len() ==> self.sleeper(
                ds,
                #[trigger] wake.list()[k],
                Unpark::Swap,
            ) && !self.list@.contains(wake.list()[k])
        &&& wake.tells() != 0 ==> {
            &&& self.sleeper(ds, wake.tells(), wake->Tell_unpark)
            &&& !self.listed(ds, wake.tells())
        }
        &&& wake is Tell ==> wake->Tell_id != 0
    }

    /// What two threads have to do does not overlap.
    pub open spec fn apart(c: Duty, d: Duty) -> bool {
        &&& c.own.id() != 0 ==> c.own.id() != d.own.id()
        &&& c.wake.tells() != 0 ==> c.wake.tells() != d.wake.tells()
        &&& forall|x: usize| #[trigger]
            c.wake.list().contains(x) ==> !d.wake.list().contains(x)
    }

    /// The invariant of the list together with what the threads do with it.
    pub open spec fn inv(self, ds: Map<int, Duty>) -> bool {
        &&& self.waiters.wf()
        &&& self.chained(self.stack, self.list@)
        &&& forall|k: int|
            0 <= k < self.list@.len() ==> self.sleeper(
                ds,
                #[trigger] self.list@[k],
                Unpark::Swap,
            )
        &&& forall|i: int| #[trigger]
            ds.contains_key(i) ==> self.own_ok(ds, ds[i].own) && self.wake_ok(ds, ds[i].wake)
        &&& forall|i: int, j: int| #[trigger]
            ds.contains_key(i) && #[trigger] ds.contains_key(j) && i != j ==> Self::apart(
                ds[i],
                ds[j],
            )
    }

    /// A list without waiters.
    pub fn new() -> (list: Self)
        ensures
            list.inv(Map::empty()),
            list.list@.len() == 0,
            list.stack == 0,
            list.waiters.room() == usize::MAX - 1,
    {
        WaitList { stack: 0, waiters: Arena::new(), list: Ghost(Seq::empty()) }
    }

    /// Whether other threads sleep already.
    pub fn should_park(&self) -> (should: bool)
        ensures
            should == (self.stack != 0),
    {
        self.stack != 0
    }

    /// The next access of a thread that is about to sleep finds what it needs.
    pub open spec fn sleeps(self, own: Own) -> bool {
        &&& self.waiters.wf()
        &&& match own {
            Own::Free => self.waiters.has_room(),
            Own::Load { id } => true,
            Own::Push { id, seen } => self.waiters@.contains_key(id),
            Own::Listed { id, park } => self.waiters@.contains_key(id) && self.waiters@[id].parks(
                park,
            ),
        }
    }

    /// The next access of a thread that wakes the others finds what it needs.
    pub open spec fn wakes(self, wake: Wake) -> bool {
        &&& self.waiters.wf()
        &&& match wake {
            Wake::Walk { top, list } => top != 0 ==> self.waiters@.contains_key(top),
            Wake::Tell { id, unpark, rest, list } => unpark is Swap || unpark is Release ==> {
                &&& self.waiters@.contains_key(id)
                &&& self.waiters@[id].unparks(unpark)
            },
            _ => true,
        }
    }

    /// One access of a thread that is about to sleep. A weak exchange may fail though it need not
    /// (`spurious`).
    pub open spec fn own_next(
        self,
        own: Own,
        thread: usize,
        spurious: bool,
        post: Self,
        next: Own,
    ) -> bool {
        match own {
            Own::Free => {
                let id = self.waiters.fresh();
                &&& post.stack == self.stack
                &&& post.list == self.list
                &&& post.waiters.wf()
                &&& exists|w: Waiter|
                    w.parker == Word::Empty && #[trigger] self.waiters@.insert(id, w)
                        == post.waiters@
                &&& next == Own::Load { id }
            },
            Own::Load { id } => post == self && next == Own::Push { id, seen: self.stack },
            Own::Push { id, seen } => {
                let w = Waiter {
                    next: if seen == 0 {
                        None
                    } else {
                        Some(seen)
                    },
                    ..self.waiters@[id]
                };
                &&& post.waiters.wf()
                &&& post.waiters@ == self.waiters@.insert(id, w)
                &&& if self.stack == seen && !spurious {
                    &&& post.stack == id
                    &&& post.list@ == seq![id] + self.list@
                    &&& next == Own::Listed { id, park: Park::Load }
                } else {
                    &&& post.stack == self.stack
                    &&& post.list == self.list
                    &&& next == Own::Push { id, seen: self.stack }
                }
            },
            Own::Listed { id, park } => {
                &&& post.stack == self.stack
                &&& post.list == self.list
                &&& post.waiters.wf()
                &&& exists|w: Waiter, p: Park|
                    {
                        &&& #[trigger] self.waiters@[id].park_next(park, thread, false, w, p)
                        &&& post.waiters@ == if p is Done {
                            self.waiters@.remove(id)
                        } else {
                            self.waiters@.insert(id, w)
                        }
                        &&& next == if p is Done {
                            Own::Free
                        } else {
                            Own::Listed { id, park: p }
                        }
                    }
            },
        }
    }

    /// One access of a thread that wakes the others.
    pub open spec fn wake_next(self, wake: Wake, post: Self, next: Wake) -> bool {
        match wake {
            Wake::Idle => post == self && next == wake,
            Wake::Swap => {
                &&& post.stack == 0
                &&& post.list@ == Seq::<usize>::empty()
                &&& post.waiters == self.waiters
                &&& next == Wake::Walk { top: self.stack, list: self.list }
            },
            Wake::Walk { top, list } => {
                &&& post == self
                &&& if top == 0 {
                    next == Wake::Idle
                } else {
                    next == Wake::Tell {
                        id: top,
                        unpark: Unpark::Swap,
                        rest: match self.waiters@[top].next {
                            Some(below) => below,
                            None => 0,
                        },
                        list: Ghost(list@.skip(1)),
                    }
                }
            },
            Wake::Tell { id, unpark, rest, list } => {
                &&& post.stack == self.stack
                &&& post.list == self.list
                &&& if unpark is Swap || unpark is Release {
                    &&& post.waiters.wf()
                    &&& exists|w: Waiter, u: Unpark|
                        {
                            &&& #[trigger] self.waiters@[id].unpark_next(unpark, w, u)
                            &&& post.waiters@ == self.waiters@.insert(id, w)
                            &&& next == if u is Done {
                                Wake::Walk { top: rest, list }
                            } else {
                                Wake::Tell { id, unpark: u, rest, list }
                            }
                        }
                } else {
                    post.waiters == self.waiters && next == Wake::Walk { top: rest, list }
                }
            },
        }
    }

    /// Performs one access of `thread` that is about to sleep.
    pub fn own_step(&mut self, own: Own, thread: usize, spurious: bool) -> (next: Own)
        requires
            old(self).sleeps(own),
        ensures
            old(self).own_next(own, thread, spurious, *final(self), next),
    {
        match own {
            Own::Free => {
                let id: usize = self.waiters.allocate(Waiter::new());
                Own::Load { id }
            },
            Own::Load { id } => Own::Push { id, seen: self.stack },
            Own::Push { id, seen } => {
                let mut waiter = self.waiters.lend(id);
                waiter.next = if seen == 0 {
                    None
                } else {
                    Some(seen)
                };
                self.waiters.put(id, waiter);
                assert(self.waiters@ =~= old(self).waiters@.insert(id, waiter));
                if self.stack == seen && !spurious {
                    self.stack = id;
                    self.list = Ghost(seq![id] + self.list@);
                    Own::Listed { id, park: Park::Load }
                } else {
                    Own::Push { id, seen: self.stack }
                }
            },
            Own::Listed { id, park } => {
                let mut waiter = self.waiters.lend(id);
                let next = waiter.park(park, thread, false);
                let ghost after = waiter;
                assert(old(self).waiters@[id].park_next(park, thread, false, after, next));
                if let Park::Done = next {
                    self.waiters.release(id);
                    Own::Free
                } else {
                    self.waiters.put(id, waiter);
                    assert(self.waiters@ =~= old(self).waiters@.insert(id, after));
                    Own::Listed { id, park: next }
                }
            },
        }
    }

    /// Performs one access of a thread that wakes the others.
    pub fn wake_step(&mut self, wake: Wake) -> (next: Wake)
        requires
            old(self).wakes(wake),
        ensures
            old(self).wake_next(wake, *final(self), next),
    {
        match wake {
            Wake::Idle => Wake::Idle,
            Wake::Swap => {
                let top: usize = self.stack;
                let list: Ghost<Seq<usize>> = Ghost(self.list@);
                self.stack = 0;
                self.list = Ghost(Seq::empty());
                Wake::Walk { top, list }
            },
            Wake::Walk { top, list } => if top == 0 {
                Wake::Idle
            } else {
                let rest: usize = match self.waiters.get(top).next {
                    Some(below) => below,
                    None => 0,
                };
                Wake::Tell { id: top, unpark: Unpark::Swap, rest, list: Ghost(list@.skip(1)) }
            },
            Wake::Tell { id, unpark, rest, list } => match unpark {
                Unpark::Wake(_) => Wake::Walk { top: rest, list },
                Unpark::Done => Wake::Walk { top: rest, list },
                unpark => {
                    let mut waiter = self.waiters.lend(id);
                    let next = waiter.unpark(unpark);
                    let ghost after = waiter;
                    self.waiters.put(id, waiter);
                    assert(self.waiters@ =~= old(self).waiters@.insert(id, after));
                    assert(old(self).waiters@[id].unpark_next(unpark, after, next));
                    if let Unpark::Done = next {
                        Wake::Walk { top: rest, list }
                    } else {
                        Wake::Tell { id, unpark: next, rest, list }
                    }
                },
            },
        }
    }

    /// The access that any thread makes next finds what it needs.
    pub proof fn lemma_accepts(self, ds: Map<int, Duty>, i: int)
        requires
            self.inv(ds),
            ds.contains_key(i),
        ensures
            !(ds[i].own is Free) ==> self.sleeps(ds[i].own),
            self.wakes(ds[i].wake),
    {
        assert(self.own_ok(ds, ds[i].own) && self.wake_ok(ds, ds[i].wake));
        if let Own::Listed { id, park } = ds[i].own {
            if Self::told(ds, id) {
                let j = choose|j: int| #[trigger] ds.contains_key(j) && ds[j].wake.tells() == id;
                assert(self.wake_ok(ds, ds[j].wake));
                self.lemma_sleeper(ds, i, id, ds[j].wake->Tell_unpark);
            }
        }
        if ds[i].wake is Walk && ds[i].wake.top() != 0 {
            assert(ds[i].wake.list()[0] == ds[i].wake.top());
        }
    }

    /// The thread that sleeps in the place of a waiter is the one that owns it.
    proof fn lemma_sleeper(self, ds: Map<int, Duty>, i: int, id: usize, unpark: Unpark)
        requires
            self.inv(ds),
            ds.contains_key(i),
            ds[i].own.id() == id,
            id != 0,
            self.sleeper(ds, id, unpark),
        ensures
            ds[i].own is Listed,
            self.waiters@[id].handshake(ds[i].own->Listed_park, unpark),
    {
        let j = choose|j: int| #[trigger]
            ds.contains_key(j) && (ds[j].own matches Own::Listed { id: own, park } && own == id
                && self.waiters@.contains_key(id) && self.waiters@[id].handshake(park, unpark));
        if j != i {
            assert(Self::apart(ds[i], ds[j]));
        }
    }

    /// What is taken or told depends only on what the threads do to wake others.
    proof fn lemma_same_wake(ds: Map<int, Duty>, i: int, own: Own)
        requires
            ds.contains_key(i),
        ensures
            forall|x: usize| #[trigger]
                Self::taken(ds.insert(i, Duty { own, wake: ds[i].wake }), x) == Self::taken(ds, x),
            forall|x: usize| x != 0 ==> #[trigger] Self::told(
                ds.insert(i, Duty { own, wake: ds[i].wake }),
                x,
            ) == Self::told(ds, x),
    {
        let gs = ds.insert(i, Duty { own, wake: ds[i].wake });
        assert forall|x: usize| #[trigger] Self::taken(gs, x) == Self::taken(ds, x) by {
            if Self::taken(ds, x) {
                let j = choose|j: int| #[trigger]
                    ds.contains_key(j) && ds[j].wake.list().contains(x);
                assert(gs.contains_key(j) && gs[j].wake.list().contains(x));
            }
            if Self::taken(gs, x) {
                let j = choose|j: int| #[trigger]
                    gs.contains_key(j) && gs[j].wake.list().contains(x);
                assert(ds.contains_key(j) && ds[j].wake.list().contains(x));
            }
        }
        assert forall|x: usize| x != 0 implies #[trigger] Self::told(gs, x) == Self::told(ds, x) by {
            if Self::told(ds, x) {
                let j = choose|j: int| #[trigger] ds.contains_key(j) && ds[j].wake.tells() == x;
                assert(gs.contains_key(j) && gs[j].wake.tells() == x);
            }
            if Self::told(gs, x) {
                let j = choose|j: int| #[trigger] gs.contains_key(j) && gs[j].wake.tells() == x;
                assert(ds.contains_key(j) && ds[j].wake.tells() == x);
            }
        }
    }

    /// After an access of a thread that is about to sleep, threads that were not yet told still
    /// sleep in their places.
    proof fn lemma_own_sleeper(
        self,
        ds: Map<int, Duty>,
        i: int,
        thread: usize,
        spurious: bool,
        post: Self,
        next: Own,
        id: usize,
        unpark: Unpark,
    )
        requires
            self.inv(ds),
            ds.contains_key(i),
            self.own_next(ds[i].own, thread, spurious, post, next),
            self.sleeper(ds, id, unpark),
            unpark is Swap || unpark is Release,
            id != 0,
        ensures
            post.sleeper(ds.insert(i, Duty { own: next, wake: ds[i].wake }), id, unpark),
            ds[i].own.id() == id ==> next is Listed,
            id != next.id() ==> post.waiters@.contains_key(id) && post.waiters@[id]
                == self.waiters@[id],
            post.waiters@[id].next == self.waiters@[id].next,
    {
        let own = ds[i].own;
        let gs = ds.insert(i, Duty { own: next, wake: ds[i].wake });
        assert(self.own_ok(ds, own));
        let j = choose|j: int| #[trigger]
            ds.contains_key(j) && (ds[j].own matches Own::Listed { id: o, park } && o == id
                && self.waiters@.contains_key(id) && self.waiters@[id].handshake(park, unpark));
        assert(gs.contains_key(j));
        if j == i {
            let park = own->Listed_park;
            let (w, p) = choose|w: Waiter, p: Park|
                {
                    &&& #[trigger] self.waiters@[id].park_next(park, thread, false, w, p)
                    &&& post.waiters@ == if p is Done {
                        self.waiters@.remove(id)
                    } else {
                        self.waiters@.insert(id, w)
                    }
                    &&& next == if p is Done {
                        Own::Free
                    } else {
                        Own::Listed { id, park: p }
                    }
                };
            self.waiters@[id].lemma_park(park, unpark, thread, false, w, p);
        } else {
            assert(Self::apart(ds[j], ds[i]));
        }
    }

    /// Whatever the threads do with the list, one access of any that is about to sleep keeps the
    /// invariant: a thread that sleeps was not told to go on, and its waiter is on the stack or in
    /// the hands of a thread that is going to tell it. The waiter gets on top of the stack unless
    /// the stack is another one than was seen; nothing but that puts one there. A thread goes on
    /// only after its waiter was taken.
    pub proof fn lemma_own(
        self,
        ds: Map<int, Duty>,
        i: int,
        thread: usize,
        spurious: bool,
        post: Self,
        next: Own,
    )
        requires
            self.inv(ds),
            ds.contains_key(i),
            self.own_next(ds[i].own, thread, spurious, post, next),
        ensures
            post.inv(ds.insert(i, Duty { own: next, wake: ds[i].wake })),
            ds[i].own is Push && next is Listed ==> post.list@.len() > 0,
            !(ds[i].own is Push && next is Listed) ==> post.list == self.list,
            ds[i].own is Push && next is Listed ==> post.list@ == seq![ds[i].own.id()] + self.list@,
            ds[i].own.id() != 0 && next.id() != 0 ==> next.id() == ds[i].own.id(),
            ds[i].own matches Own::Push { id, seen } ==> (next is Listed <==> self.stack == seen
                && !spurious),
            next is Push ==> next->seen == self.stack && post.stack == self.stack,
            next is Listed && !(ds[i].own is Listed) ==> ds[i].own is Push,
            next is Free ==> ds[i].own is Listed && !self.listed(ds, ds[i].own.id()),
            ds[i].own is Listed ==> next is Listed || next is Free,
            next is Load ==> ds[i].own is Free,
            ds[i].own matches Own::Listed { id, park } ==> {
                &&& park is Exchange && next == Own::Listed { id, park: Park::Wait }
                    ==> post.waiters@[id].place.thread == Some(thread)
                &&& park is Load ==> next == Own::Listed { id, park: Park::Exchange } || next
                    == Own::Listed { id, park: Park::Reset }
            },
    {
        let gs = ds.insert(i, Duty { own: next, wake: ds[i].wake });
        assert(gs.contains_key(i));
        self.lemma_own_list(ds, i, thread, spurious, post, next);
        assert forall|j: int| #[trigger] gs.contains_key(j) implies post.own_ok(gs, gs[j].own)
            && post.wake_ok(gs, gs[j].wake) by {
            assert(ds.contains_key(j));
            self.lemma_own_other(ds, i, thread, spurious, post, next, j);
            self.lemma_own_wake(ds, i, thread, spurious, post, next, j);
        }
        assert forall|a: int, b: int| #[trigger]
            gs.contains_key(a) && #[trigger] gs.contains_key(b) && a != b implies Self::apart(
            gs[a],
            gs[b],
        ) by {
            assert(ds.contains_key(a) && ds.contains_key(b));
            assert(Self::apart(ds[a], ds[b]) && Self::apart(ds[b], ds[a]));
            assert(self.own_ok(ds, ds[a].own) && self.own_ok(ds, ds[b].own));
        }
    }

    /// The stack after an access of a thread that is about to sleep.
    proof fn lemma_own_list(
        self,
        ds: Map<int, Duty>,
        i: int,
        thread: usize,
        spurious: bool,
        post: Self,
        next: Own,
    )
        requires
            self.inv(ds),
            ds.contains_key(i),
            self.own_next(ds[i].own, thread, spurious, post, next),
        ensures
            post.waiters.wf(),
            post.chained(post.stack, post.list@),
            forall|k: int|
                0 <= k < post.list@.len() ==> post.sleeper(
                    ds.insert(i, Duty { own: next, wake: ds[i].wake }),
                    #[trigger] post.list@[k],
                    Unpark::Swap,
                ),
            ds[i].own is Push && next is Listed ==> post.list@.len() > 0,
            !(ds[i].own is Push && next is Listed) ==> post.list == self.list,
    {
        let own = ds[i].own;
        let gs = ds.insert(i, Duty { own: next, wake: ds[i].wake });
        let mine = next.id();
        let s = self.list@;
        assert(self.own_ok(ds, own));
        assert(gs.contains_key(i));
        assert forall|k: int| 0 <= k < s.len() implies {
            &&& post.sleeper(gs, #[trigger] s[k], Unpark::Swap)
            &&& post.waiters@.contains_key(s[k])
            &&& post.waiters@[s[k]].next == self.waiters@[s[k]].next
        } by {
            assert(self.sleeper(ds, s[k], Unpark::Swap));
            self.lemma_own_sleeper(ds, i, thread, spurious, post, next, s[k], Unpark::Swap);
        }
        if own is Push && next is Listed {
            assert(post.list@ =~= seq![mine] + s);
            assert(!s.contains(mine));
            assert forall|k: int| 0 < k < post.list@.len() implies #[trigger] post.list@[k] == s[k
                - 1] by {}
            assert forall|k: int| 0 <= k < s.len() implies s[k] != mine by {
                assert(s.contains(s[k]));
            }
            assert(post.waiters@[mine].handshake(Park::Load, Unpark::Swap));
            assert(post.sleeper(gs, mine, Unpark::Swap));
            assert(post.chained(post.stack, post.list@)) by {
                assert forall|k: int| 0 <= k < post.list@.len() implies {
                    &&& post.waiters@.contains_key(#[trigger] post.list@[k])
                    &&& post.waiters@[post.list@[k]].next == if k + 1 < post.list@.len() {
                        Some(post.list@[k + 1])
                    } else {
                        None
                    }
                } by {
                    if k + 1 < post.list@.len() {
                        assert(post.list@[k + 1] == s[k]);
                    }
                }
            }
        }
    }

    /// What a thread does to wake the others after an access of one that is about to sleep.
    proof fn lemma_own_wake(
        self,
        ds: Map<int, Duty>,
        i: int,
        thread: usize,
        spurious: bool,
        post: Self,
        next: Own,
        j: int,
    )
        requires
            self.inv(ds),
            ds.contains_key(i),
            ds.contains_key(j),
            self.own_next(ds[i].own, thread, spurious, post, next),
        ensures
            post.wake_ok(ds.insert(i, Duty { own: next, wake: ds[i].wake }), ds[j].wake),
    {
        let own = ds[i].own;
        let gs = ds.insert(i, Duty { own: next, wake: ds[i].wake });
        let mine = next.id();
        let wake = ds[j].wake;
        let pushed = own is Push && next is Listed;
        assert(self.own_ok(ds, own));
        assert(self.wake_ok(ds, wake));
        Self::lemma_same_wake(ds, i, next);
        assert forall|k: int| 0 <= k < wake.list().len() implies {
            &&& post.sleeper(gs, #[trigger] wake.list()[k], Unpark::Swap)
            &&& post.waiters@.contains_key(wake.list()[k])
            &&& post.waiters@[wake.list()[k]].next == self.waiters@[wake.list()[k]].next
            &&& !post.list@.contains(wake.list()[k])
        } by {
            let x = wake.list()[k];
            assert(wake.list().contains(x));
            assert(Self::taken(ds, x));
            assert(self.sleeper(ds, x, Unpark::Swap));
            self.lemma_own_sleeper(ds, i, thread, spurious, post, next, x, Unpark::Swap);
            if pushed {
                assert(x != mine);
                self.lemma_pushed_list(mine, x);
            }
        }
        if wake.tells() != 0 {
            let x = wake.tells();
            self.lemma_own_sleeper(ds, i, thread, spurious, post, next, x, wake->Tell_unpark);
            assert(Self::told(ds, x));
            if pushed {
                self.lemma_pushed_list(mine, x);
            }
        }
    }

    /// What a thread owns after an access of one that is about to sleep.
    proof fn lemma_own_other(
        self,
        ds: Map<int, Duty>,
        i: int,
        thread: usize,
        spurious: bool,
        post: Self,
        next: Own,
        j: int,
    )
        requires
            self.inv(ds),
            ds.contains_key(i),
            ds.contains_key(j),
            self.own_next(ds[i].own, thread, spurious, post, next),
        ensures
            ({
                let gs = ds.insert(i, Duty { own: next, wake: ds[i].wake });
                post.own_ok(gs, gs[j].own)
            }),
    {
        if j == i {
            self.lemma_own_self(ds, i, thread, spurious, post, next);
        } else {
            let mine = next.id();
            assert(self.own_ok(ds, ds[i].own));
            assert(self.own_ok(ds, ds[j].own));
            assert(Self::apart(ds[j], ds[i]));
            Self::lemma_same_wake(ds, i, next);
            let x = ds[j].own.id();
            if x != 0 {
                if ds[i].own is Push && next is Listed {
                    self.lemma_pushed_list(mine, x);
                }
                assert(x != mine);
                assert(post.waiters@.contains_key(x) && post.waiters@[x] == self.waiters@[x]);
            }
        }
    }

    /// What is on the stack once a waiter was put on it.
    proof fn lemma_pushed_list(self, id: usize, x: usize)
        ensures
            (seq![id] + self.list@).contains(x) <==> self.list@.contains(x) || x == id,
    {
        let s = self.list@;
        let t = seq![id] + s;
        if s.contains(x) {
            let k = choose|k: int| 0 <= k < s.len() && s[k] == x;
            assert(t[k + 1] == x);
        }
        if x == id {
            assert(t[0] == x);
        }
        if t.contains(x) && x != id {
            let k = choose|k: int| 0 <= k < t.len() && t[k] == x;
            assert(s[k - 1] == x);
        }
    }

    /// What holds of a thread that is about to sleep after its own access.
    proof fn lemma_own_self(
        self,
        ds: Map<int, Duty>,
        i: int,
        thread: usize,
        spurious: bool,
        post: Self,
        next: Own,
    )
        requires
            self.inv(ds),
            ds.contains_key(i),
            self.own_next(ds[i].own, thread, spurious, post, next),
        ensures
            post.own_ok(ds.insert(i, Duty { own: next, wake: ds[i].wake }), next),
    {
        let own = ds[i].own;
        let gs = ds.insert(i, Duty { own: next, wake: ds[i].wake });
        let id = next.id();
        assert(self.own_ok(ds, own));
        Self::lemma_same_wake(ds, i, next);
        match own {
            Own::Free => {
                assert(!self.waiters@.contains_key(id));
                if self.list@.contains(id) {
                    let k = choose|k: int| 0 <= k < self.list@.len() && self.list@[k] == id;
                    assert(self.waiters@.contains_key(self.list@[k]));
                }
                if Self::taken(ds, id) {
                    let j = choose|j: int| #[trigger]
                        ds.contains_key(j) && ds[j].wake.list().contains(id);
                    assert(self.wake_ok(ds, ds[j].wake));
                    let l = ds[j].wake.list();
                    let k = choose|k: int| 0 <= k < l.len() && l[k] == id;
                    assert(self.waiters@.contains_key(l[k]));
                }
                if Self::told(ds, id) {
                    let j = choose|j: int| #[trigger]
                        ds.contains_key(j) && ds[j].wake.tells() == id;
                    assert(self.wake_ok(ds, ds[j].wake));
                    assert(self.sleeper(ds, id, ds[j].wake->Tell_unpark));
                }
            },
            Own::Load { .. } => {},
            Own::Push { id: own_id, seen } => {
                self.lemma_pushed_list(own_id, own_id);
            },
            Own::Listed { id: own_id, park } => {
                let (w, p) = choose|w: Waiter, p: Park|
                    {
                        &&& #[trigger] self.waiters@[own_id].park_next(park, thread, false, w, p)
                        &&& post.waiters@ == if p is Done {
                            self.waiters@.remove(own_id)
                        } else {
                            self.waiters@.insert(own_id, w)
                        }
                        &&& next == if p is Done {
                            Own::Free
                        } else {
                            Own::Listed { id: own_id, park: p }
                        }
                    };
                if !Self::told(ds, own_id) {
                    let u = if self.listed(ds, own_id) {
                        Unpark::Swap
                    } else {
                        Unpark::Done
                    };
                    self.waiters@[own_id].lemma_park(park, u, thread, false, w, p);
                } else if self.listed(ds, own_id) {
                    assert(false);
                }
            },
        }
    }

    /// A thread that sleeps in its place still does when the others' duties to wake change.
    proof fn lemma_still(self, ds: Map<int, Duty>, i: int, wake: Wake, id: usize, unpark: Unpark)
        requires
            ds.contains_key(i),
            self.sleeper(ds, id, unpark),
        ensures
            self.sleeper(ds.insert(i, Duty { own: ds[i].own, wake }), id, unpark),
    {
        let gs = ds.insert(i, Duty { own: ds[i].own, wake });
        let j = choose|j: int| #[trigger]
            ds.contains_key(j) && (ds[j].own matches Own::Listed { id: own, park } && own == id
                && self.waiters@.contains_key(id) && self.waiters@[id].handshake(park, unpark));
        assert(gs.contains_key(j));
    }

    /// What is taken and told once the duty of thread `i` has changed.
    proof fn lemma_new_wake(ds: Map<int, Duty>, i: int, wake: Wake, x: usize)
        requires
            ds.contains_key(i),
            x != 0,
        ensures
            ({
                let gs = ds.insert(i, Duty { own: ds[i].own, wake });
                &&& Self::taken(gs, x) ==> Self::taken(ds, x) || wake.list().contains(x)
                &&& wake.list().contains(x) ==> Self::taken(gs, x)
                &&& Self::taken(ds, x) && !ds[i].wake.list().contains(x) ==> Self::taken(gs, x)
                &&& Self::told(gs, x) ==> Self::told(ds, x) || wake.tells() == x
                &&& wake.tells() == x ==> Self::told(gs, x)
                &&& Self::told(ds, x) && ds[i].wake.tells() != x ==> Self::told(gs, x)
            }),
    {
        let gs = ds.insert(i, Duty { own: ds[i].own, wake });
        assert(gs.contains_key(i));
        if Self::taken(gs, x) {
            let j = choose|j: int| #[trigger] gs.contains_key(j) && gs[j].wake.list().contains(x);
            assert(ds.contains_key(j));
        }
        if Self::taken(ds, x) {
            let j = choose|j: int| #[trigger] ds.contains_key(j) && ds[j].wake.list().contains(x);
            assert(gs.contains_key(j));
        }
        if Self::told(gs, x) {
            let j = choose|j: int| #[trigger] gs.contains_key(j) && gs[j].wake.tells() == x;
            assert(ds.contains_key(j));
        }
        if Self::told(ds, x) {
            let j = choose|j: int| #[trigger] ds.contains_key(j) && ds[j].wake.tells() == x;
            assert(gs.contains_key(j));
        }
    }

    /// What is taken or told by one thread is not by another.
    proof fn lemma_only(self, ds: Map<int, Duty>, i: int, x: usize)
        requires
            self.inv(ds),
            ds.contains_key(i),
            x != 0,
        ensures
            ds[i].wake.list().contains(x) ==> !self.list@.contains(x) && !Self::told(ds, x)
                && forall|j: int| #[trigger]
                ds.contains_key(j) && j != i ==> !ds[j].wake.list().contains(x),
            ds[i].wake.tells() == x ==> !self.listed(ds, x) && forall|j: int| #[trigger]
                ds.contains_key(j) && j != i ==> ds[j].wake.tells() != x,
            self.list@.contains(x) ==> !Self::taken(ds, x) && !Self::told(ds, x),
    {
        if ds[i].wake.list().contains(x) {
            let l = ds[i].wake.list();
            let k = choose|k: int| 0 <= k < l.len() && l[k] == x;
            assert(self.wake_ok(ds, ds[i].wake));
            assert(self.sleeper(ds, l[k], Unpark::Swap));
            assert(Self::taken(ds, x));
            if Self::told(ds, x) {
                let j = choose|j: int| #[trigger] ds.contains_key(j) && ds[j].wake.tells() == x;
                assert(self.wake_ok(ds, ds[j].wake));
                assert(!self.listed(ds, x));
            }
            assert forall|j: int| #[trigger]
                ds.contains_key(j) && j != i implies !ds[j].wake.list().contains(x) by {
                assert(Self::apart(ds[i], ds[j]));
            }
        }
        if ds[i].wake.tells() == x {
            assert(self.wake_ok(ds, ds[i].wake));
            assert forall|j: int| #[trigger] ds.contains_key(j) && j != i implies ds[j].wake.tells()
                != x by {
                assert(Self::apart(ds[i], ds[j]));
            }
        }
        if self.list@.contains(x) {
            if Self::taken(ds, x) {
                let j = choose|j: int| #[trigger]
                    ds.contains_key(j) && ds[j].wake.list().contains(x);
                let l = ds[j].wake.list();
                let k = choose|k: int| 0 <= k < l.len() && l[k] == x;
                assert(self.wake_ok(ds, ds[j].wake));
                assert(!self.list@.contains(l[k]));
            }
            if Self::told(ds, x) {
                let j = choose|j: int| #[trigger] ds.contains_key(j) && ds[j].wake.tells() == x;
                assert(self.wake_ok(ds, ds[j].wake));
            }
        }
    }

    /// Whatever the threads do with the list, one access of any that wakes the others keeps the
    /// invariant. The access that takes the stack leaves it empty, and every waiter that it takes
    /// is told in its turn: a thread that sleeps is let go on, and woken by its number.
    pub proof fn lemma_wake(self, ds: Map<int, Duty>, i: int, post: Self, next: Wake)
        requires
            self.inv(ds),
            ds.contains_key(i),
            self.wake_next(ds[i].wake, post, next),
        ensures
            post.inv(ds.insert(i, Duty { own: ds[i].own, wake: next })),
            ds[i].wake is Swap ==> post.list@.len() == 0 && next.list() == self.list@,
            !(ds[i].wake is Swap) ==> post.list == self.list,
            ds[i].wake is Walk && !(next is Idle) ==> next.tells() == ds[i].wake.list()[0]
                && next.list() == ds[i].wake.list().skip(1),
            ds[i].wake is Walk && next is Idle ==> ds[i].wake.list().len() == 0,
            next is Idle ==> ds[i].wake is Walk || ds[i].wake is Idle,
            ds[i].wake is Tell ==> next.list() == ds[i].wake.list() && (next is Tell || next is Walk),
            ds[i].wake matches Wake::Tell { id, unpark, rest, list } ==> (unpark is Swap ==> {
                &&& post.waiters@[id].parker == Word::Notified
                &&& next is Tell <==> self.waiters@[id].parker == Word::Parked
                &&& next is Tell ==> next.tells() == id && next->Tell_unpark is Release
            }),
            ds[i].wake matches Wake::Tell { id, unpark, rest, list } ==> (unpark is Release ==> {
                &&& post.waiters@[id].place.is_unparked
                &&& next is Tell
                &&& next->Tell_unpark == Unpark::Wake(self.waiters@[id].place.thread->0)
            }),
    {
        let wake = ds[i].wake;
        let gs = ds.insert(i, Duty { own: ds[i].own, wake: next });
        assert(self.wake_ok(ds, wake) && self.own_ok(ds, ds[i].own));
        assert(gs.contains_key(i));
        if wake is Swap {
            self.lemma_swapped(ds, i, post, next);
        } else if wake is Walk {
            self.lemma_walked(ds, i, post, next);
        } else if wake is Tell {
            self.lemma_told(ds, i, post, next);
        } else {
            assert(gs =~= ds);
        }
    }

    /// What holds after a thread has taken the stack.
    proof fn lemma_swapped(self, ds: Map<int, Duty>, i: int, post: Self, next: Wake)
        requires
            self.inv(ds),
            ds.contains_key(i),
            ds[i].wake is Swap,
            self.wake_next(ds[i].wake, post, next),
        ensures
            post.inv(ds.insert(i, Duty { own: ds[i].own, wake: next })),
    {
        let gs = ds.insert(i, Duty { own: ds[i].own, wake: next });
        let s = self.list@;
        assert(gs.contains_key(i));
        assert(next.list() == s);
        assert forall|x: usize| x != 0 implies {
            &&& #[trigger] post.listed(gs, x) == self.listed(ds, x)
            &&& Self::told(gs, x) == Self::told(ds, x)
        } by {
            Self::lemma_new_wake(ds, i, next, x);
        }
        assert forall|k: int| 0 <= k < s.len() implies post.sleeper(
            gs,
            #[trigger] s[k],
            Unpark::Swap,
        ) by {
            self.lemma_still(ds, i, next, s[k], Unpark::Swap);
            assert(self.sleeper(gs, s[k], Unpark::Swap));
            self.lemma_view(post, gs, s[k], Unpark::Swap);
        }
        assert forall|j: int| #[trigger] gs.contains_key(j) implies post.own_ok(gs, gs[j].own)
            && post.wake_ok(gs, gs[j].wake) by {
            assert(ds.contains_key(j));
            assert(self.own_ok(ds, ds[j].own) && self.wake_ok(ds, ds[j].wake));
            if gs[j].own.id() != 0 {
                assert(post.listed(gs, gs[j].own.id()) == self.listed(ds, gs[j].own.id()));
            }
            if j != i {
                let l = ds[j].wake.list();
                assert forall|k: int| 0 <= k < l.len() implies post.sleeper(
                    gs,
                    #[trigger] l[k],
                    Unpark::Swap,
                ) by {
                    self.lemma_still(ds, i, next, l[k], Unpark::Swap);
                    self.lemma_view(post, gs, l[k], Unpark::Swap);
                }
                if ds[j].wake.tells() != 0 {
                    let x = ds[j].wake.tells();
                    self.lemma_still(ds, i, next, x, ds[j].wake->Tell_unpark);
                    self.lemma_view(post, gs, x, ds[j].wake->Tell_unpark);
                    assert(post.listed(gs, x) == self.listed(ds, x));
                }
            }
        }
        assert forall|a: int, b: int| #[trigger]
            gs.contains_key(a) && #[trigger] gs.contains_key(b) && a != b implies Self::apart(
            gs[a],
            gs[b],
        ) by {
            assert(ds.contains_key(a) && ds.contains_key(b));
            assert(Self::apart(ds[a], ds[b]));
            assert forall|x: usize| #[trigger] gs[a].wake.list().contains(x) implies !gs[b].wake.list().contains(
            x) by {
                if gs[a].wake.list().contains(x) && gs[b].wake.list().contains(x) {
                    if a == i {
                        let l = gs[b].wake.list();
                        let k = choose|k: int| 0 <= k < l.len() && l[k] == x;
                        assert(self.wake_ok(ds, ds[b].wake));
                        assert(!self.list@.contains(l[k]));
                    } else if b == i {
                        let l = gs[a].wake.list();
                        let k = choose|k: int| 0 <= k < l.len() && l[k] == x;
                        assert(self.wake_ok(ds, ds[a].wake));
                        assert(!self.list@.contains(l[k]));
                    }
                }
            }
        }
    }

    /// The threads that sleep depend only on the waiters.
    proof fn lemma_view(self, post: Self, ds: Map<int, Duty>, id: usize, unpark: Unpark)
        requires
            post.waiters == self.waiters,
            self.sleeper(ds, id, unpark),
        ensures
            post.sleeper(ds, id, unpark),
    {
        let j = choose|j: int| #[trigger]
            ds.contains_key(j) && (ds[j].own matches Own::Listed { id: own, park } && own == id
                && self.waiters@.contains_key(id) && self.waiters@[id].handshake(park, unpark));
    }

    /// What holds after a thread has looked at the next waiter that it took.
    proof fn lemma_walked(self, ds: Map<int, Duty>, i: int, post: Self, next: Wake)
        requires
            self.inv(ds),
            ds.contains_key(i),
            ds[i].wake is Walk,
            self.wake_next(ds[i].wake, post, next),
        ensures
            post.inv(ds.insert(i, Duty { own: ds[i].own, wake: next })),
            next is Idle ==> ds[i].wake.list().len() == 0,
            !(next is Idle) ==> ds[i].wake.list().len() > 0 && next.tells()
                == ds[i].wake.list()[0] && next.list() == ds[i].wake.list().skip(1),
    {
        let wake = ds[i].wake;
        let gs = ds.insert(i, Duty { own: ds[i].own, wake: next });
        let l = wake.list();
        let top = wake.top();
        assert(self.wake_ok(ds, wake));
        assert(gs.contains_key(i));
        if l.len() > 0 {
            assert(l[0] == top);
            assert(self.waiters@.contains_key(l[0]));
            assert(l.contains(top));
            self.lemma_only(ds, i, top);
        }
        let rest = next.list();
        assert forall|k: int| 0 <= k < rest.len() implies #[trigger] rest[k] == l[k + 1] by {}
        assert forall|x: usize| #[trigger] rest.contains(x) == (l.contains(x) && x != top) by {
            if rest.contains(x) {
                let k = choose|k: int| 0 <= k < rest.len() && rest[k] == x;
                assert(l[k + 1] == x);
                assert(l[0] != l[k + 1]);
            }
            if l.contains(x) && x != top {
                let k = choose|k: int| 0 <= k < l.len() && l[k] == x;
                assert(rest[k - 1] == x);
            }
        }
        assert forall|x: usize| x != 0 implies {
            &&& #[trigger] post.listed(gs, x) == (self.listed(ds, x) && x != top)
            &&& Self::told(gs, x) == (Self::told(ds, x) || (x == top && l.len() > 0))
        } by {
            Self::lemma_new_wake(ds, i, next, x);
            self.lemma_only(ds, i, x);
            if Self::taken(gs, x) {
                let j = choose|j: int| #[trigger]
                    gs.contains_key(j) && gs[j].wake.list().contains(x);
                assert(ds.contains_key(j));
                if j != i {
                    assert(ds[j].wake.list().contains(x));
                    assert(Self::taken(ds, x));
                }
            }
        }
        assert forall|j: int| #[trigger] gs.contains_key(j) implies post.own_ok(gs, gs[j].own)
            && post.wake_ok(gs, gs[j].wake) by {
            assert(ds.contains_key(j));
            assert(self.own_ok(ds, ds[j].own) && self.wake_ok(ds, ds[j].wake));
            let own = ds[j].own;
            if own.id() != 0 {
                let x = own.id();
                assert(post.listed(gs, x) == (self.listed(ds, x) && x != top));
                if x == top && l.len() > 0 {
                    assert(self.sleeper(ds, l[0], Unpark::Swap));
                    self.lemma_sleeper(ds, j, top, Unpark::Swap);
                }
            }
            let m = gs[j].wake.list();
            assert forall|k: int| 0 <= k < m.len() implies post.sleeper(
                gs,
                #[trigger] m[k],
                Unpark::Swap,
            ) && !post.list@.contains(m[k]) by {
                if j == i {
                    assert(m[k] == l[k + 1]);
                    self.lemma_still(ds, i, next, l[k + 1], Unpark::Swap);
                } else {
                    self.lemma_still(ds, i, next, m[k], Unpark::Swap);
                }
            }
            if j == i {
                if l.len() > 0 {
                    self.lemma_still(ds, i, next, l[0], Unpark::Swap);
                    assert(post.listed(gs, top) == (self.listed(ds, top) && top != top));
                    if l.len() > 1 {
                        assert(rest[0] == l[1]);
                    }
                    assert(post.chained(next.top(), rest)) by {
                        assert forall|k: int| 0 <= k < rest.len() implies {
                            &&& post.waiters@.contains_key(#[trigger] rest[k])
                            &&& post.waiters@[rest[k]].next == if k + 1 < rest.len() {
                                Some(rest[k + 1])
                            } else {
                                None
                            }
                        } by {
                            assert(self.waiters@.contains_key(l[k + 1]));
                        }
                    }
                }
            } else if ds[j].wake.tells() != 0 {
                let x = ds[j].wake.tells();
                self.lemma_still(ds, i, next, x, ds[j].wake->Tell_unpark);
                assert(post.listed(gs, x) == (self.listed(ds, x) && x != top));
            }
        }
        assert forall|a: int, b: int| #[trigger]
            gs.contains_key(a) && #[trigger] gs.contains_key(b) && a != b implies Self::apart(
            gs[a],
            gs[b],
        ) by {
            assert(ds.contains_key(a) && ds.contains_key(b));
            assert(Self::apart(ds[a], ds[b]));
            assert forall|x: usize| #[trigger] gs[a].wake.list().contains(x) implies !gs[b].wake.list().contains(
            x) by {
                assert(ds[a].wake.list().contains(x));
            }
            if l.len() > 0 {
                assert(!Self::told(ds, top));
            }
        }
        assert forall|k: int| 0 <= k < post.list@.len() implies post.sleeper(
            gs,
            #[trigger] post.list@[k],
            Unpark::Swap,
        ) by {
            self.lemma_still(ds, i, next, self.list@[k], Unpark::Swap);
        }
    }

    /// What holds after an access of a thread that tells another one to go on.
    proof fn lemma_told(self, ds: Map<int, Duty>, i: int, post: Self, next: Wake)
        requires
            self.inv(ds),
            ds.contains_key(i),
            ds[i].wake is Tell,
            self.wake_next(ds[i].wake, post, next),
        ensures
            post.inv(ds.insert(i, Duty { own: ds[i].own, wake: next })),
    {
        let wake = ds[i].wake;
        let gs = ds.insert(i, Duty { own: ds[i].own, wake: next });
        let id = wake->Tell_id;
        let unpark = wake->Tell_unpark;
        let telling = wake.tells() != 0;
        assert(self.wake_ok(ds, wake));
        assert(gs.contains_key(i));
        assert(next.list() == wake.list() && next.top() == wake.top());
        let u: Unpark = if telling {
            let (w, u) = choose|w: Waiter, u: Unpark|
                {
                    &&& #[trigger] self.waiters@[id].unpark_next(unpark, w, u)
                    &&& post.waiters@ == self.waiters@.insert(id, w)
                    &&& next == if u is Done {
                        Wake::Walk { top: wake.top(), list: wake->Tell_list }
                    } else {
                        Wake::Tell { id, unpark: u, rest: wake.top(), list: wake->Tell_list }
                    }
                };
            let p = choose|p: int| #[trigger]
                ds.contains_key(p) && (ds[p].own matches Own::Listed { id: own, park } && own == id
                    && self.waiters@.contains_key(id) && self.waiters@[id].handshake(park, unpark));
            let park = ds[p].own->Listed_park;
            self.waiters@[id].lemma_unpark(park, unpark, w, u);
            assert(gs.contains_key(p));
            assert(post.waiters@[id].handshake(park, u));
            assert(post.sleeper(gs, id, u));
            u
        } else {
            Unpark::Done
        };
        assert forall|x: usize| x != 0 implies {
            &&& #[trigger] post.listed(gs, x) == self.listed(ds, x)
            &&& x != id ==> Self::told(gs, x) == Self::told(ds, x)
            &&& x == id && telling ==> (Self::told(gs, x) <==> u is Release)
            &&& !telling ==> Self::told(gs, x) == Self::told(ds, x)
        } by {
            Self::lemma_new_wake(ds, i, next, x);
            self.lemma_only(ds, i, x);
            if Self::taken(gs, x) {
                let j = choose|j: int| #[trigger]
                    gs.contains_key(j) && gs[j].wake.list().contains(x);
                assert(ds.contains_key(j) && ds[j].wake.list().contains(x));
            }
            if x == id && telling && Self::told(gs, x) {
                let j = choose|j: int| #[trigger] gs.contains_key(j) && gs[j].wake.tells() == x;
                assert(ds.contains_key(j));
                assert(j == i);
            }
            if Self::taken(ds, x) {
                let j = choose|j: int| #[trigger]
                    ds.contains_key(j) && ds[j].wake.list().contains(x);
                assert(gs.contains_key(j) && gs[j].wake.list().contains(x));
            }
        }
        assert forall|x: usize, v: Unpark|
            self.sleeper(ds, x, v) && (x != id || !telling) implies #[trigger] post.sleeper(
            gs,
            x,
            v,
        ) by {
            let j = choose|j: int| #[trigger]
                ds.contains_key(j) && (ds[j].own matches Own::Listed { id: own, park } && own == x
                    && self.waiters@.contains_key(x) && self.waiters@[x].handshake(park, v));
            assert(gs.contains_key(j));
            assert(post.waiters@.contains_key(x) && post.waiters@[x] == self.waiters@[x]);
        }
        assert forall|j: int| #[trigger] gs.contains_key(j) implies post.own_ok(gs, gs[j].own)
            && post.wake_ok(gs, gs[j].wake) by {
            assert(ds.contains_key(j));
            assert(self.own_ok(ds, ds[j].own) && self.wake_ok(ds, ds[j].wake));
            let own = ds[j].own;
            if own.id() != 0 {
                let x = own.id();
                assert(post.listed(gs, x) == self.listed(ds, x));
                if telling && x == id {
                    self.lemma_sleeper(ds, j, id, unpark);
                    assert(post.sleeper(gs, id, u));
                    let p = choose|p: int| #[trigger]
                        gs.contains_key(p) && (gs[p].own matches Own::Listed { id: o, park } && o
                            == id && post.waiters@.contains_key(id)
                            && post.waiters@[id].handshake(park, u));
                    assert(ds.contains_key(p));
                    if p != j {
                        assert(Self::apart(ds[p], ds[j]));
                    }
                }
            }
            let m = gs[j].wake.list();
            assert(m == ds[j].wake.list());
            assert forall|k: int| 0 <= k < m.len() implies {
                &&& post.sleeper(gs, #[trigger] m[k], Unpark::Swap)
                &&& post.waiters@.contains_key(m[k])
                &&& post.waiters@[m[k]].next == self.waiters@[m[k]].next
            } by {
                assert(m.contains(m[k]));
                assert(self.sleeper(ds, m[k], Unpark::Swap));
                assert(Self::taken(ds, m[k]));
                if telling {
                    assert(m[k] != id);
                }
                assert(post.sleeper(gs, m[k], Unpark::Swap));
            }
            if gs[j].wake.tells() != 0 {
                let x = gs[j].wake.tells();
                assert(post.listed(gs, x) == self.listed(ds, x));
                if j != i {
                    if telling {
                        assert(Self::apart(ds[i], ds[j]));
                    }
                    assert(post.sleeper(gs, x, gs[j].wake->Tell_unpark));
                }
            }
        }
        assert forall|a: int, b: int| #[trigger]
            gs.contains_key(a) && #[trigger] gs.contains_key(b) && a != b implies Self::apart(
            gs[a],
            gs[b],
        ) by {
            assert(ds.contains_key(a) && ds.contains_key(b));
            assert(Self::apart(ds[a], ds[b]));
        }
        let s = self.list@;
        assert forall|k: int| 0 <= k < s.len() implies {
            &&& post.sleeper(gs, #[trigger] s[k], Unpark::Swap)
            &&& post.waiters@.contains_key(s[k])
            &&& post.waiters@[s[k]].next == self.waiters@[s[k]].next
        } by {
            assert(s.contains(s[k]));
            if telling {
                assert(self.listed(ds, s[k]));
                assert(s[k] != id);
            }
            assert(self.sleeper(ds, s[k], Unpark::Swap));
            assert(post.sleeper(gs, s[k], Unpark::Swap));
        }
    }

    /// A thread without a duty may come, or take on the duty to wake the others.
    pub proof fn lemma_start(self, ds: Map<int, Duty>, i: int, wake: Wake)
        requires
            self.inv(ds),
            wake is Idle || wake is Swap,
            ds.contains_key(i) ==> ds[i].wake is Idle,
        ensures
            ds.contains_key(i) ==> self.inv(ds.insert(i, Duty { own: ds[i].own, wake })),
            !ds.contains_key(i) ==> self.inv(ds.insert(i, Duty { own: Own::Free, wake })),
    {
        let duty = Duty {
            own: if ds.contains_key(i) {
                ds[i].own
            } else {
                Own::Free
            },
            wake,
        };
        let gs = ds.insert(i, duty);
        self.lemma_idle(ds, gs, i);
    }

    /// A thread without a duty may go.
    pub proof fn lemma_finish(self, ds: Map<int, Duty>, i: int)
        requires
            self.inv(ds),
            ds.contains_key(i),
            ds[i] == off(),
        ensures
            self.inv(ds.remove(i)),
    {
        self.lemma_idle(ds, ds.remove(i), i);
    }

    /// The duties of the threads but `i` are the same, and `i` takes, tells and owns the same
    /// waiters as before.
    pub open spec fn same_duties(ds: Map<int, Duty>, gs: Map<int, Duty>, i: int) -> bool {
        &&& forall|j: int| j != i && #[trigger] gs.contains_key(j) ==> ds.contains_key(j) && gs[j]
            == ds[j]
        &&& forall|j: int| j != i && #[trigger] ds.contains_key(j) ==> gs.contains_key(j)
        &&& gs.contains_key(i) ==> gs[i].wake is Idle || gs[i].wake is Swap
        &&& ds.contains_key(i) ==> ds[i].wake is Idle || ds[i].wake is Swap
        &&& gs.contains_key(i) && !ds.contains_key(i) ==> gs[i].own is Free
        &&& !gs.contains_key(i) && ds.contains_key(i) ==> ds[i].own is Free
        &&& gs.contains_key(i) && ds.contains_key(i) ==> gs[i].own == ds[i].own
    }

    /// What is taken and told by the same duties.
    proof fn lemma_same_at(ds: Map<int, Duty>, gs: Map<int, Duty>, i: int, x: usize)
        requires
            Self::same_duties(ds, gs, i),
            x != 0,
        ensures
            Self::taken(gs, x) == Self::taken(ds, x),
            Self::told(gs, x) == Self::told(ds, x),
    {
        if Self::taken(gs, x) {
            let j = choose|j: int| #[trigger] gs.contains_key(j) && gs[j].wake.list().contains(x);
            assert(ds.contains_key(j) && ds[j].wake.list().contains(x));
        }
        if Self::taken(ds, x) {
            let j = choose|j: int| #[trigger] ds.contains_key(j) && ds[j].wake.list().contains(x);
            assert(gs.contains_key(j) && gs[j].wake.list().contains(x));
        }
        if Self::told(gs, x) {
            let j = choose|j: int| #[trigger] gs.contains_key(j) && gs[j].wake.tells() == x;
            assert(ds.contains_key(j) && ds[j].wake.tells() == x);
        }
        if Self::told(ds, x) {
            let j = choose|j: int| #[trigger] ds.contains_key(j) && ds[j].wake.tells() == x;
            assert(gs.contains_key(j) && gs[j].wake.tells() == x);
        }
    }

    /// Who sleeps by the same duties.
    proof fn lemma_same_sleeper(
        self,
        ds: Map<int, Duty>,
        gs: Map<int, Duty>,
        i: int,
        x: usize,
        unpark: Unpark,
    )
        requires
            Self::same_duties(ds, gs, i),
            self.sleeper(ds, x, unpark),
        ensures
            self.sleeper(gs, x, unpark),
    {
        let j = choose|j: int| #[trigger]
            ds.contains_key(j) && (ds[j].own matches Own::Listed { id: own, park } && own == x
                && self.waiters@.contains_key(x) && self.waiters@[x].handshake(park, unpark));
        assert(gs.contains_key(j));
    }

    /// What holds of a thread by the same duties.
    proof fn lemma_same_ok(self, ds: Map<int, Duty>, gs: Map<int, Duty>, i: int, j: int)
        requires
            self.inv(ds),
            Self::same_duties(ds, gs, i),
            gs.contains_key(j),
        ensures
            self.own_ok(gs, gs[j].own),
            self.wake_ok(gs, gs[j].wake),
    {
        if ds.contains_key(j) {
            assert(self.own_ok(ds, ds[j].own) && self.wake_ok(ds, ds[j].wake));
        }
        let x = gs[j].own.id();
        if x != 0 {
            Self::lemma_same_at(ds, gs, i, x);
        }
        let y = gs[j].wake.tells();
        if y != 0 {
            Self::lemma_same_at(ds, gs, i, y);
            self.lemma_same_sleeper(ds, gs, i, y, gs[j].wake->Tell_unpark);
        }
        let m = gs[j].wake.list();
        assert forall|k: int| 0 <= k < m.len() implies self.sleeper(
            gs,
            #[trigger] m[k],
            Unpark::Swap,
        ) && !self.list@.contains(m[k]) by {
            assert(self.sleeper(ds, m[k], Unpark::Swap));
            self.lemma_same_sleeper(ds, gs, i, m[k], Unpark::Swap);
        }
    }

    /// Duties may change as long as they take, tell and own the same waiters.
    proof fn lemma_idle(self, ds: Map<int, Duty>, gs: Map<int, Duty>, i: int)
        requires
            self.inv(ds),
            Self::same_duties(ds, gs, i),
        ensures
            self.inv(gs),
    {
        assert forall|j: int| #[trigger] gs.contains_key(j) implies self.own_ok(gs, gs[j].own)
            && self.wake_ok(gs, gs[j].wake) by {
            self.lemma_same_ok(ds, gs, i, j);
        }
        assert forall|a: int, b: int| #[trigger]
            gs.contains_key(a) && #[trigger] gs.contains_key(b) && a != b implies Self::apart(
            gs[a],
            gs[b],
        ) by {
            if ds.contains_key(a) && ds.contains_key(b) {
                assert(Self::apart(ds[a], ds[b]));
            }
        }
        assert forall|k: int| 0 <= k < self.list@.len() implies self.sleeper(
            gs,
            #[trigger] self.list@[k],
            Unpark::Swap,
        ) by {
            assert(self.sleeper(ds, self.list@[k], Unpark::Swap));
            self.lemma_same_sleeper(ds, gs, i, self.list@[k], Unpark::Swap);
        }
    }
}

} // verus!
