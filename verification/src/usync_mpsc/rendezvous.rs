//! A queue without a buffer: a push waits until its value is taken from where it is.
//!
//! The state points to the waiter that came last, or says that one end has gone; a tag marks the
//! waiter of a receiver that can be served at once. The consumer takes the whole stack of waiters,
//! turns it over, and takes the values from there, the oldest first. A pop that finds nothing
//! leaves a waiter of its own, without that mark, so that later pushes line up behind it, and it
//! ends only when the other end goes. Taking a value does not wake the push that brought it: only
//! the end of the queue does.
use crate::arena::Arena;
use crate::pause::Platform;
use crate::shared::{Pointer, Word};
use crate::usync_mpsc::utils::parker::{Park, Parker, Parking, Unpark};
use vstd::prelude::*;

verus! {

/// The tag of a receiver that can be served.
pub const IS_RECEIVER: usize = 1;

/// The tag of a queue of which one end has gone.
pub const IS_DISCONNECTED: usize = 2;

/// A thread that waits, with the value that it brings or gets. Zero stands for no neighbour.
pub struct Waiter<T> {
    pub prev: usize,
    pub next: usize,
    pub parker: Parker,
    pub disconnected: bool,
    pub value: Option<T>,
}

impl<T> Waiter<T> {
    /// A waiter with nobody beside it.
    pub fn new(value: Option<T>) -> (waiter: Self)
        ensures
            waiter.prev == 0,
            waiter.next == 0,
            waiter.parker.event == Word::Empty,
            waiter.parker.rests(Map::empty()),
            !waiter.disconnected,
            waiter.value == value,
    {
        Waiter { prev: 0, next: 0, parker: Parker::new(), disconnected: false, value }
    }
}

/// The queue.
pub struct Queue<T> {
    pub state: Pointer,
    pub consumed: usize,
    pub waiters: Arena<Waiter<T>, 4>,
    /// The waiters that can be reached, the oldest first: those that the consumer has turned over,
    /// those that it is turning over, and those on the stack.
    pub order: Ghost<Seq<usize>>,
    /// How many of them were turned over.
    pub ready: Ghost<nat>,
    /// How many of them were taken off the stack.
    pub turned: Ghost<nat>,
    /// The oldest of them is that of a pop.
    pub guest: Ghost<bool>,
    /// The consumer has gone while it had turned waiters over, and they are told.
    pub closed: Ghost<bool>,
}

/// One end has gone.
pub open spec fn disconnected(state: Pointer) -> bool {
    state.addr % 4 >= 2
}

/// The state points to a receiver that can be served.
pub open spec fn receiver(state: Pointer) -> bool {
    state.addr % 2 == 1
}

/// The waiter that the state points to.
pub open spec fn top(state: Pointer) -> usize {
    state.cell(4) as usize
}

/// The part of a push that comes next. `id` is its waiter.
pub enum Push<T> {
    /// Set up a waiter with the value.
    Start { value: T },
    /// Load the state.
    Load { id: usize },
    /// Exchange the state of a receiver for nothing.
    Serve { id: usize, seen: Pointer },
    /// Hand the value to that receiver.
    Hand { id: usize, receiver: usize },
    /// Wake that receiver.
    Wake { receiver: usize, unpark: Unpark },
    /// Exchange the state for one that points to the waiter.
    Link { id: usize, seen: Pointer },
    /// Sleep until the queue ends.
    Rest { id: usize, parking: Parking },
    /// The push is over; the value comes back if one end has gone.
    Done(Result<(), T>),
}

/// The part of a try-push that comes next.
pub enum Offer<T> {
    /// Load the state.
    Load { value: T },
    /// Exchange the state of a receiver for nothing.
    Serve { value: T, seen: Pointer },
    /// Hand the value to that receiver.
    Hand { value: T, receiver: usize },
    /// Wake that receiver.
    Wake { receiver: usize, unpark: Unpark },
    /// It is over: the value comes back for good if one end has gone, and for now if no receiver
    /// can be served.
    Done(Result<(), Result<T, T>>),
}

/// The part of a try-pop that comes next.
pub enum Take<T> {
    /// Take a value that was turned over.
    Front,
    /// Load the state.
    Load,
    /// Take the whole stack.
    Swap,
    /// Turn the next waiter over.
    Turn { tail: usize, at: Ghost<int> },
    /// It is over: a value, nothing, or one end has gone.
    Done(Result<Option<T>, ()>),
}

/// The part of a pop that comes next.
pub enum Pop<T> {
    /// Try to take a value.
    Try(Take<T>),
    /// Exchange an empty state for one that points to a waiter.
    Link { id: usize },
    /// Other waiters came: take a value.
    Retry(Take<T>),
    /// Sleep until served, or until the queue ends.
    Rest { id: usize, parking: Parking },
    /// The pop is over.
    Done(Result<T, ()>),
}

/// The part of a disconnect that comes next.
pub enum End {
    /// Load the state.
    Load { is_sender: bool },
    /// Swap the state for one that says that the end has gone.
    Swap { is_sender: bool },
    /// Look at the next waiter.
    Walk { waiter: usize, back: bool, is_sender: bool, list: Ghost<Seq<usize>> },
    /// Tell its thread.
    Tell { id: usize, unpark: Unpark, rest: usize, back: bool, is_sender: bool, list: Ghost<Seq<usize>> },
    /// The disconnect is over.
    Done,
}

impl<T> Queue<T> {
    /// A queue that nobody waits in.
    pub fn new() -> (queue: Self)
        ensures
            queue.state.addr == 0,
            queue.consumed == 0,
            queue.waiters.wf(),
            queue.waiters.room() == (usize::MAX - 4) / 4,
            queue.waiters.has_room(),
            queue.waiters@ == Map::<usize, Waiter<T>>::empty(),
            queue.order@.len() == 0,
            queue.wf(),
            queue@ == Seq::<T>::empty(),
            queue.ready@ == 0,
            queue.turned@ == 0,
            !queue.guest@,
            !queue.closed@,
            queue.rests(),
            queue.can_pop(),
            queue.can_end(true),
            queue.can_end(false),
    {
        let queue = Queue {
            state: Pointer { addr: 0 },
            consumed: 0,
            waiters: Arena::new(),
            order: Ghost(Seq::empty()),
            ready: Ghost(0nat),
            turned: Ghost(0nat),
            guest: Ghost(false),
            closed: Ghost(false),
        };
        assert(queue@ =~= Seq::empty());
        proof {
            assert(queue.wf());
            queue.lemma_rests();
        }
        queue
    }

    /// The waiters and what is known of them are the same.
    pub open spec fn same_lists(self, post: Self) -> bool {
        &&& post.order == self.order
        &&& post.ready == self.ready
        &&& post.turned == self.turned
        &&& post.guest == self.guest
        &&& post.closed == self.closed
    }

    /// Only the waiters may differ.
    pub open spec fn same_but_waiters(self, post: Self) -> bool {
        &&& self.same_lists(post)
        &&& post.state == self.state
        &&& post.consumed == self.consumed
        &&& post.waiters.wf()
    }

    /// What a push does about a state that it has seen.
    pub open spec fn push_look(self, id: usize, seen: Pointer, post: Self, next: Push<T>) -> bool {
        &&& self.same_but_waiters(post)
        &&& if disconnected(seen) {
            &&& post.waiters@ == self.waiters@.remove(id)
            &&& next == Push::Done(Err(self.waiters@[id].value->0))
        } else {
            &&& post.waiters@ == self.waiters@
            &&& next == if receiver(seen) {
                Push::<T>::Serve { id, seen }
            } else {
                Push::<T>::Link { id, seen }
            }
        }
    }

    /// The next access of a push finds what it needs.
    pub open spec fn pushes(self, op: Push<T>) -> bool {
        &&& self.waiters.wf()
        &&& match op {
            Push::Start { value } => self.waiters.has_room(),
            Push::Load { id } => self.waiters@.contains_key(id) && self.waiters@[id].value is Some,
            Push::Serve { id, seen } => self.waiters@.contains_key(id)
                && self.waiters@[id].value is Some,
            Push::Hand { id, receiver } => {
                &&& self.waiters@.contains_key(id)
                &&& self.waiters@.contains_key(receiver)
                &&& id != receiver
            },
            Push::Wake { receiver, unpark } => !(unpark is Wake || unpark is Done) ==> {
                &&& self.waiters@.contains_key(receiver)
                &&& self.waiters@[receiver].parker.unparks(unpark)
            },
            Push::Link { id, seen } => self.waiters@.contains_key(id)
                && self.waiters@[id].value is Some,
            Push::Rest { id, parking } => {
                &&& self.waiters@.contains_key(id)
                &&& self.waiters@[id].parker.parks(parking.stage)
                &&& self.waiters@[id].disconnected ==> self.waiters@[id].value is Some
            },
            Push::Done(_) => true,
        }
    }

    /// One access of a push by `thread`. A weak exchange may fail though it need not (`spurious`).
    pub open spec fn push_next(
        self,
        op: Push<T>,
        thread: usize,
        spurious: bool,
        post: Self,
        next: Push<T>,
    ) -> bool {
        match op {
            Push::Start { value } => {
                let id = self.waiters.fresh();
                &&& self.same_but_waiters(post)
                &&& exists|w: Waiter<T>|
                    {
                        &&& self.waiters@.insert(id, w) == post.waiters@
                        &&& #[trigger] w.parker.rests(Map::empty())
                        &&& w.parker.event == Word::Empty
                        &&& w.prev == 0 && w.next == 0 && !w.disconnected
                        &&& w.value == Some(value)
                    }
                &&& next == Push::<T>::Load { id }
            },
            Push::Load { id } => self.push_look(id, self.state, post, next),
            Push::Serve { id, seen } => if self.state == seen && !spurious {
                &&& post.state.addr == 0
                &&& self.same_lists(post)
                &&& post.consumed == self.consumed
                &&& post.waiters == self.waiters
                &&& next == Push::<T>::Hand { id, receiver: top(seen) }
            } else {
                self.push_look(id, self.state, post, next)
            },
            Push::Hand { id, receiver } => {
                &&& self.same_but_waiters(post)
                &&& post.waiters@ == self.waiters@.remove(id).insert(
                    receiver,
                    Waiter { value: self.waiters@[id].value, ..self.waiters@[receiver] },
                )
                &&& next == Push::<T>::Wake { receiver, unpark: Unpark::Load }
            },
            Push::Wake { receiver, unpark } => {
                &&& self.same_but_waiters(post)
                &&& if unpark is Wake || unpark is Done {
                    post.waiters@ == self.waiters@ && next == Push::<T>::Done(Ok(()))
                } else {
                    exists|parker: Parker, u: Unpark|
                        {
                            &&& #[trigger] self.waiters@[receiver].parker.unpark_next(
                                unpark,
                                parker,
                                u,
                            )
                            &&& post.waiters@ == self.waiters@.insert(
                                receiver,
                                Waiter { parker, ..self.waiters@[receiver] },
                            )
                            &&& next == if u is Done {
                                Push::<T>::Done(Ok(()))
                            } else {
                                Push::<T>::Wake { receiver, unpark: u }
                            }
                        }
                }
            },
            Push::Link { id, seen } => {
                let linked = Waiter { next: seen.addr, ..self.waiters@[id] };
                if self.state == seen && !spurious {
                    &&& post.state.addr == id
                    &&& post.consumed == self.consumed
                    &&& post.waiters.wf()
                    &&& post.waiters@ == self.waiters@.insert(id, linked)
                    &&& post.order@ == self.order@.push(id)
                    &&& post.ready == self.ready
                    &&& post.turned == self.turned
                    &&& post.guest == self.guest
                    &&& post.closed == self.closed
                    &&& next matches Push::Rest { id: own, parking }
                    &&& own == id && parking.stage == Park::Look && parking.backoff.attempt == 0
                } else {
                    &&& self.same_but_waiters(post)
                    &&& if disconnected(self.state) {
                        &&& post.waiters@ == self.waiters@.remove(id)
                        &&& next == Push::Done(Err(self.waiters@[id].value->0))
                    } else {
                        &&& post.waiters@ == self.waiters@.insert(id, linked)
                        &&& next == if receiver(self.state) {
                            Push::<T>::Serve { id, seen: self.state }
                        } else {
                            Push::<T>::Link { id, seen: self.state }
                        }
                    }
                }
            },
            Push::Rest { id, parking } => {
                &&& self.same_but_waiters(post)
                &&& exists|parker: Parker, p: Parking|
                    {
                        &&& #[trigger] self.waiters@[id].parker.park_next(
                            parking.stage,
                            thread,
                            false,
                            parker,
                            p.stage,
                        )
                        &&& if p.stage is Done {
                            &&& post.waiters@ == self.waiters@.remove(id)
                            &&& next == if self.waiters@[id].disconnected {
                                Push::Done(Err(self.waiters@[id].value->0))
                            } else {
                                Push::Done(Ok(()))
                            }
                        } else {
                            &&& post.waiters@ == self.waiters@.insert(
                                id,
                                Waiter { parker, ..self.waiters@[id] },
                            )
                            &&& next == Push::<T>::Rest { id, parking: p }
                        }
                    }
            },
            Push::Done(_) => post == self && next == op,
        }
    }

    /// What a push does about a state that it has seen.
    fn look(&mut self, id: usize, seen: Pointer) -> (next: Push<T>)
        requires
            old(self).waiters.wf(),
            old(self).waiters@.contains_key(id),
            old(self).waiters@[id].value is Some,
        ensures
            old(self).push_look(id, seen, *final(self), next),
            final(self).waiters.room() == old(self).waiters.room() + 1 - next.held(),
    {
        let tag: usize = seen.tag(4);
        if tag >= IS_DISCONNECTED {
            let waiter = self.waiters.free(id);
            return Push::Done(Err(waiter.value.unwrap()));
        }
        if tag == IS_RECEIVER {
            Push::Serve { id, seen }
        } else {
            Push::Link { id, seen }
        }
    }

    /// Performs one access of a push by `thread`.
    pub fn push_step(&mut self, op: Push<T>, thread: usize, spurious: bool, platform: Platform)
        -> (next: Push<T>)
        requires
            old(self).pushes(op),
        ensures
            old(self).push_next(op, thread, spurious, *final(self), next),
            final(self).waiters.room() == old(self).waiters.room() + op.held() - next.held(),
    {
        match op {
            Push::Start { value } => {
                let waiter = Waiter::new(Some(value));
                let ghost w = waiter;
                let id: usize = self.waiters.allocate(waiter);
                assert(w.parker.rests(Map::empty()));
                Push::Load { id }
            },
            Push::Load { id } => self.look(id, self.state),
            Push::Serve { id, seen } => if self.state == seen && !spurious {
                self.state = Pointer { addr: 0 };
                Push::Hand { id, receiver: seen.untagged(4) }
            } else {
                self.look(id, self.state)
            },
            Push::Hand { id, receiver } => {
                let own = self.waiters.free(id);
                let mut waiter = self.waiters.lend(receiver);
                waiter.value = own.value;
                let ghost w = waiter;
                self.waiters.put(receiver, waiter);
                assert(self.waiters@ =~= old(self).waiters@.remove(id).insert(receiver, w));
                Push::Wake { receiver, unpark: Unpark::Load }
            },
            Push::Wake { receiver, unpark } => match unpark {
                Unpark::Wake(_) => Push::Done(Ok(())),
                Unpark::Done => Push::Done(Ok(())),
                unpark => {
                    let mut waiter = self.waiters.lend(receiver);
                    let next = waiter.parker.unpark(unpark);
                    let ghost w = waiter;
                    self.waiters.put(receiver, waiter);
                    assert(self.waiters@ =~= old(self).waiters@.insert(receiver, w));
                    assert(old(self).waiters@[receiver].parker.unpark_next(unpark, w.parker, next));
                    if let Unpark::Done = next {
                        Push::Done(Ok(()))
                    } else {
                        Push::Wake { receiver, unpark: next }
                    }
                },
            },
            Push::Link { id, seen } => {
                let mut waiter = self.waiters.lend(id);
                waiter.next = seen.addr;
                let ghost w = waiter;
                self.waiters.put(id, waiter);
                assert(self.waiters@ =~= old(self).waiters@.insert(id, w));
                if self.state == seen && !spurious {
                    self.state = Pointer { addr: id };
                    self.order = Ghost(self.order@.push(id));
                    Push::Rest { id, parking: Parking::new() }
                } else {
                    let next = self.look(id, self.state);
                    assert(old(self).waiters@.insert(id, w).remove(id)
                        =~= old(self).waiters@.remove(id));
                    next
                }
            },
            Push::Rest { id, parking } => {
                let mut waiter = self.waiters.lend(id);
                let ghost before = parking;
                let next = waiter.parker.park(parking, thread, false, platform);
                let ghost w = waiter;
                assert(old(self).waiters@[id].parker.park_next(
                    before.stage,
                    thread,
                    false,
                    w.parker,
                    next.stage,
                ));
                let over: bool = match &next.stage {
                    Park::Done(_) => true,
                    _ => false,
                };
                if over {
                    self.waiters.release(id);
                    if waiter.disconnected {
                        Push::Done(Err(waiter.value.unwrap()))
                    } else {
                        Push::Done(Ok(()))
                    }
                } else {
                    self.waiters.put(id, waiter);
                    assert(self.waiters@ =~= old(self).waiters@.insert(id, w));
                    Push::Rest { id, parking: next }
                }
            },
            Push::Done(result) => Push::Done(result),
        }
    }

    /// What a try-push does about a state that it has seen.
    pub open spec fn offer_look(value: T, seen: Pointer) -> Offer<T> {
        if disconnected(seen) {
            Offer::Done(Err(Err(value)))
        } else if !receiver(seen) {
            Offer::Done(Err(Ok(value)))
        } else {
            Offer::Serve { value, seen }
        }
    }

    /// The next access of a try-push finds what it needs.
    pub open spec fn offers(self, op: Offer<T>) -> bool {
        &&& self.waiters.wf()
        &&& match op {
            Offer::Hand { value, receiver } => self.waiters@.contains_key(receiver),
            Offer::Wake { receiver, unpark } => !(unpark is Wake || unpark is Done) ==> {
                &&& self.waiters@.contains_key(receiver)
                &&& self.waiters@[receiver].parker.unparks(unpark)
            },
            _ => true,
        }
    }

    /// One access of a try-push.
    pub open spec fn offer_next(
        self,
        op: Offer<T>,
        spurious: bool,
        post: Self,
        next: Offer<T>,
    ) -> bool {
        match op {
            Offer::Load { value } => post == self && next == Self::offer_look(value, self.state),
            Offer::Serve { value, seen } => if self.state == seen && !spurious {
                &&& post.state.addr == 0
                &&& self.same_lists(post)
                &&& post.consumed == self.consumed
                &&& post.waiters == self.waiters
                &&& next == Offer::Hand { value, receiver: top(seen) }
            } else {
                post == self && next == Self::offer_look(value, self.state)
            },
            Offer::Hand { value, receiver } => {
                &&& self.same_but_waiters(post)
                &&& post.waiters@ == self.waiters@.insert(
                    receiver,
                    Waiter { value: Some(value), ..self.waiters@[receiver] },
                )
                &&& next == Offer::<T>::Wake { receiver, unpark: Unpark::Load }
            },
            Offer::Wake { receiver, unpark } => {
                &&& self.same_but_waiters(post)
                &&& if unpark is Wake || unpark is Done {
                    post.waiters@ == self.waiters@ && next == Offer::<T>::Done(Ok(()))
                } else {
                    exists|parker: Parker, u: Unpark|
                        {
                            &&& #[trigger] self.waiters@[receiver].parker.unpark_next(
                                unpark,
                                parker,
                                u,
                            )
                            &&& post.waiters@ == self.waiters@.insert(
                                receiver,
                                Waiter { parker, ..self.waiters@[receiver] },
                            )
                            &&& next == if u is Done {
                                Offer::<T>::Done(Ok(()))
                            } else {
                                Offer::<T>::Wake { receiver, unpark: u }
                            }
                        }
                }
            },
            Offer::Done(_) => post == self && next == op,
        }
    }

    /// Performs one access of a try-push.
    pub fn offer_step(&mut self, op: Offer<T>, spurious: bool) -> (next: Offer<T>)
        requires
            old(self).offers(op),
        ensures
            old(self).offer_next(op, spurious, *final(self), next),
            final(self).waiters.room() == old(self).waiters.room(),
    {
        match op {
            Offer::Load { value } => Self::offered(value, self.state),
            Offer::Serve { value, seen } => if self.state == seen && !spurious {
                self.state = Pointer { addr: 0 };
                Offer::Hand { value, receiver: seen.untagged(4) }
            } else {
                Self::offered(value, self.state)
            },
            Offer::Hand { value, receiver } => {
                let mut waiter = self.waiters.lend(receiver);
                waiter.value = Some(value);
                let ghost w = waiter;
                self.waiters.put(receiver, waiter);
                assert(self.waiters@ =~= old(self).waiters@.insert(receiver, w));
                Offer::Wake { receiver, unpark: Unpark::Load }
            },
            Offer::Wake { receiver, unpark } => match unpark {
                Unpark::Wake(_) => Offer::Done(Ok(())),
                Unpark::Done => Offer::Done(Ok(())),
                unpark => {
                    let mut waiter = self.waiters.lend(receiver);
                    let next = waiter.parker.unpark(unpark);
                    let ghost w = waiter;
                    self.waiters.put(receiver, waiter);
                    assert(self.waiters@ =~= old(self).waiters@.insert(receiver, w));
                    assert(old(self).waiters@[receiver].parker.unpark_next(unpark, w.parker, next));
                    if let Unpark::Done = next {
                        Offer::Done(Ok(()))
                    } else {
                        Offer::Wake { receiver, unpark: next }
                    }
                },
            },
            Offer::Done(result) => Offer::Done(result),
        }
    }

    /// What a try-push does about a state that it has seen.
    fn offered(value: T, seen: Pointer) -> (next: Offer<T>)
        ensures
            next == Self::offer_look(value, seen),
    {
        let tag: usize = seen.tag(4);
        if tag >= IS_DISCONNECTED {
            Offer::Done(Err(Err(value)))
        } else if tag != IS_RECEIVER {
            Offer::Done(Err(Ok(value)))
        } else {
            Offer::Serve { value, seen }
        }
    }

    /// The next access of a try-pop finds what it needs.
    pub open spec fn takes(self, op: Take<T>) -> bool {
        &&& self.waiters.wf()
        &&& match op {
            Take::Front => self.consumed != 0 ==> {
                &&& self.waiters@.contains_key(self.consumed)
                &&& self.waiters@[self.consumed].value is Some
                &&& self.ready@ > 0 && self.turned@ > 0
            },
            Take::Swap => {
                &&& self.state.addr % 4 == 0
                &&& self.state.addr != 0
            },
            Take::Turn { tail, at } => {
                &&& self.waiters@.contains_key(tail)
                &&& self.waiters@[tail].next != 0 ==> self.waiters@.contains_key(
                    self.waiters@[tail].next,
                ) && self.waiters@[tail].next != tail
            },
            _ => true,
        }
    }

    /// One access of a try-pop.
    pub open spec fn take_next(self, op: Take<T>, post: Self, next: Take<T>) -> bool {
        match op {
            Take::Front => if self.consumed != 0 {
                let w = self.waiters@[self.consumed];
                &&& post.state == self.state
                &&& post.consumed == w.prev
                &&& post.waiters.wf()
                &&& post.waiters@ == self.waiters@.insert(
                    self.consumed,
                    Waiter { value: None, ..w },
                )
                &&& post.order@ == self.order@.skip(1)
                &&& post.ready@ == self.ready@ - 1
                &&& post.turned@ == self.turned@ - 1
                &&& post.guest == self.guest
                &&& post.closed == self.closed
                &&& next == Take::Done(Ok(Some(w.value->0)))
            } else {
                post == self && next == Take::<T>::Load
            },
            Take::Load => {
                &&& post == self
                &&& next == if disconnected(self.state) {
                    Take::<T>::Done(Err(()))
                } else if self.state.addr == 0 {
                    Take::<T>::Done(Ok(None))
                } else {
                    Take::<T>::Swap
                }
            },
            Take::Swap => {
                &&& post.state.addr == 0
                &&& post.consumed == self.consumed
                &&& post.waiters == self.waiters
                &&& post.order == self.order
                &&& post.ready == self.ready
                &&& post.turned@ == self.order@.len()
                &&& post.guest == self.guest
                &&& post.closed == self.closed
                &&& next == Take::<T>::Turn {
                    tail: self.state.addr,
                    at: Ghost(self.order@.len() - 1),
                }
            },
            Take::Turn { tail, at } => {
                let below = self.waiters@[tail].next;
                if below == 0 {
                    &&& post.state == self.state
                    &&& post.consumed == tail
                    &&& post.waiters == self.waiters
                    &&& post.order == self.order
                    &&& post.ready@ == self.turned@
                    &&& post.turned == self.turned
                    &&& post.guest == self.guest
                    &&& post.closed == self.closed
                    &&& next == Take::<T>::Front
                } else {
                    &&& self.same_but_waiters(post)
                    &&& post.waiters@ == self.waiters@.insert(
                        below,
                        Waiter { prev: tail, ..self.waiters@[below] },
                    )
                    &&& next == Take::<T>::Turn { tail: below, at: Ghost(at@ - 1) }
                }
            },
            Take::Done(_) => post == self && next == op,
        }
    }

    /// Performs one access of a try-pop.
    pub fn take_step(&mut self, op: Take<T>) -> (next: Take<T>)
        requires
            old(self).takes(op),
        ensures
            old(self).take_next(op, *final(self), next),
            final(self).waiters.room() == old(self).waiters.room(),
    {
        match op {
            Take::Front => if self.consumed != 0 {
                let id: usize = self.consumed;
                let mut waiter = self.waiters.lend(id);
                let value = waiter.value.take();
                self.consumed = waiter.prev;
                let ghost w = waiter;
                self.waiters.put(id, waiter);
                assert(self.waiters@ =~= old(self).waiters@.insert(id, w));
                self.order = Ghost(self.order@.skip(1));
                self.ready = Ghost((self.ready@ - 1) as nat);
                self.turned = Ghost((self.turned@ - 1) as nat);
                Take::Done(Ok(value))
            } else {
                Take::Load
            },
            Take::Load => if self.state.tag(4) >= IS_DISCONNECTED {
                Take::Done(Err(()))
            } else if self.state.addr == 0 {
                Take::Done(Ok(None))
            } else {
                Take::Swap
            },
            Take::Swap => {
                let tail: usize = self.state.addr;
                self.state = Pointer { addr: 0 };
                self.turned = Ghost(self.order@.len());
                Take::Turn { tail, at: Ghost(self.order@.len() - 1) }
            },
            Take::Turn { tail, at } => {
                let below: usize = self.waiters.get(tail).next;
                if below == 0 {
                    self.consumed = tail;
                    self.ready = Ghost(self.turned@);
                    Take::Front
                } else {
                    let mut waiter = self.waiters.lend(below);
                    waiter.prev = tail;
                    let ghost w = waiter;
                    self.waiters.put(below, waiter);
                    assert(self.waiters@ =~= old(self).waiters@.insert(below, w));
                    Take::Turn { tail: below, at: Ghost(at@ - 1) }
                }
            },
            Take::Done(result) => Take::Done(result),
        }
    }

    /// A pop that takes this step finds that it has to wait, and puts a waiter on the heap.
    pub open spec fn adds_waiter(self, take: Take<T>) -> bool {
        (take is Load && self.state.addr == 0) || take is Done
    }

    /// The next access of a pop finds what it needs; a pop that found waiters takes a value.
    pub open spec fn pops(self, op: Pop<T>) -> bool {
        &&& self.waiters.wf()
        &&& match op {
            Pop::Try(take) => {
                &&& self.takes(take)
                &&& self.adds_waiter(take) ==> self.waiters.has_room()
            },
            Pop::Link { id } => self.waiters@.contains_key(id),
            Pop::Retry(take) => {
                &&& self.takes(take)
                &&& take is Load ==> self.state.addr != 0
            },
            Pop::Rest { id, parking } => {
                &&& self.waiters@.contains_key(id)
                &&& self.waiters@[id].parker.parks(parking.stage)
                &&& self.waiters@[id].parker.told() && !self.waiters@[id].disconnected
                    ==> self.waiters@[id].value is Some
                &&& parking.stage is Complete ==> self.waiters@[id].parker.told()
                &&& parking.stage is Done || parking.stage is Withdraw ==> false
            },
            Pop::Done(_) => true,
        }
    }

    /// One access of a pop by `thread`.
    pub open spec fn pop_next(self, op: Pop<T>, thread: usize, post: Self, next: Pop<T>) -> bool {
        match op {
            Pop::Try(take) => exists|mid: Self, t: Take<T>|
                {
                    &&& #[trigger] self.take_next(take, mid, t)
                    &&& match t {
                        Take::Done(Ok(Some(value))) => post == mid && next == Pop::Done(Ok(value)),
                        Take::Done(Err(())) => post == mid && next == Pop::<T>::Done(Err(())),
                        Take::Done(Ok(None)) => {
                            let id = mid.waiters.fresh();
                            &&& mid.same_but_waiters(post)
                            &&& exists|w: Waiter<T>|
                                {
                                    &&& mid.waiters@.insert(id, w) == post.waiters@
                                    &&& #[trigger] w.parker.rests(Map::empty())
                                    &&& w.parker.event == Word::Empty
                                    &&& w.prev == 0 && w.next == 0 && !w.disconnected
                                    &&& w.value is None
                                }
                            &&& next == Pop::<T>::Link { id }
                        },
                        _ => post == mid && next == Pop::Try(t),
                    }
                },
            Pop::Link { id } => if self.state.addr == 0 {
                &&& post.state.addr == id
                &&& post.consumed == self.consumed
                &&& post.waiters == self.waiters
                &&& post.order@ == self.order@.push(id)
                &&& post.ready == self.ready
                &&& post.turned == self.turned
                &&& post.guest@
                &&& post.closed == self.closed
                &&& next matches Pop::Rest { id: own, parking }
                &&& own == id && parking.stage == Park::Look && parking.backoff.attempt == 0
            } else {
                &&& self.same_but_waiters(post)
                &&& post.waiters@ == self.waiters@.remove(id)
                &&& next == Pop::<T>::Retry(Take::Front)
            },
            Pop::Retry(take) => exists|t: Take<T>|
                {
                    &&& #[trigger] self.take_next(take, post, t)
                    &&& next == match t {
                        Take::Done(Ok(Some(value))) => Pop::Done(Ok(value)),
                        Take::Done(Err(())) => Pop::Done(Err(())),
                        _ => Pop::Retry(t),
                    }
                },
            Pop::Rest { id, parking } => {
                &&& self.same_but_waiters(post)
                &&& exists|parker: Parker, p: Parking|
                    {
                        &&& #[trigger] self.waiters@[id].parker.park_next(
                            parking.stage,
                            thread,
                            false,
                            parker,
                            p.stage,
                        )
                        &&& if p.stage is Done {
                            &&& post.waiters@ == self.waiters@.remove(id)
                            &&& next == if self.waiters@[id].disconnected {
                                Pop::Done(Err(()))
                            } else {
                                Pop::Done(Ok(self.waiters@[id].value->0))
                            }
                        } else {
                            &&& post.waiters@ == self.waiters@.insert(
                                id,
                                Waiter { parker, ..self.waiters@[id] },
                            )
                            &&& next == Pop::<T>::Rest { id, parking: p }
                        }
                    }
            },
            Pop::Done(_) => post == self && next == op,
        }
    }

    /// Performs one access of a pop by `thread`.
    pub fn pop_step(&mut self, op: Pop<T>, thread: usize, platform: Platform) -> (next: Pop<T>)
        requires
            old(self).pops(op),
        ensures
            old(self).pop_next(op, thread, *final(self), next),
            final(self).waiters.room() == old(self).waiters.room() + op.held() - next.held(),
    {
        match op {
            Pop::Try(take) => {
                let took = self.take_step(take);
                let ghost mid = *self;
                assert(old(self).take_next(take, mid, took));
                match took {
                    Take::Done(Ok(Some(value))) => Pop::Done(Ok(value)),
                    Take::Done(Err(())) => Pop::Done(Err(())),
                    Take::Done(Ok(None)) => {
                        let waiter = Waiter::new(None);
                        let ghost w = waiter;
                        let id: usize = self.waiters.allocate(waiter);
                        assert(w.parker.rests(Map::empty()));
                        Pop::Link { id }
                    },
                    took => Pop::Try(took),
                }
            },
            Pop::Link { id } => if self.state.addr == 0 {
                self.state = Pointer { addr: id };
                self.order = Ghost(self.order@.push(id));
                self.guest = Ghost(true);
                Pop::Rest { id, parking: Parking::new() }
            } else {
                self.waiters.free(id);
                Pop::Retry(Take::Front)
            },
            Pop::Retry(take) => {
                let took = self.take_step(take);
                assert(old(self).take_next(take, *self, took));
                match took {
                    Take::Done(Ok(Some(value))) => Pop::Done(Ok(value)),
                    Take::Done(Err(())) => Pop::Done(Err(())),
                    took => Pop::Retry(took),
                }
            },
            Pop::Rest { id, parking } => {
                let mut waiter = self.waiters.lend(id);
                let ghost before = parking;
                let next = waiter.parker.park(parking, thread, false, platform);
                let ghost w = waiter;
                assert(old(self).waiters@[id].parker.park_next(
                    before.stage,
                    thread,
                    false,
                    w.parker,
                    next.stage,
                ));
                let over: bool = match &next.stage {
                    Park::Done(_) => true,
                    _ => false,
                };
                if over {
                    self.waiters.release(id);
                    if waiter.disconnected {
                        Pop::Done(Err(()))
                    } else {
                        Pop::Done(Ok(waiter.value.unwrap()))
                    }
                } else {
                    self.waiters.put(id, waiter);
                    assert(self.waiters@ =~= old(self).waiters@.insert(id, w));
                    Pop::Rest { id, parking: next }
                }
            },
            Pop::Done(result) => Pop::Done(result),
        }
    }

    /// The next access of a disconnect finds what it needs: no other disconnect has begun.
    pub open spec fn ends(self, op: End) -> bool {
        &&& self.waiters.wf()
        &&& match op {
            End::Swap { is_sender } => !disconnected(self.state),
            End::Walk { waiter, back, is_sender, list } => waiter != 0
                ==> self.waiters@.contains_key(waiter),
            End::Tell { id, unpark, rest, back, is_sender, list } => !(unpark is Wake
                || unpark is Done) ==> {
                &&& self.waiters@.contains_key(id)
                &&& self.waiters@[id].parker.unparks(unpark)
            },
            _ => true,
        }
    }

    /// One access of a disconnect.
    pub open spec fn end_next(self, op: End, post: Self, next: End) -> bool {
        match op {
            End::Load { is_sender } => post == self && next == if self.state.addr
                == IS_DISCONNECTED {
                End::Done
            } else {
                End::Swap { is_sender }
            },
            End::Swap { is_sender } => {
                &&& post.state.addr == IS_DISCONNECTED
                &&& post.consumed == self.consumed
                &&& post.waiters == self.waiters
                &&& post.order@ == self.order@.take(self.turned@ as int)
                &&& post.ready == self.ready
                &&& post.turned == self.turned
                &&& !post.guest@
                &&& post.closed == self.closed
                &&& next == End::Walk {
                    waiter: top(self.state),
                    back: false,
                    is_sender,
                    list: Ghost(self.order@.skip(self.turned@ as int).reverse()),
                }
            },
            End::Walk { waiter, back, is_sender, list } => if waiter != 0 {
                let w = self.waiters@[waiter];
                &&& self.same_but_waiters(post)
                &&& post.waiters@ == self.waiters@.insert(
                    waiter,
                    Waiter { disconnected: true, ..w },
                )
                &&& next == End::Tell {
                    id: waiter,
                    unpark: Unpark::Load,
                    rest: if back {
                        w.prev
                    } else {
                        w.next
                    },
                    back,
                    is_sender,
                    list: Ghost(list@.skip(1)),
                }
            } else if back || is_sender {
                post == self && next == End::Done
            } else {
                &&& post.state == self.state
                &&& post.consumed == self.consumed
                &&& post.waiters == self.waiters
                &&& post.order@ == self.order@.skip(self.ready@ as int)
                &&& post.ready@ == 0
                &&& post.turned@ == (self.turned@ - self.ready@) as nat
                &&& post.guest == self.guest
                &&& post.closed@ == (self.closed@ || self.ready@ > 0)
                &&& next == End::Walk {
                    waiter: self.consumed,
                    back: true,
                    is_sender,
                    list: Ghost(self.order@.take(self.ready@ as int)),
                }
            },
            End::Tell { id, unpark, rest, back, is_sender, list } => {
                &&& self.same_but_waiters(post)
                &&& if unpark is Wake || unpark is Done {
                    &&& post.waiters@ == self.waiters@
                    &&& next == End::Walk { waiter: rest, back, is_sender, list }
                } else {
                    exists|parker: Parker, u: Unpark|
                        {
                            &&& #[trigger] self.waiters@[id].parker.unpark_next(unpark, parker, u)
                            &&& post.waiters@ == self.waiters@.insert(
                                id,
                                Waiter { parker, ..self.waiters@[id] },
                            )
                            &&& next == if u is Done {
                                End::Walk { waiter: rest, back, is_sender, list }
                            } else {
                                End::Tell { id, unpark: u, rest, back, is_sender, list }
                            }
                        }
                }
            },
            End::Done => post == self && next == op,
        }
    }

    /// Performs one access of a disconnect.
    pub fn end_step(&mut self, op: End) -> (next: End)
        requires
            old(self).ends(op),
        ensures
            old(self).end_next(op, *final(self), next),
            final(self).waiters.room() == old(self).waiters.room(),
    {
        match op {
            End::Load { is_sender } => if self.state.addr == IS_DISCONNECTED {
                End::Done
            } else {
                End::Swap { is_sender }
            },
            End::Swap { is_sender } => {
                let waiter: usize = self.state.untagged(4);
                let list: Ghost<Seq<usize>> = Ghost(
                    self.order@.skip(self.turned@ as int).reverse(),
                );
                self.state = Pointer { addr: IS_DISCONNECTED };
                self.order = Ghost(self.order@.take(self.turned@ as int));
                self.guest = Ghost(false);
                End::Walk { waiter, back: false, is_sender, list }
            },
            End::Walk { waiter, back, is_sender, list } => if waiter != 0 {
                let mut w = self.waiters.lend(waiter);
                let rest: usize = if back {
                    w.prev
                } else {
                    w.next
                };
                w.disconnected = true;
                let ghost after = w;
                self.waiters.put(waiter, w);
                assert(self.waiters@ =~= old(self).waiters@.insert(waiter, after));
                End::Tell {
                    id: waiter,
                    unpark: Unpark::Load,
                    rest,
                    back,
                    is_sender,
                    list: Ghost(list@.skip(1)),
                }
            } else if back || is_sender {
                End::Done
            } else {
                let list: Ghost<Seq<usize>> = Ghost(self.order@.take(self.ready@ as int));
                let ghost left = (self.turned@ - self.ready@) as nat;
                self.order = Ghost(self.order@.skip(self.ready@ as int));
                self.turned = Ghost(left);
                let ghost closed = self.closed@ || self.ready@ > 0;
                self.ready = Ghost(0nat);
                self.closed = Ghost(closed);
                End::Walk { waiter: self.consumed, back: true, is_sender, list }
            },
            End::Tell { id, unpark, rest, back, is_sender, list } => match unpark {
                Unpark::Wake(_) => End::Walk { waiter: rest, back, is_sender, list },
                Unpark::Done => End::Walk { waiter: rest, back, is_sender, list },
                unpark => {
                    let mut waiter = self.waiters.lend(id);
                    let next = waiter.parker.unpark(unpark);
                    let ghost w = waiter;
                    self.waiters.put(id, waiter);
                    assert(self.waiters@ =~= old(self).waiters@.insert(id, w));
                    assert(old(self).waiters@[id].parker.unpark_next(unpark, w.parker, next));
                    if let Unpark::Done = next {
                        End::Walk { waiter: rest, back, is_sender, list }
                    } else {
                        End::Tell { id, unpark: next, rest, back, is_sender, list }
                    }
                },
            },
            End::Done => End::Done,
        }
    }
}

/// What a push or a pop that is under way has: its waiter, or zero, and how far it is with its
/// sleep, if it sleeps.
pub ghost struct Agent {
    pub id: usize,
    pub rest: Option<Park>,
    pub consumer: bool,
}

impl<T> Offer<T> {
    /// The value that the try-push has not handed over.
    pub open spec fn value(self) -> Option<T> {
        match self {
            Offer::Load { value } => Some(value),
            Offer::Serve { value, seen } => Some(value),
            Offer::Hand { value, receiver } => Some(value),
            Offer::Wake { .. } => None,
            Offer::Done(Err(Ok(value))) => Some(value),
            Offer::Done(Err(Err(value))) => Some(value),
            Offer::Done(Ok(())) => None,
        }
    }
}

impl<T> Push<T> {
    /// How many waiters the push has on the heap.
    pub open spec fn held(self) -> int {
        match self {
            Push::Start { .. } => 0,
            Push::Wake { .. } => 0,
            Push::Done(_) => 0,
            _ => 1,
        }
    }

    /// What the push has.
    pub open spec fn agent(self) -> Agent {
        match self {
            Push::Load { id } => Agent { id, rest: None, consumer: false },
            Push::Serve { id, seen } => Agent { id, rest: None, consumer: false },
            Push::Hand { id, receiver } => Agent { id, rest: None, consumer: false },
            Push::Link { id, seen } => Agent { id, rest: None, consumer: false },
            Push::Rest { id, parking } => Agent { id, rest: Some(parking.stage), consumer: false },
            _ => Agent { id: 0, rest: None, consumer: false },
        }
    }
}

impl<T> Pop<T> {
    /// How many waiters the pop has on the heap.
    pub open spec fn held(self) -> int {
        match self {
            Pop::Link { .. } => 1,
            Pop::Rest { .. } => 1,
            _ => 0,
        }
    }

    /// What the pop has.
    pub open spec fn agent(self) -> Agent {
        match self {
            Pop::Link { id } => Agent { id, rest: None, consumer: true },
            Pop::Rest { id, parking } => Agent { id, rest: Some(parking.stage), consumer: true },
            _ => Agent { id: 0, rest: None, consumer: true },
        }
    }

    /// Where the pop is in taking a value.
    pub open spec fn take(self) -> Take<T> {
        match self {
            Pop::Try(take) => take,
            Pop::Retry(take) => take,
            _ => Take::Done(Err(())),
        }
    }
}

impl End {
    /// The waiters that are still to be told.
    pub open spec fn list(self) -> Seq<usize> {
        match self {
            End::Walk { waiter, back, is_sender, list } => list@,
            End::Tell { id, unpark, rest, back, is_sender, list } => list@,
            _ => Seq::empty(),
        }
    }

    /// The first of them.
    pub open spec fn first(self) -> usize {
        match self {
            End::Walk { waiter, back, is_sender, list } => waiter,
            End::Tell { id, unpark, rest, back, is_sender, list } => rest,
            _ => 0,
        }
    }

    /// They are linked backwards.
    pub open spec fn back(self) -> bool {
        match self {
            End::Walk { waiter, back, is_sender, list } => back,
            End::Tell { id, unpark, rest, back, is_sender, list } => back,
            _ => false,
        }
    }

    /// The waiter that is being told, and how far.
    pub open spec fn tells(self) -> (usize, Unpark) {
        match self {
            End::Tell { id, unpark, rest, back, is_sender, list } => if unpark is Wake
                || unpark is Done {
                (0, Unpark::Done)
            } else {
                (id, unpark)
            },
            _ => (0, Unpark::Done),
        }
    }

    /// One end has gone.
    pub open spec fn begun(self) -> bool {
        self is Walk || self is Tell
    }
}

/// The pushes and the pop that are under way; the pop goes by the number -1.
pub open spec fn agents<T>(ops: Map<int, Push<T>>, pop: Pop<T>) -> Map<int, Agent> {
    Map::new(
        |i: int| i == -1 || ops.contains_key(i),
        |i: int|
            if i == -1 {
                pop.agent()
            } else {
                ops[i].agent()
            },
    )
}

/// The unpark of the disconnect that is under way.
pub open spec fn telling(unpark: Unpark) -> Map<int, Unpark> {
    Map::empty().insert(0, unpark)
}

impl<T> Queue<T> {
    /// The waiter can be reached and was not told yet.
    pub open spec fn listed(self, end: End, id: usize) -> bool {
        self.order@.contains(id) || end.list().contains(id)
    }

    /// What holds of the waiter of a push or a pop: as long as it can be reached its thread was
    /// not told to go on. If it cannot, its value was taken, or it was told that one end has gone.
    pub open spec fn agent_ok(self, end: End, a: Agent) -> bool {
        a.id != 0 ==> {
            let w = self.waiters@[a.id];
            &&& self.waiters@.contains_key(a.id)
            &&& match a.rest {
                None => {
                    &&& w.parker.rests(Map::empty())
                    &&& w.parker.event == Word::Empty
                    &&& !w.disconnected
                    &&& w.prev == 0
                    &&& w.value is None == a.consumer
                    &&& !self.listed(end, a.id)
                    &&& end.tells().0 != a.id
                },
                Some(p) => if self.listed(end, a.id) {
                    &&& w.parker.inv(p, Map::empty())
                    &&& !w.parker.told()
                    &&& !w.disconnected
                    &&& w.value is None == a.consumer
                    &&& end.tells().0 != a.id
                } else if end.tells().0 == a.id {
                    &&& w.parker.inv(p, telling(end.tells().1))
                    &&& !(end.tells().1 is Release) ==> !w.parker.told()
                    &&& w.disconnected
                    &&& w.value is None == a.consumer
                } else {
                    &&& w.parker.inv(p, Map::empty())
                    &&& if w.disconnected {
                        w.value is None == a.consumer
                    } else {
                        w.value is None && !w.parker.told() && !a.consumer
                    }
                },
            }
        }
    }

    /// A thread sleeps with the waiter.
    pub open spec fn sleeper(ag: Map<int, Agent>, id: usize, consumer: bool) -> bool {
        exists|i: int| #[trigger]
            ag.contains_key(i) && ag[i].id == id && ag[i].rest is Some && ag[i].consumer
                == consumer
    }

    /// The waiters that can be reached are linked as they should be.
    pub open spec fn lists_ok(self, pop: Pop<T>) -> bool {
        let s = self.order@;
        let r = self.ready@ as int;
        let t = self.turned@ as int;
        let take = pop.take();
        &&& r <= t <= s.len()
        &&& forall|j: int, k: int| 0 <= j < k < s.len() ==> #[trigger] s[j] != #[trigger] s[k]
        &&& forall|k: int| 0 <= k < s.len() ==> self.waiters@.contains_key(#[trigger] s[k])
        &&& self.guest@ ==> t == 0 && s.len() > 0 && pop is Rest && pop.agent().id == s[0]
        &&& if disconnected(self.state) {
            self.state.addr == IS_DISCONNECTED && s.len() == t && !self.guest@
        } else {
            self.state.addr % 4 == 0 && self.state.addr == if s.len() > t {
                s[s.len() - 1]
            } else {
                0
            }
        }
        &&& forall|k: int|
            t <= k < s.len() ==> {
                &&& self.waiters@[#[trigger] s[k]].next == if k > t {
                    s[k - 1]
                } else {
                    0
                }
                &&& self.waiters@[s[k]].prev == 0
            }
        &&& match take {
            Take::Turn { tail, at } => {
                &&& r == 0
                &&& 0 <= at@ < t
                &&& tail == s[at@]
                &&& forall|k: int|
                    0 <= k <= at@ ==> self.waiters@[#[trigger] s[k]].next == if k > 0 {
                        s[k - 1]
                    } else {
                        0
                    }
                &&& forall|k: int|
                    at@ <= k < t ==> self.waiters@[#[trigger] s[k]].prev == if k + 1 < t {
                        s[k + 1]
                    } else {
                        0
                    }
            },
            _ => r == t,
        }
        &&& if self.closed@ {
            r == 0 && take is Done && !(pop is Rest) && !(pop is Link) && disconnected(self.state)
        } else {
            self.consumed == if r > 0 {
                s[0]
            } else {
                0
            }
        }
        &&& forall|k: int|
            0 <= k < r ==> self.waiters@[#[trigger] s[k]].prev == if k + 1 < r {
                s[k + 1]
            } else {
                0
            }
    }

    /// The waiters that are still to be told are linked as they should be.
    pub open spec fn end_ok(self, end: End) -> bool {
        let l = end.list();
        &&& end.begun() ==> disconnected(self.state)
        &&& end.first() == if l.len() > 0 {
            l[0]
        } else {
            0
        }
        &&& forall|j: int, k: int| 0 <= j < k < l.len() ==> #[trigger] l[j] != #[trigger] l[k]
        &&& forall|k: int|
            0 <= k < l.len() ==> {
                &&& self.waiters@.contains_key(#[trigger] l[k])
                &&& !self.order@.contains(l[k])
                &&& l[k] != end.tells().0
                &&& (if end.back() {
                    self.waiters@[l[k]].prev
                } else {
                    self.waiters@[l[k]].next
                }) == if k + 1 < l.len() {
                    l[k + 1]
                } else {
                    0
                }
            }
        &&& end.tells().0 != 0 ==> !self.order@.contains(end.tells().0)
        &&& end.back() && (l.len() > 0 || end.tells().0 != 0) ==> self.closed@
        &&& end is Tell ==> end->Tell_id != 0
    }

    /// The invariant of the queue together with the pushes, the pop and the disconnect that are
    /// under way.
    pub open spec fn inv(self, ops: Map<int, Push<T>>, pop: Pop<T>, end: End) -> bool {
        let ag = agents(ops, pop);
        &&& self.waiters.wf()
        &&& !ops.contains_key(-1)
        &&& forall|i: int| #[trigger] ag.contains_key(i) ==> self.agent_ok(end, ag[i])
        &&& forall|i: int, j: int| #[trigger]
            ag.contains_key(i) && #[trigger] ag.contains_key(j) && i != j && ag[i].id != 0
                ==> ag[i].id != ag[j].id
        &&& self.lists_ok(pop)
        &&& self.end_ok(end)
        &&& forall|k: int|
            0 <= k < self.order@.len() ==> Self::sleeper(
                ag,
                #[trigger] self.order@[k],
                self.guest@ && k == 0,
            )
        &&& forall|k: int|
            0 <= k < end.list().len() ==> Self::sleeper(ag, #[trigger] end.list()[k], true)
                || Self::sleeper(ag, end.list()[k], false)
        &&& end.tells().0 != 0 ==> Self::sleeper(ag, end.tells().0, true) || Self::sleeper(
            ag,
            end.tells().0,
            false,
        )
        &&& forall|i: int| #[trigger] ops.contains_key(i) ==> Self::push_ok(ops[i])
        &&& self.pop_ok(pop)
    }

    /// No push ever finds a receiver that can be served.
    pub open spec fn push_ok(op: Push<T>) -> bool {
        match op {
            Push::Load { id } => id != 0,
            Push::Link { id, seen } => id != 0 && seen.addr % 4 == 0,
            Push::Rest { id, parking } => id != 0 && !(parking.stage is Withdraw) && !(
            parking.stage is WaitOn) && !(parking.stage is Done),
            Push::Serve { .. } => false,
            Push::Hand { .. } => false,
            Push::Wake { .. } => false,
            _ => true,
        }
    }

    /// A pop that has seen waiters finds them.
    pub open spec fn pop_ok(self, pop: Pop<T>) -> bool {
        &&& pop.take() is Swap ==> self.state.addr != 0
        &&& pop.take() is Load || pop.take() is Swap ==> self.consumed == 0
        &&& match pop {
            Pop::Link { id } => id != 0 && self.consumed == 0 && self.waiters@[id].next == 0,
            Pop::Retry(Take::Front) => self.consumed != 0 || self.state.addr != 0,
            Pop::Retry(Take::Load) => self.state.addr != 0,
            Pop::Rest { id, parking } => id != 0 && !(parking.stage is Withdraw) && !(
            parking.stage is WaitOn) && !(parking.stage is Done),
            _ => true,
        }
    }

    /// The values that can be taken, the oldest first.
    pub open spec fn view(self) -> Seq<T> {
        let s = self.order@.skip(
            if self.guest@ {
                1
            } else {
                0
            },
        );
        s.map_values(|id: usize| self.waiters@[id].value->0)
    }

    /// A queue at rest.
    pub open spec fn wf(self) -> bool {
        self.inv(Map::empty(), Pop::Done(Err(())), End::Done)
    }

    /// When agent `i` goes on without a change of the lists, the rest of the invariant stays.
    proof fn lemma_frame(
        self,
        post: Self,
        ops: Map<int, Push<T>>,
        pop: Pop<T>,
        end: End,
        i: int,
        x: usize,
        gs: Map<int, Push<T>>,
        then: Pop<T>,
    )
        requires
            self.inv(ops, pop, end),
            self.same_but_waiters(post),
            x != 0,
            forall|y: usize| y != x ==> (#[trigger] post.waiters@.contains_key(y)
                == self.waiters@.contains_key(y)) && (self.waiters@.contains_key(y)
                ==> post.waiters@[y] == self.waiters@[y]),
            forall|j: int| j != i ==> (#[trigger] agents(gs, then).contains_key(j) == agents(
                ops,
                pop,
            ).contains_key(j)) && (agents(ops, pop).contains_key(j) ==> agents(gs, then)[j]
                == agents(ops, pop)[j]),
            agents(gs, then).contains_key(i),
            agents(gs, then)[i].id == 0 || agents(gs, then)[i].id == x,
            if agents(ops, pop).contains_key(i) && agents(ops, pop)[i].id != 0 {
                agents(ops, pop)[i].id == x
            } else {
                !self.waiters@.contains_key(x)
            },
            self.listed(end, x) || end.tells().0 == x ==> {
                &&& agents(gs, then)[i].id == x
                &&& agents(gs, then)[i].rest is Some
                &&& agents(ops, pop).contains_key(i)
                &&& agents(gs, then)[i].consumer == agents(ops, pop)[i].consumer
                &&& post.waiters@.contains_key(x)
                &&& post.waiters@[x].next == self.waiters@[x].next
                &&& post.waiters@[x].prev == self.waiters@[x].prev
                &&& post.waiters@[x].value == self.waiters@[x].value
            },
            post.agent_ok(end, agents(gs, then)[i]),
            !gs.contains_key(-1),
            forall|j: int| #[trigger] gs.contains_key(j) ==> Self::push_ok(gs[j]),
            then.take() == pop.take() || (!(then.take() is Turn) && !(pop.take() is Turn)
                && !self.closed@),
            self.guest@ || self.closed@ ==> then is Rest == pop is Rest && then is Link
                == pop is Link && then.agent().id == pop.agent().id,
            post.pop_ok(then),
        ensures
            post.inv(gs, then, end),
            post@ == self@,
    {
        let ag = agents(ops, pop);
        let bg = agents(gs, then);
        let s = self.order@;
        let l = end.list();
        assert forall|k: int| 0 <= k < s.len() implies {
            &&& post.waiters@.contains_key(#[trigger] s[k])
            &&& post.waiters@[s[k]].next == self.waiters@[s[k]].next
            &&& post.waiters@[s[k]].prev == self.waiters@[s[k]].prev
            &&& post.waiters@[s[k]].value == self.waiters@[s[k]].value
        } by {
            assert(s.contains(s[k]));
            assert(self.waiters@.contains_key(s[k]));
            if s[k] != x {
                assert(post.waiters@.contains_key(s[k]) == self.waiters@.contains_key(s[k]));
            }
        }
        assert forall|k: int| 0 <= k < l.len() implies {
            &&& post.waiters@.contains_key(#[trigger] l[k])
            &&& post.waiters@[l[k]].next == self.waiters@[l[k]].next
            &&& post.waiters@[l[k]].prev == self.waiters@[l[k]].prev
        } by {
            assert(l.contains(l[k]));
            assert(self.waiters@.contains_key(l[k]));
            if l[k] != x {
                assert(post.waiters@.contains_key(l[k]) == self.waiters@.contains_key(l[k]));
            }
        }
        assert(post@ =~= self@);
        assert forall|j: int| #[trigger] bg.contains_key(j) implies post.agent_ok(end, bg[j]) by {
            if j != i {
                assert(ag.contains_key(j));
                assert(self.agent_ok(end, ag[j]));
                if ag[j].id != 0 {
                    assert(ag[j].id != x) by {
                        if ag.contains_key(i) && ag[i].id != 0 {
                            assert(ag[i].id != ag[j].id);
                        }
                    }
                    let y = ag[j].id;
                    assert(post.waiters@.contains_key(y) == self.waiters@.contains_key(y));
                }
            }
        }
        assert forall|a: int, b: int| #[trigger]
            bg.contains_key(a) && #[trigger] bg.contains_key(b) && a != b && bg[a].id
                != 0 implies bg[a].id != bg[b].id by {
            if a != i {
                assert(ag.contains_key(a) && self.agent_ok(end, ag[a]));
            }
            if b != i {
                assert(ag.contains_key(b) && self.agent_ok(end, ag[b]));
            }
        }
        assert forall|id: usize, c: bool|
            Self::sleeper(ag, id, c) && (self.listed(end, id) || end.tells().0
                == id) implies #[trigger] Self::sleeper(bg, id, c) by {
            let j = choose|j: int| #[trigger]
                ag.contains_key(j) && ag[j].id == id && ag[j].rest is Some && ag[j].consumer == c;
            assert(bg.contains_key(j));
            if j == i {
                assert(id == x || id == 0);
                if id == 0 {
                    if s.contains(id) {
                        let k = choose|k: int| 0 <= k < s.len() && s[k] == id;
                        assert(self.waiters@.contains_key(s[k]));
                    } else if l.contains(id) {
                        let k = choose|k: int| 0 <= k < l.len() && l[k] == id;
                        assert(self.waiters@.contains_key(l[k]));
                    }
                }
            }
        }
        assert forall|k: int| 0 <= k < s.len() implies Self::sleeper(
            bg,
            #[trigger] s[k],
            self.guest@ && k == 0,
        ) by {
            assert(s.contains(s[k]));
            assert(Self::sleeper(ag, s[k], self.guest@ && k == 0));
            assert(Self::sleeper(bg, s[k], self.guest@ && k == 0));
        }
        assert forall|k: int| 0 <= k < l.len() implies Self::sleeper(bg, #[trigger] l[k], true)
            || Self::sleeper(bg, l[k], false) by {
            assert(l.contains(l[k]));
            let c = Self::sleeper(ag, l[k], true);
            assert(Self::sleeper(ag, l[k], c));
            assert(Self::sleeper(bg, l[k], c));
        }
        if end.tells().0 != 0 {
            let c = Self::sleeper(ag, end.tells().0, true);
            assert(Self::sleeper(ag, end.tells().0, c));
            assert(Self::sleeper(bg, end.tells().0, c));
        }
    }

    /// A thread that can be reached, or is being told, goes on sleeping, or begins to wake up.
    proof fn lemma_rest(
        self,
        end: End,
        a: Agent,
        thread: usize,
        parker: Parker,
        p: Park,
        post: Self,
    )
        requires
            self.agent_ok(end, a),
            a.id != 0,
            a.rest is Some,
            !(a.rest->0 is Withdraw) && !(a.rest->0 is WaitOn) && !(a.rest->0 is Done),
            self.waiters@[a.id].parker.park_next(a.rest->0, thread, false, parker, p),
            self.same_lists(post),
            !(p is Done) ==> post.waiters@.contains_key(a.id) && post.waiters@[a.id] == (Waiter {
                parker,
                ..self.waiters@[a.id]
            }),
        ensures
            self.waiters@[a.id].parker.parks(a.rest->0),
            !(p is Withdraw) && !(p is WaitOn),
            self.listed(end, a.id) || end.tells().0 == a.id ==> !(p is Done),
            p is Done ==> self.waiters@[a.id].disconnected,
            !(p is Done) ==> post.agent_ok(end, Agent { rest: Some(p), ..a }),
    {
        let w = self.waiters@[a.id];
        let ups = if self.listed(end, a.id) {
            Map::<int, Unpark>::empty()
        } else if end.tells().0 == a.id {
            telling(end.tells().1)
        } else {
            Map::<int, Unpark>::empty()
        };
        w.parker.lemma_park(a.rest->0, ups, thread, false, parker, p);
        if !self.listed(end, a.id) && end.tells().0 == a.id && end.tells().1 is Release {
            assert(ups.contains_key(0) && ups[0] is Release);
            assert(crate::usync_mpsc::utils::parker::releasing(ups));
        }
    }

    /// The access that any push makes next finds what it needs.
    pub proof fn lemma_push_accepts(
        self,
        ops: Map<int, Push<T>>,
        pop: Pop<T>,
        end: End,
        i: int,
    )
        requires
            self.inv(ops, pop, end),
            ops.contains_key(i),
            ops[i] is Start ==> self.waiters.has_room(),
        ensures
            self.pushes(ops[i]),
    {
        let ag = agents(ops, pop);
        assert(ag.contains_key(i) && ag[i] == ops[i].agent());
        assert(self.agent_ok(end, ag[i]));
        assert(Self::push_ok(ops[i]));
        if let Push::Rest { id, parking } = ops[i] {
            let w = self.waiters@[id];
            let ups = if !self.listed(end, id) && end.tells().0 == id {
                telling(end.tells().1)
            } else {
                Map::<int, Unpark>::empty()
            };
            assert(w.parker.inv(parking.stage, ups));
        }
    }

    /// Whatever is under way, one access of any push keeps the invariant. The access that links
    /// the waiter of the push puts its value at the end of those that can be taken, and no other
    /// access changes those. A push ends only after one end has gone, and then gets its own value
    /// back.
    #[verifier::rlimit(30)]
    pub proof fn lemma_push(
        self,
        ops: Map<int, Push<T>>,
        pop: Pop<T>,
        end: End,
        i: int,
        thread: usize,
        spurious: bool,
        post: Self,
        next: Push<T>,
    )
        requires
            self.inv(ops, pop, end),
            ops.contains_key(i),
            self.push_next(ops[i], thread, spurious, post, next),
        ensures
            post.inv(ops.insert(i, next), pop, end),
            post@ == if ops[i] is Link && next is Rest {
                self@.push(self.waiters@[ops[i]->Link_id].value->0)
            } else {
                self@
            },
            next is Done && !(ops[i] is Done) ==> next == Push::Done(
                Err(self.waiters@[ops[i].agent().id].value->0),
            ),
            next is Done && !(ops[i] is Done) ==> disconnected(self.state)
                || self.waiters@[ops[i].agent().id].disconnected,
    {
        let ag = agents(ops, pop);
        let op = ops[i];
        let gs = ops.insert(i, next);
        let bg = agents(gs, pop);
        assert(ag.contains_key(i) && ag[i] == op.agent());
        assert(bg.contains_key(i) && bg[i] == next.agent());
        assert forall|j: int| j != i implies (#[trigger] bg.contains_key(j) == ag.contains_key(j))
            && (ag.contains_key(j) ==> bg[j] == ag[j]) by {}
        assert(self.agent_ok(end, ag[i]));
        assert(Self::push_ok(op));
        assert(!receiver(self.state));
        assert(ag.contains_key(-1) && ag[-1] == pop.agent());
        assert(self.agent_ok(end, ag[-1]));
        assert(pop is Link ==> pop.agent().id != op.agent().id && pop.agent().id
            != self.waiters.fresh());
        assert forall|j: int| #[trigger] gs.contains_key(j) && j != i implies Self::push_ok(gs[j]) by {
            assert(ops.contains_key(j));
        }
        match op {
            Push::Start { value } => {
                let id = self.waiters.fresh();
                assert(!self.waiters@.contains_key(id));
                self.lemma_unreached(ops, pop, end, id);
                self.lemma_frame(post, ops, pop, end, i, id, gs, pop);
            },
            Push::Load { id } => {
                self.lemma_frame(post, ops, pop, end, i, id, gs, pop);
            },
            Push::Link { id, seen } => {
                if next is Rest {
                    self.lemma_linked(post, ops, pop, end, i, id, gs, pop);
                    assert(post@ =~= self@.push(self.waiters@[id].value->0));
                } else {
                    self.lemma_frame(post, ops, pop, end, i, id, gs, pop);
                }
            },
            Push::Rest { id, parking } => {
                let (parker, p) = choose|parker: Parker, p: Parking|
                    {
                        &&& #[trigger] self.waiters@[id].parker.park_next(
                            parking.stage,
                            thread,
                            false,
                            parker,
                            p.stage,
                        )
                        &&& if p.stage is Done {
                            &&& post.waiters@ == self.waiters@.remove(id)
                            &&& next == if self.waiters@[id].disconnected {
                                Push::Done(Err(self.waiters@[id].value->0))
                            } else {
                                Push::Done(Ok(()))
                            }
                        } else {
                            &&& post.waiters@ == self.waiters@.insert(
                                id,
                                Waiter { parker, ..self.waiters@[id] },
                            )
                            &&& next == Push::<T>::Rest { id, parking: p }
                        }
                    };
                self.lemma_rest(end, ag[i], thread, parker, p.stage, post);
                self.lemma_frame(post, ops, pop, end, i, id, gs, pop);
            },
            _ => {
                assert(gs =~= ops);
            },
        }
    }

    /// An address that is not in use is not that of a waiter that can be reached or is told.
    proof fn lemma_unreached(self, ops: Map<int, Push<T>>, pop: Pop<T>, end: End, id: usize)
        requires
            self.inv(ops, pop, end),
            !self.waiters@.contains_key(id),
            id != 0,
        ensures
            !self.listed(end, id),
            end.tells().0 != id,
    {
        let ag = agents(ops, pop);
        if self.order@.contains(id) {
            let k = choose|k: int| 0 <= k < self.order@.len() && self.order@[k] == id;
            assert(self.waiters@.contains_key(self.order@[k]));
        }
        if end.list().contains(id) {
            let k = choose|k: int| 0 <= k < end.list().len() && end.list()[k] == id;
            assert(self.waiters@.contains_key(end.list()[k]));
        }
        if end.tells().0 == id {
            let c = Self::sleeper(ag, id, true);
            assert(Self::sleeper(ag, id, c));
            let j = choose|j: int| #[trigger]
                ag.contains_key(j) && ag[j].id == id && ag[j].rest is Some && ag[j].consumer == c;
            assert(self.agent_ok(end, ag[j]));
        }
    }

    /// What holds after an agent has put its waiter on the stack.
    proof fn lemma_linked(
        self,
        post: Self,
        ops: Map<int, Push<T>>,
        pop: Pop<T>,
        end: End,
        i: int,
        x: usize,
        gs: Map<int, Push<T>>,
        then: Pop<T>,
    )
        requires
            self.inv(ops, pop, end),
            agents(ops, pop).contains_key(i),
            agents(ops, pop)[i].id == x,
            agents(ops, pop)[i].rest is None,
            x != 0,
            !disconnected(self.state),
            post.state.addr == x,
            post.consumed == self.consumed,
            post.waiters.wf(),
            post.waiters@ == self.waiters@.insert(
                x,
                Waiter { next: self.state.addr, ..self.waiters@[x] },
            ),
            post.order@ == self.order@.push(x),
            post.ready == self.ready,
            post.turned == self.turned,
            post.closed == self.closed,
            post.guest@ == (self.guest@ || agents(ops, pop)[i].consumer),
            agents(ops, pop)[i].consumer ==> self.order@.len() == 0 && then is Rest
                && then.agent().id == x,
            !agents(ops, pop)[i].consumer ==> then == pop,
            forall|j: int| j != i ==> (#[trigger] agents(gs, then).contains_key(j) == agents(
                ops,
                pop,
            ).contains_key(j)) && (agents(ops, pop).contains_key(j) ==> agents(gs, then)[j]
                == agents(ops, pop)[j]),
            agents(gs, then).contains_key(i),
            agents(gs, then)[i] == (Agent { rest: Some(Park::Look), ..agents(ops, pop)[i] }),
            !gs.contains_key(-1),
            forall|j: int| #[trigger] gs.contains_key(j) ==> Self::push_ok(gs[j]),
            then.take() is Done || then == pop,
            post.pop_ok(then),
            pop is Link ==> !self.closed@,
        ensures
            post.inv(gs, then, end),
    {
        let ag = agents(ops, pop);
        let bg = agents(gs, then);
        let s = self.order@;
        let q = post.order@;
        let l = end.list();
        assert(self.agent_ok(end, ag[i]));
        assert(!s.contains(x));
        assert forall|k: int| 0 <= k < s.len() implies {
            &&& #[trigger] s[k] != x
            &&& q[k] == s[k]
            &&& post.waiters@.contains_key(s[k])
            &&& post.waiters@[s[k]] == self.waiters@[s[k]]
        } by {
            assert(s.contains(s[k]));
            assert(self.waiters@.contains_key(s[k]));
        }
        assert(q[s.len() as int] == x);
        assert forall|y: usize| #[trigger] q.contains(y) == (s.contains(y) || y == x) by {
            if s.contains(y) {
                let k = choose|k: int| 0 <= k < s.len() && s[k] == y;
                assert(q[k] == y);
            }
            if q.contains(y) && y != x {
                let k = choose|k: int| 0 <= k < q.len() && q[k] == y;
                assert(s[k] == y);
            }
        }
        assert(x % 4 == 0);
        assert forall|k: int| 0 <= k < l.len() implies {
            &&& #[trigger] l[k] != x
            &&& post.waiters@[l[k]] == self.waiters@[l[k]]
        } by {
            assert(l.contains(l[k]));
        }
        assert forall|j: int, k: int| 0 <= j < k < q.len() implies #[trigger] q[j]
            != #[trigger] q[k] by {
            if k < s.len() {
                assert(s[j] != s[k]);
            }
        }
        assert(post.lists_ok(then));
        assert(post.end_ok(end));
        assert forall|j: int| #[trigger] bg.contains_key(j) implies post.agent_ok(end, bg[j]) by {
            if j != i {
                assert(ag.contains_key(j));
                assert(self.agent_ok(end, ag[j]));
                assert(ag[j].id != x);
            }
        }
        assert forall|a: int, b: int| #[trigger]
            bg.contains_key(a) && #[trigger] bg.contains_key(b) && a != b && bg[a].id
                != 0 implies bg[a].id != bg[b].id by {
            assert(ag.contains_key(a) && ag.contains_key(b));
        }
        assert forall|id: usize, c: bool| Self::sleeper(ag, id, c) implies #[trigger] Self::sleeper(
            bg,
            id,
            c,
        ) by {
            let j = choose|j: int| #[trigger]
                ag.contains_key(j) && ag[j].id == id && ag[j].rest is Some && ag[j].consumer == c;
            assert(bg.contains_key(j));
        }
        assert(Self::sleeper(bg, x, ag[i].consumer));
        assert forall|k: int| 0 <= k < q.len() implies Self::sleeper(
            bg,
            #[trigger] q[k],
            post.guest@ && k == 0,
        ) by {
            if k < s.len() {
                assert(Self::sleeper(ag, s[k], self.guest@ && k == 0));
                assert(Self::sleeper(bg, s[k], self.guest@ && k == 0));
            }
        }
        assert forall|k: int| 0 <= k < l.len() implies Self::sleeper(bg, #[trigger] l[k], true)
            || Self::sleeper(bg, l[k], false) by {
            let c = Self::sleeper(ag, l[k], true);
            assert(Self::sleeper(ag, l[k], c));
            assert(Self::sleeper(bg, l[k], c));
        }
        if end.tells().0 != 0 {
            let c = Self::sleeper(ag, end.tells().0, true);
            assert(Self::sleeper(ag, end.tells().0, c));
            assert(Self::sleeper(bg, end.tells().0, c));
        }
    }

    /// What holds after the consumer has taken a value that was turned over.
    proof fn lemma_front(
        self,
        ops: Map<int, Push<T>>,
        pop: Pop<T>,
        end: End,
        post: Self,
        t: Take<T>,
        then: Pop<T>,
    )
        requires
            self.inv(ops, pop, end),
            pop is Try || pop is Retry,
            pop.take() is Front,
            self.consumed != 0,
            self.take_next(pop.take(), post, t),
            then is Done,
        ensures
            self.takes(pop.take()),
            post.inv(ops, then, end),
            self@.len() > 0,
            t == Take::Done(Ok(Some(self@[0]))),
            post@ == self@.skip(1),
    {
        let ag = agents(ops, pop);
        let bg = agents(ops, then);
        assert(bg =~= ag);
        let s = self.order@;
        let q = post.order@;
        let l = end.list();
        let id = self.consumed;
        assert(self.lists_ok(pop));
        assert(s[0] == id);
        assert(self.waiters@.contains_key(s[0]));
        assert(s.contains(id));
        assert(!self.guest@);
        assert(Self::sleeper(ag, s[0], false));
        let o = choose|o: int| #[trigger]
            ag.contains_key(o) && ag[o].id == id && ag[o].rest is Some && ag[o].consumer == false;
        assert(self.agent_ok(end, ag[o]));
        assert forall|k: int| 0 <= k < q.len() implies {
            &&& #[trigger] q[k] == s[k + 1]
            &&& q[k] != id
            &&& post.waiters@.contains_key(q[k])
            &&& post.waiters@[q[k]] == self.waiters@[q[k]]
        } by {
            assert(s[0] != s[k + 1]);
            assert(self.waiters@.contains_key(s[k + 1]));
        }
        assert forall|y: usize| #[trigger] q.contains(y) == (s.contains(y) && y != id) by {
            if q.contains(y) {
                let k = choose|k: int| 0 <= k < q.len() && q[k] == y;
                assert(s[k + 1] == y);
            }
            if s.contains(y) && y != id {
                let k = choose|k: int| 0 <= k < s.len() && s[k] == y;
                assert(q[k - 1] == y);
            }
        }
        assert forall|k: int| 0 <= k < l.len() implies {
            &&& #[trigger] l[k] != id
            &&& post.waiters@[l[k]] == self.waiters@[l[k]]
        } by {
            assert(self.waiters@.contains_key(l[k]));
        }
        assert(post.lists_ok(then)) by {
            assert forall|j: int, k: int| 0 <= j < k < q.len() implies #[trigger] q[j]
                != #[trigger] q[k] by {
                assert(s[j + 1] != s[k + 1]);
            }
        }
        assert(post.end_ok(end));
        assert forall|j: int| #[trigger] bg.contains_key(j) implies post.agent_ok(end, bg[j]) by {
            assert(self.agent_ok(end, ag[j]));
            if j != o && ag[j].id != 0 {
                assert(ag[j].id != id);
            }
        }
        assert forall|k: int| 0 <= k < q.len() implies Self::sleeper(
            bg,
            #[trigger] q[k],
            post.guest@ && k == 0,
        ) by {
            assert(Self::sleeper(ag, s[k + 1], false));
        }
        assert(post@ =~= self@.skip(1));
    }

    /// What holds after the consumer has turned a waiter over.
    proof fn lemma_turn(
        self,
        ops: Map<int, Push<T>>,
        pop: Pop<T>,
        end: End,
        post: Self,
        t: Take<T>,
        then: Pop<T>,
    )
        requires
            self.inv(ops, pop, end),
            pop is Try || pop is Retry,
            pop.take() is Turn,
            self.take_next(pop.take(), post, t),
            then is Try || then is Retry,
            then.take() == t,
        ensures
            self.takes(pop.take()),
            post.inv(ops, then, end),
            post@ == self@,
            t is Front ==> post.consumed != 0,
    {
        let ag = agents(ops, pop);
        let bg = agents(ops, then);
        assert(bg =~= ag);
        let s = self.order@;
        let l = end.list();
        let tail = pop.take()->Turn_tail;
        let at = pop.take()->Turn_at@;
        let below = self.waiters@[tail].next;
        assert(self.lists_ok(pop));
        assert(self.waiters@.contains_key(s[at]));
        if at > 0 {
            assert(self.waiters@.contains_key(s[at - 1]));
            assert(below == s[at - 1]);
            assert(s[at - 1] != s[at]);
            assert(s.contains(below));
            assert forall|k: int| 0 <= k < s.len() && k != at - 1 implies post.waiters@[#[trigger] s[k]]
                == self.waiters@[s[k]] by {
                if k < at - 1 {
                    assert(s[k] != s[at - 1]);
                } else {
                    assert(s[at - 1] != s[k]);
                }
            }
            assert(post.lists_ok(then));
            assert forall|k: int| 0 <= k < l.len() implies {
                &&& #[trigger] l[k] != below
                &&& post.waiters@[l[k]] == self.waiters@[l[k]]
            } by {
                assert(self.waiters@.contains_key(l[k]));
            }
            assert(post.end_ok(end));
            assert forall|j: int| #[trigger] bg.contains_key(j) implies post.agent_ok(end, bg[j]) by {
                assert(self.agent_ok(end, ag[j]));
            }
            assert(post@ =~= self@);
        } else {
            assert(post.lists_ok(then));
            assert(post@ =~= self@);
            assert forall|j: int| #[trigger] bg.contains_key(j) implies post.agent_ok(end, bg[j]) by {
                assert(self.agent_ok(end, ag[j]));
            }
        }
    }

    /// What holds after an access of the consumer that takes a value or looks for one.
    proof fn lemma_taken(
        self,
        ops: Map<int, Push<T>>,
        pop: Pop<T>,
        end: End,
        post: Self,
        t: Take<T>,
        then: Pop<T>,
    )
        requires
            self.inv(ops, pop, end),
            pop is Try || pop is Retry,
            pop.take() is Swap ==> !disconnected(self.state),
            self.take_next(pop.take(), post, t),
            !(pop.take() is Done),
            if t is Done {
                then is Done
            } else {
                (then is Try || then is Retry) && then.take() == t && (then is Retry ==> pop is Retry)
            },
        ensures
            self.takes(pop.take()),
            post.inv(ops, then, end),
            match (pop.take(), t) {
                (Take::Front, Take::Done(Ok(Some(value)))) => {
                    &&& self@.len() > 0
                    &&& value == self@[0]
                    &&& post@ == self@.skip(1)
                },
                _ => post@ == self@,
            },
            t matches Take::Done(Ok(Some(_))) ==> pop.take() is Front,
            pop is Retry ==> !(t matches Take::Done(Ok(None))),
    {
        let ag = agents(ops, pop);
        let bg = agents(ops, then);
        assert(bg =~= ag);
        let s = self.order@;
        assert(self.lists_ok(pop));
        match pop.take() {
            Take::Front => {
                if self.consumed != 0 {
                    self.lemma_front(ops, pop, end, post, t, then);
                }
            },
            Take::Swap => {
                assert(self.ready@ == 0) by {
                    if self.ready@ > 0 {
                        assert(self.waiters@.contains_key(s[0]));
                    }
                }
                assert(s.len() > 0);
                assert(post.lists_ok(then));
                assert(post@ =~= self@);
                assert forall|j: int| #[trigger] bg.contains_key(j) implies post.agent_ok(
                    end,
                    bg[j],
                ) by {
                    assert(self.agent_ok(end, ag[j]));
                }
            },
            Take::Turn { tail, at } => {
                self.lemma_turn(ops, pop, end, post, t, then);
            },
            _ => {},
        }
    }

    /// The access that the pop makes next finds what it needs, as long as no end went between its
    /// look at the state and its swap of it.
    pub proof fn lemma_pop_accepts(self, ops: Map<int, Push<T>>, pop: Pop<T>, end: End)
        requires
            self.inv(ops, pop, end),
            pop matches Pop::Try(take) ==> (self.adds_waiter(take) ==> self.waiters.has_room()),
            pop.take() is Swap ==> !disconnected(self.state),
        ensures
            self.pops(pop),
    {
        let ag = agents(ops, pop);
        assert(ag.contains_key(-1) && ag[-1] == pop.agent());
        assert(self.agent_ok(end, ag[-1]));
        let s = self.order@;
        assert(self.lists_ok(pop));
        match pop.take() {
            Take::Front => {
                if self.consumed != 0 {
                    assert(self.waiters@.contains_key(s[0]));
                    assert(s.contains(s[0]));
                    assert(Self::sleeper(ag, s[0], false));
                    let o = choose|o: int| #[trigger]
                        ag.contains_key(o) && ag[o].id == s[0] && ag[o].rest is Some
                            && ag[o].consumer == false;
                    assert(self.agent_ok(end, ag[o]));
                }
            },
            Take::Turn { tail, at } => {
                assert(self.waiters@.contains_key(s[at@]));
                if at@ > 0 {
                    assert(self.waiters@.contains_key(s[at@ - 1]));
                    assert(s[at@ - 1] != s[at@]);
                }
            },
            _ => {},
        }
        if let Pop::Rest { id, parking } = pop {
            let w = self.waiters@[id];
            let ups = if !self.listed(end, id) && end.tells().0 == id {
                telling(end.tells().1)
            } else {
                Map::<int, Unpark>::empty()
            };
            assert(w.parker.inv(parking.stage, ups));
        }
    }

    /// Whatever is under way, one access of the pop keeps the invariant, as long as no end went
    /// between its look at the state and its swap of it. The value that it takes is the oldest of
    /// those that can be taken, and no other access changes those. A pop that left a waiter ends
    /// only after the other end has gone.
    #[verifier::rlimit(30)]
    pub proof fn lemma_pop(
        self,
        ops: Map<int, Push<T>>,
        pop: Pop<T>,
        end: End,
        thread: usize,
        post: Self,
        next: Pop<T>,
    )
        requires
            self.inv(ops, pop, end),
            pop.take() is Swap ==> !disconnected(self.state),
            !(pop is Try && pop.take() is Done),
            !(pop is Retry && pop.take() is Done),
            self.pop_next(pop, thread, post, next),
        ensures
            post.inv(ops, next, end),
            match (pop, next) {
                (Pop::Try(_), Pop::Done(Ok(value))) => {
                    &&& self@.len() > 0
                    &&& value == self@[0]
                    &&& post@ == self@.skip(1)
                },
                (Pop::Retry(_), Pop::Done(Ok(value))) => {
                    &&& self@.len() > 0
                    &&& value == self@[0]
                    &&& post@ == self@.skip(1)
                },
                _ => post@ == self@,
            },
            pop is Rest && next is Done ==> next == Pop::<T>::Done(Err(())),
            match pop {
                Pop::Try(t) => match next {
                    Pop::Try(_) => true,
                    Pop::Done(Ok(_)) => true,
                    Pop::Done(Err(())) => t is Load && disconnected(self.state),
                    Pop::Link { id } => t is Load && self.state.addr == 0,
                    _ => false,
                },
                Pop::Retry(t) => match next {
                    Pop::Retry(_) => true,
                    Pop::Done(Ok(_)) => true,
                    Pop::Done(Err(())) => t is Load && disconnected(self.state),
                    _ => false,
                },
                Pop::Link { id } => if self.state.addr == 0 {
                    next is Rest && post.state.addr == id
                } else {
                    next is Retry
                },
                Pop::Rest { id, parking } => next is Rest || (next is Done
                    && self.waiters@[id].disconnected),
                Pop::Done(_) => next == pop,
            },
            pop.take() is Load && !disconnected(self.state) && self.state.addr != 0
                ==> next.take() is Swap,
    {
        let ag = agents(ops, pop);
        assert(ag.contains_key(-1) && ag[-1] == pop.agent());
        assert(self.agent_ok(end, ag[-1]));
        assert(self.lists_ok(pop));
        let s = self.order@;
        match pop {
            Pop::Try(take) => {
                let (mid, t) = choose|mid: Self, t: Take<T>|
                    {
                        &&& #[trigger] self.take_next(take, mid, t)
                        &&& match t {
                            Take::Done(Ok(Some(value))) => post == mid && next == Pop::Done(
                                Ok(value),
                            ),
                            Take::Done(Err(())) => post == mid && next == Pop::<T>::Done(Err(())),
                            Take::Done(Ok(None)) => {
                                let id = mid.waiters.fresh();
                                &&& mid.same_but_waiters(post)
                                &&& exists|w: Waiter<T>|
                                    {
                                        &&& mid.waiters@.insert(id, w) == post.waiters@
                                        &&& #[trigger] w.parker.rests(Map::empty())
                                        &&& w.parker.event == Word::Empty
                                        &&& w.prev == 0 && w.next == 0 && !w.disconnected
                                        &&& w.value is None
                                    }
                                &&& next == Pop::<T>::Link { id }
                            },
                            _ => post == mid && next == Pop::Try(t),
                        }
                    };
                if t matches Take::Done(Ok(None)) {
                    let then = Pop::<T>::Done(Err(()));
                    self.lemma_taken(ops, pop, end, mid, t, then);
                    let id = mid.waiters.fresh();
                    assert(!mid.waiters@.contains_key(id));
                    mid.lemma_unreached(ops, then, end, id);
                    let bg = agents(ops, then);
                    let cg = agents(ops, next);
                    assert(bg.contains_key(-1) && bg[-1] == then.agent());
                    assert(cg.contains_key(-1) && cg[-1] == next.agent());
                    assert(!self.guest@);
                    mid.lemma_frame(post, ops, then, end, -1, id, ops, next);
                } else {
                    self.lemma_taken(ops, pop, end, mid, t, next);
                }
            },
            Pop::Retry(take) => {
                let t = choose|t: Take<T>|
                    {
                        &&& #[trigger] self.take_next(take, post, t)
                        &&& next == match t {
                            Take::Done(Ok(Some(value))) => Pop::Done(Ok(value)),
                            Take::Done(Err(())) => Pop::Done(Err(())),
                            _ => Pop::Retry(t),
                        }
                    };
                self.lemma_taken(ops, pop, end, post, t, next);
            },
            Pop::Link { id } => {
                let cg = agents(ops, next);
                assert(cg.contains_key(-1) && cg[-1] == next.agent());
                if self.state.addr == 0 {
                    assert(s.len() == 0) by {
                        if self.ready@ > 0 {
                            assert(self.waiters@.contains_key(s[0]));
                        }
                    }
                    assert(post.waiters@ =~= self.waiters@.insert(
                        id,
                        Waiter { next: self.state.addr, ..self.waiters@[id] },
                    ));
                    self.lemma_linked(post, ops, pop, end, -1, id, ops, next);
                    assert(post@ =~= self@);
                } else {
                    assert(!self.guest@);
                    self.lemma_frame(post, ops, pop, end, -1, id, ops, next);
                }
            },
            Pop::Rest { id, parking } => {
                let cg = agents(ops, next);
                assert(cg.contains_key(-1) && cg[-1] == next.agent());
                let (parker, p) = choose|parker: Parker, p: Parking|
                    {
                        &&& #[trigger] self.waiters@[id].parker.park_next(
                            parking.stage,
                            thread,
                            false,
                            parker,
                            p.stage,
                        )
                        &&& if p.stage is Done {
                            &&& post.waiters@ == self.waiters@.remove(id)
                            &&& next == if self.waiters@[id].disconnected {
                                Pop::Done(Err(()))
                            } else {
                                Pop::Done(Ok(self.waiters@[id].value->0))
                            }
                        } else {
                            &&& post.waiters@ == self.waiters@.insert(
                                id,
                                Waiter { parker, ..self.waiters@[id] },
                            )
                            &&& next == Pop::<T>::Rest { id, parking: p }
                        }
                    };
                self.lemma_rest(end, ag[-1], thread, parker, p.stage, post);
                if self.guest@ {
                    assert(s.contains(s[0]));
                }
                self.lemma_frame(post, ops, pop, end, -1, id, ops, next);
            },
            Pop::Done(_) => {},
        }
    }

    /// The access that the disconnect makes next finds what it needs, as long as no other end goes
    /// between its look at the state and its swap of it.
    pub proof fn lemma_end_accepts(self, ops: Map<int, Push<T>>, pop: Pop<T>, end: End)
        requires
            self.inv(ops, pop, end),
            end is Swap ==> !disconnected(self.state),
        ensures
            self.ends(end),
    {
        let ag = agents(ops, pop);
        if end.begun() && end.list().len() > 0 {
            assert(self.waiters@.contains_key(end.list()[0]));
        }
        if end.tells().0 != 0 {
            let id = end.tells().0;
            let c = Self::sleeper(ag, id, true);
            assert(Self::sleeper(ag, id, c));
            let o = choose|o: int| #[trigger]
                ag.contains_key(o) && ag[o].id == id && ag[o].rest is Some && ag[o].consumer == c;
            assert(self.agent_ok(end, ag[o]));
            self.lemma_told(end, ag[o], Unpark::Done, self.waiters@[id].parker);
        }
    }

    /// What is known of a waiter that is told goes on to be known.
    proof fn lemma_told(self, end: End, a: Agent, u: Unpark, parker: Parker)
        requires
            self.agent_ok(end, a),
            a.rest is Some,
            a.id != 0,
            end.tells().0 == a.id,
        ensures
            self.waiters@[a.id].parker.unparks(end.tells().1),
            self.waiters@[a.id].parker.unpark_next(end.tells().1, parker, u) ==> {
                &&& u is Load || u is Exchange ==> !parker.told()
                &&& parker.inv(a.rest->0, telling(u))
                &&& u is Wake || u is Done ==> parker.inv(a.rest->0, Map::empty())
            },
    {
        let w = self.waiters@[a.id];
        let unpark = end.tells().1;
        let ups = telling(unpark);
        assert(!self.listed(end, a.id));
        assert(ups.contains_key(0) && ups[0] == unpark);
        if w.parker.unpark_next(unpark, parker, u) {
            w.parker.lemma_unpark(a.rest->0, ups, 0, parker, u);
            assert(ups.insert(0, u) =~= telling(u));
            let vs = telling(u);
            assert(vs.contains_key(0) && vs[0] == u);
            if u is Wake || u is Done {
                assert(!crate::usync_mpsc::utils::parker::releasing(vs));
                assert(!crate::usync_mpsc::utils::parker::releasing(Map::<int, Unpark>::empty()));
            }
        } else {
            if unpark is Release {
                assert(crate::usync_mpsc::utils::parker::releasing(ups));
            }
        }
    }

    /// The lists after the disconnect has swapped the state.
    proof fn lemma_ended_lists(
        self,
        ops: Map<int, Push<T>>,
        pop: Pop<T>,
        end: End,
        post: Self,
        next: End,
    )
        requires
            self.inv(ops, pop, end),
            end is Swap,
            !disconnected(self.state),
            self.end_next(end, post, next),
        ensures
            post.lists_ok(pop),
            post.end_ok(next),
            forall|k: int|
                0 <= k < next.list().len() ==> #[trigger] next.list()[k]
                    == self.order@[self.order@.len() - 1 - k],
            next.list().len() == self.order@.len() - self.turned@,
            next.tells() == end.tells(),
            self.turned@ <= self.order@.len(),
            self.guest@ ==> self.turned@ == 0,
            post.pop_ok(pop),
    {
        let s = self.order@;
        let t = self.turned@ as int;
        let q = post.order@;
        let l = next.list();
        assert(self.lists_ok(pop));
        assert(l.len() == s.len() - t);
        assert forall|k: int| 0 <= k < l.len() implies #[trigger] l[k] == s[s.len() - 1 - k] by {}
        assert forall|k: int| 0 <= k < q.len() implies #[trigger] q[k] == s[k] by {}
        assert(post.lists_ok(pop));
        assert(post.end_ok(next)) by {
            assert forall|k: int| 0 <= k < l.len() implies {
                &&& post.waiters@.contains_key(#[trigger] l[k])
                &&& !q.contains(l[k])
                &&& post.waiters@[l[k]].next == if k + 1 < l.len() {
                    l[k + 1]
                } else {
                    0
                }
            } by {
                assert(self.waiters@.contains_key(s[s.len() - 1 - k]));
                if q.contains(l[k]) {
                    let m = choose|m: int| 0 <= m < q.len() && q[m] == l[k];
                    assert(s[m] != s[s.len() - 1 - k]);
                }
            }
            assert forall|j: int, k: int| 0 <= j < k < l.len() implies #[trigger] l[j]
                != #[trigger] l[k] by {
                assert(s[s.len() - 1 - k] != s[s.len() - 1 - j]);
            }
        }
    }

    /// Which waiters can be reached after the disconnect has swapped the state.
    proof fn lemma_ended_at(
        self,
        ops: Map<int, Push<T>>,
        pop: Pop<T>,
        end: End,
        post: Self,
        next: End,
        y: usize,
    )
        requires
            self.inv(ops, pop, end),
            end is Swap,
            !disconnected(self.state),
            self.end_next(end, post, next),
        ensures
            post.listed(next, y) == self.listed(end, y),
    {
        self.lemma_ended_lists(ops, pop, end, post, next);
        let s = self.order@;
        let t = self.turned@ as int;
        let q = post.order@;
        let l = next.list();
        if s.contains(y) {
            let k = choose|k: int| 0 <= k < s.len() && s[k] == y;
            if k < t {
                assert(q[k] == y);
            } else {
                assert(l[s.len() - 1 - k] == y);
            }
        }
        if q.contains(y) {
            let k = choose|k: int| 0 <= k < q.len() && q[k] == y;
            assert(s[k] == y);
        }
        if l.contains(y) {
            let k = choose|k: int| 0 <= k < l.len() && l[k] == y;
            assert(s[s.len() - 1 - k] == y);
        }
    }

    /// What holds after the disconnect has swapped the state.
    proof fn lemma_ended(
        self,
        ops: Map<int, Push<T>>,
        pop: Pop<T>,
        end: End,
        post: Self,
        next: End,
    )
        requires
            self.inv(ops, pop, end),
            end is Swap,
            !disconnected(self.state),
            self.end_next(end, post, next),
        ensures
            post.inv(ops, pop, next),
            post@ == self@.take(self.turned@ as int),
    {
        let ag = agents(ops, pop);
        let s = self.order@;
        let q = post.order@;
        let l = next.list();
        self.lemma_ended_lists(ops, pop, end, post, next);
        assert forall|j: int| #[trigger] ag.contains_key(j) implies post.agent_ok(next, ag[j]) by {
            assert(self.agent_ok(end, ag[j]));
            self.lemma_ended_at(ops, pop, end, post, next, ag[j].id);
        }
        assert forall|k: int| 0 <= k < q.len() implies Self::sleeper(
            ag,
            #[trigger] q[k],
            post.guest@ && k == 0,
        ) by {
            assert(q[k] == s[k]);
            assert(Self::sleeper(ag, s[k], self.guest@ && k == 0));
        }
        assert forall|k: int| 0 <= k < l.len() implies Self::sleeper(ag, #[trigger] l[k], true)
            || Self::sleeper(ag, l[k], false) by {
            assert(Self::sleeper(ag, s[s.len() - 1 - k], self.guest@ && s.len() - 1 - k == 0));
        }
        assert(post@ =~= self@.take(self.turned@ as int));
    }

    /// What holds after the disconnect has marked the next waiter.
    proof fn lemma_marked(
        self,
        ops: Map<int, Push<T>>,
        pop: Pop<T>,
        end: End,
        post: Self,
        next: End,
    )
        requires
            self.inv(ops, pop, end),
            end is Walk,
            end.first() != 0,
            self.end_next(end, post, next),
        ensures
            post.inv(ops, pop, next),
            post@ == self@,
    {
        let ag = agents(ops, pop);
        let s = self.order@;
        let l = end.list();
        let m = next.list();
        let id = end.first();
        assert(self.end_ok(end));
        assert(l[0] == id);
        assert(self.waiters@.contains_key(l[0]));
        assert(l.contains(id));
        assert(m =~= l.skip(1));
        assert(next.tells() == (id, Unpark::Load));
        assert forall|k: int| 0 <= k < m.len() implies #[trigger] m[k] == l[k + 1] && m[k] != id by {
            assert(l[0] != l[k + 1]);
        }
        assert forall|y: usize| #[trigger] l.contains(y) == (m.contains(y) || y == id) by {
            if l.contains(y) && y != id {
                let k = choose|k: int| 0 <= k < l.len() && l[k] == y;
                assert(m[k - 1] == y);
            }
            if m.contains(y) {
                let k = choose|k: int| 0 <= k < m.len() && m[k] == y;
                assert(l[k + 1] == y);
            }
        }
        assert(!m.contains(id)) by {
            if m.contains(id) {
                let k = choose|k: int| 0 <= k < m.len() && m[k] == id;
                assert(m[k] != id);
            }
        }
        assert(!s.contains(id));
        assert forall|k: int| 0 <= k < s.len() implies {
            &&& #[trigger] s[k] != id
            &&& post.waiters@[s[k]] == self.waiters@[s[k]]
        } by {
            assert(s.contains(s[k]));
            assert(self.waiters@.contains_key(s[k]));
        }
        assert(post.lists_ok(pop));
        assert(post.end_ok(next)) by {
            assert forall|k: int| 0 <= k < m.len() implies {
                &&& post.waiters@.contains_key(#[trigger] m[k])
                &&& post.waiters@[m[k]] == self.waiters@[m[k]]
                &&& !s.contains(m[k])
            } by {
                assert(self.waiters@.contains_key(l[k + 1]));
            }
            if l.len() > 1 {
                assert(m[0] == l[1]);
            }
            assert forall|j: int, k: int| 0 <= j < k < m.len() implies #[trigger] m[j]
                != #[trigger] m[k] by {
                assert(l[j + 1] != l[k + 1]);
            }
        }
        assert forall|j: int| #[trigger] ag.contains_key(j) implies post.agent_ok(next, ag[j]) by {
            assert(self.agent_ok(end, ag[j]));
            let a = ag[j];
            if a.id == id {
                let none = Map::<int, Unpark>::empty();
                if a.rest is Some {
                    self.waiters@[id].parker.lemma_start(a.rest->0, none, 0);
                    assert(none.insert(0, Unpark::Load) =~= telling(Unpark::Load));
                }
            }
        }
        assert forall|k: int| 0 <= k < m.len() implies Self::sleeper(ag, #[trigger] m[k], true)
            || Self::sleeper(ag, m[k], false) by {
            assert(Self::sleeper(ag, l[k + 1], true) || Self::sleeper(ag, l[k + 1], false));
        }
        assert(Self::sleeper(ag, l[0], true) || Self::sleeper(ag, l[0], false));
        if pop is Link {
            assert(ag.contains_key(-1) && ag[-1] == pop.agent());
            assert(self.agent_ok(end, ag[-1]));
        }
        assert(post@ =~= self@);
    }

    /// What holds after the disconnect has gone on telling a waiter's thread.
    proof fn lemma_telling(
        self,
        ops: Map<int, Push<T>>,
        pop: Pop<T>,
        end: End,
        post: Self,
        next: End,
    )
        requires
            self.inv(ops, pop, end),
            end is Tell,
            self.end_next(end, post, next),
        ensures
            post.inv(ops, pop, next),
            post@ == self@,
    {
        let ag = agents(ops, pop);
        let s = self.order@;
        let l = end.list();
        let id = end->Tell_id;
        let unpark = end->Tell_unpark;
        assert(next.list() == l && next.first() == end.first() && next.back() == end.back());
        assert(self.end_ok(end));
        if end.tells().0 != 0 {
            let (parker, u) = choose|parker: Parker, u: Unpark|
                {
                    &&& #[trigger] self.waiters@[id].parker.unpark_next(unpark, parker, u)
                    &&& post.waiters@ == self.waiters@.insert(
                        id,
                        Waiter { parker, ..self.waiters@[id] },
                    )
                    &&& next == if u is Done {
                        End::Walk {
                            waiter: end->Tell_rest,
                            back: end->Tell_back,
                            is_sender: end->Tell_is_sender,
                            list: end->Tell_list,
                        }
                    } else {
                        End::Tell {
                            id,
                            unpark: u,
                            rest: end->Tell_rest,
                            back: end->Tell_back,
                            is_sender: end->Tell_is_sender,
                            list: end->Tell_list,
                        }
                    }
                };
            let c = Self::sleeper(ag, id, true);
            assert(Self::sleeper(ag, id, c));
            let o = choose|o: int| #[trigger]
                ag.contains_key(o) && ag[o].id == id && ag[o].rest is Some && ag[o].consumer == c;
            assert(self.agent_ok(end, ag[o]));
            assert(!s.contains(id));
            assert forall|k: int| 0 <= k < s.len() implies {
                &&& #[trigger] s[k] != id
                &&& post.waiters@[s[k]] == self.waiters@[s[k]]
            } by {
                assert(s.contains(s[k]));
                assert(self.waiters@.contains_key(s[k]));
            }
            assert forall|k: int| 0 <= k < l.len() implies {
                &&& #[trigger] l[k] != id
                &&& post.waiters@[l[k]] == self.waiters@[l[k]]
            } by {
                assert(self.waiters@.contains_key(l[k]));
            }
            assert(!l.contains(id));
            assert(post.lists_ok(pop));
            assert(post.end_ok(next));
            assert forall|j: int| #[trigger] ag.contains_key(j) implies post.agent_ok(next, ag[j]) by {
                assert(self.agent_ok(end, ag[j]));
                if ag[j].id == id {
                    self.lemma_told(end, ag[j], u, parker);
                }
            }
            assert(post@ =~= self@);
        } else {
            assert(post.lists_ok(pop));
            assert(post.end_ok(next));
            assert forall|j: int| #[trigger] ag.contains_key(j) implies post.agent_ok(next, ag[j]) by {
                assert(self.agent_ok(end, ag[j]));
            }
            assert(post@ =~= self@);
        }
        if pop is Link {
            assert(ag.contains_key(-1) && ag[-1] == pop.agent());
            assert(self.agent_ok(end, ag[-1]));
        }
    }

    /// What holds after the consumer has given up the waiters that it had turned over.
    proof fn lemma_closed(
        self,
        ops: Map<int, Push<T>>,
        pop: Pop<T>,
        end: End,
        post: Self,
        next: End,
    )
        requires
            self.inv(ops, pop, end),
            end matches End::Walk { waiter, back, is_sender, list } && waiter == 0 && !back
                && !is_sender,
            pop is Done,
            !self.closed@,
            self.end_next(end, post, next),
        ensures
            post.inv(ops, pop, next),
            post@ == self@.skip(self.ready@ as int),
    {
        let ag = agents(ops, pop);
        let s = self.order@;
        let r = self.ready@ as int;
        let q = post.order@;
        let l = next.list();
        assert(self.lists_ok(pop));
        assert(self.end_ok(end));
        assert(end.list().len() == 0) by {
            if end.list().len() > 0 {
                assert(self.waiters@.contains_key(end.list()[0]));
            }
        }
        assert(q.len() == 0);
        assert forall|k: int| 0 <= k < l.len() implies #[trigger] l[k] == s[k] by {}
        assert forall|y: usize| #[trigger] s.contains(y) == l.contains(y) by {
            if s.contains(y) {
                let k = choose|k: int| 0 <= k < s.len() && s[k] == y;
                assert(l[k] == y);
            }
            if l.contains(y) {
                let k = choose|k: int| 0 <= k < l.len() && l[k] == y;
                assert(s[k] == y);
            }
        }
        assert(!self.guest@);
        assert(post.lists_ok(pop));
        assert(post.end_ok(next)) by {
            assert forall|k: int| 0 <= k < l.len() implies {
                &&& post.waiters@.contains_key(#[trigger] l[k])
                &&& post.waiters@[l[k]].prev == if k + 1 < l.len() {
                    l[k + 1]
                } else {
                    0
                }
            } by {
                assert(self.waiters@.contains_key(s[k]));
            }
        }
        assert forall|j: int| #[trigger] ag.contains_key(j) implies post.agent_ok(next, ag[j]) by {
            assert(self.agent_ok(end, ag[j]));
            assert(s.contains(ag[j].id) == l.contains(ag[j].id));
        }
        assert forall|k: int| 0 <= k < l.len() implies Self::sleeper(ag, #[trigger] l[k], true)
            || Self::sleeper(ag, l[k], false) by {
            assert(Self::sleeper(ag, s[k], false));
        }
        assert(post@ =~= self@.skip(r));
    }

    /// Whatever is under way, one access of a disconnect keeps the invariant, as long as no other
    /// end goes between its look at the state and its swap of it, and a consumer that goes is not
    /// in the middle of a pop. The swap takes away the values on the stack, a consumer that goes
    /// also those that it had turned over, and no other access changes what can be taken.
    pub proof fn lemma_end(
        self,
        ops: Map<int, Push<T>>,
        pop: Pop<T>,
        end: End,
        post: Self,
        next: End,
    )
        requires
            self.inv(ops, pop, end),
            end is Swap ==> !disconnected(self.state),
            end matches End::Walk { waiter, back, is_sender, list } ==> waiter == 0 && !back
                && !is_sender ==> pop is Done && !self.closed@,
            self.end_next(end, post, next),
        ensures
            post.inv(ops, pop, next),
            post@ == match end {
                End::Swap { is_sender } => self@.take(self.turned@ as int),
                End::Walk { waiter, back, is_sender, list } => if waiter == 0 && !back
                    && !is_sender {
                    self@.skip(self.ready@ as int)
                } else {
                    self@
                },
                _ => self@,
            },
    {
        match end {
            End::Swap { is_sender } => {
                self.lemma_ended(ops, pop, end, post, next);
            },
            End::Walk { waiter, back, is_sender, list } => {
                if waiter != 0 {
                    self.lemma_marked(ops, pop, end, post, next);
                } else if !back && !is_sender {
                    self.lemma_closed(ops, pop, end, post, next);
                } else {
                    self.lemma_over(ops, pop, end, next);
                }
            },
            End::Tell { .. } => {
                self.lemma_telling(ops, pop, end, post, next);
            },
            End::Load { .. } => {
                self.lemma_over(ops, pop, end, next);
            },
            End::Done => {},
        }
    }

    /// A disconnect that has nobody to tell may be replaced by another one.
    pub proof fn lemma_over(self, ops: Map<int, Push<T>>, pop: Pop<T>, end: End, next: End)
        requires
            self.inv(ops, pop, end),
            end is Load || end is Done || (end is Walk && end.first() == 0),
            next is Load || next is Swap || next is Done,
        ensures
            self.inv(ops, pop, next),
    {
        let ag = agents(ops, pop);
        assert(end.list().len() == 0) by {
            if end.list().len() > 0 {
                assert(self.waiters@.contains_key(end.list()[0]));
            }
        }
        assert forall|j: int| #[trigger] ag.contains_key(j) implies self.agent_ok(next, ag[j]) by {
            assert(self.agent_ok(end, ag[j]));
        }
    }

    /// A push may begin at any time.
    pub proof fn lemma_start(
        self,
        ops: Map<int, Push<T>>,
        pop: Pop<T>,
        end: End,
        i: int,
        value: T,
    )
        requires
            self.inv(ops, pop, end),
            !ops.contains_key(i),
            i != -1,
        ensures
            self.inv(ops.insert(i, Push::Start { value }), pop, end),
    {
        self.lemma_idle(ops, pop, end, ops.insert(i, Push::Start { value }), i);
    }

    /// A push that is over may be forgotten.
    pub proof fn lemma_finish(self, ops: Map<int, Push<T>>, pop: Pop<T>, end: End, i: int)
        requires
            self.inv(ops, pop, end),
            ops.contains_key(i),
            ops[i] is Done,
        ensures
            self.inv(ops.remove(i), pop, end),
    {
        self.lemma_idle(ops, pop, end, ops.remove(i), i);
    }

    /// Pushes without a waiter come and go.
    proof fn lemma_idle(
        self,
        ops: Map<int, Push<T>>,
        pop: Pop<T>,
        end: End,
        gs: Map<int, Push<T>>,
        i: int,
    )
        requires
            self.inv(ops, pop, end),
            i != -1,
            forall|j: int| j != i && #[trigger] gs.contains_key(j) ==> ops.contains_key(j)
                && gs[j] == ops[j],
            forall|j: int| j != i && #[trigger] ops.contains_key(j) ==> gs.contains_key(j),
            ops.contains_key(i) ==> ops[i] is Done,
            gs.contains_key(i) ==> gs[i] is Start,
        ensures
            self.inv(gs, pop, end),
    {
        let ag = agents(ops, pop);
        let bg = agents(gs, pop);
        assert forall|j: int| j != i implies (#[trigger] bg.contains_key(j) == ag.contains_key(j))
            && (ag.contains_key(j) ==> bg[j] == ag[j]) by {}
        assert(ag.contains_key(i) ==> ag[i].id == 0 && ag[i].rest is None);
        assert(bg.contains_key(i) ==> bg[i].id == 0);
        assert forall|j: int| #[trigger] bg.contains_key(j) implies self.agent_ok(end, bg[j]) by {
            if j != i {
                assert(self.agent_ok(end, ag[j]));
            }
        }
        assert forall|a: int, b: int| #[trigger]
            bg.contains_key(a) && #[trigger] bg.contains_key(b) && a != b && bg[a].id
                != 0 implies bg[a].id != bg[b].id by {
            if a != i && b != i {
                assert(ag.contains_key(a) && ag.contains_key(b));
            }
        }
        let s = self.order@;
        let l = end.list();
        assert forall|k: int| 0 <= k < s.len() implies Self::sleeper(
            bg,
            #[trigger] s[k],
            self.guest@ && k == 0,
        ) by {
            assert(Self::sleeper(ag, s[k], self.guest@ && k == 0));
            Self::lemma_asleep(ag, bg, i, s[k], self.guest@ && k == 0);
        }
        assert forall|k: int| 0 <= k < l.len() implies Self::sleeper(bg, #[trigger] l[k], true)
            || Self::sleeper(bg, l[k], false) by {
            let c = Self::sleeper(ag, l[k], true);
            assert(Self::sleeper(ag, l[k], c));
            Self::lemma_asleep(ag, bg, i, l[k], c);
        }
        if end.tells().0 != 0 {
            let c = Self::sleeper(ag, end.tells().0, true);
            assert(Self::sleeper(ag, end.tells().0, c));
            Self::lemma_asleep(ag, bg, i, end.tells().0, c);
        }
        assert forall|j: int| #[trigger] gs.contains_key(j) implies Self::push_ok(gs[j]) by {
            assert(j != i ==> ops.contains_key(j));
        }
    }

    /// A thread that sleeps still does if only agent `i` changes, which does not sleep.
    proof fn lemma_asleep(
        ag: Map<int, Agent>,
        bg: Map<int, Agent>,
        i: int,
        id: usize,
        consumer: bool,
    )
        requires
            Self::sleeper(ag, id, consumer),
            forall|j: int| j != i ==> (#[trigger] bg.contains_key(j) == ag.contains_key(j)) && (
            ag.contains_key(j) ==> bg[j] == ag[j]),
            ag.contains_key(i) ==> ag[i].rest is None,
        ensures
            Self::sleeper(bg, id, consumer),
    {
        let j = choose|j: int| #[trigger]
            ag.contains_key(j) && ag[j].id == id && ag[j].rest is Some && ag[j].consumer
                == consumer;
        assert(bg.contains_key(j));
    }

    /// A pop may begin whenever no other is under way, unless the consumer has gone and left
    /// waiters behind that it had turned over.
    pub proof fn lemma_start_pop(self, ops: Map<int, Push<T>>, pop: Pop<T>, end: End)
        requires
            self.inv(ops, pop, end),
            pop is Done,
            !self.closed@,
        ensures
            self.inv(ops, Pop::Try(Take::Front), end),
    {
        let then = Pop::<T>::Try(Take::Front);
        assert(agents(ops, then) =~= agents(ops, pop));
    }

    /// Once one end has gone, whichever it is, every operation that looks at the state says so: a
    /// push and a try-push give their value back, a pop fails unless it has turned values over,
    /// and another disconnect does nothing.
    pub proof fn lemma_answers(self, ops: Map<int, Push<T>>, pop: Pop<T>, end: End, value: T)
        requires
            self.inv(ops, pop, end),
            disconnected(self.state),
        ensures
            forall|id: usize, thread: usize, spurious: bool, post: Self, next: Push<T>| #[trigger]
                self.push_next(Push::Load { id }, thread, spurious, post, next) ==> next
                    == Push::Done(Err(self.waiters@[id].value->0)),
            forall|spurious: bool, post: Self, next: Offer<T>| #[trigger]
                self.offer_next(Offer::Load { value }, spurious, post, next) ==> post == self && next
                    == Offer::Done(Err::<(), Result<T, T>>(Err(value))),
            forall|post: Self, next: Take<T>| #[trigger]
                self.take_next(Take::Load, post, next) ==> post == self && next == Take::<T>::Done(
                    Err(()),
                ),
            forall|is_sender: bool, post: Self, next: End| #[trigger]
                self.end_next(End::Load { is_sender }, post, next) ==> post == self && next is Done,
    {
    }

    /// A push that has looked at the state and found neither that one end has gone nor a receiver
    /// goes on to link its waiter in front of what it has seen, again and again until it has, and
    /// then waits. It is over only once one end has gone, and until then its waiter has its value,
    /// unless that was taken.
    pub proof fn lemma_waits(
        self,
        ops: Map<int, Push<T>>,
        pop: Pop<T>,
        end: End,
        i: int,
        thread: usize,
        spurious: bool,
        post: Self,
        next: Push<T>,
    )
        requires
            self.inv(ops, pop, end),
            ops.contains_key(i),
            self.push_next(ops[i], thread, spurious, post, next),
        ensures
            match ops[i] {
                Push::Start { value } => {
                    &&& next matches Push::Load { id }
                    &&& post.waiters@[id].value == Some(value)
                },
                Push::Load { id } => !disconnected(self.state) && !receiver(self.state) ==> next
                    == Push::<T>::Link { id, seen: self.state },
                Push::Link { id, seen } => if self.state == seen && !spurious {
                    next is Rest && post.state.addr == id && post.waiters@[id].next == seen.addr
                } else {
                    !disconnected(self.state) && !receiver(self.state) ==> next == Push::<
                        T,
                    >::Link { id, seen: self.state }
                },
                Push::Rest { id, parking } => !(next is Done) ==> next is Rest,
                Push::Done(_) => next == ops[i],
                _ => true,
            },
            ops[i].agent().id != 0 && next.agent().id != 0 ==> {
                &&& next.agent().id == ops[i].agent().id
                &&& post.waiters@[next.agent().id].value == self.waiters@[ops[i].agent().id].value
            },
            next is Done && !(ops[i] is Done) ==> disconnected(self.state)
                || self.waiters@[ops[i].agent().id].disconnected,
    {
        assert(Self::push_ok(ops[i]));
        let ag = agents(ops, pop);
        assert(ag.contains_key(i) && ag[i] == ops[i].agent());
        assert(self.agent_ok(end, ag[i]));
    }

    /// What a push and a pop do with a receiver that can be served: the push that takes it off the
    /// state hands it its value, and has then only to wake it, and the pop that was served returns
    /// that value. A push or a pop that is woken because one end has gone says so.
    pub proof fn lemma_served(
        self,
        push: Push<T>,
        pop: Pop<T>,
        thread: usize,
        spurious: bool,
        post: Self,
        pushed: Push<T>,
        popped: Pop<T>,
    )
        ensures
            self.push_next(push, thread, spurious, post, pushed) ==> match push {
                Push::Serve { id, seen } => if self.state == seen && !spurious {
                    &&& pushed == Push::<T>::Hand { id, receiver: top(seen) }
                    &&& post.state.addr == 0
                    &&& post.waiters == self.waiters
                } else if disconnected(self.state) {
                    pushed == Push::Done(Err(self.waiters@[id].value->0))
                } else if receiver(self.state) {
                    pushed == Push::<T>::Serve { id, seen: self.state }
                } else {
                    pushed == Push::<T>::Link { id, seen: self.state }
                },
                Push::Hand { id, receiver: to } => id != to ==> {
                    &&& pushed == Push::<T>::Wake { receiver: to, unpark: Unpark::Load }
                    &&& post.waiters@[to].value == self.waiters@[id].value
                    &&& !post.waiters@.contains_key(id)
                },
                Push::Wake { receiver: to, unpark } => pushed == Push::<T>::Done(Ok(())) || (
                pushed matches Push::Wake { receiver: same, unpark: u } && same == to),
                Push::Rest { id, parking } => pushed is Done ==> pushed
                    == if self.waiters@[id].disconnected {
                    Push::Done(Err(self.waiters@[id].value->0))
                } else {
                    Push::Done(Ok(()))
                },
                _ => true,
            },
            self.pop_next(pop, thread, post, popped) ==> (pop matches Pop::Rest { id, parking } ==> (
            popped is Done ==> popped == if self.waiters@[id].disconnected {
                Pop::Done(Err(()))
            } else {
                Pop::Done(Ok(self.waiters@[id].value->0))
            })),
    {
    }

    /// A thread that sleeps in its waiter, for a push or a pop, does so under its own number, and
    /// a push that has served a receiver is over only once that receiver was told to go on, and
    /// woken by its number if it sleeps.
    pub proof fn lemma_rests_and_wakes(
        self,
        push: Push<T>,
        pop: Pop<T>,
        thread: usize,
        spurious: bool,
        post: Self,
        pushed: Push<T>,
        popped: Pop<T>,
    )
        ensures
            self.push_next(push, thread, spurious, post, pushed) ==> match push {
                Push::Rest { id, parking } => {
                    &&& pushed matches Push::Rest { id: own, parking: p } ==> {
                        &&& own == id
                        &&& parking.stage is Exchange && p.stage is Wait
                            ==> post.waiters@[id].parker.place.thread == Some(thread)
                        &&& !(p.stage is Withdraw) || parking.stage is Withdraw
                    }
                    &&& parking.stage is Wait && !self.waiters@[id].parker.place.is_set
                        ==> pushed is Rest && post.waiters@[id].parker == self.waiters@[id].parker
                },
                Push::Wake { receiver: to, unpark } => {
                    &&& pushed is Done ==> unpark is Wake || unpark is Done
                        || post.waiters@[to].parker.told()
                    &&& unpark is Release ==> pushed == Push::<T>::Wake {
                        receiver: to,
                        unpark: Unpark::Wake(self.waiters@[to].parker.place.thread->0),
                    }
                },
                _ => true,
            },
            self.pop_next(pop, thread, post, popped) ==> (pop matches Pop::Rest { id, parking } ==> {
                &&& popped matches Pop::Rest { id: own, parking: p } ==> {
                    &&& own == id
                    &&& parking.stage is Exchange && p.stage is Wait
                        ==> post.waiters@[id].parker.place.thread == Some(thread)
                    &&& !(p.stage is Withdraw) || parking.stage is Withdraw
                }
                &&& parking.stage is Wait && !self.waiters@[id].parker.place.is_set ==> popped is Rest
                    && post.waiters@[id].parker == self.waiters@[id].parker
            }),
    {
    }

    /// What a try-pop does: a value that was turned over is taken at once. If there is none, it
    /// fails for good just if one end has gone, finds nothing just if nobody has put a waiter on
    /// the stack, and otherwise takes the whole stack and turns it over.
    pub proof fn lemma_takes(self, op: Take<T>, post: Self, next: Take<T>)
        requires
            self.take_next(op, post, next),
        ensures
            match op {
                Take::Front => if self.consumed != 0 {
                    next == Take::Done(Ok(Some(self.waiters@[self.consumed].value->0)))
                } else {
                    next is Load && post == self
                },
                Take::Load => {
                    &&& post == self
                    &&& next == Take::<T>::Done(Err(())) <==> disconnected(self.state)
                    &&& next == Take::<T>::Done(Ok(None)) <==> self.state.addr == 0
                    &&& next is Swap || next is Done
                },
                Take::Swap => {
                    &&& post.state.addr == 0
                    &&& post.consumed == self.consumed
                    &&& next matches Take::Turn { tail, at }
                    &&& tail == self.state.addr
                },
                Take::Turn { tail, at } => {
                    let below = self.waiters@[tail].next;
                    &&& post.state == self.state
                    &&& if below == 0 {
                        next is Front && post.consumed == tail
                    } else {
                        &&& next matches Take::Turn { tail: t, at: a }
                        &&& t == below
                        &&& post.waiters@[below].prev == tail
                        &&& post.consumed == self.consumed
                    }
                },
                Take::Done(_) => next == op && post == self,
            },
    {
    }

    /// What a disconnect does: nothing if one end has gone already; otherwise every waiter that it
    /// has taken off the stack is noted to be disconnected, keeps its value, and is told to go on,
    /// and woken by its number if it sleeps. A consumer that goes does the same for the waiters
    /// that it had turned over, a producer leaves those alone. It is over only when nobody is
    /// left to tell.
    pub proof fn lemma_disconnects(
        self,
        ops: Map<int, Push<T>>,
        pop: Pop<T>,
        end: End,
        post: Self,
        next: End,
    )
        requires
            self.inv(ops, pop, end),
            self.end_next(end, post, next),
        ensures
            match end {
                End::Load { is_sender } => {
                    &&& post == self
                    &&& next is Done ==> disconnected(self.state)
                    &&& !disconnected(self.state) ==> next == End::Swap { is_sender }
                },
                End::Swap { is_sender } => {
                    &&& disconnected(post.state)
                    &&& post.waiters == self.waiters
                    &&& next matches End::Walk { waiter, back, is_sender: sender, list }
                    &&& waiter == top(self.state) && !back && sender == is_sender
                },
                End::Walk { waiter, back, is_sender, list } => if list@.len() > 0 {
                    &&& post.waiters@[list@[0]].disconnected
                    &&& post.waiters@[list@[0]].value == self.waiters@[list@[0]].value
                    &&& next matches End::Tell {
                        id,
                        unpark,
                        rest,
                        back: b,
                        is_sender: sender,
                        list: left,
                    }
                    &&& id == list@[0] && unpark is Load && b == back && sender == is_sender
                    &&& left@ == list@.skip(1)
                } else if back || is_sender {
                    next is Done && post == self
                } else {
                    &&& next matches End::Walk { waiter: w, back: b, is_sender: sender, list: left }
                    &&& w == self.consumed && b && !sender
                    &&& left@ == self.order@.take(self.ready@ as int)
                    &&& post.waiters == self.waiters
                },
                End::Tell { id, unpark, rest, back, is_sender, list } => {
                    &&& next is Tell || next is Walk
                    &&& next.list() == list@ && next.back() == back
                    &&& next matches End::Tell {
                        id: same,
                        unpark: u,
                        rest: r,
                        back: b,
                        is_sender: sender,
                        list: left,
                    } ==> same == id && r == rest && sender == is_sender && left == list
                    &&& next matches End::Walk { waiter, back: b, is_sender: sender, list: left }
                        ==> waiter == rest && sender == is_sender && (unpark is Wake || unpark is Done
                        || post.waiters@[id].parker.told())
                    &&& unpark is Release ==> next is Tell && next->Tell_unpark == Unpark::Wake(
                        self.waiters@[id].parker.place.thread->0,
                    )
                },
                End::Done => next is Done && post == self,
            },
    {
    }

    /// What a try-push answers: it gives its own value back for good only if one end has gone, and
    /// for now only if no receiver can be served, and it is over with success only once it has
    /// handed its value to a receiver and has nobody left to wake.
    pub proof fn lemma_offer(self, op: Offer<T>, spurious: bool, post: Self, next: Offer<T>)
        requires
            self.offer_next(op, spurious, post, next),
            !(op is Done),
        ensures
            match next {
                Offer::Done(Err(Err(back))) => {
                    &&& disconnected(self.state)
                    &&& op.value() == Some(back)
                    &&& post == self
                },
                Offer::Done(Err(Ok(back))) => {
                    &&& !disconnected(self.state)
                    &&& !receiver(self.state)
                    &&& op.value() == Some(back)
                    &&& post == self
                },
                Offer::Done(Ok(())) => op matches Offer::Wake { receiver, unpark } && post.waiters@[receiver].value
                    == self.waiters@[receiver].value,
                Offer::Serve { value, seen } => op.value() == Some(value) && seen == self.state
                    && !disconnected(self.state) && receiver(self.state) && post == self,
                Offer::Hand { value, receiver: id } => {
                    &&& op matches Offer::Serve { value: v, seen }
                    &&& v == value
                    &&& seen == self.state
                    &&& id == top(self.state)
                    &&& post.state.addr == 0
                },
                Offer::Wake { receiver: id, unpark } => op matches Offer::Hand { value, receiver: to }
                    ==> to == id && post.waiters@[id].value == Some(value),
                Offer::Load { .. } => false,
            },
            op is Serve && op->Serve_seen == self.state && !spurious ==> next is Hand,
            op is Hand ==> next is Wake,
            op is Wake ==> next is Wake || next == Offer::<T>::Done(Ok(())),
            op matches Offer::Wake { receiver: to, unpark } ==> {
                &&& next is Done ==> unpark is Wake || unpark is Done
                    || post.waiters@[to].parker.told()
                &&& unpark is Release ==> next == Offer::<T>::Wake {
                    receiver: to,
                    unpark: Unpark::Wake(self.waiters@[to].parker.place.thread->0),
                }
            },
    {
    }

    /// A disconnect of either end is for good: no access of a push, a try-push, a pop or another
    /// disconnect takes it back. Left out is a pop that has looked at the state and has not yet
    /// taken the stack: the swap must not find that one end has gone.
    pub proof fn lemma_for_good(self, ops: Map<int, Push<T>>, pop: Pop<T>, end: End)
        requires
            self.inv(ops, pop, end),
            disconnected(self.state),
            !(pop.take() is Swap),
        ensures
            forall|i: int, thread: usize, spurious: bool, post: Self, next: Push<T>|
                ops.contains_key(i) && #[trigger] self.push_next(
                    ops[i],
                    thread,
                    spurious,
                    post,
                    next,
                ) ==> disconnected(post.state),
            forall|value: T, seen: Pointer, spurious: bool, post: Self, next: Offer<T>|
                !disconnected(seen) && #[trigger] self.offer_next(
                    Offer::Serve { value, seen },
                    spurious,
                    post,
                    next,
                ) ==> disconnected(post.state),
            forall|thread: usize, post: Self, next: Pop<T>| #[trigger]
                self.pop_next(pop, thread, post, next) ==> disconnected(post.state),
            forall|post: Self, next: End| #[trigger]
                self.end_next(end, post, next) ==> disconnected(post.state),
    {
        assert forall|i: int, thread: usize, spurious: bool, post: Self, next: Push<T>|
            ops.contains_key(i) && #[trigger] self.push_next(
                ops[i],
                thread,
                spurious,
                post,
                next,
            ) implies disconnected(post.state) by {
            assert(Self::push_ok(ops[i]));
        }
    }

    /// The swap of a disconnect says that one end has gone, whichever it is.
    pub proof fn lemma_says_so(self, is_sender: bool, post: Self, next: End)
        requires
            self.end_next(End::Swap { is_sender }, post, next),
        ensures
            disconnected(post.state),
    {
    }

    /// Hands `value` to a receiver that can be served, if there is one. A receiver that sleeps is let
    /// go; its thread is woken by the host.
    pub fn try_push(&mut self, value: T) -> (pushed: Result<(), Result<T, T>>)
        requires
            old(self).waiters.wf(),
            receiver(old(self).state) && !disconnected(old(self).state) ==> {
                let id = top(old(self).state);
                &&& old(self).waiters@.contains_key(id)
                &&& old(self).waiters@[id].parker.event == Word::Parked
                    ==> old(self).waiters@[id].parker.place.thread is Some
            },
        ensures
            final(self).waiters.room() == old(self).waiters.room(),
            match pushed {
                Err(Err(v)) => disconnected(old(self).state) && v == value && *final(self) == *old(
                    self,
                ),
                Err(Ok(v)) => !disconnected(old(self).state) && !receiver(old(self).state) && v
                    == value && *final(self) == *old(self),
                Ok(()) => {
                    let id = top(old(self).state);
                    &&& !disconnected(old(self).state) && receiver(old(self).state)
                    &&& final(self).state.addr == 0
                    &&& final(self).consumed == old(self).consumed
                    &&& old(self).same_lists(*final(self))
                    &&& final(self).waiters.wf()
                    &&& final(self).waiters@ == old(self).waiters@.insert(
                        id,
                        Waiter {
                            value: Some(value),
                            parker: old(self).waiters@[id].parker.unparked(),
                            ..old(self).waiters@[id]
                        },
                    )
                    &&& final(self).waiters@[id].parker.told()
                },
            },
    {
        let op = self.offer_step(Offer::Load { value }, false);
        let op = self.offer_step(op, false);
        let op = self.offer_step(op, false);
        let op = self.offer_step(op, false);
        let op = self.offer_step(op, false);
        let op = self.offer_step(op, false);
        let op = self.offer_step(op, false);
        match op {
            Offer::Done(result) => result,
            _ => {
                assert(false);
                Ok(())
            },
        }
    }

    /// The consumer is not in the middle of a pop, and it has not gone and left waiters behind
    /// that it had turned over.
    pub open spec fn can_pop(self) -> bool {
        &&& !self.closed@
        &&& exists|ops: Map<int, Push<T>>, end: End| #[trigger]
            self.inv(ops, Pop::Try(Take::Front), end)
    }

    /// Neither a pop nor a disconnect is under way.
    pub open spec fn rests(self) -> bool {
        exists|ops: Map<int, Push<T>>| #[trigger] self.inv(ops, Pop::Done(Err(())), End::Done)
    }

    /// While neither a pop nor a disconnect is under way, one may begin; a pop only if the
    /// consumer has not gone and left waiters behind that it had turned over.
    pub proof fn lemma_rests(self)
        requires
            self.rests(),
        ensures
            self.can_end(true),
            self.can_end(false),
            !self.closed@ ==> self.can_pop(),
    {
        let done = Pop::<T>::Done(Err(()));
        let ops = choose|ops: Map<int, Push<T>>| #[trigger] self.inv(ops, done, End::Done);
        if !self.closed@ {
            self.lemma_start_pop(ops, done, End::Done);
        }
    }

    /// Takes the oldest value that can be taken. This does not disturb the pushes that wait.
    pub fn try_pop(&mut self) -> (value: Result<Option<T>, ()>)
        requires
            old(self).can_pop(),
        ensures
            final(self).can_pop(),
            old(self).rests() ==> {
                &&& final(self).rests()
                &&& final(self).can_end(true)
                &&& final(self).can_end(false)
            },
            final(self).state.addr == old(self).state.addr || final(self).state.addr == 0,
            disconnected(final(self).state) == disconnected(old(self).state),
            final(self).waiters.room() == old(self).waiters.room(),
            forall|ops: Map<int, Push<T>>, end: End| #[trigger]
                old(self).inv(ops, Pop::Try(Take::Front), end) ==> final(self).inv(
                    ops,
                    Pop::Try(Take::Front),
                    end,
                ),
            match value {
                Ok(Some(v)) => {
                    &&& old(self)@.len() > 0
                    &&& v == old(self)@[0]
                    &&& final(self)@ == old(self)@.skip(1)
                },
                Ok(None) => {
                    &&& old(self)@.len() == 0
                    &&& !disconnected(old(self).state)
                    &&& final(self)@ == old(self)@
                },
                Err(()) => {
                    &&& old(self)@.len() == 0
                    &&& disconnected(old(self).state)
                    &&& final(self)@ == old(self)@
                },
            },
    {
        let mut op: Take<T> = Take::Front;
        let ghost (ops0, end0) = choose|ops: Map<int, Push<T>>, end: End| #[trigger]
            self.inv(ops, Pop::Try(Take::Front), end);
        loop
            invariant
                !self.closed@,
                op is Done ==> self.inv(ops0, Pop::Done(Err(())), end0),
                !(op is Done) ==> self.inv(ops0, Pop::Try(op), end0),
                old(self).inv(ops0, Pop::Try(Take::Front), end0),
                forall|ops: Map<int, Push<T>>, end: End| #[trigger]
                    old(self).inv(ops, Pop::Try(Take::Front), end) ==> self.inv(
                        ops,
                        if op is Done {
                            Pop::Done(Err(()))
                        } else {
                            Pop::Try(op)
                        },
                        end,
                    ),
                disconnected(self.state) == disconnected(old(self).state),
                self.state.addr == old(self).state.addr || self.state.addr == 0,
                self.waiters.room() == old(self).waiters.room(),
                match op {
                    Take::Done(Ok(Some(v))) => old(self)@.len() > 0 && v == old(self)@[0] && self@
                        == old(self)@.skip(1),
                    Take::Done(Ok(None)) => old(self)@.len() == 0 && !disconnected(self.state)
                        && self@ == old(self)@,
                    Take::Done(Err(())) => old(self)@.len() == 0 && disconnected(self.state)
                        && self@ == old(self)@,
                    Take::Swap => self@ == old(self)@ && !disconnected(self.state),
                    _ => self@ == old(self)@,
                },
            decreases
                    match op {
                        Take::Front => if self.consumed == 0 {
                            5int
                        } else {
                            1
                        },
                        Take::Load => 4,
                        Take::Swap => 3,
                        Take::Turn { .. } => 2,
                        Take::Done(_) => 0,
                    },
                    match op {
                        Take::Turn { tail, at } => at@ + 1,
                        _ => 0,
                    },
        {
            if let Take::Done(value) = op {
                proof {
                    let done = Pop::<T>::Done(Err(()));
                    if old(self).rests() {
                        let ops = choose|ops: Map<int, Push<T>>| #[trigger]
                            old(self).inv(ops, done, End::Done);
                        old(self).lemma_start_pop(ops, done, End::Done);
                        assert(self.inv(ops, done, End::Done));
                        self.lemma_rests();
                    }
                    assert forall|ops: Map<int, Push<T>>, end: End| #[trigger]
                        old(self).inv(ops, Pop::Try(Take::Front), end) implies self.inv(
                        ops,
                        Pop::Try(Take::Front),
                        end,
                    ) by {
                        self.lemma_start_pop(ops, done, end);
                    }
                    assert(self.inv(ops0, Pop::Try(Take::Front), end0));
                }
                return value;
            }
            let ghost pre = *self;
            let ghost before = op;
            proof {
                let pop = Pop::Try(before);
                assert(pop.take() == before);
                assert(pre.lists_ok(pop));
                let ag = agents(ops0, pop);
                if before is Front && pre.consumed != 0 {
                    let s = pre.order@;
                    assert(pre.waiters@.contains_key(s[0]));
                    assert(s.contains(s[0]));
                    assert(Self::sleeper(ag, s[0], false));
                    let o = choose|o: int| #[trigger]
                        ag.contains_key(o) && ag[o].id == s[0] && ag[o].rest is Some
                            && ag[o].consumer == false;
                    assert(pre.agent_ok(end0, ag[o]));
                }
                if let Take::Turn { tail, at } = before {
                    let s = pre.order@;
                    assert(pre.waiters@.contains_key(s[at@]));
                    if at@ > 0 {
                        assert(pre.waiters@.contains_key(s[at@ - 1]));
                        assert(s[at@ - 1] != s[at@]);
                    }
                }
            }
            op = self.take_step(op);
            proof {
                let pop = Pop::Try(before);
                let then = if op is Done {
                    Pop::<T>::Done(Err(()))
                } else {
                    Pop::Try(op)
                };
                pre.lemma_taken(ops0, pop, end0, *self, op, then);
                assert forall|ops: Map<int, Push<T>>, end: End| #[trigger]
                    old(self).inv(ops, Pop::Try(Take::Front), end) implies self.inv(
                    ops,
                    then,
                    end,
                ) by {
                    pre.lemma_taken(ops, pop, end, *self, op, then);
                }
                if before is Load && op is Done {
                    let s = pre.order@;
                    if pre.ready@ > 0 {
                        assert(pre.waiters@.contains_key(s[0]));
                    }
                    if s.len() > pre.turned@ {
                        assert(pre.waiters@.contains_key(s[s.len() - 1]));
                    }
                }
                if op is Front {
                    assert(self.consumed != 0);
                }
            }
        }
    }

    /// Begins a push.
    pub fn push(&self, value: T) -> (push: Push<T>)
        ensures
            push == (Push::Start { value }),
    {
        Push::Start { value }
    }

    /// Begins a pop.
    pub fn pop(&self) -> (pop: Pop<T>)
        ensures
            pop == Pop::<T>::Try(Take::Front),
    {
        Pop::Try(Take::Front)
    }

    /// No disconnect is under way, and a consumer that is going to go is not in the middle of a
    /// pop.
    pub open spec fn can_end(self, is_sender: bool) -> bool {
        exists|ops: Map<int, Push<T>>, pop: Pop<T>|
            {
                &&& #[trigger] self.inv(ops, pop, End::Done)
                &&& !is_sender ==> pop is Done
            }
    }

    /// The thread was told that one end has gone.
    pub open spec fn notified(self, id: usize) -> bool {
        &&& self.waiters@.contains_key(id)
        &&& self.waiters@[id].disconnected
        &&& self.waiters@[id].parker.told()
    }

    /// The thread was told, or is about to be.
    pub open spec fn attended(self, end: End, id: usize) -> bool {
        end.list().contains(id) || end.tells().0 == id || self.notified(id)
    }

    /// A thread that was told or is about to be goes on to be so when the disconnect goes on.
    proof fn lemma_attended(
        self,
        ops: Map<int, Push<T>>,
        pop: Pop<T>,
        end: End,
        post: Self,
        next: End,
        id: usize,
    )
        requires
            self.inv(ops, pop, end),
            end is Walk || end is Tell,
            self.end_next(end, post, next),
            id != 0,
            self.attended(end, id),
        ensures
            post.attended(next, id),
    {
        let l = end.list();
        assert(self.end_ok(end));
        match end {
            End::Walk { waiter, back, is_sender, list } => {
                if l.contains(id) {
                    let k = choose|k: int| 0 <= k < l.len() && l[k] == id;
                    assert(self.waiters@.contains_key(l[0]));
                    if k > 0 {
                        assert(next.list() =~= l.skip(1));
                        assert(next.list()[k - 1] == id);
                    }
                }
            },
            End::Tell { id: told, unpark, rest, back, is_sender, list } => {
                if end.tells().0 == id {
                    let ag = agents(ops, pop);
                    let c = Self::sleeper(ag, id, true);
                    assert(Self::sleeper(ag, id, c));
                    let o = choose|o: int| #[trigger]
                        ag.contains_key(o) && ag[o].id == id && ag[o].rest is Some
                            && ag[o].consumer == c;
                    assert(self.agent_ok(end, ag[o]));
                    let (parker, u) = choose|parker: Parker, u: Unpark|
                        {
                            &&& #[trigger] self.waiters@[told].parker.unpark_next(unpark, parker, u)
                            &&& post.waiters@ == self.waiters@.insert(
                                told,
                                Waiter { parker, ..self.waiters@[told] },
                            )
                            &&& next == if u is Done {
                                End::Walk { waiter: rest, back, is_sender, list }
                            } else {
                                End::Tell { id: told, unpark: u, rest, back, is_sender, list }
                            }
                        };
                    self.lemma_told(end, ag[o], u, parker);
                    let ups = telling(unpark);
                    assert(ups.contains_key(0) && ups[0] == unpark);
                    if unpark is Release {
                        assert(crate::usync_mpsc::utils::parker::releasing(ups));
                    }
                }
            },
            _ => {},
        }
    }

    /// Takes one end away. Every thread that waits on the stack is told, and so are, if it is the
    /// consumer that goes, those whose waiters it had turned over. If one end has gone already
    /// nothing happens.
    pub fn disconnect(&mut self, is_sender: bool)
        requires
            old(self).can_end(is_sender),
        ensures
            forall|ops: Map<int, Push<T>>, pop: Pop<T>| #[trigger]
                old(self).inv(ops, pop, End::Done) && (!is_sender ==> pop is Done)
                    ==> final(self).inv(ops, pop, End::Done),
            old(self).rests() ==> {
                &&& final(self).rests()
                &&& final(self).can_end(true)
                &&& final(self).can_end(false)
                &&& !final(self).closed@ ==> final(self).can_pop()
            },
            final(self).closed@ == (old(self).closed@ || (!is_sender && !disconnected(
                old(self).state,
            ) && old(self).ready@ > 0)),
            disconnected(final(self).state),
            final(self).waiters.room() == old(self).waiters.room(),
            disconnected(old(self).state) ==> *final(self) == *old(self),
            !disconnected(old(self).state) ==> {
                &&& forall|k: int|
                    old(self).turned@ <= k < old(self).order@.len() ==> final(self).notified(
                        #[trigger] old(self).order@[k],
                    )
                &&& !is_sender ==> forall|k: int|
                    0 <= k < old(self).ready@ ==> final(self).notified(
                        #[trigger] old(self).order@[k],
                    )
                &&& final(self)@ == if is_sender {
                    old(self)@.take(old(self).turned@ as int)
                } else {
                    Seq::empty()
                }
            },
    {
        let ghost (ops0, pop0) = choose|ops: Map<int, Push<T>>, pop: Pop<T>|
            {
                &&& #[trigger] self.inv(ops, pop, End::Done)
                &&& !is_sender ==> pop is Done
            };
        let ghost full = self.order@;
        let ghost t = self.turned@ as int;
        let ghost r = self.ready@ as int;
        let mut op = End::Load { is_sender };
        proof {
            assert forall|ops: Map<int, Push<T>>, pop: Pop<T>| #[trigger]
                old(self).inv(ops, pop, End::Done) implies self.inv(ops, pop, op) by {
                self.lemma_over(ops, pop, End::Done, op);
            }
            self.lemma_over(ops0, pop0, End::Done, op);
            assert(self.lists_ok(pop0));
        }
        loop
            invariant
                self.inv(ops0, pop0, op),
                old(self).inv(ops0, pop0, End::Done),
                old(self).lists_ok(pop0),
                !is_sender ==> pop0 is Done,
                old(self).closed@ ==> disconnected(old(self).state),
                full == old(self).order@,
                t == old(self).turned@,
                r == old(self).ready@,
                pop0 is Done ==> r == t,
                forall|ops: Map<int, Push<T>>, pop: Pop<T>| #[trigger]
                    old(self).inv(ops, pop, End::Done) && (!is_sender ==> pop is Done) ==> self.inv(
                        ops,
                        pop,
                        op,
                    ),
                match op {
                    End::Load { is_sender: b } => b == is_sender && *self == *old(self),
                    End::Swap { is_sender: b } => b == is_sender && *self == *old(self)
                        && !disconnected(self.state),
                    End::Done => disconnected(self.state),
                    End::Walk { waiter, back, is_sender: b, list } => b == is_sender && (back
                        ==> !is_sender),
                    End::Tell { id, unpark, rest, back, is_sender: b, list } => b == is_sender && (
                    back ==> !is_sender),
                },
                self.waiters.room() == old(self).waiters.room(),
                op is Done && disconnected(old(self).state) ==> *self == *old(self),
                op is Walk || op is Tell || (op is Done && !disconnected(old(self).state)) ==> {
                    &&& !disconnected(old(self).state)
                    &&& disconnected(self.state)
                    &&& forall|k: int|
                        t <= k < full.len() ==> self.attended(op, #[trigger] full[k])
                    &&& if op.back() || (op is Done && !is_sender) {
                        &&& self@ == Seq::<T>::empty()
                        &&& self.closed@ == (old(self).closed@ || r > 0)
                        &&& forall|k: int|
                            0 <= k < r ==> self.attended(op, #[trigger] full[k])
                    } else {
                        &&& self.order@ == full.take(t)
                        &&& self.ready@ == r
                        &&& self.closed == old(self).closed
                        &&& self@ == old(self)@.take(t)
                    }
                },
            decreases
                    match op {
                        End::Load { .. } => 4int,
                        End::Swap { .. } => 3,
                        End::Walk { waiter, back, is_sender: b, list } => if back {
                            1
                        } else {
                            2
                        },
                        End::Tell { id, unpark, rest, back, is_sender: b, list } => if back {
                            1
                        } else {
                            2
                        },
                        End::Done => 0,
                    },
                    op.list().len(),
                    match op {
                        End::Tell { id, unpark, rest, back, is_sender: b, list } => match unpark {
                            Unpark::Load => 5int,
                            Unpark::Exchange(seen) => if seen == self.waiters@[id].parker.event {
                                3
                            } else {
                                4
                            },
                            Unpark::Release => 2,
                            _ => 1,
                        },
                        _ => 0,
                    },
        {
            let done: bool = match &op {
                End::Done => true,
                _ => false,
            };
            if done {
                proof {
                    if old(self).rests() {
                        let ops = choose|ops: Map<int, Push<T>>| #[trigger]
                            old(self).inv(ops, Pop::<T>::Done(Err(())), End::Done);
                        assert(self.inv(ops, Pop::<T>::Done(Err(())), End::Done));
                        self.lemma_rests();
                    }
                }
                return;
            }
            let ghost pre = *self;
            let ghost before = op;
            proof {
                pre.lemma_end_accepts(ops0, pop0, before);
                if before is Walk && pre.end_ok(before) && before.list().len() > 0 {
                    assert(pre.waiters@.contains_key(before.list()[0]));
                }
            }
            op = self.end_step(op);
            proof {
                pre.lemma_end(ops0, pop0, before, *self, op);
                assert forall|ops: Map<int, Push<T>>, pop: Pop<T>| #[trigger]
                    old(self).inv(ops, pop, End::Done) && (!is_sender ==> pop is Done) implies self.inv(
                ops, pop, op) by {
                    pre.lemma_end(ops, pop, before, *self, op);
                }
                if before is Swap {
                    pre.lemma_ended_lists(ops0, pop0, before, *self, op);
                    let l = op.list();
                    assert forall|k: int| t <= k < full.len() implies self.attended(
                        op,
                        #[trigger] full[k],
                    ) by {
                        assert(l[full.len() - 1 - k] == full[k]);
                    }
                } else if before is Walk || before is Tell {
                    assert forall|k: int|
                        0 <= k < full.len() && pre.attended(before, #[trigger] full[k]) implies self.attended(
                    op, full[k]) by {
                        assert(old(self).waiters@.contains_key(full[k]));
                        pre.lemma_attended(ops0, pop0, before, *self, op, full[k]);
                    }
                    if op.back() && !before.back() {
                        assert forall|k: int| 0 <= k < r implies self.attended(
                            op,
                            #[trigger] full[k],
                        ) by {
                            assert(op.list()[k] == full[k]);
                        }
                        assert(self@ =~= Seq::empty());
                    }
                }
            }
        }
    }
}

} // verus!
