//! A place where one thread sleeps, for as long as it likes, until another tells it to go on.
use crate::pause::Platform;
use crate::shared::Word;
use crate::usync_mpsc::utils::backoff::Backoff;
use vstd::prelude::*;

verus! {

/// What a thread that sleeps waits for.
pub struct Event {
    pub thread: Option<usize>,
    pub is_set: bool,
}

impl Event {
    /// An event that `thread` waits for.
    pub fn new(thread: usize) -> (event: Self)
        ensures
            event == (Event { thread: Some(thread), is_set: false }),
    {
        Event { thread: Some(thread), is_set: false }
    }

    /// Whether the thread may go on: true once the event has happened, false when the deadline has
    /// passed before, and nothing while the thread is to sleep and ask again.
    pub fn wait(&self, late: bool) -> (over: Option<bool>)
        ensures
            over == if self.is_set {
                Some(true)
            } else if late {
                Some(false)
            } else {
                None
            },
    {
        if self.is_set {
            return Some(true);
        }
        if late {
            return Some(false);
        }
        None
    }

    /// Makes the event happen, and returns the thread that is to be woken.
    pub fn happen(&mut self) -> (thread: usize)
        requires
            old(self).thread is Some,
        ensures
            thread == old(self).thread->0,
            *final(self) == (Event { thread: None, is_set: true }),
    {
        let thread: usize = self.thread.take().unwrap();
        self.is_set = true;
        thread
    }
}

/// The place, with the event that the thread waits for while it sleeps there.
pub struct Parker {
    pub event: Word,
    pub place: Event,
}

/// The part of a park that comes next.
pub enum Park {
    /// Look whether the thread was told to go on.
    Look,
    /// It was not: spin a little, or go to sleep.
    Spin,
    /// Exchange an empty word for one that says that the thread sleeps.
    Exchange,
    /// Sleep until the event has happened or the deadline has passed.
    Wait,
    /// The deadline has passed: take the event back.
    Withdraw,
    /// The event could not be taken back: sleep until it has happened.
    WaitOn,
    /// Look at the word again.
    Reload,
    /// The thread was told to go on: empty the word.
    Complete,
    /// The park is over: whether the thread was told to go on.
    Done(bool),
}

/// A park that is under way.
pub struct Parking {
    pub stage: Park,
    pub backoff: Backoff,
}

impl Parking {
    /// A park that has not yet begun.
    pub fn new() -> (parking: Self)
        ensures
            parking.stage == Park::Look,
            parking.backoff.attempt == 0,
    {
        Parking { stage: Park::Look, backoff: Backoff::new() }
    }
}

/// The part of an unpark that comes next.
pub enum Unpark {
    /// Load the word.
    Load,
    /// Exchange the word that was seen for one that tells the thread to go on.
    Exchange(Word),
    /// Make the event happen.
    Release,
    /// Wake the thread.
    Wake(usize),
    /// The unpark is over.
    Done,
}

/// Some unpark is about to make the event happen.
pub open spec fn releasing(ups: Map<int, Unpark>) -> bool {
    exists|i: int| #[trigger] ups.contains_key(i) && ups[i] is Release
}

impl Park {
    /// How many accesses are left at most once the thread was told to go on and let go.
    pub open spec fn rank(self) -> nat {
        match self {
            Park::Spin => 5,
            Park::Look => 4,
            Park::Exchange => 4,
            Park::Wait => 4,
            Park::Withdraw => 4,
            Park::WaitOn => 3,
            Park::Reload => 2,
            Park::Complete => 1,
            Park::Done(_) => 0,
        }
    }
}

impl Parker {
    /// How many accesses of the unpark are left at most while nothing else happens.
    pub open spec fn to_tell(self, op: Unpark) -> nat {
        match op {
            Unpark::Load => 4,
            Unpark::Exchange(seen) => if seen == self.event {
                3
            } else {
                5
            },
            Unpark::Release => 2,
            Unpark::Wake(_) => 1,
            Unpark::Done => 0,
        }
    }

    /// A place that nobody sleeps in.
    pub fn new() -> (parker: Self)
        ensures
            parker.event == Word::Empty,
            parker.rests(Map::empty()),
    {
        Parker { event: Word::Empty, place: Event { thread: None, is_set: false } }
    }

    /// The thread was told to go on and has not yet done so.
    pub open spec fn told(self) -> bool {
        self.event == Word::Notified
    }

    /// The parker after an undisturbed unpark: a thread that sleeps is let go.
    pub open spec fn unparked(self) -> Parker {
        match self.event {
            Word::Empty => Parker { event: Word::Notified, ..self },
            Word::Parked => Parker {
                event: Word::Notified,
                place: Event { thread: None, is_set: true },
            },
            Word::Notified => self,
        }
    }

    /// The next access of the park finds what it has to find: no other thread sleeps there, and a
    /// thread that goes on was told to.
    pub open spec fn parks(self, op: Park) -> bool {
        match op {
            Park::Exchange => self.event != Word::Parked,
            Park::Reload => self.told(),
            _ => true,
        }
    }

    /// The next access of the unpark finds a thread to wake.
    pub open spec fn unparks(self, op: Unpark) -> bool {
        op is Release ==> self.place.thread is Some
    }

    /// One access of a park by `thread`, which is `late` once its deadline has passed.
    pub open spec fn park_next(
        self,
        op: Park,
        thread: usize,
        late: bool,
        post: Self,
        next: Park,
    ) -> bool {
        match op {
            Park::Look => post == self && next == if self.told() {
                Park::Complete
            } else {
                Park::Spin
            },
            Park::Spin => post == self && (next is Look || next is Exchange),
            Park::Exchange => if self.event == Word::Empty {
                &&& post == Parker {
                    event: Word::Parked,
                    place: Event { thread: Some(thread), is_set: false },
                }
                &&& next == Park::Wait
            } else {
                post == self && next == Park::Complete
            },
            Park::Wait => post == self && next == if self.place.is_set {
                Park::Reload
            } else if late {
                Park::Withdraw
            } else {
                Park::Wait
            },
            Park::Withdraw => if self.event == Word::Parked {
                post == Parker { event: Word::Empty, ..self } && next == Park::Done(false)
            } else {
                post == self && next == Park::WaitOn
            },
            Park::WaitOn => post == self && next == if self.place.is_set {
                Park::Reload
            } else {
                Park::WaitOn
            },
            Park::Reload => post == self && next == Park::Complete,
            Park::Complete => post == Parker { event: Word::Empty, ..self } && next == Park::Done(
                true,
            ),
            Park::Done(_) => post == self && next == op,
        }
    }

    /// One access of an unpark.
    pub open spec fn unpark_next(self, op: Unpark, post: Self, next: Unpark) -> bool {
        match op {
            Unpark::Load => post == self && next == if self.told() {
                Unpark::Done
            } else {
                Unpark::Exchange(self.event)
            },
            Unpark::Exchange(seen) => if self.event == seen {
                &&& post == Parker { event: Word::Notified, ..self }
                &&& next == if seen == Word::Parked {
                    Unpark::Release
                } else {
                    Unpark::Done
                }
            } else {
                post == self && next == if self.told() {
                    Unpark::Done
                } else {
                    Unpark::Exchange(self.event)
                }
            },
            Unpark::Release => {
                &&& post == Parker { place: Event { thread: None, is_set: true }, ..self }
                &&& next == Unpark::Wake(self.place.thread->0)
            },
            Unpark::Wake(thread) => post == self && next == Unpark::Done,
            Unpark::Done => post == self && next == op,
        }
    }

    /// Performs one access of a park by `thread`, which is `late` once its deadline has passed.
    pub fn park(&mut self, op: Parking, thread: usize, late: bool, platform: Platform) -> (next:
        Parking)
        requires
            old(self).parks(op.stage),
        ensures
            old(self).park_next(op.stage, thread, late, *final(self), next.stage),
            op.stage is Spin ==> (next.stage is Look <==> platform.cpus != 1 && platform.x86
                && op.backoff.attempt < 32),
            next.backoff.attempt == op.backoff.attempt + if op.stage is Spin && next.stage is Look {
                1int
            } else {
                0
            },
    {
        let Parking { stage, mut backoff } = op;
        let stage = match stage {
            Park::Look => self.park_fast(),
            Park::Spin => if backoff.try_yield_now(platform) {
                Park::Look
            } else {
                Park::Exchange
            },
            stage => self.park_slow(stage, thread, late),
        };
        Parking { stage, backoff }
    }

    /// Looks whether the thread need not sleep at all.
    pub fn park_fast(&self) -> (next: Park)
        ensures
            self.park_next(Park::Look, 0, false, *self, next),
    {
        if self.event == Word::Notified {
            Park::Complete
        } else {
            Park::Spin
        }
    }

    /// Performs one access of a park that found that it has to sleep.
    pub fn park_slow(&mut self, op: Park, thread: usize, late: bool) -> (next: Park)
        requires
            old(self).parks(op),
            !(op is Look),
            !(op is Spin),
        ensures
            old(self).park_next(op, thread, late, *final(self), next),
    {
        match op {
            Park::Exchange => if self.event == Word::Empty {
                self.place = Event::new(thread);
                self.event = Word::Parked;
                Park::Wait
            } else {
                Park::Complete
            },
            Park::Wait => match self.place.wait(late) {
                Some(true) => Park::Reload,
                Some(false) => Park::Withdraw,
                None => Park::Wait,
            },
            Park::Withdraw => if self.event == Word::Parked {
                self.event = Word::Empty;
                Park::Done(false)
            } else {
                Park::WaitOn
            },
            Park::WaitOn => match self.place.wait(false) {
                Some(true) => Park::Reload,
                _ => Park::WaitOn,
            },
            Park::Reload => Park::Complete,
            Park::Complete => {
                self.park_complete();
                Park::Done(true)
            },
            op => op,
        }
    }

    /// Takes note that the thread was told to go on.
    pub fn park_complete(&mut self)
        ensures
            *final(self) == (Parker { event: Word::Empty, ..*old(self) }),
    {
        self.event = Word::Empty;
    }

    /// Performs one access of an unpark. A thread that comes out of it is to be woken.
    pub fn unpark(&mut self, op: Unpark) -> (next: Unpark)
        requires
            old(self).unparks(op),
        ensures
            old(self).unpark_next(op, *final(self), next),
    {
        match op {
            Unpark::Load => if self.event == Word::Notified {
                Unpark::Done
            } else {
                Unpark::Exchange(self.event)
            },
            Unpark::Exchange(seen) => if self.event == seen {
                self.event = Word::Notified;
                if seen == Word::Parked {
                    Unpark::Release
                } else {
                    Unpark::Done
                }
            } else if self.event == Word::Notified {
                Unpark::Done
            } else {
                Unpark::Exchange(self.event)
            },
            Unpark::Release => {
                let thread: usize = self.place.happen();
                Unpark::Wake(thread)
            },
            Unpark::Wake(_) => Unpark::Done,
            Unpark::Done => Unpark::Done,
        }
    }

    /// What holds of the unparks that are under way: none exchanges a word that tells the thread
    /// to go on, and no two of them make the event happen.
    pub open spec fn ups_ok(ups: Map<int, Unpark>) -> bool {
        &&& forall|i: int| #[trigger]
            ups.contains_key(i) && ups[i] is Exchange ==> ups[i]->Exchange_0 != Word::Notified
        &&& forall|i: int, j: int| #[trigger]
            ups.contains_key(i) && #[trigger] ups.contains_key(j) && ups[i] is Release
                && ups[j] is Release ==> i == j
    }

    /// What holds while no park is under way.
    pub open spec fn rests(self, ups: Map<int, Unpark>) -> bool {
        self.inv(Park::Done(true), ups)
    }

    /// What holds while a park and any number of unparks are under way, wherever they are: if the
    /// thread sleeps though it was told to go on, an unpark is about to make the event happen.
    pub open spec fn inv(self, park: Park, ups: Map<int, Unpark>) -> bool {
        &&& Self::ups_ok(ups)
        &&& match park {
            Park::Wait | Park::Withdraw | Park::WaitOn => match self.event {
                Word::Empty => false,
                Word::Parked => !(park is WaitOn) && self.place.thread is Some && !self.place.is_set
                    && !releasing(ups),
                Word::Notified => if self.place.is_set {
                    !releasing(ups)
                } else {
                    releasing(ups) && self.place.thread is Some
                },
            },
            Park::Reload | Park::Complete => self.told() && !releasing(ups),
            _ => self.event != Word::Parked && !releasing(ups),
        }
    }

    /// However a park and any unparks interleave, each access of the park finds what it has to
    /// find. The park returns true exactly when it takes note that the thread was told to go on,
    /// and false only if the thread was not told: nothing that it was told is lost. A thread that
    /// sleeps gives up just if it is late and the event has not happened.
    pub proof fn lemma_park(
        self,
        park: Park,
        ups: Map<int, Unpark>,
        thread: usize,
        late: bool,
        post: Self,
        next: Park,
    )
        requires
            self.inv(park, ups),
            self.park_next(park, thread, late, post, next),
        ensures
            self.parks(park),
            post.inv(next, ups),
            next == Park::Done(true) && !(park is Done) ==> self.told() && !post.told(),
            next == Park::Done(false) && !(park is Done) ==> !self.told() && !post.told(),
            !(park is Complete) ==> post.told() == self.told(),
            park is Wait && self.place.is_set ==> next is Reload,
            next == Park::Done(false) && !(park is Done) ==> park is Withdraw,
            next is Withdraw && !(park is Withdraw) ==> late && park is Wait && !self.place.is_set,
            park is Exchange && self.event == Word::Empty ==> {
                &&& next is Wait
                &&& post.event == Word::Parked
                &&& post.place.thread == Some(thread)
                &&& !post.place.is_set
            },
            next is Wait && !(park is Wait) ==> park is Exchange && self.event == Word::Empty,
            self.told() && !releasing(ups) && !(park is Done) ==> next.rank() < park.rank(),
            park is Done ==> next == park && post == self,
            park is Look ==> (next is Complete <==> self.told()),
            park is Wait && !self.place.is_set ==> (if late {
                next is Withdraw
            } else {
                next is Wait
            }),
            park is Withdraw && !self.told() ==> next == Park::Done(false),
            park is Withdraw && self.told() ==> next is WaitOn,
            !(park is Exchange) ==> post.place == self.place,
            post.event == Word::Parked ==> self.event == Word::Parked || next is Wait,
    {
    }

    /// A park may begin whenever no other is under way.
    pub proof fn lemma_begin(self, park: Park, ups: Map<int, Unpark>)
        requires
            self.inv(park, ups),
            park is Done,
        ensures
            self.inv(Park::Look, ups),
    {
    }

    /// However a park and any unparks interleave, each access of an unpark finds what it has to
    /// find, and an unpark is over only once the thread was told to go on; the thread that it
    /// wakes is the one that sleeps.
    pub proof fn lemma_unpark(
        self,
        park: Park,
        ups: Map<int, Unpark>,
        i: int,
        post: Self,
        next: Unpark,
    )
        requires
            self.inv(park, ups),
            ups.contains_key(i),
            self.unpark_next(ups[i], post, next),
        ensures
            self.unparks(ups[i]),
            post.inv(park, ups.insert(i, next)),
            (ups[i] is Load || ups[i] is Exchange) && (next is Done || next is Release)
                ==> post.told(),
            self.told() ==> post.told(),
            ups[i] is Release ==> post.place.is_set && next == Unpark::Wake(self.place.thread->0),
            ups[i] == Unpark::Exchange(self.event) ==> post.told(),
            self.event == Word::Parked && post.event != Word::Parked ==> next is Release,
            !(ups[i] is Done) ==> post.to_tell(next) < self.to_tell(ups[i]),
            ups[i] is Done ==> next is Done && post == self,
            !(ups[i] is Release) ==> post.place == self.place,
            next is Release ==> self.event == Word::Parked || ups[i] is Release,
            next is Wake && !(ups[i] is Wake) ==> ups[i] is Release,
            next matches Unpark::Exchange(seen) ==> seen == self.event && !self.told(),
            post.event == self.event || post.told(),
    {
        let gs = ups.insert(i, next);
        assert(gs.contains_key(i));
        assert forall|j: int| #[trigger] gs.contains_key(j) && j != i implies ups.contains_key(j) by {}
        if ups[i] is Release {
            assert(releasing(ups));
        }
        if releasing(ups) {
            let j = choose|j: int| #[trigger] ups.contains_key(j) && ups[j] is Release;
            assert(gs.contains_key(j));
        }
        if releasing(gs) {
            let j = choose|j: int| #[trigger] gs.contains_key(j) && gs[j] is Release;
            assert(j != i ==> ups.contains_key(j));
        }
    }

    /// An undisturbed unpark tells the thread to go on, and lets it go if it sleeps; if not, the
    /// place stays as it is.
    pub proof fn lemma_unparked(self)
        ensures
            self.unparked().told(),
            self.event == Word::Parked ==> self.unparked().place.is_set,
            self.event != Word::Parked ==> self.unparked().place == self.place,
            self.unparked().unparked() == self.unparked(),
    {
    }

    /// An unpark may begin at any time.
    pub proof fn lemma_start(self, park: Park, ups: Map<int, Unpark>, i: int)
        requires
            self.inv(park, ups),
            !ups.contains_key(i),
        ensures
            self.inv(park, ups.insert(i, Unpark::Load)),
    {
        let gs = ups.insert(i, Unpark::Load);
        assert forall|j: int| #[trigger] gs.contains_key(j) && j != i implies ups.contains_key(j) by {}
        if releasing(ups) {
            let j = choose|j: int| #[trigger] ups.contains_key(j) && ups[j] is Release;
            assert(gs.contains_key(j));
        }
    }

    /// An unpark that is over may be forgotten.
    pub proof fn lemma_finish(self, park: Park, ups: Map<int, Unpark>, i: int)
        requires
            self.inv(park, ups),
            ups.contains_key(i),
            ups[i] is Done,
        ensures
            self.inv(park, ups.remove(i)),
    {
        let gs = ups.remove(i);
        assert forall|j: int| #[trigger] gs.contains_key(j) implies ups.contains_key(j) by {}
        if releasing(ups) {
            let j = choose|j: int| #[trigger] ups.contains_key(j) && ups[j] is Release;
            assert(gs.contains_key(j));
        }
    }
}

} // verus!
