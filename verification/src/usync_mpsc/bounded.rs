//! A bounded queue for many producers and one consumer that allocates its slots when the first
//! value comes.
use crate::history::Machine;
use crate::masked::{is_power_of_two, lemma_power, next_power_of_two, Again, Masked, Pop, Stage};
use crate::pause::{Pause, Platform};
use crate::ring::wrap;
use crate::usync_mpsc::utils::backoff::Backoff;
use vstd::arithmetic::power2::pow2;
use vstd::prelude::*;

verus! {

/// The queue. Without slots it has had no value yet.
pub struct Queue<T> {
    pub slots: Option<Masked<T>>,
    pub mask: usize,
}

/// The part of a push that comes next.
pub enum Step<T> {
    /// Load the slots, and allocate some if there are none.
    Start { value: T },
    /// Exchange no slots for those that were allocated, and free them if there are slots by now.
    Install { value: T, fresh: Masked<T> },
    /// Push the value into the slots.
    Run(Stage<T>),
}

/// A push that is under way.
pub struct Push<T> {
    pub step: Step<T>,
    pub backoff: Backoff,
}

impl<T> Push<T> {
    /// A push that has not yet begun.
    pub fn new(value: T) -> (push: Self)
        ensures
            push.step == (Step::Start { value }),
            push.backoff.attempt == 0,
    {
        Push { step: Step::Start { value }, backoff: Backoff::new() }
    }

    /// How the thread waits before the next access: not at all, unless the producers' position
    /// moved while it looked, or another push won the exchange.
    pub fn pause(&mut self, platform: Platform) -> (pause: Pause)
        ensures
            final(self).step == old(self).step,
            match old(self).step {
                Step::Run(Stage::Load { value, again: Again::Moved }) => pause == Pause::Spin(1)
                    && final(self).backoff == old(self).backoff,
                Step::Run(Stage::Load { value, again: Again::Lost }) => {
                    let attempt = old(self).backoff.attempt;
                    let spins = attempt <= Backoff::spin_limit(platform) || Backoff::always_spins(
                        platform,
                    );
                    &&& pause == if platform.cpus == 1 {
                        Pause::Nothing
                    } else if spins {
                        Pause::Spin(
                            pow2(
                                if attempt < 10 {
                                    attempt as nat
                                } else {
                                    10
                                },
                            ) as usize,
                        )
                    } else {
                        Pause::Yield
                    }
                    &&& final(self).backoff.attempt == if platform.cpus != 1 && spins {
                        attempt.wrapping_add(1)
                    } else {
                        attempt
                    }
                },
                _ => pause == Pause::Nothing && final(self).backoff == old(self).backoff,
            },
    {
        match &self.step {
            Step::Run(Stage::Load { again: Again::Moved, .. }) => Pause::Spin(1),
            Step::Run(Stage::Load { again: Again::Lost, .. }) => self.backoff.yield_now(platform),
            _ => Pause::Nothing,
        }
    }
}

impl<T> Step<T> {
    /// What the push does to the slots; a push that has not found any has not begun.
    pub open spec fn run(self) -> Stage<T> {
        match self {
            Step::Start { value } => Stage::Load { value, again: Again::No },
            Step::Install { value, fresh } => Stage::Load { value, again: Again::No },
            Step::Run(stage) => stage,
        }
    }
}

/// What the pushes that are under way do to the slots.
pub open spec fn runs<T>(ops: Map<int, Step<T>>) -> Map<int, Stage<T>> {
    ops.map_values(|op: Step<T>| op.run())
}

impl<T> Queue<T> {
    /// The number of slots that there are or will be.
    pub open spec fn capacity(self) -> int {
        self.mask + 1
    }

    /// The values in the queue, the oldest first.
    pub open spec fn view(self) -> Seq<T> {
        match self.slots {
            Some(slots) => slots@,
            None => Seq::empty(),
        }
    }

    /// The invariant of the queue together with the pushes that are under way.
    pub open spec fn inv(self, ops: Map<int, Step<T>>) -> bool {
        &&& is_power_of_two(self.capacity())
        &&& match self.slots {
            Some(slots) => slots.capacity() == self.capacity() && slots.inv(runs(ops)),
            None => forall|i: int| #[trigger] ops.contains_key(i) ==> !(ops[i] is Run),
        }
        &&& forall|i: int| #[trigger]
            ops.contains_key(i) && ops[i] is Install ==> {
                let fresh = ops[i]->Install_fresh;
                fresh.wf() && fresh.capacity() == self.capacity() && fresh@ == Seq::<T>::empty()
            }
    }

    /// The invariant while no push is under way.
    pub open spec fn wf(self) -> bool {
        self.inv(Map::empty())
    }

    /// The next access of the push finds what it needs.
    pub open spec fn accepts(self, op: Step<T>) -> bool {
        &&& is_power_of_two(self.capacity())
        &&& op is Run ==> self.slots is Some
        &&& self.slots is Some ==> self.slots->0.capacity() == self.capacity()
    }

    /// One access of a push.
    pub open spec fn push_next(self, op: Step<T>, post: Self, next: Step<T>) -> bool {
        match op {
            Step::Start { value } => {
                &&& post == self
                &&& if self.slots is Some {
                    next == Step::Run(Stage::Load { value, again: Again::No })
                } else {
                    next matches Step::Install { value: v, fresh } && v == value && fresh.wf()
                        && fresh.capacity() == self.capacity() && fresh@ == Seq::<T>::empty()
                }
            },
            Step::Install { value, fresh } => {
                &&& post == if self.slots is Some {
                    self
                } else {
                    Queue { slots: Some(fresh), ..self }
                }
                &&& next == Step::Run(Stage::Load { value, again: Again::No })
            },
            Step::Run(stage) => {
                &&& post.mask == self.mask
                &&& post.slots is Some
                &&& next is Run
                &&& self.slots->0.push_next(stage, post.slots->0, next->Run_0)
            },
        }
    }

    /// One access of a pop.
    pub open spec fn pop_next(self, op: Pop<T>, post: Self, next: Pop<T>) -> bool {
        match self.slots {
            Some(slots) => {
                &&& post.mask == self.mask
                &&& post.slots is Some
                &&& slots.pop_next(op, post.slots->0, next)
            },
            None => post == self && next == match op {
                Pop::Done(value) => Pop::Done(value),
                _ => Pop::Done(None),
            },
        }
    }

    /// A pop that is about to take a value will find it.
    pub open spec fn pop_ok(self, pop: Pop<T>) -> bool {
        match self.slots {
            Some(slots) => slots.pop_ok(pop),
            None => !(pop is Take),
        }
    }

    /// An empty queue of at least `capacity` slots.
    pub fn new(capacity: usize) -> (queue: Self)
        requires
            capacity <= usize::MAX / 2 + 1,
        ensures
            queue.wf(),
            queue.slots is None,
            queue.mask + 1 == queue.capacity(),
            is_power_of_two(queue.mask + 1),
            queue.capacity() >= capacity,
            queue.capacity() == 1 || queue.capacity() < 2 * capacity,
            is_power_of_two(capacity as int) ==> queue.capacity() == capacity,
            queue@ == Seq::<T>::empty(),
    {
        let slots: usize = next_power_of_two(capacity);
        proof {
            lemma_power(slots as int);
        }
        Queue { slots: None, mask: slots - 1 }
    }

    /// Performs one access of a push.
    pub fn push_step(&mut self, op: Push<T>) -> (next: Push<T>)
        requires
            old(self).accepts(op.step),
        ensures
            old(self).push_next(op.step, *final(self), next.step),
            next.backoff == op.backoff,
    {
        proof {
            lemma_power(self.capacity());
        }
        let Push { step, backoff } = op;
        let step = match step {
            Step::Start { value } => if self.slots.is_some() {
                Step::Run(Stage::Load { value, again: Again::No })
            } else {
                Step::Install { value, fresh: Masked::new(self.mask + 1) }
            },
            Step::Install { value, fresh } => {
                if self.slots.is_none() {
                    self.slots = Some(fresh);
                }
                Step::Run(Stage::Load { value, again: Again::No })
            },
            Step::Run(stage) => match self.slots.take() {
                Some(mut slots) => {
                    let stage = slots.push_step(stage);
                    self.slots = Some(slots);
                    Step::Run(stage)
                },
                None => Step::Run(stage),
            },
        };
        Push { step, backoff }
    }

    /// Performs one access of a pop.
    pub fn pop_step(&mut self, op: Pop<T>) -> (next: Pop<T>)
        requires
            is_power_of_two(old(self).capacity()),
            old(self).slots is Some ==> old(self).slots->0.capacity() == old(self).capacity(),
            op is Take && old(self).slots is Some ==> old(self).slots->0.ring.slots@[old(
                self,
            ).slots->0.index(old(self).slots->0.consumer)].value is Some,
        ensures
            old(self).pop_next(op, *final(self), next),
    {
        match self.slots.take() {
            Some(mut slots) => {
                let next = slots.pop_step(op);
                self.slots = Some(slots);
                next
            },
            None => match op {
                Pop::Done(value) => Pop::Done(value),
                _ => Pop::Done(None),
            },
        }
    }

    /// The access that any push makes next finds what it needs.
    pub proof fn lemma_accepts(self, ops: Map<int, Step<T>>, i: int)
        requires
            self.inv(ops),
            ops.contains_key(i),
        ensures
            self.accepts(ops[i]),
    {
    }

    /// Whatever pushes are under way, one access of any of them keeps the invariant, as long as no
    /// exchange claims a position while the slots of all the positions before it that were not yet
    /// taken are in use, nor one that was seen a full turn of the counter ago. The access that
    /// wins the exchange of the producers' position puts the value of the push at the end of the
    /// queue, and no other access changes the queue. A push that finds its slot stored, with the
    /// position still the same, has found the queue full.
    pub proof fn lemma_push(self, ops: Map<int, Step<T>>, i: int, post: Self, next: Step<T>)
        requires
            self.inv(ops),
            ops.contains_key(i),
            ops[i] is Run && ops[i]->Run_0 is Exchange && ops[i]->Run_0->Exchange_seen
                == self.slots->0.producer ==> self@.len() < self.capacity(),
            ops[i] is Run && ops[i]->Run_0 is Exchange ==> self.slots->0.ring.log@.len()
                - ops[i]->Run_0->Exchange_at@ < wrap(),
            self.push_next(ops[i], post, next),
        ensures
            post.inv(ops.insert(i, next)),
            post.capacity() == self.capacity(),
            post@ == if ops[i] is Run && ops[i]->Run_0 is Exchange && ops[i]->Run_0->Exchange_seen
                == self.slots->0.producer {
                self@.push(ops[i]->Run_0->Exchange_value)
            } else {
                self@
            },
            ops[i] is Run && ops[i]->Run_0 is Look && next->Run_0 is Recheck
                && ops[i]->Run_0->Look_at@ == self.slots->0.ring.log@.len() ==> self@.len()
                == self.capacity(),
            forall|pop: Pop<T>| #[trigger] self.pop_ok(pop) ==> post.pop_ok(pop),
            post.slots is Some <==> self.slots is Some || ops[i] is Install,
            next is Install ==> ops[i] is Start && self.slots is None,
            Self::unsent(next) is Some ==> Self::unsent(next) == Self::unsent(ops[i]),
            !Self::sent(ops[i]) ==> match next {
                Step::Run(Stage::Done(Err(back))) => {
                    &&& Self::unsent(ops[i]) == Some(back)
                    &&& ops[i] matches Step::Run(stage)
                    &&& stage matches Stage::Recheck { value, seen, at }
                    &&& at@ == self.slots->0.ring.log@.len() || self.slots->0.ring.log@.len() - at@
                        >= wrap()
                },
                Step::Run(Stage::Done(Ok(()))) => {
                    &&& ops[i].run().hold() matches Some(c)
                    &&& post.slots->0.ring.cell(c.at as int).stored
                    &&& post.slots->0.ring.cell(c.at as int).value == Some(c.value)
                },
                _ => true,
            },
    {
        let gs = ops.insert(i, next);
        let op = ops[i];
        let stages = runs(ops);
        assert(stages.contains_key(i) && stages[i] == op.run());
        assert(runs(gs) =~= stages.insert(i, next.run()));
        assert forall|j: int| #[trigger] gs.contains_key(j) && j != i implies ops.contains_key(j) by {}
        match op {
            Step::Start { value } => {
                if self.slots is Some {
                    self.slots->0.lemma_start(stages, i, next.run());
                }
            },
            Step::Install { value, fresh } => {
                if self.slots is Some {
                    self.slots->0.lemma_start(stages, i, next.run());
                } else {
                    assert forall|j: int| #[trigger] runs(gs).contains_key(j) implies runs(
                        gs,
                    )[j] is Load by {
                        assert(gs.contains_key(j));
                    }
                    fresh.lemma_idle(runs(gs));
                    assert forall|pop: Pop<T>| #[trigger] self.pop_ok(pop) implies post.pop_ok(
                        pop,
                    ) by {}
                }
            },
            Step::Run(stage) => {
                let slots = self.slots->0;
                slots.lemma_push(stages, i, post.slots->0, next.run());
                assert forall|pop: Pop<T>| #[trigger] self.pop_ok(pop) implies post.pop_ok(pop) by {
                    assert(slots.pop_ok(pop));
                }
            },
        }
    }

    /// How many accesses of the push are left at most while nothing else happens.
    pub open spec fn left(self, op: Step<T>) -> nat {
        match op {
            Step::Start { .. } => 8,
            Step::Install { .. } => 7,
            Step::Run(stage) => self.slots->0.left(stage),
        }
    }

    /// Wherever a push is, and whatever the others have done, each access brings it nearer to its
    /// end: with nothing else in between it is over after at most eight.
    pub proof fn lemma_progress(self, op: Step<T>, post: Self, next: Step<T>)
        requires
            !Self::sent(op),
            self.push_next(op, post, next),
        ensures
            post.left(next) < self.left(op) <= 8,
    {
        if let Step::Run(stage) = op {
            self.slots->0.lemma_progress(stage, post.slots->0, next->Run_0);
        }
    }

    /// A push may begin at any time.
    pub proof fn lemma_start(self, ops: Map<int, Step<T>>, i: int, value: T)
        requires
            self.inv(ops),
            !ops.contains_key(i),
        ensures
            self.inv(ops.insert(i, Step::Start { value })),
    {
        let op = Step::Start { value };
        let gs = ops.insert(i, op);
        assert forall|j: int| #[trigger] gs.contains_key(j) && j != i implies ops.contains_key(j) by {}
        if self.slots is Some {
            assert(!runs(ops).contains_key(i));
            self.slots->0.lemma_start(runs(ops), i, op.run());
            assert(runs(gs) =~= runs(ops).insert(i, op.run()));
        }
    }

    /// A push that is over may be forgotten.
    pub proof fn lemma_finish(self, ops: Map<int, Step<T>>, i: int)
        requires
            self.inv(ops),
            ops.contains_key(i),
            ops[i] matches Step::Run(stage) && stage is Done,
        ensures
            self.inv(ops.remove(i)),
    {
        let gs = ops.remove(i);
        assert forall|j: int| #[trigger] gs.contains_key(j) implies ops.contains_key(j) by {}
        assert(runs(ops).contains_key(i) && runs(ops)[i] is Done);
        self.slots->0.lemma_finish(runs(ops), i);
        assert(runs(gs) =~= runs(ops).remove(i));
    }

    /// Whatever pushes are under way, one access of a pop keeps the invariant, and the value that
    /// it takes is the oldest of the queue.
    pub proof fn lemma_pop(self, ops: Map<int, Step<T>>, pop: Pop<T>, post: Self, next: Pop<T>)
        requires
            self.inv(ops),
            self.pop_ok(pop),
            self.pop_next(pop, post, next),
        ensures
            post.inv(ops),
            post.pop_ok(next),
            post.capacity() == self.capacity(),
            match (pop, next) {
                (Pop::Take, Pop::Done(value)) => {
                    &&& self@.len() > 0
                    &&& value == Some(self@[0])
                    &&& post@ == self@.skip(1)
                },
                _ => post@ == self@,
            },
            pop is Look ==> next is Take || next == Pop::<T>::Done(None),
            pop is Look ==> (next is Take <==> self.slots is Some && self.slots->0.ring.cell(
                self.slots->0.ring.taken@ as int,
            ).stored),
            pop is Take ==> next is Done,
            pop is Done ==> next == pop,
    {
        if self.slots is Some {
            self.slots->0.lemma_pop(runs(ops), pop, post.slots->0, next);
        }
    }

    /// Puts `value` at the end of the queue if a slot is free.
    pub fn try_push(&mut self, value: T) -> (pushed: Result<(), T>)
        requires
            old(self).wf(),
        ensures
            final(self).wf(),
            final(self).capacity() == old(self).capacity(),
            match pushed {
                Ok(()) => {
                    &&& old(self)@.len() < old(self).capacity()
                    &&& final(self)@ == old(self)@.push(value)
                },
                Err(v) => {
                    &&& old(self)@.len() == old(self).capacity()
                    &&& v == value
                    &&& final(self)@ == old(self)@
                },
            },
    {
        let ghost none = Map::<int, Step<T>>::empty();
        assert(runs(none) =~= Map::empty());
        let mut op = self.push_step(Push::new(value));
        if let Step::Install { .. } = op.step {
            op = self.push_step(op);
        }
        match (self.slots.take(), op.step) {
            (Some(mut slots), Step::Run(Stage::Load { value, .. })) => {
                let pushed = slots.push(value);
                self.slots = Some(slots);
                pushed
            },
            _ => {
                assert(false);
                Ok(())
            },
        }
    }

    /// Takes the oldest value out of the queue.
    pub fn try_pop(&mut self) -> (value: Option<T>)
        requires
            old(self).wf(),
        ensures
            final(self).wf(),
            final(self).capacity() == old(self).capacity(),
            match value {
                Some(v) => {
                    &&& old(self)@.len() > 0
                    &&& v == old(self)@[0]
                    &&& final(self)@ == old(self)@.skip(1)
                },
                None => old(self)@.len() == 0 && final(self)@ == old(self)@,
            },
    {
        assert(runs(Map::<int, Step<T>>::empty()) =~= Map::empty());
        match self.slots.take() {
            Some(mut slots) => {
                let value = slots.pop();
                self.slots = Some(slots);
                value
            },
            None => None,
        }
    }
}

/// Every run of pushes and pops, whatever way their accesses follow each other. Left
/// out is what [`Queue::lemma_push`] leaves out.
impl<T> Machine for Queue<T> {
    type Item = T;

    type Send = Step<T>;

    type Recv = Pop<T>;

    open spec fn fits(self, sends: Map<int, Step<T>>, recv: Pop<T>) -> bool {
        self.inv(sends) && self.pop_ok(recv)
    }

    open spec fn held(self) -> Seq<T> {
        self@
    }

    open spec fn unsent(send: Step<T>) -> Option<T> {
        Masked::<T>::unsent(send.run())
    }

    open spec fn sent(send: Step<T>) -> bool {
        send matches Step::Run(stage) && stage is Done
    }

    open spec fn owes(send: Step<T>) -> bool {
        Self::unsent(send) is None && !Self::sent(send)
    }

    open spec fn awaited(sends: Map<int, Step<T>>) -> bool {
        exists|i: int| #[trigger] sends.contains_key(i) && Self::owes(sends[i])
    }

    open spec fn got(recv: Pop<T>) -> Option<T> {
        match recv {
            Pop::Done(value) => value,
            _ => None,
        }
    }

    open spec fn missed(recv: Pop<T>) -> bool {
        recv matches Pop::Done(value) && value is None
    }

    open spec fn starts(self, sends: Map<int, Step<T>>, sender: int, send: Step<T>) -> bool {
        send is Start
    }

    open spec fn sends_on(
        self,
        sends: Map<int, Step<T>>,
        sender: int,
        post: Self,
        next: Step<T>,
    ) -> bool {
        &&& sends[sender] is Run && sends[sender]->Run_0 is Exchange
            && sends[sender]->Run_0->Exchange_seen == self.slots->0.producer ==> self@.len()
            < self.capacity()
        &&& sends[sender] is Run && sends[sender]->Run_0 is Exchange
            ==> self.slots->0.ring.log@.len() - sends[sender]->Run_0->Exchange_at@ < wrap()
        &&& self.push_next(sends[sender], post, next)
    }

    open spec fn renews(recv: Pop<T>, next: Pop<T>) -> bool {
        recv is Done && next is Look
    }

    open spec fn recvs_on(
        self,
        sends: Map<int, Step<T>>,
        recv: Pop<T>,
        post: Self,
        next: Pop<T>,
    ) -> bool {
        self.pop_next(recv, post, next)
    }

    proof fn lemma_starts(
        self,
        sends: Map<int, Step<T>>,
        recv: Pop<T>,
        sender: int,
        send: Step<T>,
    ) {
        self.lemma_start(sends, sender, send->Start_value);
    }

    proof fn lemma_sends_on(
        self,
        sends: Map<int, Step<T>>,
        recv: Pop<T>,
        sender: int,
        post: Self,
        next: Step<T>,
    ) {
        self.lemma_push(sends, sender, post, next);
    }

    proof fn lemma_sent(self, sends: Map<int, Step<T>>, recv: Pop<T>, sender: int) {
        self.lemma_finish(sends, sender);
    }

    proof fn lemma_renews(self, sends: Map<int, Step<T>>, recv: Pop<T>, next: Pop<T>) {
    }

    proof fn lemma_recvs_on(
        self,
        sends: Map<int, Step<T>>,
        recv: Pop<T>,
        post: Self,
        next: Pop<T>,
    ) {
        self.lemma_pop(sends, recv, post, next);
        if Self::missed(next) && !Self::missed(recv) && self@.len() > 0 {
            if self.slots is Some {
                let rs = runs(sends);
                self.slots->0.lemma_recvs_on(rs, recv, post.slots->0, next);
                let i = choose|i: int| #[trigger] rs.contains_key(i) && Masked::<T>::owes(rs[i]);
                assert(sends.contains_key(i) && Self::owes(sends[i]));
            }
        }
    }
}

} // verus!
