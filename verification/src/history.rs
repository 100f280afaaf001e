//! What holds of a queue over any run of accesses by many senders and one receiver.
//!
//! A queue whose operations are step machines is a [`Machine`]. A run is a sequence of moments:
//! from each to the next one event happens, that is, a send or a receive begins, makes one access
//! to the memory, or is over. The laws speak of every run, so of every way in which the accesses
//! of the threads can follow each other.
use vstd::multiset::Multiset;
use vstd::prelude::*;

verus! {

/// A queue with the sends and the receive that are under way on it.
pub trait Machine: Sized {
    /// A value of the queue.
    type Item;

    /// A send that is under way.
    type Send;

    /// A receive that is under way.
    type Recv;

    /// What holds between the queue and the operations that are under way.
    spec fn fits(self, sends: Map<int, Self::Send>, recv: Self::Recv) -> bool;

    /// The values in the queue, the oldest first.
    spec fn held(self) -> Seq<Self::Item>;

    /// The value that the send has not put into the queue.
    spec fn unsent(send: Self::Send) -> Option<Self::Item>;

    /// The send is over.
    spec fn sent(send: Self::Send) -> bool;

    /// The send is in the middle of what a receive has to wait for.
    spec fn owes(send: Self::Send) -> bool;

    /// Some send is.
    spec fn awaited(sends: Map<int, Self::Send>) -> bool;

    /// The value that the receive has taken out of the queue.
    spec fn got(recv: Self::Recv) -> Option<Self::Item>;

    /// The receive is over and has found nothing.
    spec fn missed(recv: Self::Recv) -> bool;

    /// A send by `sender` may begin like this.
    spec fn starts(self, sends: Map<int, Self::Send>, sender: int, send: Self::Send) -> bool;

    /// One access of a send.
    spec fn sends_on(
        self,
        sends: Map<int, Self::Send>,
        sender: int,
        post: Self,
        next: Self::Send,
    ) -> bool;

    /// A receive is over, and another one may begin like this.
    spec fn renews(recv: Self::Recv, next: Self::Recv) -> bool;

    /// One access of a receive.
    spec fn recvs_on(
        self,
        sends: Map<int, Self::Send>,
        recv: Self::Recv,
        post: Self,
        next: Self::Recv,
    ) -> bool;

    /// A send that begins has a value to put into the queue.
    proof fn lemma_starts(
        self,
        sends: Map<int, Self::Send>,
        recv: Self::Recv,
        sender: int,
        send: Self::Send,
    )
        requires
            self.fits(sends, recv),
            !sends.contains_key(sender),
            self.starts(sends, sender, send),
        ensures
            self.fits(sends.insert(sender, send), recv),
            Self::unsent(send) is Some,
    ;

    /// An access of a send puts its value at the end of the queue, or leaves the queue alone. A
    /// send that is over makes no difference any more, and owes nothing.
    proof fn lemma_sends_on(
        self,
        sends: Map<int, Self::Send>,
        recv: Self::Recv,
        sender: int,
        post: Self,
        next: Self::Send,
    )
        requires
            self.fits(sends, recv),
            sends.contains_key(sender),
            self.sends_on(sends, sender, post, next),
        ensures
            post.fits(sends.insert(sender, next), recv),
            if Self::unsent(next) == Self::unsent(sends[sender]) {
                post.held() == self.held()
            } else {
                &&& Self::unsent(next) is None
                &&& post.held() == self.held().push(Self::unsent(sends[sender])->0)
            },
            Self::sent(sends[sender]) ==> Self::sent(next) && Self::unsent(next) == Self::unsent(
                sends[sender],
            ),
            Self::sent(next) ==> !Self::owes(next),
    ;

    /// A send that is over may be forgotten.
    proof fn lemma_sent(self, sends: Map<int, Self::Send>, recv: Self::Recv, sender: int)
        requires
            self.fits(sends, recv),
            sends.contains_key(sender),
            Self::sent(sends[sender]),
        ensures
            self.fits(sends.remove(sender), recv),
    ;

    /// A receive that begins has taken nothing.
    proof fn lemma_renews(self, sends: Map<int, Self::Send>, recv: Self::Recv, next: Self::Recv)
        requires
            self.fits(sends, recv),
            Self::renews(recv, next),
        ensures
            self.fits(sends, next),
            Self::got(next) is None,
            !Self::missed(next),
    ;

    /// An access of a receive takes the oldest value, or leaves the queue alone. It finds nothing
    /// only if there is nothing, or while some send is in the middle of what it has to wait for.
    proof fn lemma_recvs_on(
        self,
        sends: Map<int, Self::Send>,
        recv: Self::Recv,
        post: Self,
        next: Self::Recv,
    )
        requires
            self.fits(sends, recv),
            self.recvs_on(sends, recv, post, next),
        ensures
            post.fits(sends, next),
            if Self::got(next) == Self::got(recv) {
                post.held() == self.held()
            } else {
                &&& Self::got(recv) is None
                &&& self.held().len() > 0
                &&& Self::got(next) == Some(self.held()[0])
                &&& post.held() == self.held().skip(1)
            },
            sends.dom() == Set::<int>::empty() && Self::missed(next) && !Self::missed(recv)
                ==> self.held().len() == 0,
            Self::missed(next) && !Self::missed(recv) ==> self.held().len() == 0 || Self::awaited(
                sends,
            ),
    ;
}

/// What happens from one moment to the next.
pub ghost enum Event {
    /// A send by the sender begins.
    Start(int),
    /// The sender's send makes one access.
    Send(int),
    /// The sender's send, which is over, returns.
    Finish(int),
    /// The receive, which is over, returns, and another one begins.
    Renew,
    /// The receive makes one access.
    Recv,
}

/// The queue and what is under way on it.
pub ghost struct Moment<M: Machine> {
    pub queue: M,
    pub sends: Map<int, M::Send>,
    pub recv: M::Recv,
}

impl<M: Machine> Moment<M> {
    /// The value that the sender's send has not put into the queue.
    pub open spec fn unsent(self, sender: int) -> Option<M::Item> {
        if self.sends.contains_key(sender) {
            M::unsent(self.sends[sender])
        } else {
            None
        }
    }

    /// The event leads from this moment to the next.
    pub open spec fn leads(self, event: Event, next: Self) -> bool {
        match event {
            Event::Start(i) => {
                &&& !self.sends.contains_key(i)
                &&& self.queue.starts(self.sends, i, next.sends[i])
                &&& next.queue == self.queue
                &&& next.sends == self.sends.insert(i, next.sends[i])
                &&& next.recv == self.recv
            },
            Event::Send(i) => {
                &&& self.sends.contains_key(i)
                &&& self.queue.sends_on(self.sends, i, next.queue, next.sends[i])
                &&& next.sends == self.sends.insert(i, next.sends[i])
                &&& next.recv == self.recv
            },
            Event::Finish(i) => {
                &&& self.sends.contains_key(i)
                &&& M::sent(self.sends[i])
                &&& next.queue == self.queue
                &&& next.sends == self.sends.remove(i)
                &&& next.recv == self.recv
            },
            Event::Renew => {
                &&& M::renews(self.recv, next.recv)
                &&& next.queue == self.queue
                &&& next.sends == self.sends
            },
            Event::Recv => {
                &&& self.queue.recvs_on(self.sends, self.recv, next.queue, next.recv)
                &&& next.sends == self.sends
            },
        }
    }
}

/// Moments and the events between them, from one at which no send is under way.
pub ghost struct Run<M: Machine> {
    pub moments: Seq<Moment<M>>,
    pub events: Seq<Event>,
}

impl<M: Machine> Run<M> {
    /// The events lead from moment to moment.
    pub open spec fn valid(self) -> bool {
        &&& self.moments.len() == self.events.len() + 1
        &&& self.moments[0].sends == Map::<int, M::Send>::empty()
        &&& self.moments[0].queue.fits(self.moments[0].sends, self.moments[0].recv)
        &&& forall|k: int|
            0 <= k < self.events.len() ==> self.moments[k].leads(
                #[trigger] self.events[k],
                self.moments[k + 1],
            )
    }

    /// The last moment.
    pub open spec fn end(self) -> Moment<M> {
        self.moments.last()
    }

    /// The run without its last event.
    pub open spec fn before(self) -> Self {
        Run { moments: self.moments.drop_last(), events: self.events.drop_last() }
    }

    /// The sender whose value the last event has put into the queue, and the value.
    pub open spec fn last_put(self) -> Option<(int, M::Item)> {
        match self.events.last() {
            Event::Send(i) => match (self.before().end().unsent(i), self.end().unsent(i)) {
                (Some(value), None) => Some((i, value)),
                _ => None,
            },
            _ => None,
        }
    }

    /// The values that were put into the queue, each with its sender, in the order in which that
    /// happened.
    pub open spec fn puts(self) -> Seq<(int, M::Item)>
        decreases self.events.len(),
    {
        if self.events.len() == 0 {
            Seq::empty()
        } else {
            match self.last_put() {
                Some(put) => self.before().puts().push(put),
                None => self.before().puts(),
            }
        }
    }

    /// The values that were received, in the order in which they were taken.
    pub open spec fn received(self) -> Seq<M::Item>
        decreases self.events.len(),
    {
        if self.events.len() == 0 {
            Seq::empty()
        } else if self.events.last() is Recv && M::got(self.before().end().recv) is None {
            match M::got(self.end().recv) {
                Some(value) => self.before().received().push(value),
                None => self.before().received(),
            }
        } else {
            self.before().received()
        }
    }

    /// The values for which the sender has begun a send, in that order, without those whose send
    /// has returned them.
    pub open spec fn given(self, sender: int) -> Seq<M::Item>
        decreases self.events.len(),
    {
        if self.events.len() == 0 {
            Seq::empty()
        } else if self.events.last() == Event::Start(sender) {
            self.before().given(sender).push(self.end().unsent(sender)->0)
        } else if self.events.last() == Event::Finish(sender) && self.before().end().unsent(
            sender,
        ) is Some {
            self.before().given(sender).drop_last()
        } else {
            self.before().given(sender)
        }
    }

    /// The values for which any sender has begun a send, without those whose send has returned
    /// them.
    pub open spec fn offered(self) -> Multiset<M::Item>
        decreases self.events.len(),
    {
        if self.events.len() == 0 {
            Multiset::empty()
        } else {
            match self.events.last() {
                Event::Start(i) => self.before().offered().insert(self.end().unsent(i)->0),
                Event::Finish(i) => match self.before().end().unsent(i) {
                    Some(value) => self.before().offered().remove(value),
                    None => self.before().offered(),
                },
                _ => self.before().offered(),
            }
        }
    }

    /// What is under way fits the queue at the end of a run, and a run without its last event is
    /// a run.
    pub proof fn lemma_fits(self)
        requires
            self.valid(),
        ensures
            self.end().queue.fits(self.end().sends, self.end().recv),
            self.end().sends.dom().finite(),
            self.events.len() > 0 ==> {
                &&& self.before().valid()
                &&& self.before().end().leads(self.events.last(), self.end())
            },
        decreases self.events.len(),
    {
        if self.events.len() > 0 {
            let n = self.events.len() - 1;
            let before = self.before();
            assert(before.valid()) by {
                assert forall|k: int| 0 <= k < before.events.len() implies before.moments[k].leads(
                    #[trigger] before.events[k],
                    before.moments[k + 1],
                ) by {
                    assert(self.events[k] == before.events[k]);
                }
            }
            before.lemma_fits();
            let a = before.end();
            let b = self.end();
            assert(a == self.moments[n] && b == self.moments[n + 1]);
            assert(a.leads(self.events[n], b));
            match self.events.last() {
                Event::Start(i) => {
                    a.queue.lemma_starts(a.sends, a.recv, i, b.sends[i]);
                    assert(b.sends.dom() =~= a.sends.dom().insert(i));
                },
                Event::Send(i) => {
                    a.queue.lemma_sends_on(a.sends, a.recv, i, b.queue, b.sends[i]);
                    assert(b.sends.dom() =~= a.sends.dom().insert(i));
                },
                Event::Finish(i) => {
                    a.queue.lemma_sent(a.sends, a.recv, i);
                    assert(b.sends.dom() =~= a.sends.dom().remove(i));
                },
                Event::Renew => {
                    a.queue.lemma_renews(a.sends, a.recv, b.recv);
                },
                Event::Recv => {
                    a.queue.lemma_recvs_on(a.sends, a.recv, b.queue, b.recv);
                },
            }
        } else {
            assert(self.end() == self.moments[0]);
            assert(self.moments[0].sends.dom() =~= Set::empty());
        }
    }

    /// The values come out in the order in which they went in, each of them once: those that were
    /// in the queue at the start and those that were put into it since are those that were
    /// received, followed by those that are still in the queue.
    pub proof fn lemma_order(self)
        requires
            self.valid(),
        ensures
            self.moments[0].queue.held() + values(self.puts()) == self.received()
                + self.end().queue.held(),
        decreases self.events.len(),
    {
        self.lemma_fits();
        if self.events.len() > 0 {
            let before = self.before();
            before.lemma_fits();
            before.lemma_order();
            let a = before.end();
            let b = self.end();
            let start = self.moments[0].queue.held();
            assert(before.moments[0] == self.moments[0]);
            match self.events.last() {
                Event::Start(i) => {
                    assert(self.last_put() is None);
                },
                Event::Send(i) => {
                    a.queue.lemma_sends_on(a.sends, a.recv, i, b.queue, b.sends[i]);
                    if let Some(put) = self.last_put() {
                        assert(values(self.puts()) =~= values(before.puts()).push(put.1));
                        assert(start + values(self.puts()) =~= (start + values(
                            before.puts(),
                        )).push(put.1));
                        assert(self.received() + b.queue.held() =~= (before.received()
                            + a.queue.held()).push(put.1));
                    } else {
                        assert(b.queue.held() == a.queue.held());
                    }
                },
                Event::Finish(i) => {
                    assert(self.last_put() is None);
                },
                Event::Renew => {
                    assert(self.last_put() is None);
                },
                Event::Recv => {
                    assert(self.last_put() is None);
                    a.queue.lemma_recvs_on(a.sends, a.recv, b.queue, b.recv);
                    if M::got(a.recv) is None && M::got(b.recv) is Some {
                        assert(self.received() + b.queue.held() =~= before.received()
                            + a.queue.held());
                    } else {
                        assert(self.received() == before.received());
                        assert(M::got(a.recv) == M::got(b.recv));
                    }
                },
            }
        } else {
            assert(self.end() == self.moments[0]);
            assert(values(self.puts()) =~= Seq::empty());
            assert(self.moments[0].queue.held() + values(self.puts()) =~= self.received()
                + self.end().queue.held());
        }
    }

    /// From a queue that was empty at the start, the values that were received are the first ones
    /// of those that were put into it.
    pub proof fn lemma_prefix(self)
        requires
            self.valid(),
            self.moments[0].queue.held().len() == 0,
        ensures
            self.received().is_prefix_of(values(self.puts())),
            values(self.puts()) == self.received() + self.end().queue.held(),
    {
        self.lemma_order();
        assert(self.moments[0].queue.held() + values(self.puts()) =~= values(self.puts()));
        assert(self.received() =~= values(self.puts()).take(self.received().len() as int));
    }

    /// An access of a receive takes the oldest value, or nothing, and then it leaves the queue as
    /// it was. While no send is under way a receive comes back without a value only if there is
    /// none.
    pub proof fn lemma_oldest(self)
        requires
            self.valid(),
            self.events.len() > 0,
            self.events.last() is Recv,
        ensures
            ({
                let held = self.before().end().queue.held();
                if self.received() == self.before().received() {
                    self.end().queue.held() == held
                } else {
                    &&& held.len() > 0
                    &&& self.received() == self.before().received().push(held[0])
                    &&& M::got(self.end().recv) == Some(held[0])
                    &&& self.end().queue.held() == held.skip(1)
                }
            }),
            self.end().sends == Map::<int, M::Send>::empty() && M::missed(self.end().recv)
                && !M::missed(self.before().end().recv) ==> self.end().queue.held().len() == 0
                && self.received() == self.before().received(),
            M::missed(self.end().recv) && !M::missed(self.before().end().recv)
                && self.end().queue.held().len() > 0 ==> M::awaited(self.end().sends),
    {
        self.lemma_fits();
        self.before().lemma_fits();
        let a = self.before().end();
        let b = self.end();
        a.queue.lemma_recvs_on(a.sends, a.recv, b.queue, b.recv);
        if M::got(a.recv) is None && M::got(b.recv) is Some {
            let longer = self.before().received().push(M::got(b.recv)->0);
            assert(longer.len() == self.before().received().len() + 1);
        }
        if b.sends == Map::<int, M::Send>::empty() {
            assert(a.sends.dom() =~= Set::empty());
        }
    }

    /// The first `n` events of the run.
    pub open spec fn first(self, n: int) -> Self {
        Run { moments: self.moments.take(n + 1), events: self.events.take(n) }
    }

    /// What a run has put into the queue and received goes on from what its first events have.
    pub proof fn lemma_first(self, n: int)
        requires
            self.valid(),
            0 <= n <= self.events.len(),
        ensures
            self.first(n).valid(),
            self.first(n).end() == self.moments[n],
            self.first(n).puts().is_prefix_of(self.puts()),
            self.first(n).received().is_prefix_of(self.received()),
        decreases self.events.len(),
    {
        self.lemma_fits();
        if n == self.events.len() {
            assert(self.first(n).moments =~= self.moments);
            assert(self.first(n).events =~= self.events);
        } else {
            let before = self.before();
            before.lemma_first(n);
            assert(before.first(n).moments =~= self.first(n).moments);
            assert(before.first(n).events =~= self.first(n).events);
            assert(before.puts().is_prefix_of(self.puts()));
            assert(before.received().is_prefix_of(self.received()));
        }
    }

    /// The values of each sender go in in the order in which it has given them, each of them
    /// once: those that were put into the queue are those for which the sender has begun a send,
    /// but for the one whose send has not yet come to that.
    pub proof fn lemma_senders(self, sender: int)
        requires
            self.valid(),
        ensures
            self.given(sender) == match self.end().unsent(sender) {
                Some(value) => of(self.puts(), sender).push(value),
                None => of(self.puts(), sender),
            },
        decreases self.events.len(),
    {
        self.lemma_fits();
        if self.events.len() > 0 {
            let before = self.before();
            before.lemma_fits();
            before.lemma_senders(sender);
            let a = before.end();
            let b = self.end();
            match self.events.last() {
                Event::Start(i) => {
                    a.queue.lemma_starts(a.sends, a.recv, i, b.sends[i]);
                    assert(self.last_put() is None);
                },
                Event::Send(i) => {
                    a.queue.lemma_sends_on(a.sends, a.recv, i, b.queue, b.sends[i]);
                    if let Some(put) = self.last_put() {
                        lemma_of_push(before.puts(), put, sender);
                    }
                },
                Event::Finish(i) => {
                    assert(self.last_put() is None);
                    if i == sender && a.unsent(i) is Some {
                        assert(self.given(sender) =~= of(self.puts(), sender));
                    }
                },
                _ => {
                    assert(self.last_put() is None);
                },
            }
        } else {
            assert(self.end() == self.moments[0]);
        }
    }

    /// The senders whose send has not yet put this value into the queue.
    pub open spec fn waiting(self, value: M::Item) -> Set<int> {
        self.end().sends.dom().filter(|i: int| self.end().unsent(i) == Some(value))
    }

    /// Each value that was offered was put into the queue, or is that of a send which has not yet
    /// come to that.
    pub proof fn lemma_offered(self, value: M::Item)
        requires
            self.valid(),
        ensures
            self.offered().count(value) == values(self.puts()).to_multiset().count(value)
                + self.waiting(value).len(),
        decreases self.events.len(),
    {
        broadcast use vstd::seq_lib::group_to_multiset_ensures;
        broadcast use vstd::multiset::group_multiset_axioms;

        self.lemma_fits();
        if self.events.len() > 0 {
            let before = self.before();
            before.lemma_fits();
            before.lemma_offered(value);
            let a = before.end();
            let b = self.end();
            match self.events.last() {
                Event::Start(i) => {
                    a.queue.lemma_starts(a.sends, a.recv, i, b.sends[i]);
                    assert(self.last_put() is None);
                    self.lemma_waiting(i, value);
                },
                Event::Send(i) => {
                    a.queue.lemma_sends_on(a.sends, a.recv, i, b.queue, b.sends[i]);
                    self.lemma_waiting(i, value);
                    if let Some(put) = self.last_put() {
                        assert(values(self.puts()) =~= values(before.puts()).push(put.1));
                    }
                },
                Event::Finish(i) => {
                    assert(self.last_put() is None);
                    self.lemma_waiting(i, value);
                    if a.unsent(i) == Some(value) {
                        assert(before.waiting(value).contains(i));
                    }
                },
                _ => {
                    assert(self.last_put() is None);
                    assert(self.waiting(value) =~= before.waiting(value));
                },
            }
        } else {
            assert(self.end() == self.moments[0]);
            assert(values(self.puts()) =~= Seq::empty());
            assert(self.waiting(value) =~= Set::empty());
        }
    }

    /// How many senders have a value that is not in the queue changes with the one sender that
    /// the last event is about.
    proof fn lemma_waiting(self, i: int, value: M::Item)
        requires
            self.valid(),
            self.events.len() > 0,
            self.events.last() == Event::Start(i) || self.events.last() == Event::Send(i)
                || self.events.last() == Event::Finish(i),
        ensures
            self.waiting(value).len() == self.before().waiting(value).len() + (if self.end().unsent(
                i,
            ) == Some(value) {
                1int
            } else {
                0
            }) - if self.before().end().unsent(i) == Some(value) {
                1int
            } else {
                0
            },
            self.before().end().unsent(i) == Some(value) ==> self.before().waiting(value).len() > 0,
    {
        self.lemma_fits();
        self.before().lemma_fits();
        let a = self.before().waiting(value);
        let b = self.waiting(value);
        assert(a.remove(i) =~= b.remove(i));
        vstd::set_lib::lemma_len_subset(a, self.before().end().sends.dom());
        vstd::set_lib::lemma_len_subset(b, self.end().sends.dom());
        assert(a.contains(i) == (self.before().end().unsent(i) == Some(value)));
        assert(b.contains(i) == (self.end().unsent(i) == Some(value)));
        assert(a.len() == a.remove(i).len() + if a.contains(i) {
            1int
        } else {
            0
        });
        assert(b.len() == b.remove(i).len() + if b.contains(i) {
            1int
        } else {
            0
        });
    }

    /// Once all the sends have returned and the receiver has come back without a value, every
    /// value that was sent has been received, and no other, each as often as it was sent.
    pub proof fn lemma_drained(self)
        requires
            self.valid(),
            self.moments[0].queue.held().len() == 0,
            self.events.len() > 0,
            self.events.last() is Recv,
            self.end().sends == Map::<int, M::Send>::empty(),
            M::missed(self.end().recv),
            !M::missed(self.before().end().recv),
        ensures
            self.end().queue.held().len() == 0,
            self.received() == values(self.puts()),
            self.received().to_multiset() == self.offered(),
            forall|sender: int| #[trigger] self.given(sender) == of(self.puts(), sender),
    {
        broadcast use vstd::multiset::group_multiset_axioms;

        self.lemma_fits();
        self.before().lemma_fits();
        let a = self.before().end();
        let b = self.end();
        assert(a.sends.dom() =~= Set::empty());
        a.queue.lemma_recvs_on(a.sends, a.recv, b.queue, b.recv);
        self.lemma_order();
        assert(self.moments[0].queue.held() + values(self.puts()) =~= values(self.puts()));
        assert(self.received() + b.queue.held() =~= self.received());
        assert forall|value: M::Item| self.offered().count(value)
            == self.received().to_multiset().count(value) by {
            self.lemma_offered(value);
            assert(self.waiting(value) =~= Set::empty());
        }
        assert(self.received().to_multiset() =~= self.offered());
        assert forall|sender: int| #[trigger] self.given(sender) == of(self.puts(), sender) by {
            self.lemma_senders(sender);
        }
    }
}

/// The values without their senders.
pub open spec fn values<T>(puts: Seq<(int, T)>) -> Seq<T> {
    puts.map_values(|put: (int, T)| put.1)
}

/// The values of one sender.
pub open spec fn of<T>(puts: Seq<(int, T)>, sender: int) -> Seq<T>
    decreases puts.len(),
{
    if puts.len() == 0 {
        Seq::empty()
    } else if puts.last().0 == sender {
        of(puts.drop_last(), sender).push(puts.last().1)
    } else {
        of(puts.drop_last(), sender)
    }
}

/// One value more.
proof fn lemma_of_push<T>(puts: Seq<(int, T)>, put: (int, T), sender: int)
    ensures
        of(puts.push(put), sender) == if put.0 == sender {
            of(puts, sender).push(put.1)
        } else {
            of(puts, sender)
        },
{
    assert(puts.push(put).drop_last() =~= puts);
}

} // verus!
