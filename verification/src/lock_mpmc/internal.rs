//! The state of a channel and its operations.
use crate::arena::Arena;
use std::collections::VecDeque;
use vstd::prelude::*;

verus! {

/// What a waiter brings or gets.
pub enum Slot<T> {
    Empty,
    Value(T),
    Disconnected(Option<T>),
}

/// An operation that waits to be served. `stored` says that it was.
pub struct Waiter<T> {
    pub stored: bool,
    pub slot: Slot<T>,
}

/// The state of a channel.
pub struct Inner<T> {
    pub queue: VecDeque<T>,
    pub capacity: usize,
    pub senders: usize,
    pub receivers: usize,
    pub send_queue: VecDeque<usize>,
    pub recv_queue: VecDeque<usize>,
    pub waiters: Arena<Waiter<T>, 1>,
}

/// An operation that is finished, or waits under a ticket.
pub enum Progress<R> {
    Ready(R),
    Waiting(usize),
}

/// What became of an operation that waited.
pub ghost enum Outcome<T> {
    /// A receiver took the value.
    Sent,
    /// All the users at one end have gone; the value comes back.
    Refused(T),
    /// A sender handed over the value.
    Received(T),
    /// All the users at one end have gone.
    Closed,
}

/// A channel, as its users see it.
#[verifier::ext_equal]
pub ghost struct Channel<T> {
    /// The values in the buffer, the oldest first.
    pub queue: Seq<T>,
    pub capacity: nat,
    pub senders: nat,
    pub receivers: nat,
    /// The sends that wait, the oldest first, with their tickets.
    pub sending: Seq<(usize, T)>,
    /// The tickets of the receives that wait, the oldest first.
    pub receiving: Seq<usize>,
    /// What became of the operations that waited, by ticket.
    pub outcomes: Map<usize, Outcome<T>>,
}

impl<T> Channel<T> {
    /// An empty channel with one sender and one receiver.
    pub open spec fn start(capacity: Option<usize>) -> Self {
        Channel {
            queue: Seq::empty(),
            capacity: match capacity {
                Some(n) => n as nat,
                None => usize::MAX as nat,
            },
            senders: 1,
            receivers: 1,
            sending: Seq::empty(),
            receiving: Seq::empty(),
            outcomes: Map::empty(),
        }
    }

    /// The channel after a send, and its result if it does not wait: a receive that waits gets
    /// the value; without receivers it comes back; else it goes to the buffer if there is room.
    /// If not, it comes back, or waits under `ticket` if it may `block`.
    pub open spec fn send(self, value: T, block: bool, ticket: usize) -> (Self, Option<
        Result<(), Result<T, T>>,
    >) {
        if self.receiving.len() > 0 {
            (
                Channel {
                    receiving: self.receiving.skip(1),
                    outcomes: self.outcomes.insert(self.receiving[0], Outcome::Received(value)),
                    ..self
                },
                Some(Ok(())),
            )
        } else if self.receivers == 0 {
            (self, Some(Err(Err(value))))
        } else if self.queue.len() < self.capacity {
            (Channel { queue: self.queue.push(value), ..self }, Some(Ok(())))
        } else if !block {
            (self, Some(Err(Ok(value))))
        } else {
            (Channel { sending: self.sending.push((ticket, value)), ..self }, None)
        }
    }

    /// The channel after a receive, and its result if it does not wait: the value of a send that
    /// waits comes first, then the oldest value of the buffer. If there is neither, the receive
    /// fails, for good without senders; or it waits under `ticket` if it may `block`.
    pub open spec fn recv(self, block: bool, ticket: usize) -> (Self, Option<
        Result<T, Result<(), ()>>,
    >) {
        if self.sending.len() > 0 {
            (
                Channel {
                    sending: self.sending.skip(1),
                    outcomes: self.outcomes.insert(self.sending[0].0, Outcome::Sent),
                    ..self
                },
                Some(Ok(self.sending[0].1)),
            )
        } else if self.queue.len() > 0 {
            (Channel { queue: self.queue.skip(1), ..self }, Some(Ok(self.queue[0])))
        } else if self.senders == 0 {
            (self, Some(Err(Err(()))))
        } else if !block {
            (self, Some(Err(Ok(()))))
        } else {
            (Channel { receiving: self.receiving.push(ticket), ..self }, None)
        }
    }

    /// The channel after a user was added at one end.
    pub open spec fn join(self, sender: bool) -> Self {
        if sender {
            Channel { senders: self.senders + 1, ..self }
        } else {
            Channel { receivers: self.receivers + 1, ..self }
        }
    }

    /// What becomes of the operations that wait when the users at one end have gone.
    pub open spec fn refused(self) -> Map<usize, Outcome<T>> {
        Map::new(
            |id: usize|
                self.outcomes.contains_key(id) || self.receiving.contains(id)
                    || exists|k: int| 0 <= k < self.sending.len() && #[trigger] self.sending[k].0 == id,
            |id: usize|
                if self.receiving.contains(id) {
                    Outcome::Closed
                } else if exists|k: int|
                    0 <= k < self.sending.len() && #[trigger] self.sending[k].0 == id {
                    let k = choose|k: int|
                        0 <= k < self.sending.len() && #[trigger] self.sending[k].0 == id;
                    Outcome::Refused(self.sending[k].1)
                } else {
                    self.outcomes[id]
                },
        )
    }

    /// The channel after a user has gone at one end. When the last one has, everyone who waits
    /// is told.
    pub open spec fn part(self, sender: bool) -> Self {
        let left = if sender {
            Channel { senders: (self.senders - 1) as nat, ..self }
        } else {
            Channel { receivers: (self.receivers - 1) as nat, ..self }
        };
        if (sender && left.senders == 0) || (!sender && left.receivers == 0) {
            Channel {
                sending: Seq::empty(),
                receiving: Seq::empty(),
                outcomes: self.refused(),
                ..left
            }
        } else {
            left
        }
    }
}

/// Tickets, and what holds of every channel.
impl<T> Channel<T> {
    /// A send waits or waited under `ticket`.
    pub open spec fn sends(self, ticket: usize) -> bool {
        if self.outcomes.contains_key(ticket) {
            self.outcomes[ticket] is Sent || self.outcomes[ticket] is Refused
        } else {
            exists|k: int| 0 <= k < self.sending.len() && #[trigger] self.sending[k].0 == ticket
        }
    }

    /// A receive waits or waited under `ticket`.
    pub open spec fn receives(self, ticket: usize) -> bool {
        if self.outcomes.contains_key(ticket) {
            self.outcomes[ticket] is Received || self.outcomes[ticket] is Closed
        } else {
            self.receiving.contains(ticket)
        }
    }

    /// The channel after the answer under `ticket` was fetched.
    pub open spec fn redeem(self, ticket: usize) -> Self {
        Channel { outcomes: self.outcomes.remove(ticket), ..self }
    }

    /// Tickets differ, nobody waits for what is there, and nobody waits where one end has no
    /// users.
    pub open spec fn ok(self) -> bool {
        &&& self.queue.len() <= self.capacity
        &&& self.sending.len() > 0 ==> self.queue.len() == self.capacity && self.receivers > 0
        &&& self.receiving.len() > 0 ==> self.queue.len() == 0 && self.sending.len() == 0
            && self.senders > 0
        &&& forall|j: int, k: int|
            0 <= j < k < self.sending.len() ==> (#[trigger] self.sending[j]).0 != (
            #[trigger] self.sending[k]).0
        &&& forall|j: int, k: int|
            0 <= j < k < self.receiving.len() ==> #[trigger] self.receiving[j]
                != #[trigger] self.receiving[k]
        &&& forall|k: int|
            0 <= k < self.sending.len() ==> !self.outcomes.contains_key(
                (#[trigger] self.sending[k]).0,
            )
        &&& forall|k: int|
            0 <= k < self.receiving.len() ==> !self.outcomes.contains_key(
                #[trigger] self.receiving[k],
            )
    }

    /// The values in the channel: those in the buffer and those of the sends that wait.
    pub open spec fn stock(self) -> vstd::multiset::Multiset<T> {
        self.queue.to_multiset().add(
            self.sending.map_values(|entry: (usize, T)| entry.1).to_multiset(),
        )
    }

    /// A value is received once and not lost: while no receive waits, a send that is not refused
    /// adds its value to what the channel holds, and a receive that succeeds takes the value that
    /// it returns out of it.
    pub proof fn lemma_conserved(self, value: T, block: bool, ticket: usize)
        ensures
            ({
                let (after, done) = self.send(value, block, ticket);
                self.receiving.len() == 0 && !(done matches Some(Err(_))) ==> after.stock()
                    == self.stock().insert(value)
            }),
            ({
                let (after, done) = self.send(value, block, ticket);
                done matches Some(Err(_)) ==> after == self
            }),
            ({
                let (after, done) = self.recv(block, ticket);
                done matches Some(Ok(taken)) ==> self.stock() == after.stock().insert(taken)
            }),
            ({
                let (after, done) = self.recv(block, ticket);
                !(done matches Some(Ok(_))) ==> after.stock() == self.stock()
            }),
    {
        broadcast use vstd::seq_lib::group_to_multiset_ensures;
        broadcast use vstd::multiset::group_multiset_axioms;

        let take = |entry: (usize, T)| entry.1;
        let values = self.sending.map_values(take);
        let pushed = self.sending.push((ticket, value));
        assert(pushed.map_values(take) =~= values.push(value));
        assert(values.push(value).to_multiset() =~= values.to_multiset().insert(value));
        assert(self.queue.push(value).to_multiset() =~= self.queue.to_multiset().insert(value));
        let sent = self.send(value, block, ticket).0;
        if self.receiving.len() == 0 && self.receivers > 0 && self.queue.len() < self.capacity {
            assert(sent.stock() =~= self.stock().insert(value));
        } else if self.receiving.len() == 0 && self.receivers > 0 && block {
            assert(sent.stock() =~= self.stock().insert(value));
        }
        let received = self.recv(block, ticket).0;
        if self.sending.len() > 0 {
            let rest = self.sending.skip(1).map_values(take);
            assert(values =~= seq![values[0]] + rest);
            vstd::seq_lib::lemma_multiset_commutative(seq![values[0]], rest);
            assert(seq![values[0]] =~= Seq::<T>::empty().push(values[0]));
            assert(self.stock() =~= received.stock().insert(values[0]));
        } else if self.queue.len() > 0 {
            let rest = self.queue.skip(1);
            assert(self.queue =~= seq![self.queue[0]] + rest);
            vstd::seq_lib::lemma_multiset_commutative(seq![self.queue[0]], rest);
            assert(seq![self.queue[0]] =~= Seq::<T>::empty().push(self.queue[0]));
            assert(self.stock() =~= received.stock().insert(self.queue[0]));
        }
    }

    /// While nobody waits, values come out in the order in which they went in: a receive returns
    /// the oldest value, and a value that was sent comes out after those sent before it.
    pub proof fn lemma_order(self, value: T, block: bool, ticket: usize)
        requires
            self.ok(),
            self.sending.len() == 0,
            self.receiving.len() == 0,
            self.receivers > 0,
            self.queue.len() < self.capacity,
        ensures
            self.send(value, block, ticket).1 == Some(Ok::<(), Result<T, T>>(())),
            self.send(value, block, ticket).0.queue == self.queue.push(value),
            self.send(value, block, ticket).0.ok(),
            ({
                let (after, done) = self.send(value, block, ticket).0.recv(block, ticket);
                &&& done == Some(
                    Ok::<T, Result<(), ()>>(
                        if self.queue.len() > 0 {
                            self.queue[0]
                        } else {
                            value
                        },
                    ),
                )
                &&& after.queue == self.queue.push(value).skip(1)
            }),
    {
    }

    /// A value that is sent while a receive waits goes to the one that waits longest.
    pub proof fn lemma_handover(self, value: T, block: bool, ticket: usize)
        requires
            self.ok(),
            self.receiving.len() > 0,
        ensures
            self.send(value, block, ticket).1 == Some(Ok::<(), Result<T, T>>(())),
            self.send(value, block, ticket).0.outcomes[self.receiving[0]] == Outcome::Received(value),
            self.send(value, block, ticket).0.receives(self.receiving[0]),
    {
    }

    /// Without receivers every send fails and gives its value back.
    pub proof fn lemma_no_receivers(self, value: T, block: bool, ticket: usize)
        requires
            self.ok(),
            self.receivers == 0,
            self.receiving.len() == 0,
        ensures
            self.send(value, block, ticket) == (self, Some(Err::<(), Result<T, T>>(Err(value)))),
    {
    }

    /// Without senders a receive never waits: it empties the buffer first, and fails for good
    /// when the buffer is empty.
    pub proof fn lemma_no_senders(self, block: bool, ticket: usize)
        requires
            self.ok(),
            self.senders == 0,
            self.sending.len() == 0,
        ensures
            self.queue.len() > 0 ==> self.recv(block, ticket) == (
                Channel { queue: self.queue.skip(1), ..self },
                Some(Ok::<T, Result<(), ()>>(self.queue[0])),
            ),
            self.queue.len() == 0 ==> self.recv(block, ticket) == (
                self,
                Some(Err::<T, Result<(), ()>>(Err(()))),
            ),
    {
    }

    /// When the last user at one end has gone, nobody waits any more: each send that waited has
    /// its value back, each receive that waited failed, and the buffer is as it was.
    pub proof fn lemma_disconnected(self, sender: bool)
        requires
            self.ok(),
            sender ==> self.senders == 1,
            !sender ==> self.receivers == 1,
        ensures
            self.part(sender).ok(),
            self.part(sender).sending.len() == 0,
            self.part(sender).receiving.len() == 0,
            self.part(sender).queue == self.queue,
            forall|k: int|
                0 <= k < self.sending.len() ==> self.part(sender).outcomes.contains_key(
                    (#[trigger] self.sending[k]).0,
                ) && self.part(sender).outcomes[self.sending[k].0] == Outcome::Refused(
                    self.sending[k].1,
                ),
            forall|k: int|
                0 <= k < self.receiving.len() ==> self.part(sender).outcomes.contains_key(
                    #[trigger] self.receiving[k],
                ) && self.part(sender).outcomes[self.receiving[k]] == Outcome::<T>::Closed,
            forall|id: usize| #[trigger]
                self.outcomes.contains_key(id) ==> self.part(sender).outcomes.contains_key(id)
                    && self.part(sender).outcomes[id] == self.outcomes[id],
    {
        let told = self.refused();
        assert forall|k: int| 0 <= k < self.sending.len() implies told.contains_key(
            (#[trigger] self.sending[k]).0,
        ) && told[self.sending[k].0] == Outcome::Refused(self.sending[k].1) by {
            let id = self.sending[k].0;
            assert(self.receiving.len() == 0);
            let j = choose|j: int| 0 <= j < self.sending.len() && #[trigger] self.sending[j].0 == id;
            assert(j == k);
        }
        assert forall|id: usize| #[trigger] self.outcomes.contains_key(id) implies told.contains_key(id)
            && told[id] == self.outcomes[id] by {
            if self.receiving.contains(id) {
                let k = choose|k: int| 0 <= k < self.receiving.len() && self.receiving[k] == id;
                assert(false);
            }
        }
    }

    /// Whatever is done to a channel, nobody waits for what is there, and an operation that waits
    /// keeps its ticket until its answer is fetched.
    pub proof fn lemma_tickets(self, value: T, block: bool, ticket: usize, sender: bool, other: usize)
        requires
            self.ok(),
            !self.outcomes.contains_key(ticket),
            !self.receiving.contains(ticket),
            forall|k: int| 0 <= k < self.sending.len() ==> (#[trigger] self.sending[k]).0 != ticket,
            sender ==> self.senders > 0,
            !sender ==> self.receivers > 0,
        ensures
            self.send(value, block, ticket).0.ok(),
            self.recv(block, ticket).0.ok(),
            self.join(sender).ok(),
            self.part(sender).ok(),
            self.send(value, block, ticket).1 is None ==> self.send(value, block, ticket).0.sends(
                ticket,
            ),
            self.recv(block, ticket).1 is None ==> self.recv(block, ticket).0.receives(ticket),
            self.sends(other) ==> {
                &&& self.send(value, block, ticket).0.sends(other)
                &&& self.recv(block, ticket).0.sends(other)
                &&& self.join(sender).sends(other)
                &&& self.part(sender).sends(other)
                &&& ticket != other ==> self.redeem(ticket).sends(other)
            },
            self.receives(other) ==> {
                &&& self.send(value, block, ticket).0.receives(other)
                &&& self.recv(block, ticket).0.receives(other)
                &&& self.join(sender).receives(other)
                &&& self.part(sender).receives(other)
                &&& ticket != other ==> self.redeem(ticket).receives(other)
            },
    {
        if (sender && self.senders == 1) || (!sender && self.receivers == 1) {
            self.lemma_disconnected(sender);
        }
        let sent = self.send(value, block, ticket).0;
        let received = self.recv(block, ticket).0;
        if self.send(value, block, ticket).1 is None {
            assert(sent.sending[self.sending.len() as int].0 == ticket);
        }
        if self.recv(block, ticket).1 is None {
            assert(received.receiving[self.receiving.len() as int] == ticket);
        }
        if self.sends(other) && !self.outcomes.contains_key(other) {
            let k = choose|k: int|
                0 <= k < self.sending.len() && #[trigger] self.sending[k].0 == other;
            if sent.sending != self.sending {
                assert(sent.sending[k].0 == other);
            }
            if received.sending != self.sending && k > 0 {
                assert(received.sending[k - 1].0 == other);
                assert(self.sending[0].0 != other);
            }
            assert(self.join(sender).sending[k].0 == other);
            assert(self.redeem(ticket).sending[k].0 == other);
            if self.part(sender).sending == self.sending {
                assert(self.part(sender).sending[k].0 == other);
            }
        }
        if self.receives(other) && !self.outcomes.contains_key(other) {
            let k = choose|k: int| 0 <= k < self.receiving.len() && self.receiving[k] == other;
            if received.receiving != self.receiving {
                assert(received.receiving[k] == other);
            }
            if sent.receiving != self.receiving && k > 0 {
                assert(sent.receiving[k - 1] == other);
                assert(self.receiving[0] != other);
            }
        }
    }
}

/// Something that is done to a channel, through any of its handles.
pub ghost enum Act<T> {
    Send { value: T, block: bool, ticket: usize },
    Recv { block: bool, ticket: usize },
    Join { sender: bool },
    Part { sender: bool },
    Redeem { ticket: usize },
}

/// What holds over any sequence of acts, by any number of clones of the two ends.
impl<T> Channel<T> {
    /// No operation waits or waited under the ticket.
    pub open spec fn unused(self, ticket: usize) -> bool {
        &&& !self.outcomes.contains_key(ticket)
        &&& !self.receiving.contains(ticket)
        &&& forall|k: int| 0 <= k < self.sending.len() ==> (#[trigger] self.sending[k]).0 != ticket
    }

    /// The act is possible: there is a handle for it, and an operation that may wait brings an
    /// unused ticket.
    pub open spec fn allows(self, act: Act<T>) -> bool {
        match act {
            Act::Send { value, block, ticket } => self.senders > 0 && self.unused(ticket),
            Act::Recv { block, ticket } => self.receivers > 0 && self.unused(ticket),
            Act::Join { sender } | Act::Part { sender } => if sender {
                self.senders > 0
            } else {
                self.receivers > 0
            },
            Act::Redeem { ticket } => true,
        }
    }

    /// The channel after the act.
    pub open spec fn act(self, act: Act<T>) -> Self {
        match act {
            Act::Send { value, block, ticket } => self.send(value, block, ticket).0,
            Act::Recv { block, ticket } => self.recv(block, ticket).0,
            Act::Join { sender } => self.join(sender),
            Act::Part { sender } => self.part(sender),
            Act::Redeem { ticket } => self.redeem(ticket),
        }
    }

    /// The channel after the acts.
    pub open spec fn after(self, acts: Seq<Act<T>>) -> Self
        decreases acts.len(),
    {
        if acts.len() == 0 {
            self
        } else {
            self.after(acts.drop_last()).act(acts.last())
        }
    }

    /// Each of the acts is possible when it is done.
    pub open spec fn allowed(self, acts: Seq<Act<T>>) -> bool
        decreases acts.len(),
    {
        acts.len() > 0 ==> self.allowed(acts.drop_last()) && self.after(acts.drop_last()).allows(
            acts.last(),
        )
    }

    /// The values in the channel in the order in which they come out: those in the buffer, and
    /// then those of the sends that wait.
    pub open spec fn line(self) -> Seq<T> {
        self.queue + self.sending.map_values(|entry: (usize, T)| entry.1)
    }

    /// The act is a receive that takes the value of a send that waits, though older ones are in
    /// the buffer.
    pub open spec fn overtakes(self, act: Act<T>) -> bool {
        act is Recv && self.sending.len() > 0 && self.queue.len() > 0
    }

    /// None of the acts does that.
    pub open spec fn orderly(self, acts: Seq<Act<T>>) -> bool
        decreases acts.len(),
    {
        acts.len() > 0 ==> self.orderly(acts.drop_last()) && !self.after(
            acts.drop_last(),
        ).overtakes(acts.last())
    }

    /// The act takes away the last user at one end.
    pub open spec fn ends(self, act: Act<T>) -> bool {
        act matches Act::Part { sender } && (if sender {
            self.senders == 1
        } else {
            self.receivers == 1
        })
    }

    /// The values that were sent, in that order, without those that came back.
    pub open spec fn sent(self, acts: Seq<Act<T>>) -> Seq<T>
        decreases acts.len(),
    {
        if acts.len() == 0 {
            Seq::empty()
        } else {
            let before = self.after(acts.drop_last());
            let sent = self.sent(acts.drop_last());
            if before.ends(acts.last()) {
                sent.take(sent.len() - before.sending.len())
            } else {
                match acts.last() {
                    Act::Send { value, block, ticket } => if before.send(
                        value,
                        block,
                        ticket,
                    ).1 matches Some(Err(_)) {
                        sent
                    } else {
                        sent.push(value)
                    },
                    _ => sent,
                }
            }
        }
    }

    /// The values that receives have got, in that order, also those for which a receive waited.
    pub open spec fn received(self, acts: Seq<Act<T>>) -> Seq<T>
        decreases acts.len(),
    {
        if acts.len() == 0 {
            Seq::empty()
        } else {
            let before = self.after(acts.drop_last());
            let received = self.received(acts.drop_last());
            match acts.last() {
                Act::Send { value, block, ticket } => if before.receiving.len() > 0 {
                    received.push(value)
                } else {
                    received
                },
                Act::Recv { block, ticket } => match before.recv(block, ticket).1 {
                    Some(Ok(value)) => received.push(value),
                    _ => received,
                },
                _ => received,
            }
        }
    }

    /// Whatever is done to a channel, tickets differ and nobody waits for what is there.
    pub proof fn lemma_acts_ok(self, acts: Seq<Act<T>>)
        requires
            self.ok(),
            self.allowed(acts),
        ensures
            self.after(acts).ok(),
        decreases acts.len(),
    {
        if acts.len() > 0 {
            self.lemma_acts_ok(acts.drop_last());
            let before = self.after(acts.drop_last());
            before.lemma_act_ok(acts.last());
        }
    }

    /// The same for one act.
    proof fn lemma_act_ok(self, act: Act<T>)
        requires
            self.ok(),
            self.allows(act),
        ensures
            self.act(act).ok(),
    {
        match act {
            Act::Send { value, block, ticket } => {
                self.lemma_tickets(value, block, ticket, true, ticket);
            },
            Act::Recv { block, ticket } => {
                let after = self.recv(block, ticket).0;
                if self.sending.len() > 0 {
                    assert forall|k: int| 0 <= k < after.sending.len() implies #[trigger] after.sending[k]
                        == self.sending[k + 1] by {}
                    assert(self.sending[0].0 != after.sending[0].0 || after.sending.len() == 0);
                }
            },
            Act::Join { sender } => {},
            Act::Part { sender } => {
                if self.ends(act) {
                    self.lemma_disconnected(sender);
                }
            },
            Act::Redeem { ticket } => {},
        }
    }

    /// A receive that may wait does what one that may not does, unless that fails because there
    /// is nothing; then it waits.
    pub proof fn lemma_recv_alike(self, ticket: usize)
        ensures
            if self.recv(false, ticket).1 matches Some(Err(Ok(_))) {
                &&& self.recv(true, ticket).1 is None
                &&& self.recv(true, ticket).0 == (Channel {
                    receiving: self.receiving.push(ticket),
                    ..self
                })
            } else {
                self.recv(true, ticket) == self.recv(false, ticket)
            },
    {
    }

    /// A send that may wait does what one that may not does, unless that fails because there is
    /// no room; then it waits.
    pub proof fn lemma_send_alike(self, value: T, ticket: usize)
        ensures
            if self.send(value, false, ticket).1 matches Some(Err(Ok(_))) {
                &&& self.send(value, true, ticket).1 is None
                &&& self.send(value, true, ticket).0 == (Channel {
                    sending: self.sending.push((ticket, value)),
                    ..self
                })
            } else {
                self.send(value, true, ticket) == self.send(value, false, ticket)
            },
    {
    }

    /// The acts that send the values one after the other.
    pub open spec fn sends_of(values: Seq<T>, block: bool, tickets: Seq<usize>) -> Seq<Act<T>> {
        Seq::new(
            values.len(),
            |k: int| Act::Send { value: values[k], block, ticket: tickets[k] },
        )
    }

    /// As long as there is a receiver and room in the buffer, any number of sends succeed, and
    /// none of them waits. A channel without a limit has room for as many values as a machine
    /// word can count.
    pub proof fn lemma_all_sent(self, values: Seq<T>, block: bool, tickets: Seq<usize>, k: int)
        requires
            self.ok(),
            self.receivers > 0,
            self.queue.len() + values.len() <= self.capacity,
            0 <= k < values.len(),
            tickets.len() == values.len(),
        ensures
            self.after(Self::sends_of(values, block, tickets).take(k)).send(
                values[k],
                block,
                tickets[k],
            ).1 matches Some(Ok(_)),
            self.receiving.len() == 0 ==> self.after(
                Self::sends_of(values, block, tickets).take(k),
            ).queue == self.queue + values.take(k),
    {
        self.lemma_filled(values, block, tickets, k);
    }

    /// What the channel is after the first sends.
    proof fn lemma_filled(self, values: Seq<T>, block: bool, tickets: Seq<usize>, k: int)
        requires
            self.ok(),
            self.receivers > 0,
            self.queue.len() + values.len() <= self.capacity,
            0 <= k <= values.len(),
            tickets.len() == values.len(),
        ensures
            ({
                let after = self.after(Self::sends_of(values, block, tickets).take(k));
                &&& after.receivers == self.receivers
                &&& after.capacity == self.capacity
                &&& after.queue.len() <= self.queue.len() + k
                &&& self.receiving.len() == 0 ==> after.receiving.len() == 0 && after.queue
                    == self.queue + values.take(k)
            }),
        decreases k,
    {
        let acts = Self::sends_of(values, block, tickets);
        if k > 0 {
            self.lemma_filled(values, block, tickets, k - 1);
            assert(acts.take(k).drop_last() =~= acts.take(k - 1));
            assert(acts.take(k).last() == acts[k - 1]);
            assert(self.queue + values.take(k) =~= (self.queue + values.take(k - 1)).push(
                values[k - 1],
            ));
        } else {
            assert(self.queue + values.take(0) =~= self.queue);
        }
    }

    /// Once the last user at one end has gone, every operation at the other end says so, whether
    /// or not it may wait, whatever else is done: a send gives its value back for good, and a
    /// receive fails for good once the buffer is empty. None of them waits.
    pub proof fn lemma_gone(self, sender: bool, acts: Seq<Act<T>>, value: T, block: bool, ticket: usize)
        requires
            self.ok(),
            self.ends(Act::Part { sender }),
            self.part(sender).allowed(acts),
        ensures
            ({
                let c = self.part(sender).after(acts);
                if sender {
                    &&& c.senders == 0
                    &&& if c.queue.len() > 0 {
                        c.recv(block, ticket) == (
                            Channel { queue: c.queue.skip(1), ..c },
                            Some(Ok::<T, Result<(), ()>>(c.queue[0])),
                        )
                    } else {
                        c.recv(block, ticket).0 == c && c.recv(block, ticket).1 matches Some(
                            Err(Err(_)),
                        )
                    }
                } else {
                    &&& c.receivers == 0
                    &&& c.send(value, block, ticket) == (
                        c,
                        Some(Err::<(), Result<T, T>>(Err(value))),
                    )
                }
            }),
    {
        self.lemma_disconnected(sender);
        self.part(sender).lemma_stays_gone(sender, acts);
    }

    /// An end that has no users gets none, and nobody waits for it.
    proof fn lemma_stays_gone(self, sender: bool, acts: Seq<Act<T>>)
        requires
            self.ok(),
            self.allowed(acts),
            sender ==> self.senders == 0 && self.sending.len() == 0,
            !sender ==> self.receivers == 0 && self.receiving.len() == 0,
        ensures
            sender ==> self.after(acts).senders == 0 && self.after(acts).sending.len() == 0,
            !sender ==> self.after(acts).receivers == 0 && self.after(acts).receiving.len() == 0,
        decreases acts.len(),
    {
        if acts.len() > 0 {
            self.lemma_stays_gone(sender, acts.drop_last());
        }
    }

    /// The values come out in the order in which they went in, each of them once, whichever
    /// clones of the two ends send and receive them: what was in the channel and what was sent
    /// since is what was received, followed by what is still in the channel. Left out are the
    /// receives that take the value of a send that waits before the older ones of the buffer.
    pub proof fn lemma_fifo(self, acts: Seq<Act<T>>)
        requires
            self.ok(),
            self.sending.len() == 0,
            self.allowed(acts),
            self.orderly(acts),
        ensures
            self.line() + self.sent(acts) == self.received(acts) + self.after(acts).line(),
            self.after(acts).sending.len() <= self.sent(acts).len(),
        decreases acts.len(),
    {
        let take = |entry: (usize, T)| entry.1;
        if acts.len() == 0 {
            assert(self.line() + self.sent(acts) =~= self.received(acts) + self.after(acts).line());
        } else {
            self.lemma_fifo(acts.drop_last());
            self.lemma_acts_ok(acts.drop_last());
            let a = self.after(acts.drop_last());
            let b = self.after(acts);
            let sent = self.sent(acts.drop_last());
            let received = self.received(acts.drop_last());
            assert(self.line() + sent == received + a.line());
            match acts.last() {
                Act::Send { value, block, ticket } => {
                    if a.receiving.len() > 0 {
                        assert(a.line() =~= Seq::empty());
                        assert(b.line() =~= Seq::empty());
                        assert(self.line() + self.sent(acts) =~= (self.line() + sent).push(value));
                        assert(self.received(acts) + b.line() =~= (received + a.line()).push(value));
                    } else if a.receivers == 0 {
                    } else if a.queue.len() < a.capacity {
                        assert(a.sending.len() == 0);
                        assert(b.line() =~= a.line().push(value));
                        assert(self.line() + self.sent(acts) =~= (self.line() + sent).push(value));
                        assert(self.received(acts) + b.line() =~= (received + a.line()).push(value));
                    } else if block {
                        assert(b.sending.map_values(take) =~= a.sending.map_values(take).push(value));
                        assert(b.line() =~= a.line().push(value));
                        assert(self.line() + self.sent(acts) =~= (self.line() + sent).push(value));
                        assert(self.received(acts) + b.line() =~= (received + a.line()).push(value));
                    }
                },
                Act::Recv { block, ticket } => {
                    if a.sending.len() > 0 {
                        assert(b.sending.map_values(take) =~= a.sending.map_values(take).skip(1));
                        assert(a.line() =~= seq![a.sending[0].1] + b.line());
                        assert(self.received(acts) + b.line() =~= received + a.line());
                    } else if a.queue.len() > 0 {
                        assert(a.line() =~= seq![a.queue[0]] + b.line());
                        assert(self.received(acts) + b.line() =~= received + a.line());
                    }
                },
                Act::Join { sender } => {},
                Act::Part { sender } => {
                    if a.ends(acts.last()) {
                        assert(b.line() =~= a.queue);
                        let n = sent.len() - a.sending.len();
                        assert(self.line() + sent.take(n) =~= (self.line() + sent).take(
                            self.line().len() + n,
                        ));
                        assert(received + a.queue =~= (received + a.line()).take(
                            (received.len() + a.queue.len()) as int,
                        ));
                        assert((self.line() + sent).len() == (received + a.line()).len());
                    }
                },
                Act::Redeem { ticket } => {},
            }
        }
    }
}

/// How many users the acts have added at one end.
pub open spec fn joins<T>(acts: Seq<Act<T>>, sender: bool) -> nat
    decreases acts.len(),
{
    if acts.len() == 0 {
        0
    } else {
        joins(acts.drop_last(), sender) + if acts.last() == (Act::<T>::Join { sender }) {
            1nat
        } else {
            0
        }
    }
}

/// How many users the acts have taken away at one end.
pub open spec fn parts<T>(acts: Seq<Act<T>>, sender: bool) -> nat
    decreases acts.len(),
{
    if acts.len() == 0 {
        0
    } else {
        parts(acts.drop_last(), sender) + if acts.last() == (Act::<T>::Part { sender }) {
            1nat
        } else {
            0
        }
    }
}

/// Who is counted, what a channel has room for, and what each operation answers.
impl<T> Channel<T> {
    /// A channel without a limit has room for as many values as a machine word can count, one
    /// with a limit for that many; it begins with one user at each end, and nobody waits.
    pub proof fn lemma_new(limit: usize)
        ensures
            Self::start(None).capacity == usize::MAX,
            Self::start(Some(limit)).capacity == limit,
            forall|capacity: Option<usize>|
                {
                    &&& (#[trigger] Self::start(capacity)).ok()
                    &&& Self::start(capacity).queue.len() == 0
                    &&& Self::start(capacity).senders == 1
                    &&& Self::start(capacity).receivers == 1
                    &&& Self::start(capacity).sending.len() == 0
                    &&& Self::start(capacity).receiving.len() == 0
                    &&& Self::start(capacity).outcomes.dom() == Set::<usize>::empty()
                },
    {
        assert forall|capacity: Option<usize>| (#[trigger] Self::start(capacity)).outcomes.dom()
            == Set::<usize>::empty() by {
            assert(Self::start(capacity).outcomes.dom() =~= Set::<usize>::empty());
        }
    }

    /// No act changes what a channel has room for, and the users at each end are those that were
    /// there, with those that were added and without those that were taken away.
    pub proof fn lemma_users(self, acts: Seq<Act<T>>)
        requires
            self.allowed(acts),
        ensures
            self.after(acts).capacity == self.capacity,
            self.after(acts).senders == self.senders + joins(acts, true) - parts(acts, true),
            self.after(acts).receivers == self.receivers + joins(acts, false) - parts(acts, false),
        decreases acts.len(),
    {
        if acts.len() > 0 {
            self.lemma_users(acts.drop_last());
        }
    }

    /// Adding a user changes nothing but the count of the users at its end, and so does taking
    /// one away that is not the last.
    pub proof fn lemma_counted(self, sender: bool)
        requires
            sender ==> self.senders > 0,
            !sender ==> self.receivers > 0,
        ensures
            ({
                let after = self.join(sender);
                &&& after.senders == self.senders + if sender {
                    1int
                } else {
                    0
                }
                &&& after.receivers == self.receivers + if sender {
                    0int
                } else {
                    1
                }
                &&& self.same_but_users(after)
            }),
            ({
                let after = self.part(sender);
                &&& after.senders == self.senders - if sender {
                    1int
                } else {
                    0
                }
                &&& after.receivers == self.receivers - if sender {
                    0int
                } else {
                    1
                }
                &&& after.queue == self.queue
                &&& after.capacity == self.capacity
                &&& !self.ends(Act::Part { sender }) ==> self.same_but_users(after)
            }),
            self.join(sender).part(sender) == self,
    {
        assert(self.join(sender).part(sender) =~= self);
    }

    /// Only the users differ.
    pub open spec fn same_but_users(self, post: Self) -> bool {
        &&& post.queue == self.queue
        &&& post.capacity == self.capacity
        &&& post.sending == self.sending
        &&& post.receiving == self.receiving
        &&& post.outcomes == self.outcomes
    }

    /// A new channel has its users until each of them has gone: as long as fewer have gone at an
    /// end than there were, no operation at the other end says that none is left.
    pub proof fn lemma_until_gone(
        capacity: Option<usize>,
        acts: Seq<Act<T>>,
        value: T,
        block: bool,
        ticket: usize,
    )
        requires
            Self::start(capacity).allowed(acts),
        ensures
            parts(acts, true) <= 1 + joins(acts, true),
            parts(acts, false) <= 1 + joins(acts, false),
            ({
                let c = Self::start(capacity).after(acts);
                &&& parts(acts, true) < 1 + joins(acts, true) ==> !(c.recv(block, ticket).1
                    matches Some(Err(Err(_))))
                &&& parts(acts, false) < 1 + joins(acts, false) ==> !(c.send(
                    value,
                    block,
                    ticket,
                ).1 matches Some(Err(Err(_))))
            }),
    {
        Self::start(capacity).lemma_users(acts);
    }

    /// A send on a new channel without a limit never waits and is never refused for want of room,
    /// whatever was done to the channel before, as long as it holds fewer values than a machine
    /// word can count. One on a channel with a limit is, if and only if it holds that many and
    /// nobody waits for a value.
    pub proof fn lemma_limit(
        capacity: Option<usize>,
        acts: Seq<Act<T>>,
        value: T,
        block: bool,
        ticket: usize,
    )
        requires
            Self::start(capacity).allowed(acts),
        ensures
            ({
                let c = Self::start(capacity).after(acts);
                let sent = c.send(value, block, ticket).1;
                let most = match capacity {
                    Some(n) => n as int,
                    None => usize::MAX as int,
                };
                &&& c.queue.len() <= most
                &&& c.receivers > 0 && c.queue.len() < most ==> sent == Some(
                    Ok::<(), Result<T, T>>(()),
                )
                &&& (sent is None || (sent matches Some(Err(Ok(_))))) <==> c.receivers > 0
                    && c.queue.len() == most && c.receiving.len() == 0
            }),
    {
        Self::start(capacity).lemma_users(acts);
        Self::start(capacity).lemma_acts_ok(acts);
    }

    /// What a send answers, and where its value is then: a receive that waits gets it, the one
    /// that waits longest; or it is the last value of the buffer, or of the sends that wait; or
    /// it comes back. Nothing else in the channel is different.
    pub proof fn lemma_sent(self, value: T, block: bool, ticket: usize)
        requires
            self.ok(),
        ensures
            ({
                let (after, sent) = self.send(value, block, ticket);
                &&& after.capacity == self.capacity
                &&& after.senders == self.senders
                &&& after.receivers == self.receivers
                &&& match sent {
                    Some(Ok(())) => if self.receiving.len() > 0 {
                        &&& after.receiving == self.receiving.skip(1)
                        &&& after.outcomes.contains_key(self.receiving[0])
                        &&& after.outcomes[self.receiving[0]] == Outcome::Received(value)
                        &&& after.outcomes.remove(self.receiving[0]) == self.outcomes
                        &&& after.queue == self.queue
                        &&& after.sending == self.sending
                    } else {
                        &&& self.receivers > 0
                        &&& self.queue.len() < self.capacity
                        &&& after.queue == self.queue.push(value)
                        &&& after.sending == self.sending
                        &&& after.receiving == self.receiving
                        &&& after.outcomes == self.outcomes
                    },
                    Some(Err(Err(back))) => back == value && after == self
                        && self.receivers == 0,
                    Some(Err(Ok(back))) => back == value && after == self && self.receivers > 0
                        && self.queue.len() == self.capacity && !block,
                    None => {
                        &&& block
                        &&& self.receivers > 0
                        &&& self.queue.len() == self.capacity
                        &&& after.sending == self.sending.push((ticket, value))
                        &&& after.queue == self.queue
                        &&& after.receiving == self.receiving
                        &&& after.outcomes == self.outcomes
                    },
                }
                &&& self.receiving.len() > 0 ==> (sent matches Some(Ok(_)))
            }),
    {
        let after = self.send(value, block, ticket).0;
        if self.receiving.len() > 0 {
            assert(!self.outcomes.contains_key(self.receiving[0]));
            assert(after.outcomes.remove(self.receiving[0]) =~= self.outcomes);
        }
    }

    /// What a receive answers: the value of the send that waits longest if any waits, and else the
    /// oldest value of the buffer. It fails or waits only if there is neither. Nothing else in the
    /// channel is different.
    pub proof fn lemma_received(self, block: bool, ticket: usize)
        requires
            self.ok(),
        ensures
            ({
                let (after, received) = self.recv(block, ticket);
                &&& after.capacity == self.capacity
                &&& after.senders == self.senders
                &&& after.receivers == self.receivers
                &&& match received {
                    Some(Ok(value)) => if self.sending.len() > 0 {
                        &&& value == self.sending[0].1
                        &&& after.sending == self.sending.skip(1)
                        &&& after.outcomes.contains_key(self.sending[0].0)
                        &&& after.outcomes[self.sending[0].0] == Outcome::<T>::Sent
                        &&& after.outcomes.remove(self.sending[0].0) == self.outcomes
                        &&& after.queue == self.queue
                        &&& after.receiving == self.receiving
                    } else {
                        &&& self.queue.len() > 0
                        &&& value == self.queue[0]
                        &&& after.queue == self.queue.skip(1)
                        &&& after.sending == self.sending
                        &&& after.receiving == self.receiving
                        &&& after.outcomes == self.outcomes
                    },
                    Some(Err(Err(_))) => after == self && self.senders == 0,
                    Some(Err(Ok(_))) => after == self && self.senders > 0 && !block,
                    None => {
                        &&& block
                        &&& self.senders > 0
                        &&& after.receiving == self.receiving.push(ticket)
                        &&& after.queue == self.queue
                        &&& after.sending == self.sending
                        &&& after.outcomes == self.outcomes
                    },
                }
                &&& self.queue.len() > 0 || self.sending.len() > 0 ==> (received matches Some(
                    Ok(_),
                ))
            }),
    {
        let after = self.recv(block, ticket).0;
        if self.sending.len() > 0 {
            assert(!self.outcomes.contains_key(self.sending[0].0));
            assert(after.outcomes.remove(self.sending[0].0) =~= self.outcomes);
        }
    }

    /// An operation that waits has no answer until it is served, whatever the others do, and the
    /// answer that it then has stays until it is fetched. Fetching one touches nothing else.
    pub proof fn lemma_answer_stays(self, act: Act<T>, ticket: usize)
        requires
            self.ok(),
            self.allows(act),
            self.outcomes.contains_key(ticket),
        ensures
            act != (Act::<T>::Redeem { ticket }) ==> self.act(act).outcomes.contains_key(ticket)
                && self.act(act).outcomes[ticket] == self.outcomes[ticket],
            self.redeem(ticket).outcomes == self.outcomes.remove(ticket),
            self.redeem(ticket).queue == self.queue,
            self.redeem(ticket).capacity == self.capacity,
            self.redeem(ticket).senders == self.senders,
            self.redeem(ticket).receivers == self.receivers,
            self.redeem(ticket).sending == self.sending,
            self.redeem(ticket).receiving == self.receiving,
    {
        match act {
            Act::Part { sender } => {
                if self.ends(act) {
                    self.lemma_disconnected(sender);
                }
            },
            _ => {},
        }
    }
}

impl<T> Waiter<T> {
    /// What became of the waiter, once it was served.
    pub open spec fn outcome(self) -> Outcome<T> {
        match self.slot {
            Slot::Empty => Outcome::Sent,
            Slot::Value(value) => Outcome::Received(value),
            Slot::Disconnected(Some(value)) => Outcome::Refused(value),
            Slot::Disconnected(None) => Outcome::Closed,
        }
    }
}

impl<T> View for Inner<T> {
    type V = Channel<T>;

    open spec fn view(&self) -> Channel<T> {
        Channel {
            queue: self.queue@,
            capacity: self.capacity as nat,
            senders: self.senders as nat,
            receivers: self.receivers as nat,
            sending: Seq::new(
                self.send_queue@.len(),
                |k: int|
                    (
                        self.send_queue@[k],
                        self.waiters@[self.send_queue@[k]].slot->Value_0,
                    ),
            ),
            receiving: self.recv_queue@,
            outcomes: Map::new(
                |id: usize| self.waiters@.contains_key(id) && self.waiters@[id].stored,
                |id: usize| self.waiters@[id].outcome(),
            ),
        }
    }
}

impl<T> Inner<T> {
    /// Waiters that are queued were not served yet, each is queued once, sends bring a value,
    /// and nobody waits for what is there.
    pub open spec fn wf(self) -> bool {
        &&& self.waiters.wf()
        &&& self.queue@.len() <= self.capacity
        &&& forall|k: int|
            0 <= k < self.send_queue@.len() ==> {
                &&& self.waiters@.contains_key(#[trigger] self.send_queue@[k])
                &&& !self.waiters@[self.send_queue@[k]].stored
                &&& self.waiters@[self.send_queue@[k]].slot is Value
            }
        &&& forall|k: int|
            0 <= k < self.recv_queue@.len() ==> {
                &&& self.waiters@.contains_key(#[trigger] self.recv_queue@[k])
                &&& !self.waiters@[self.recv_queue@[k]].stored
                &&& self.waiters@[self.recv_queue@[k]].slot is Empty
            }
        &&& forall|j: int, k: int|
            0 <= j < k < self.send_queue@.len() ==> #[trigger] self.send_queue@[j]
                != #[trigger] self.send_queue@[k]
        &&& forall|j: int, k: int|
            0 <= j < k < self.recv_queue@.len() ==> #[trigger] self.recv_queue@[j]
                != #[trigger] self.recv_queue@[k]
        &&& self.send_queue@.len() > 0 ==> self.queue@.len() == self.capacity && self.receivers > 0
        &&& self.recv_queue@.len() > 0 ==> self.queue@.len() == 0 && self.send_queue@.len() == 0
            && self.senders > 0
    }

    /// Another waiter still has a ticket.
    pub open spec fn has_room(self) -> bool {
        self.waiters.has_room()
    }
}

/// A channel with room for `capacity` values, or for as many as there may be, one sender and one
/// receiver.
pub fn channel<T>(capacity: Option<usize>) -> (chan: Inner<T>)
    ensures
        chan.wf(),
        chan.has_room(),
        chan.waiters.room() == usize::MAX - 1,
        chan@ == Channel::<T>::start(capacity),
        chan.capacity == match capacity {
            Some(n) => n,
            None => usize::MAX,
        },
        chan.queue@.len() == 0,
        chan.senders == 1,
        chan.receivers == 1,
        chan.send_queue@.len() == 0,
        chan.recv_queue@.len() == 0,
{
    let (reserved, capacity): (usize, usize) = match capacity {
        Some(n) => (if n < 2048 { n } else { 2048 }, n),
        None => (2048, usize::MAX),
    };
    let chan = Inner {
        queue: VecDeque::with_capacity(reserved),
        capacity,
        senders: 1,
        receivers: 1,
        send_queue: VecDeque::new(),
        recv_queue: VecDeque::new(),
        waiters: Arena::new(),
    };
    assert(chan@ =~= Channel::<T>::start(Some(capacity)));
    chan
}

/// Adds a user at one end.
pub fn clone<T>(chan: &mut Inner<T>, sender: bool)
    requires
        old(chan).wf(),
        sender ==> 0 < old(chan).senders < usize::MAX,
        !sender ==> 0 < old(chan).receivers < usize::MAX,
    ensures
        final(chan).wf(),
        final(chan).waiters.room() == old(chan).waiters.room(),
        final(chan)@ == old(chan)@.join(sender),
        final(chan).senders == old(chan).senders + if sender {
            1int
        } else {
            0
        },
        final(chan).receivers == old(chan).receivers + if sender {
            0int
        } else {
            1
        },
        final(chan).queue == old(chan).queue,
        final(chan).capacity == old(chan).capacity,
        final(chan).send_queue == old(chan).send_queue,
        final(chan).recv_queue == old(chan).recv_queue,
        final(chan).waiters == old(chan).waiters,
{
    if sender {
        chan.senders = chan.senders + 1;
    } else {
        chan.receivers = chan.receivers + 1;
    }
    assert(chan@ =~= old(chan)@.join(sender));
}

/// What is in two sequences taken together.
proof fn lemma_all(sends: Seq<usize>, recvs: Seq<usize>, id: usize)
    ensures
        (sends + recvs).contains(id) <==> sends.contains(id) || recvs.contains(id),
{
    let all = sends + recvs;
    if sends.contains(id) {
        let k = choose|k: int| 0 <= k < sends.len() && sends[k] == id;
        assert(all[k] == id);
    }
    if recvs.contains(id) {
        let k = choose|k: int| 0 <= k < recvs.len() && recvs[k] == id;
        assert(all[sends.len() + k] == id);
    }
}

/// Takes a user away at one end. When none is left there, everyone who waits is told.
pub fn disconnect<T>(chan: &mut Inner<T>, sender: bool)
    requires
        old(chan).wf(),
        sender ==> 0 < old(chan).senders,
        !sender ==> 0 < old(chan).receivers,
    ensures
        final(chan).wf(),
        final(chan).waiters.room() == old(chan).waiters.room(),
        final(chan)@ == old(chan)@.part(sender),
        final(chan).senders == old(chan).senders - if sender {
            1int
        } else {
            0
        },
        final(chan).receivers == old(chan).receivers - if sender {
            0int
        } else {
            1
        },
        final(chan).queue == old(chan).queue,
        final(chan).capacity == old(chan).capacity,
        (sender && old(chan).senders > 1) || (!sender && old(chan).receivers > 1) ==> {
            &&& final(chan).send_queue == old(chan).send_queue
            &&& final(chan).recv_queue == old(chan).recv_queue
            &&& final(chan).waiters == old(chan).waiters
        },
        (sender && old(chan).senders == 1) || (!sender && old(chan).receivers == 1) ==> {
            &&& final(chan).send_queue@.len() == 0
            &&& final(chan).recv_queue@.len() == 0
        },
{
    let disconnected: bool = if sender {
        chan.senders = chan.senders - 1;
        chan.senders == 0
    } else {
        chan.receivers = chan.receivers - 1;
        chan.receivers == 0
    };
    if !disconnected {
        assert(chan@ =~= old(chan)@.part(sender));
        return;
    }
    let ghost sends = chan.send_queue@;
    let ghost recvs = chan.recv_queue@;
    let ghost before = chan.waiters@;
    let mut queued: VecDeque<usize> = VecDeque::new();
    queued.append(&mut chan.send_queue);
    queued.append(&mut chan.recv_queue);
    let ghost all = sends + recvs;
    assert(queued@ =~= all);
    let mut told: usize = 0;
    while told < queued.len()
        invariant
            told <= queued@.len(),
            queued@ == all,
            all == sends + recvs,
            chan.waiters.wf(),
            chan.waiters.room() == old(chan).waiters.room(),
            chan.queue == old(chan).queue,
            chan.capacity == old(chan).capacity,
            sender ==> chan.senders == 0 && chan.receivers == old(chan).receivers,
            !sender ==> chan.receivers == 0 && chan.senders == old(chan).senders,
            chan.send_queue@.len() == 0,
            chan.recv_queue@.len() == 0,
            before == old(chan).waiters@,
            sends == old(chan).send_queue@,
            recvs == old(chan).recv_queue@,
            old(chan).wf(),
            forall|id: usize| #[trigger]
                chan.waiters@.contains_key(id) <==> before.contains_key(id),
            forall|id: usize| #[trigger]
                before.contains_key(id) && !all.take(told as int).contains(id)
                    ==> chan.waiters@[id] == before[id],
            forall|k: int|
                0 <= k < told ==> chan.waiters@[#[trigger] all[k]].stored
                    && chan.waiters@[all[k]].outcome() == if k < sends.len() {
                    Outcome::Refused(before[all[k]].slot->Value_0)
                } else {
                    Outcome::Closed
                },
            forall|j: int, k: int|
                0 <= j < k < all.len() ==> #[trigger] all[j] != #[trigger] all[k],
        decreases queued.len() - told,
    {
        let id: usize = queued[told];
        proof {
            assert(all[told as int] == id);
            if told < sends.len() {
                assert(sends[told as int] == id);
            } else {
                assert(recvs[told - sends.len()] == id);
            }
            assert(before.contains_key(id));
            if all.take(told as int).contains(id) {
                let j = choose|j: int| 0 <= j < told && all.take(told as int)[j] == id;
                assert(all[j] == id);
            }
        }
        let mut waiter = chan.waiters.lend(id);
        waiter.slot = match waiter.slot {
            Slot::Value(value) => Slot::Disconnected(Some(value)),
            _ => Slot::Disconnected(None),
        };
        waiter.stored = true;
        chan.waiters.put(id, waiter);
        told = told + 1;
        proof {
            assert(all.take(told as int) =~= all.take(told - 1).push(id));
            assert forall|i: usize| #[trigger]
                before.contains_key(i) && !all.take(told as int).contains(i) implies chan.waiters@[i]
                == before[i] by {
                assert(all.take(told as int)[told - 1] == id);
                let passed = all.take(told - 1);
                assert forall|j: int| 0 <= j < passed.len() implies #[trigger] passed[j] != i by {
                    assert(all.take(told as int)[j] == passed[j]);
                }
            }
        }
    }
    proof {
        assert(all.take(all.len() as int) =~= all);
        let view = old(chan)@;
        let told = view.refused();
        assert forall|id: usize| #[trigger] chan@.outcomes.contains_key(id) == told.contains_key(id)
            && (told.contains_key(id) ==> chan@.outcomes[id] == told[id]) by {
            lemma_all(sends, recvs, id);
            if recvs.contains(id) {
                let k = choose|k: int| 0 <= k < recvs.len() && recvs[k] == id;
                assert(all[sends.len() + k] == id);
            } else if sends.contains(id) {
                let k = choose|k: int| 0 <= k < sends.len() && sends[k] == id;
                assert(all[k] == id);
                assert(view.sending[k].0 == id);
            } else {
                assert forall|k: int| 0 <= k < view.sending.len() implies #[trigger] view.sending[k].0 != id by {
                    assert(sends[k] == view.sending[k].0);
                }
            }
        }
        assert(chan@.outcomes =~= told);
        assert(chan@ =~= view.part(sender));
    }
}

impl<T> Inner<T> {
    /// What holds of the representation holds of the channel that it represents.
    pub proof fn lemma_ok(self)
        requires
            self.wf(),
        ensures
            self@.ok(),
            !self@.outcomes.contains_key(self.waiters.fresh()),
            !self@.receiving.contains(self.waiters.fresh()),
            forall|k: int|
                0 <= k < self@.sending.len() ==> (#[trigger] self@.sending[k]).0
                    != self.waiters.fresh(),
    {
        assert forall|k: int| 0 <= k < self@.sending.len() implies (#[trigger] self@.sending[k]).0
            != self.waiters.fresh() && !self@.outcomes.contains_key(self@.sending[k].0) by {
            assert(self.waiters@.contains_key(self.send_queue@[k]));
        }
        assert forall|k: int| 0 <= k < self@.receiving.len() implies #[trigger] self@.receiving[k]
            != self.waiters.fresh() by {
            assert(self.waiters@.contains_key(self.recv_queue@[k]));
        }
        assert forall|j: int, k: int| 0 <= j < k < self@.sending.len() implies (
        #[trigger] self@.sending[j]).0 != (#[trigger] self@.sending[k]).0 by {
            assert(self.send_queue@[j] != self.send_queue@[k]);
        }
    }
}

/// Sends `value`. If there is neither a receive that waits for it nor room in the buffer, the send
/// fails, or waits if it may `block`.
pub fn send<T>(chan: &mut Inner<T>, value: T, block: bool) -> (sent: Progress<
    Result<(), Result<T, T>>,
>)
    requires
        old(chan).wf(),
        old(chan)@.send(value, block, old(chan).waiters.fresh()).1 is None ==> old(chan).has_room(),
    ensures
        final(chan).wf(),
        final(chan)@ == old(chan)@.send(value, block, old(chan).waiters.fresh()).0,
        match sent {
            Progress::Ready(result) => old(chan)@.send(value, block, old(chan).waiters.fresh()).1
                == Some(result),
            Progress::Waiting(ticket) => ticket == old(chan).waiters.fresh() && old(chan)@.send(
                value,
                block,
                ticket,
            ).1 is None,
        },
        match sent {
            Progress::Ready(Ok(())) => old(chan).recv_queue@.len() > 0 || (old(chan).receivers > 0
                && old(chan).queue@.len() < old(chan).capacity),
            Progress::Ready(Err(Err(v))) => v == value && old(chan).recv_queue@.len() == 0
                && old(chan).receivers == 0,
            Progress::Ready(Err(Ok(v))) => v == value && !block && old(chan).recv_queue@.len() == 0
                && old(chan).receivers > 0 && old(chan).queue@.len() == old(chan).capacity,
            Progress::Waiting(_) => block && old(chan).recv_queue@.len() == 0
                && old(chan).receivers > 0 && old(chan).queue@.len() == old(chan).capacity,
        },
        final(chan).capacity == old(chan).capacity,
        final(chan).senders == old(chan).senders,
        final(chan).receivers == old(chan).receivers,
        final(chan).queue@ == if old(chan).recv_queue@.len() == 0 && old(chan).receivers > 0
            && old(chan).queue@.len() < old(chan).capacity {
            old(chan).queue@.push(value)
        } else {
            old(chan).queue@
        },
        final(chan).waiters.room() == old(chan).waiters.room() - if sent is Waiting {
            1int
        } else {
            0
        },
{
    let ghost ticket = chan.waiters.fresh();
    let ghost after = chan@.send(value, block, ticket).0;
    match chan.recv_queue.pop_front() {
        Some(id) => {
            assert(old(chan).recv_queue@[0] == id);
            let mut waiter = chan.waiters.lend(id);
            waiter.slot = Slot::Value(value);
            waiter.stored = true;
            chan.waiters.put(id, waiter);
            proof {
                assert forall|k: int| 0 <= k < chan.recv_queue@.len() implies #[trigger] chan.recv_queue@[k]
                    == old(chan).recv_queue@[k + 1] by {}
                assert(chan@.outcomes =~= after.outcomes);
                assert(chan@ =~= after);
            }
            return Progress::Ready(Ok(()));
        },
        None => {},
    }
    assert(chan@ =~= old(chan)@);
    if chan.receivers == 0 {
        return Progress::Ready(Err(Err(value)));
    }
    if chan.queue.len() < chan.capacity {
        chan.queue.push_back(value);
        assert(chan@ =~= after);
        return Progress::Ready(Ok(()));
    }
    if !block {
        return Progress::Ready(Err(Ok(value)));
    }
    let ghost before = chan.waiters@;
    let id: usize = chan.waiters.allocate(Waiter { stored: false, slot: Slot::Value(value) });
    chan.send_queue.push_back(id);
    proof {
        assert(!before.contains_key(id));
        assert forall|k: int| 0 <= k < old(chan).send_queue@.len() implies chan.send_queue@[k] != id by {
            assert(before.contains_key(old(chan).send_queue@[k]));
        }
        assert(chan@.sending =~= after.sending);
        assert(chan@.outcomes =~= after.outcomes);
        assert(chan@ =~= after);
    }
    Progress::Waiting(id)
}

/// Receives a value. If there is none, the receive fails, or waits if it may `block`.
pub fn recv<T>(chan: &mut Inner<T>, block: bool) -> (received: Progress<Result<T, Result<(), ()>>>)
    requires
        old(chan).wf(),
        old(chan)@.recv(block, old(chan).waiters.fresh()).1 is None ==> old(chan).has_room(),
    ensures
        final(chan).wf(),
        final(chan)@ == old(chan)@.recv(block, old(chan).waiters.fresh()).0,
        match received {
            Progress::Ready(result) => old(chan)@.recv(block, old(chan).waiters.fresh()).1 == Some(
                result,
            ),
            Progress::Waiting(ticket) => ticket == old(chan).waiters.fresh() && old(chan)@.recv(
                block,
                ticket,
            ).1 is None,
        },
        match received {
            Progress::Ready(Ok(v)) => if old(chan).send_queue@.len() > 0 {
                Slot::Value(v) == old(chan).waiters@[old(chan).send_queue@[0]].slot
            } else {
                old(chan).queue@.len() > 0 && v == old(chan).queue@[0]
            },
            Progress::Ready(Err(Err(()))) => old(chan).send_queue@.len() == 0
                && old(chan).queue@.len() == 0 && old(chan).senders == 0,
            Progress::Ready(Err(Ok(()))) => !block && old(chan).send_queue@.len() == 0
                && old(chan).queue@.len() == 0 && old(chan).senders > 0,
            Progress::Waiting(_) => block && old(chan).send_queue@.len() == 0
                && old(chan).queue@.len() == 0 && old(chan).senders > 0,
        },
        final(chan).capacity == old(chan).capacity,
        final(chan).senders == old(chan).senders,
        final(chan).receivers == old(chan).receivers,
        final(chan).queue@ == if old(chan).send_queue@.len() == 0 && old(chan).queue@.len() > 0 {
            old(chan).queue@.skip(1)
        } else {
            old(chan).queue@
        },
        final(chan).waiters.room() == old(chan).waiters.room() - if received is Waiting {
            1int
        } else {
            0
        },
{
    let ghost ticket = chan.waiters.fresh();
    let ghost after = chan@.recv(block, ticket).0;
    match chan.send_queue.pop_front() {
        Some(id) => {
            assert(old(chan).send_queue@[0] == id);
            assert(old(chan)@.sending[0].0 == id);
            let mut waiter = chan.waiters.lend(id);
            let slot = waiter.slot;
            waiter.slot = Slot::Empty;
            waiter.stored = true;
            chan.waiters.put(id, waiter);
            proof {
                assert forall|k: int| 0 <= k < chan.send_queue@.len() implies #[trigger] chan.send_queue@[k]
                    == old(chan).send_queue@[k + 1] by {}
                assert(chan@.sending =~= after.sending);
                assert(chan@.outcomes =~= after.outcomes);
                assert(chan@ =~= after);
            }
            match slot {
                Slot::Value(value) => {
                    return Progress::Ready(Ok(value));
                },
                _ => {
                    assert(false);
                },
            }
        },
        None => {},
    }
    assert(chan@ =~= old(chan)@);
    match chan.queue.pop_front() {
        Some(value) => {
            assert(chan@ =~= after);
            return Progress::Ready(Ok(value));
        },
        None => {},
    }
    assert(chan@ =~= old(chan)@);
    if chan.senders == 0 {
        return Progress::Ready(Err(Err(())));
    }
    if !block {
        return Progress::Ready(Err(Ok(())));
    }
    let ghost before = chan.waiters@;
    let id: usize = chan.waiters.allocate(Waiter { stored: false, slot: Slot::Empty });
    chan.recv_queue.push_back(id);
    proof {
        assert(!before.contains_key(id));
        assert forall|k: int| 0 <= k < old(chan).recv_queue@.len() implies chan.recv_queue@[k] != id by {
            assert(before.contains_key(old(chan).recv_queue@[k]));
        }
        assert(chan@.outcomes =~= after.outcomes);
        assert(chan@ =~= after);
    }
    Progress::Waiting(id)
}

/// The answer to a send that waited, once it was served.
pub fn poll_send<T>(chan: &mut Inner<T>, ticket: usize) -> (sent: Option<Result<(), T>>)
    requires
        old(chan).wf(),
        old(chan)@.sends(ticket),
    ensures
        final(chan).wf(),
        final(chan).waiters.room() == old(chan).waiters.room() + if sent is Some {
            1int
        } else {
            0
        },
        final(chan)@ == old(chan)@.redeem(ticket),
        match sent {
            None => !old(chan)@.outcomes.contains_key(ticket),
            Some(result) => old(chan)@.outcomes.contains_key(ticket)
                && old(chan)@.outcomes[ticket] == match result {
                Ok(()) => Outcome::Sent,
                Err(value) => Outcome::Refused(value),
            },
        },
        sent is Some <==> old(chan).waiters@[ticket].stored,
        sent matches Some(result) ==> old(chan).waiters@[ticket].slot == match result {
            Ok(()) => Slot::<T>::Empty,
            Err(value) => Slot::Disconnected(Some(value)),
        },
        final(chan).waiters@ == if sent is Some {
            old(chan).waiters@.remove(ticket)
        } else {
            old(chan).waiters@
        },
        final(chan).queue == old(chan).queue,
        final(chan).capacity == old(chan).capacity,
        final(chan).senders == old(chan).senders,
        final(chan).receivers == old(chan).receivers,
        final(chan).send_queue == old(chan).send_queue,
        final(chan).recv_queue == old(chan).recv_queue,
{
    let ghost after = chan@.redeem(ticket);
    proof {
        if !chan@.outcomes.contains_key(ticket) {
            let k = choose|k: int|
                0 <= k < chan@.sending.len() && #[trigger] chan@.sending[k].0 == ticket;
            assert(chan.send_queue@[k] == ticket);
        }
    }
    if !chan.waiters.get(ticket).stored {
        assert(chan@ =~= after);
        return None;
    }
    let waiter = chan.waiters.free(ticket);
    assert(chan@.sending =~= after.sending);
    assert(chan@.outcomes =~= after.outcomes);
    assert(chan@ =~= after);
    match waiter.slot {
        Slot::Disconnected(Some(value)) => Some(Err(value)),
        _ => Some(Ok(())),
    }
}

/// The answer to a receive that waited, once it was served.
pub fn poll_recv<T>(chan: &mut Inner<T>, ticket: usize) -> (received: Option<Result<T, ()>>)
    requires
        old(chan).wf(),
        old(chan)@.receives(ticket),
    ensures
        final(chan).wf(),
        final(chan).waiters.room() == old(chan).waiters.room() + if received is Some {
            1int
        } else {
            0
        },
        final(chan)@ == old(chan)@.redeem(ticket),
        match received {
            None => !old(chan)@.outcomes.contains_key(ticket),
            Some(result) => old(chan)@.outcomes.contains_key(ticket)
                && old(chan)@.outcomes[ticket] == match result {
                Ok(value) => Outcome::Received(value),
                Err(()) => Outcome::Closed,
            },
        },
        received is Some <==> old(chan).waiters@[ticket].stored,
        received matches Some(result) ==> old(chan).waiters@[ticket].slot == match result {
            Ok(value) => Slot::Value(value),
            Err(()) => Slot::<T>::Disconnected(None),
        },
        final(chan).waiters@ == if received is Some {
            old(chan).waiters@.remove(ticket)
        } else {
            old(chan).waiters@
        },
        final(chan).queue == old(chan).queue,
        final(chan).capacity == old(chan).capacity,
        final(chan).senders == old(chan).senders,
        final(chan).receivers == old(chan).receivers,
        final(chan).send_queue == old(chan).send_queue,
        final(chan).recv_queue == old(chan).recv_queue,
{
    let ghost after = chan@.redeem(ticket);
    proof {
        if !chan@.outcomes.contains_key(ticket) {
            let k = choose|k: int| 0 <= k < chan@.receiving.len() && chan@.receiving[k] == ticket;
            assert(chan.recv_queue@[k] == ticket);
        }
    }
    if !chan.waiters.get(ticket).stored {
        assert(chan@ =~= after);
        return None;
    }
    let waiter = chan.waiters.free(ticket);
    assert(chan@.sending =~= after.sending);
    assert(chan@.outcomes =~= after.outcomes);
    assert(chan@ =~= after);
    match waiter.slot {
        Slot::Value(value) => Some(Ok(value)),
        _ => Some(Err(())),
    }
}

} // verus!
