//! Channels that hold as many values as there may be.
use super::error::{RecvError, SendError, TryRecvError};
use super::internal::{self, Inner, Progress};
use std::marker::PhantomData;
use vstd::prelude::*;

verus! {

/// A channel without a limit on what it holds, with its first sender and its first receiver.
pub fn channel<T>() -> (ends: (Inner<T>, Sender<T>, Receiver<T>))
    ensures
        ends.0.wf(),
        ends.0.has_room(),
        ends.0.waiters.room() == usize::MAX - 1,
        ends.0@ == internal::Channel::<T>::start(None),
        ends.0.capacity == usize::MAX,
        ends.0.queue@.len() == 0,
        ends.0.senders == 1,
        ends.0.receivers == 1,
        ends.0.send_queue@.len() == 0,
        ends.0.recv_queue@.len() == 0,
{
    (internal::channel(None), Sender { chan: PhantomData }, Receiver { chan: PhantomData })
}

/// A right to send, counted by the channel.
pub struct Sender<T> {
    pub chan: PhantomData<T>,
}

impl<T> Sender<T> {
    /// Sends `value`, and waits for room if there is none.
    pub fn send(&self, chan: &mut Inner<T>, value: T) -> (sent: Progress<Result<(), SendError<T>>>)
        requires
            old(chan).wf(),
            old(chan)@.send(value, true, old(chan).waiters.fresh()).1 is None ==> old(chan).has_room(),
        ensures
            final(chan).wf(),
            final(chan).waiters.room() == old(chan).waiters.room() - if sent is Waiting {
                1int
            } else {
                0
            },
            final(chan)@ == old(chan)@.send(value, true, old(chan).waiters.fresh()).0,
            match sent {
                Progress::Ready(result) => old(chan)@.send(
                    value,
                    true,
                    old(chan).waiters.fresh(),
                ).1 == Some(
                    match result {
                        Ok(()) => Ok::<(), Result<T, T>>(()),
                        Err(SendError(refused)) => Err(Err(refused)),
                    },
                ),
                Progress::Waiting(ticket) => ticket == old(chan).waiters.fresh() && old(chan)@.send(
                    value,
                    true,
                    ticket,
                ).1 is None && final(chan)@.sends(ticket),
            },
            match sent {
                Progress::Ready(Ok(())) => old(chan).recv_queue@.len() > 0 || (old(chan).receivers
                    > 0 && old(chan).queue@.len() < old(chan).capacity),
                Progress::Ready(Err(SendError(v))) => v == value && old(chan).receivers == 0
                    && old(chan).recv_queue@.len() == 0,
                Progress::Waiting(_) => old(chan).recv_queue@.len() == 0 && old(chan).receivers > 0
                    && old(chan).queue@.len() == old(chan).capacity,
            },
            final(chan).capacity == old(chan).capacity,
            final(chan).senders == old(chan).senders,
            final(chan).receivers == old(chan).receivers,
            final(chan).queue@ == if old(chan).recv_queue@.len() == 0 && old(chan).receivers > 0
                && old(chan).queue@.len() < old(chan).capacity {
                old(chan).queue@.push(value)
            } else {
                old(chan).queue@
            },
    {
        proof {
            chan.lemma_ok();
            let ticket = chan.waiters.fresh();
            let after = chan@.send(value, true, ticket).0;
            if chan@.send(value, true, ticket).1 is None {
                assert(after.sending[chan@.sending.len() as int].0 == ticket);
            }
        }
        match internal::send(chan, value, true) {
            Progress::Ready(Ok(())) => Progress::Ready(Ok(())),
            Progress::Ready(Err(Ok(value))) => {
                assert(false);
                Progress::Ready(Err(SendError(value)))
            },
            Progress::Ready(Err(Err(value))) => Progress::Ready(Err(SendError(value))),
            Progress::Waiting(ticket) => Progress::Waiting(ticket),
        }
    }

    /// The result of a send that waited, once it has one.
    pub fn poll(&self, chan: &mut Inner<T>, ticket: usize) -> (sent: Option<
        Result<(), SendError<T>>,
    >)
        requires
            old(chan).wf(),
            old(chan)@.sends(ticket),
        ensures
            final(chan).wf(),
            final(chan).waiters.room() == old(chan).waiters.room() + if sent is Some {
                1int
            } else {
                0
            },
            final(chan)@ == old(chan)@.redeem(ticket),
            match sent {
                None => !old(chan)@.outcomes.contains_key(ticket),
                Some(result) => old(chan)@.outcomes.contains_key(ticket)
                    && old(chan)@.outcomes[ticket] == match result {
                    Ok(()) => internal::Outcome::Sent,
                    Err(SendError(value)) => internal::Outcome::Refused(value),
                },
            },
            sent is Some <==> old(chan).waiters@[ticket].stored,
            sent matches Some(result) ==> old(chan).waiters@[ticket].slot == match result {
                Ok(()) => internal::Slot::<T>::Empty,
                Err(SendError(value)) => internal::Slot::Disconnected(Some(value)),
            },
            final(chan).waiters@ == if sent is Some {
                old(chan).waiters@.remove(ticket)
            } else {
                old(chan).waiters@
            },
            final(chan).queue == old(chan).queue,
            final(chan).capacity == old(chan).capacity,
            final(chan).senders == old(chan).senders,
            final(chan).receivers == old(chan).receivers,
            final(chan).send_queue == old(chan).send_queue,
            final(chan).recv_queue == old(chan).recv_queue,
    {
        match internal::poll_send(chan, ticket) {
            None => None,
            Some(Ok(())) => Some(Ok(())),
            Some(Err(value)) => Some(Err(SendError(value))),
        }
    }

    /// Another sender of the channel.
    pub fn clone(&self, chan: &mut Inner<T>) -> (sender: Self)
        requires
            old(chan).wf(),
            0 < old(chan).senders < usize::MAX,
        ensures
            final(chan).wf(),
            final(chan).waiters.room() == old(chan).waiters.room(),
            final(chan)@ == old(chan)@.join(true),
            final(chan).senders == old(chan).senders + 1,
            final(chan).receivers == old(chan).receivers,
            final(chan).queue == old(chan).queue,
            final(chan).capacity == old(chan).capacity,
            final(chan).send_queue == old(chan).send_queue,
            final(chan).recv_queue == old(chan).recv_queue,
            final(chan).waiters == old(chan).waiters,
    {
        internal::clone(chan, true);
        Sender { chan: PhantomData }
    }

    /// Gives the right to send back.
    pub fn drop(self, chan: &mut Inner<T>)
        requires
            old(chan).wf(),
            0 < old(chan).senders,
        ensures
            final(chan).wf(),
            final(chan).waiters.room() == old(chan).waiters.room(),
            final(chan)@ == old(chan)@.part(true),
            final(chan).senders == old(chan).senders - 1,
            final(chan).receivers == old(chan).receivers,
            final(chan).queue == old(chan).queue,
            final(chan).capacity == old(chan).capacity,
            old(chan).senders > 1 ==> {
                &&& final(chan).send_queue == old(chan).send_queue
                &&& final(chan).recv_queue == old(chan).recv_queue
                &&& final(chan).waiters == old(chan).waiters
            },
            old(chan).senders == 1 ==> final(chan).send_queue@.len() == 0
                && final(chan).recv_queue@.len() == 0,
    {
        internal::disconnect(chan, true);
    }
}

/// A right to receive, counted by the channel.
pub struct Receiver<T> {
    pub chan: PhantomData<T>,
}

impl<T> Receiver<T> {
    /// Receives a value if there is one now.
    pub fn try_recv(&self, chan: &mut Inner<T>) -> (received: Result<T, TryRecvError>)
        requires
            old(chan).wf(),
        ensures
            final(chan).wf(),
            final(chan).waiters.room() == old(chan).waiters.room(),
            final(chan)@ == old(chan)@.recv(false, old(chan).waiters.fresh()).0,
            old(chan)@.recv(false, old(chan).waiters.fresh()).1 == Some(
                match received {
                    Ok(value) => Ok::<T, Result<(), ()>>(value),
                    Err(TryRecvError::Empty) => Err(Ok(())),
                    Err(TryRecvError::Disconnected) => Err(Err(())),
                },
            ),
            match received {
                Ok(v) => if old(chan).send_queue@.len() > 0 {
                    old(chan).waiters@[old(chan).send_queue@[0]].slot == internal::Slot::Value(v)
                } else {
                    old(chan).queue@.len() > 0 && v == old(chan).queue@[0]
                },
                Err(TryRecvError::Empty) => old(chan).send_queue@.len() == 0 && old(chan).queue@.len() == 0 && old(chan).senders > 0,
                Err(TryRecvError::Disconnected) => old(chan).send_queue@.len() == 0 && old(chan).queue@.len() == 0 && old(chan).senders == 0,
            },
            final(chan).capacity == old(chan).capacity,
            final(chan).senders == old(chan).senders,
            final(chan).receivers == old(chan).receivers,
            final(chan).queue@ == if old(chan).send_queue@.len() == 0 && old(chan).queue@.len() > 0 {
                old(chan).queue@.skip(1)
            } else {
                old(chan).queue@
            },
    {
        match internal::recv(chan, false) {
            Progress::Ready(Ok(value)) => Ok(value),
            Progress::Ready(Err(Ok(()))) => Err(TryRecvError::Empty),
            Progress::Ready(Err(Err(()))) => Err(TryRecvError::Disconnected),
            Progress::Waiting(_) => {
                assert(false);
                Err(TryRecvError::Empty)
            },
        }
    }

    /// Receives a value, and waits for one if there is none.
    pub fn recv(&self, chan: &mut Inner<T>) -> (received: Progress<Result<T, RecvError>>)
        requires
            old(chan).wf(),
            old(chan)@.recv(true, old(chan).waiters.fresh()).1 is None ==> old(chan).has_room(),
        ensures
            final(chan).wf(),
            final(chan).waiters.room() == old(chan).waiters.room() - if received is Waiting {
                1int
            } else {
                0
            },
            final(chan)@ == old(chan)@.recv(true, old(chan).waiters.fresh()).0,
            match received {
                Progress::Ready(result) => old(chan)@.recv(true, old(chan).waiters.fresh()).1
                    == Some(
                    match result {
                        Ok(value) => Ok::<T, Result<(), ()>>(value),
                        Err(RecvError) => Err(Err(())),
                    },
                ),
                Progress::Waiting(ticket) => ticket == old(chan).waiters.fresh() && old(chan)@.recv(
                    true,
                    ticket,
                ).1 is None && final(chan)@.receives(ticket),
            },
            match received {
                Progress::Ready(Ok(v)) => if old(chan).send_queue@.len() > 0 {
                    old(chan).waiters@[old(chan).send_queue@[0]].slot == internal::Slot::Value(v)
                } else {
                    old(chan).queue@.len() > 0 && v == old(chan).queue@[0]
                },
                Progress::Ready(Err(RecvError)) => old(chan).send_queue@.len() == 0 && old(chan).queue@.len() == 0 && old(chan).senders == 0,
                Progress::Waiting(_) => old(chan).send_queue@.len() == 0 && old(chan).queue@.len()
                    == 0 && old(chan).senders > 0,
            },
            final(chan).capacity == old(chan).capacity,
            final(chan).senders == old(chan).senders,
            final(chan).receivers == old(chan).receivers,
            final(chan).queue@ == if old(chan).send_queue@.len() == 0 && old(chan).queue@.len() > 0 {
                old(chan).queue@.skip(1)
            } else {
                old(chan).queue@
            },
    {
        proof {
            chan.lemma_ok();
            let ticket = chan.waiters.fresh();
            let after = chan@.recv(true, ticket).0;
            if chan@.recv(true, ticket).1 is None {
                assert(after.receiving[chan@.receiving.len() as int] == ticket);
            }
        }
        match internal::recv(chan, true) {
            Progress::Ready(Ok(value)) => Progress::Ready(Ok(value)),
            Progress::Ready(Err(Ok(()))) => {
                assert(false);
                Progress::Ready(Err(RecvError))
            },
            Progress::Ready(Err(Err(()))) => Progress::Ready(Err(RecvError)),
            Progress::Waiting(ticket) => Progress::Waiting(ticket),
        }
    }

    /// The result of a receive that waited, once it has one.
    pub fn poll(&self, chan: &mut Inner<T>, ticket: usize) -> (received: Option<
        Result<T, RecvError>,
    >)
        requires
            old(chan).wf(),
            old(chan)@.receives(ticket),
        ensures
            final(chan).wf(),
            final(chan).waiters.room() == old(chan).waiters.room() + if received is Some {
                1int
            } else {
                0
            },
            final(chan)@ == old(chan)@.redeem(ticket),
            match received {
                None => !old(chan)@.outcomes.contains_key(ticket),
                Some(result) => old(chan)@.outcomes.contains_key(ticket)
                    && old(chan)@.outcomes[ticket] == match result {
                    Ok(value) => internal::Outcome::Received(value),
                    Err(RecvError) => internal::Outcome::Closed,
                },
            },
            received is Some <==> old(chan).waiters@[ticket].stored,
            received matches Some(result) ==> old(chan).waiters@[ticket].slot == match result {
                Ok(value) => internal::Slot::Value(value),
                Err(RecvError) => internal::Slot::<T>::Disconnected(None),
            },
            final(chan).waiters@ == if received is Some {
                old(chan).waiters@.remove(ticket)
            } else {
                old(chan).waiters@
            },
            final(chan).queue == old(chan).queue,
            final(chan).capacity == old(chan).capacity,
            final(chan).senders == old(chan).senders,
            final(chan).receivers == old(chan).receivers,
            final(chan).send_queue == old(chan).send_queue,
            final(chan).recv_queue == old(chan).recv_queue,
    {
        match internal::poll_recv(chan, ticket) {
            None => None,
            Some(Ok(value)) => Some(Ok(value)),
            Some(Err(())) => Some(Err(RecvError)),
        }
    }

    /// Another receiver of the channel.
    pub fn clone(&self, chan: &mut Inner<T>) -> (receiver: Self)
        requires
            old(chan).wf(),
            0 < old(chan).receivers < usize::MAX,
        ensures
            final(chan).wf(),
            final(chan).waiters.room() == old(chan).waiters.room(),
            final(chan)@ == old(chan)@.join(false),
            final(chan).receivers == old(chan).receivers + 1,
            final(chan).senders == old(chan).senders,
            final(chan).queue == old(chan).queue,
            final(chan).capacity == old(chan).capacity,
            final(chan).send_queue == old(chan).send_queue,
            final(chan).recv_queue == old(chan).recv_queue,
            final(chan).waiters == old(chan).waiters,
    {
        internal::clone(chan, false);
        Receiver { chan: PhantomData }
    }

    /// Gives the right to receive back.
    pub fn drop(self, chan: &mut Inner<T>)
        requires
            old(chan).wf(),
            0 < old(chan).receivers,
        ensures
            final(chan).wf(),
            final(chan).waiters.room() == old(chan).waiters.room(),
            final(chan)@ == old(chan)@.part(false),
            final(chan).receivers == old(chan).receivers - 1,
            final(chan).senders == old(chan).senders,
            final(chan).queue == old(chan).queue,
            final(chan).capacity == old(chan).capacity,
            old(chan).receivers > 1 ==> {
                &&& final(chan).send_queue == old(chan).send_queue
                &&& final(chan).recv_queue == old(chan).recv_queue
                &&& final(chan).waiters == old(chan).waiters
            },
            old(chan).receivers == 1 ==> final(chan).send_queue@.len() == 0
                && final(chan).recv_queue@.len() == 0,
    {
        internal::disconnect(chan, false);
    }
}

} // verus!
