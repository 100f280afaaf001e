//! Channels with a limit on what they hold.
use super::error::{SendError, TrySendError};
use super::internal::{self, Inner, Progress};
use super::unbounded::{Receiver, Sender};
use std::marker::PhantomData;
use vstd::prelude::*;

verus! {

/// A channel that holds at most `capacity` values, with its first sender and its first receiver.
/// Without room for any, a value goes straight from a send to a receive.
pub fn channel<T>(capacity: usize) -> (ends: (Inner<T>, SyncSender<T>, Receiver<T>))
    ensures
        ends.0.wf(),
        ends.0.has_room(),
        ends.0.waiters.room() == usize::MAX - 1,
        ends.0@ == internal::Channel::<T>::start(Some(capacity)),
        ends.0.capacity == capacity,
        ends.0.queue@.len() == 0,
        ends.0.senders == 1,
        ends.0.receivers == 1,
        ends.0.send_queue@.len() == 0,
        ends.0.recv_queue@.len() == 0,
{
    (
        internal::channel(Some(capacity)),
        SyncSender { inner: Sender { chan: PhantomData } },
        Receiver { chan: PhantomData },
    )
}

/// A right to send, counted by the channel.
pub struct SyncSender<T> {
    pub inner: Sender<T>,
}

impl<T> SyncSender<T> {
    /// Sends `value` if there is room now.
    pub fn try_send(&self, chan: &mut Inner<T>, value: T) -> (sent: Result<(), TrySendError<T>>)
        requires
            old(chan).wf(),
        ensures
            final(chan).wf(),
            final(chan).waiters.room() == old(chan).waiters.room(),
            final(chan)@ == old(chan)@.send(value, false, old(chan).waiters.fresh()).0,
            old(chan)@.send(value, false, old(chan).waiters.fresh()).1 == Some(
                match sent {
                    Ok(()) => Ok::<(), Result<T, T>>(()),
                    Err(TrySendError::Full(refused)) => Err(Ok(refused)),
                    Err(TrySendError::Disconnected(refused)) => Err(Err(refused)),
                },
            ),
            match sent {
                Ok(()) => old(chan).recv_queue@.len() > 0 || (old(chan).receivers > 0
                    && old(chan).queue@.len() < old(chan).capacity),
                Err(TrySendError::Full(v)) => v == value && old(chan).receivers > 0
                    && old(chan).recv_queue@.len() == 0 && old(chan).queue@.len() == old(chan).capacity,
                Err(TrySendError::Disconnected(v)) => v == value && old(chan).receivers == 0
                    && old(chan).recv_queue@.len() == 0,
            },
            final(chan).capacity == old(chan).capacity,
            final(chan).senders == old(chan).senders,
            final(chan).receivers == old(chan).receivers,
            final(chan).queue@ == if old(chan).recv_queue@.len() == 0 && old(chan).receivers > 0
                && old(chan).queue@.len() < old(chan).capacity {
                old(chan).queue@.push(value)
            } else {
                old(chan).queue@
            },
    {
        match internal::send(chan, value, false) {
            Progress::Ready(Ok(())) => Ok(()),
            Progress::Ready(Err(Ok(value))) => Err(TrySendError::Full(value)),
            Progress::Ready(Err(Err(value))) => Err(TrySendError::Disconnected(value)),
            Progress::Waiting(_) => {
                assert(false);
                Ok(())
            },
        }
    }

    /// Sends `value`, and waits for room if there is none.
    pub fn send(&self, chan: &mut Inner<T>, value: T) -> (sent: Progress<Result<(), SendError<T>>>)
        requires
            old(chan).wf(),
            old(chan)@.send(value, true, old(chan).waiters.fresh()).1 is None ==> old(chan).has_room(),
        ensures
            final(chan).wf(),
            final(chan).waiters.room() == old(chan).waiters.room() - if sent is Waiting {
                1int
            } else {
                0
            },
            final(chan)@ == old(chan)@.send(value, true, old(chan).waiters.fresh()).0,
            match sent {
                Progress::Ready(result) => old(chan)@.send(
                    value,
                    true,
                    old(chan).waiters.fresh(),
                ).1 == Some(
                    match result {
                        Ok(()) => Ok::<(), Result<T, T>>(()),
                        Err(SendError(refused)) => Err(Err(refused)),
                    },
                ),
                Progress::Waiting(ticket) => ticket == old(chan).waiters.fresh() && old(chan)@.send(
                    value,
                    true,
                    ticket,
                ).1 is None && final(chan)@.sends(ticket),
            },
            match sent {
                Progress::Ready(Ok(())) => old(chan).recv_queue@.len() > 0 || (old(chan).receivers
                    > 0 && old(chan).queue@.len() < old(chan).capacity),
                Progress::Ready(Err(SendError(v))) => v == value && old(chan).receivers == 0
                    && old(chan).recv_queue@.len() == 0,
                Progress::Waiting(_) => old(chan).recv_queue@.len() == 0 && old(chan).receivers > 0
                    && old(chan).queue@.len() == old(chan).capacity,
            },
            final(chan).capacity == old(chan).capacity,
            final(chan).senders == old(chan).senders,
            final(chan).receivers == old(chan).receivers,
            final(chan).queue@ == if old(chan).recv_queue@.len() == 0 && old(chan).receivers > 0
                && old(chan).queue@.len() < old(chan).capacity {
                old(chan).queue@.push(value)
            } else {
                old(chan).queue@
            },
    {
        self.inner.send(chan, value)
    }

    /// The result of a send that waited, once it has one.
    pub fn poll(&self, chan: &mut Inner<T>, ticket: usize) -> (sent: Option<
        Result<(), SendError<T>>,
    >)
        requires
            old(chan).wf(),
            old(chan)@.sends(ticket),
        ensures
            final(chan).wf(),
            final(chan).waiters.room() == old(chan).waiters.room() + if sent is Some {
                1int
            } else {
                0
            },
            final(chan)@ == old(chan)@.redeem(ticket),
            match sent {
                None => !old(chan)@.outcomes.contains_key(ticket),
                Some(result) => old(chan)@.outcomes.contains_key(ticket)
                    && old(chan)@.outcomes[ticket] == match result {
                    Ok(()) => internal::Outcome::Sent,
                    Err(SendError(value)) => internal::Outcome::Refused(value),
                },
            },
            sent is Some <==> old(chan).waiters@[ticket].stored,
            sent matches Some(result) ==> old(chan).waiters@[ticket].slot == match result {
                Ok(()) => internal::Slot::<T>::Empty,
                Err(SendError(value)) => internal::Slot::Disconnected(Some(value)),
            },
            final(chan).waiters@ == if sent is Some {
                old(chan).waiters@.remove(ticket)
            } else {
                old(chan).waiters@
            },
            final(chan).queue == old(chan).queue,
            final(chan).capacity == old(chan).capacity,
            final(chan).senders == old(chan).senders,
            final(chan).receivers == old(chan).receivers,
            final(chan).send_queue == old(chan).send_queue,
            final(chan).recv_queue == old(chan).recv_queue,
    {
        self.inner.poll(chan, ticket)
    }

    /// Another sender of the channel.
    pub fn clone(&self, chan: &mut Inner<T>) -> (sender: Self)
        requires
            old(chan).wf(),
            0 < old(chan).senders < usize::MAX,
        ensures
            final(chan).wf(),
            final(chan).waiters.room() == old(chan).waiters.room(),
            final(chan)@ == old(chan)@.join(true),
            final(chan).senders == old(chan).senders + 1,
            final(chan).receivers == old(chan).receivers,
            final(chan).queue == old(chan).queue,
            final(chan).capacity == old(chan).capacity,
            final(chan).send_queue == old(chan).send_queue,
            final(chan).recv_queue == old(chan).recv_queue,
            final(chan).waiters == old(chan).waiters,
    {
        SyncSender { inner: self.inner.clone(chan) }
    }

    /// Gives the right to send back.
    pub fn drop(self, chan: &mut Inner<T>)
        requires
            old(chan).wf(),
            0 < old(chan).senders,
        ensures
            final(chan).wf(),
            final(chan).waiters.room() == old(chan).waiters.room(),
            final(chan)@ == old(chan)@.part(true),
            final(chan).senders == old(chan).senders - 1,
            final(chan).receivers == old(chan).receivers,
            final(chan).queue == old(chan).queue,
            final(chan).capacity == old(chan).capacity,
            old(chan).senders > 1 ==> {
                &&& final(chan).send_queue == old(chan).send_queue
                &&& final(chan).recv_queue == old(chan).recv_queue
                &&& final(chan).waiters == old(chan).waiters
            },
            old(chan).senders == 1 ==> final(chan).send_queue@.len() == 0
                && final(chan).recv_queue@.len() == 0,
    {
        self.inner.drop(chan);
    }
}

} // verus!
