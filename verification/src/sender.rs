//! The sending half of a channel.

use crate::error::{SendError, SendTimeoutError, TrySendError, TrySendTimeoutError};
use crate::hook::{self, Hook, Signal, Step};
use crate::model::{self, Blocking, ChannelView};
use crate::shared::Shared;
use crate::weak::WeakSender;
use std::marker::PhantomData;
use vstd::pervasive::unreached;
use vstd::prelude::*;

verus! {

/// A handle through which messages are sent into a channel.
///
/// The state of the channel is passed to every call. A blocking call that cannot complete returns
/// `Step::Wait`; its party then sleeps, and resumes the call under the same signal.
pub struct Sender<T> {
    id: u64,
    msgs: PhantomData<T>,
}

impl<T> Sender<T> {
    /// The id of the channel that this sender belongs to.
    pub closed spec fn channel(self) -> u64 {
        self.id
    }

    /// Whether this is one of the senders of `chan`.
    pub open spec fn attached(self, chan: ChannelView<T>) -> bool {
        &&& chan.wf()
        &&& chan.id == self.channel()
        &&& chan.send_count > 0
    }

    /// A handle to the channel with the given id.
    pub(crate) fn new(id: u64) -> (sender: Self)
        ensures
            sender.channel() == id,
    {
        Sender { id, msgs: PhantomData }
    }

    /// Attempt to send a value into the channel. Fails if the channel is full or disconnected.
    pub fn try_send(&self, chan: &mut Shared<T>, msg: T) -> (res: Result<(), TrySendError<T>>)
        requires
            self.attached(old(chan)@),
        ensures
            res == (if old(chan)@.disconnected {
                Err(TrySendError::Disconnected(msg))
            } else if old(chan)@.lockable.recv_waiting.len() > 0
                || old(chan)@.lockable.has_room() {
                Ok(())
            } else {
                Err(TrySendError::Full(msg))
            }),
            final(chan)@ == old(chan)@.after_send(msg, None),
            res is Err ==> final(chan)@ == old(chan)@,
            self.attached(final(chan)@),
    {
        match chan.send_sync(msg, None) {
            Step::Done(Ok(())) => Ok(()),
            Step::Done(Err(TrySendTimeoutError::Full(msg))) => Err(TrySendError::Full(msg)),
            Step::Done(Err(TrySendTimeoutError::Disconnected(msg))) => Err(
                TrySendError::Disconnected(msg),
            ),
            _ => unreached(),
        }
    }

    /// Send a value into the channel, waiting for room where there is none. Fails if the channel is
    /// disconnected.
    pub fn send(&self, chan: &mut Shared<T>, msg: T, signal: Signal) -> (step: Step<
        Result<(), SendError<T>>,
    >)
        requires
            self.attached(old(chan)@),
            !old(chan)@.lockable.registered(signal.token),
        ensures
            step == (if old(chan)@.disconnected {
                Step::Done(Err(SendError(msg)))
            } else if old(chan)@.lockable.recv_waiting.len() > 0
                || old(chan)@.lockable.has_room() {
                Step::Done(Ok(()))
            } else {
                Step::Wait(None)
            }),
            final(chan)@ == old(chan)@.after_send(msg, Some(signal)),
            self.attached(final(chan)@),
    {
        proof {
            model::lemma_join(
                chan@.lockable.send_waiting,
                Hook::with_slot(Some(msg), signal),
            );
        }
        let wait = Blocking { signal, deadline: None, now: 0 };
        Self::closed_only(chan.send_sync(msg, Some(wait)))
    }

    /// Look after a `send` that had to wait. It is over once its message was taken; the message
    /// comes back if the channel is disconnected before that.
    pub fn resume_send(&self, chan: &mut Shared<T>, signal: Signal) -> (step: Step<
        Result<(), SendError<T>>,
    >)
        requires
            self.attached(old(chan)@),
        ensures
            step == (match model::held_by(old(chan)@.lockable.send_waiting, signal.token) {
                None => Step::Done(Ok(())),
                Some(msg) => if old(chan)@.disconnected {
                    Step::Done(Err(SendError(msg)))
                } else {
                    Step::Wait(None)
                },
            }),
            final(chan)@ == (match step {
                Step::Done(Err(_)) => old(chan)@.withdraw_send(signal.token, false),
                _ => old(chan)@,
            }),
            self.attached(final(chan)@),
    {
        let wait = Blocking { signal, deadline: None, now: 0 };
        Self::closed_only(chan.resume_send(wait))
    }

    /// Without a deadline a send that may wait fails only on a disconnected channel.
    fn closed_only(step: Step<Result<(), TrySendTimeoutError<T>>>) -> (res: Step<
        Result<(), SendError<T>>,
    >)
        requires
            step matches Step::Done(Err(err)) ==> err is Disconnected,
        ensures
            res == (match step {
                Step::Done(Ok(())) => Step::Done(Ok(())),
                Step::Done(Err(err)) => Step::Done(Err(SendError(err.msg()))),
                Step::Wait(dur) => Step::Wait(dur),
            }),
    {
        match step {
            Step::Done(Ok(())) => Step::Done(Ok(())),
            Step::Done(Err(TrySendTimeoutError::Disconnected(msg))) => Step::Done(
                Err(SendError(msg)),
            ),
            Step::Wait(dur) => Step::Wait(dur),
            _ => unreached(),
        }
    }

    /// Send a value into the channel, waiting for room until `deadline` where there is none. Fails
    /// if the channel is disconnected or the deadline has passed.
    pub fn send_deadline(
        &self,
        chan: &mut Shared<T>,
        msg: T,
        deadline: u128,
        now: u128,
        signal: Signal,
    ) -> (step: Step<Result<(), SendTimeoutError<T>>>)
        requires
            self.attached(old(chan)@),
            !old(chan)@.lockable.registered(signal.token),
        ensures
            step == (if old(chan)@.disconnected {
                Step::Done(Err(SendTimeoutError::Disconnected(msg)))
            } else if old(chan)@.lockable.recv_waiting.len() > 0
                || old(chan)@.lockable.has_room() {
                Step::Done(Ok(()))
            } else {
                match hook::time_left(deadline, now) {
                    Some(dur) => Step::Wait(Some(dur)),
                    None => Step::Done(Err(SendTimeoutError::Timeout(msg))),
                }
            }),
            final(chan)@ == (match step {
                Step::Done(Err(_)) => old(chan)@,
                _ => old(chan)@.after_send(msg, Some(signal)),
            }),
            self.attached(final(chan)@),
    {
        proof {
            model::lemma_join(
                chan@.lockable.send_waiting,
                Hook::with_slot(Some(msg), signal),
            );
        }
        let wait = Blocking { signal, deadline: Some(deadline), now };
        Self::closed_or_late(chan.send_sync(msg, Some(wait)))
    }

    /// Look after a `send_deadline` or `send_timeout` that had to wait. It is over once its message
    /// was taken; the message comes back if the channel is disconnected or the deadline has passed
    /// before that.
    pub fn resume_send_deadline(
        &self,
        chan: &mut Shared<T>,
        deadline: u128,
        now: u128,
        signal: Signal,
    ) -> (step: Step<Result<(), SendTimeoutError<T>>>)
        requires
            self.attached(old(chan)@),
        ensures
            step == (match model::held_by(old(chan)@.lockable.send_waiting, signal.token) {
                None => Step::Done(Ok(())),
                Some(msg) => if old(chan)@.disconnected {
                    Step::Done(Err(SendTimeoutError::Disconnected(msg)))
                } else {
                    match hook::time_left(deadline, now) {
                        Some(dur) => Step::Wait(Some(dur)),
                        None => Step::Done(Err(SendTimeoutError::Timeout(msg))),
                    }
                },
            }),
            final(chan)@ == (match step {
                Step::Done(Err(err)) => old(chan)@.withdraw_send(signal.token, err is Timeout),
                _ => old(chan)@,
            }),
            self.attached(final(chan)@),
    {
        let wait = Blocking { signal, deadline: Some(deadline), now };
        Self::closed_or_late(chan.resume_send(wait))
    }

    /// A send that may wait never fails because the channel is full.
    fn closed_or_late(step: Step<Result<(), TrySendTimeoutError<T>>>) -> (res: Step<
        Result<(), SendTimeoutError<T>>,
    >)
        requires
            step matches Step::Done(Err(err)) ==> !(err is Full),
        ensures
            res == (match step {
                Step::Done(Ok(())) => Step::Done(Ok(())),
                Step::Done(Err(err)) => if err is Timeout {
                    Step::Done(Err(SendTimeoutError::Timeout(err.msg())))
                } else {
                    Step::Done(Err(SendTimeoutError::Disconnected(err.msg())))
                },
                Step::Wait(dur) => Step::Wait(dur),
            }),
    {
        match step {
            Step::Done(Ok(())) => Step::Done(Ok(())),
            Step::Done(Err(TrySendTimeoutError::Disconnected(msg))) => Step::Done(
                Err(SendTimeoutError::Disconnected(msg)),
            ),
            Step::Done(Err(TrySendTimeoutError::Timeout(msg))) => Step::Done(
                Err(SendTimeoutError::Timeout(msg)),
            ),
            Step::Wait(dur) => Step::Wait(dur),
            _ => unreached(),
        }
    }

    /// Send a value into the channel, waiting for room for up to `dur` where there is none. It is
    /// resumed with the deadline `now + dur`.
    pub fn send_timeout(
        &self,
        chan: &mut Shared<T>,
        msg: T,
        dur: u128,
        now: u128,
        signal: Signal,
    ) -> (step: Step<Result<(), SendTimeoutError<T>>>)
        requires
            self.attached(old(chan)@),
            !old(chan)@.lockable.registered(signal.token),
            now + dur <= u128::MAX,
        ensures
            step == (if old(chan)@.disconnected {
                Step::Done(Err(SendTimeoutError::Disconnected(msg)))
            } else if old(chan)@.lockable.recv_waiting.len() > 0
                || old(chan)@.lockable.has_room() {
                Step::Done(Ok(()))
            } else {
                Step::Wait(Some(dur))
            }),
            final(chan)@ == old(chan)@.after_send(msg, Some(signal)),
            self.attached(final(chan)@),
    {
        self.send_deadline(chan, msg, now + dur, now, signal)
    }

    /// Whether the channel is disconnected.
    pub fn is_disconnected(&self, chan: &Shared<T>) -> (disconnected: bool)
        requires
            self.attached(chan@),
        ensures
            disconnected == chan@.disconnected,
            disconnected == (chan@.recv_count == 0),
    {
        chan.is_disconnected()
    }

    /// Whether there is no message in the queue.
    pub fn is_empty(&self, chan: &mut Shared<T>) -> (empty: bool)
        requires
            self.attached(old(chan)@),
        ensures
            empty == (old(chan)@.settle().lockable.queue.len() == 0),
            final(chan)@ == old(chan)@.settle(),
            self.attached(final(chan)@),
    {
        chan.is_empty()
    }

    /// Whether the channel is bounded and as many messages as its capacity are in the queue.
    pub fn is_full(&self, chan: &mut Shared<T>) -> (full: bool)
        requires
            self.attached(old(chan)@),
        ensures
            full == (old(chan)@.lockable.cap matches Some(cap)
                && old(chan)@.settle().lockable.queue.len() == cap),
            final(chan)@ == old(chan)@.settle(),
            self.attached(final(chan)@),
    {
        chan.is_full()
    }

    /// The number of messages in the queue, once those that wait have gone there as far as there is
    /// room.
    pub fn len(&self, chan: &mut Shared<T>) -> (len: usize)
        requires
            self.attached(old(chan)@),
        ensures
            len == old(chan)@.settle().lockable.queue.len(),
            final(chan)@ == old(chan)@.settle(),
            self.attached(final(chan)@),
    {
        chan.len()
    }

    /// The capacity of a bounded channel.
    pub fn capacity(&self, chan: &Shared<T>) -> (cap: Option<usize>)
        requires
            self.attached(chan@),
        ensures
            cap == chan@.lockable.cap,
    {
        chan.capacity()
    }

    /// The number of senders.
    pub fn sender_count(&self, chan: &Shared<T>) -> (count: usize)
        requires
            self.attached(chan@),
        ensures
            count == chan@.send_count,
    {
        chan.sender_count()
    }

    /// The number of receivers.
    pub fn receiver_count(&self, chan: &Shared<T>) -> (count: usize)
        requires
            self.attached(chan@),
        ensures
            count == chan@.recv_count,
    {
        chan.receiver_count()
    }

    /// A handle to the channel that does not count as a sender.
    pub fn downgrade(&self) -> (weak: WeakSender<T>)
        ensures
            weak.channel() == self.channel(),
    {
        WeakSender::new(self.id)
    }

    /// Whether both senders belong to one channel.
    pub fn same_channel(&self, other: &Sender<T>) -> (same: bool)
        ensures
            same == (self.channel() == other.channel()),
    {
        self.id == other.id
    }

    /// Another sender of the channel.
    pub fn clone(&self, chan: &mut Shared<T>) -> (sender: Sender<T>)
        requires
            self.attached(old(chan)@),
            old(chan)@.send_count < usize::MAX,
        ensures
            sender.channel() == self.channel(),
            final(chan)@ == old(chan)@.add_sender(),
            sender.attached(final(chan)@),
            self.attached(final(chan)@),
    {
        chan.add_sender();
        Sender::new(self.id)
    }

    /// Give up the sender. The channel is disconnected if it was the last.
    pub fn drop(self, chan: &mut Shared<T>)
        requires
            self.attached(old(chan)@),
        ensures
            final(chan)@ == old(chan)@.drop_sender(),
            final(chan)@.wf(),
    {
        chan.remove_sender();
    }
}

} // verus!
