//! The receiving half of a channel.

use crate::error::{RecvError, RecvTimeoutError, TryRecvError, TryRecvTimeoutError};
use crate::hook::{self, Hook, Signal, Step};
use crate::iterator::{Drain, IntoIter, Iter, TryIter};
use crate::model::{self, Blocking, ChannelView};
use crate::shared::Shared;
use std::marker::PhantomData;
use vstd::pervasive::unreached;
use vstd::prelude::*;

verus! {

/// A handle through which messages are received from a channel.
///
/// The state of the channel is passed to every call. A blocking call that cannot complete returns
/// `Step::Wait`; its party then sleeps, and resumes the call under the same signal.
pub struct Receiver<T> {
    id: u64,
    msgs: PhantomData<T>,
}

impl<T> Receiver<T> {
    /// The id of the channel that this receiver belongs to.
    pub closed spec fn channel(self) -> u64 {
        self.id
    }

    /// Whether this is one of the receivers of `chan`.
    pub open spec fn attached(self, chan: ChannelView<T>) -> bool {
        &&& chan.wf()
        &&& chan.id == self.channel()
        &&& chan.recv_count > 0
    }

    /// A handle to the channel with the given id.
    pub(crate) fn new(id: u64) -> (receiver: Self)
        ensures
            receiver.channel() == id,
    {
        Receiver { id, msgs: PhantomData }
    }

    /// Attempt to fetch the oldest message. Fails if there is none.
    pub fn try_recv(&self, chan: &mut Shared<T>) -> (res: Result<T, TryRecvError>)
        requires
            self.attached(old(chan)@),
        ensures
            res == (if old(chan)@.contents().len() > 0 {
                Ok(old(chan)@.contents()[0])
            } else if old(chan)@.disconnected {
                Err(TryRecvError::Disconnected)
            } else {
                Err(TryRecvError::Empty)
            }),
            final(chan)@ == old(chan)@.after_recv(None),
            res is Err ==> final(chan)@ == old(chan)@,
            self.attached(final(chan)@),
    {
        match chan.recv_sync(None) {
            Step::Done(Ok(msg)) => Ok(msg),
            Step::Done(Err(TryRecvTimeoutError::Disconnected)) => Err(TryRecvError::Disconnected),
            Step::Done(Err(TryRecvTimeoutError::Empty)) => Err(TryRecvError::Empty),
            _ => unreached(),
        }
    }

    /// Fetch the oldest message, waiting for one where there is none. Fails if the channel is
    /// disconnected and there is none.
    pub fn recv(&self, chan: &mut Shared<T>, signal: Signal) -> (step: Step<Result<T, RecvError>>)
        requires
            self.attached(old(chan)@),
            !old(chan)@.lockable.registered(signal.token),
        ensures
            step == (if old(chan)@.contents().len() > 0 {
                Step::Done(Ok(old(chan)@.contents()[0]))
            } else if old(chan)@.disconnected {
                Step::Done(Err(RecvError::Disconnected))
            } else {
                Step::Wait(None)
            }),
            final(chan)@ == old(chan)@.after_recv(Some(Hook::with_slot(None, signal))),
            self.attached(final(chan)@),
    {
        proof {
            model::lemma_unborne(chan@.lockable.woken, signal.token);
        }
        let wait = Blocking { signal, deadline: None, now: 0 };
        Self::closed_only(chan.recv_sync(Some(wait)))
    }

    /// Look after a `recv` that had to wait. It is over once its party was handed a message. If the
    /// channel is disconnected before that, the party gets what is left in the queue.
    pub fn resume_recv(&self, chan: &mut Shared<T>, signal: Signal) -> (step: Step<
        Result<T, RecvError>,
    >)
        requires
            self.attached(old(chan)@),
        ensures
            step == (match model::held_by(old(chan)@.lockable.woken, signal.token) {
                Some(msg) => Step::Done(Ok(msg)),
                None => if !old(chan)@.disconnected {
                    Step::Wait(None)
                } else if old(chan)@.lockable.queue.len() > 0 {
                    Step::Done(Ok(old(chan)@.lockable.queue[0]))
                } else {
                    Step::Done(Err(RecvError::Disconnected))
                },
            }),
            final(chan)@ == old(chan)@.after_resume_recv(
                Blocking { signal, deadline: None, now: 0 },
            ),
            step is Wait ==> final(chan)@ == old(chan)@,
            self.attached(final(chan)@),
    {
        let wait = Blocking { signal, deadline: None, now: 0 };
        Self::closed_only(chan.resume_recv(wait))
    }

    /// Without a deadline a receive that may wait fails only on a disconnected channel.
    fn closed_only(step: Step<Result<T, TryRecvTimeoutError>>) -> (res: Step<Result<T, RecvError>>)
        requires
            step matches Step::Done(Err(err)) ==> err is Disconnected,
        ensures
            res == (match step {
                Step::Done(Ok(msg)) => Step::Done(Ok(msg)),
                Step::Done(Err(_)) => Step::Done(Err(RecvError::Disconnected)),
                Step::Wait(dur) => Step::Wait(dur),
            }),
    {
        match step {
            Step::Done(Ok(msg)) => Step::Done(Ok(msg)),
            Step::Done(Err(TryRecvTimeoutError::Disconnected)) => Step::Done(
                Err(RecvError::Disconnected),
            ),
            Step::Wait(dur) => Step::Wait(dur),
            _ => unreached(),
        }
    }

    /// Fetch the oldest message, waiting for one until `deadline` where there is none. Fails if
    /// there is none and the channel is disconnected or the deadline has passed.
    pub fn recv_deadline(
        &self,
        chan: &mut Shared<T>,
        deadline: u128,
        now: u128,
        signal: Signal,
    ) -> (step: Step<Result<T, RecvTimeoutError>>)
        requires
            self.attached(old(chan)@),
            !old(chan)@.lockable.registered(signal.token),
        ensures
            step == (if old(chan)@.contents().len() > 0 {
                Step::Done(Ok(old(chan)@.contents()[0]))
            } else if old(chan)@.disconnected {
                Step::Done(Err(RecvTimeoutError::Disconnected))
            } else {
                match hook::time_left(deadline, now) {
                    Some(dur) => Step::Wait(Some(dur)),
                    None => Step::Done(Err(RecvTimeoutError::Timeout)),
                }
            }),
            final(chan)@ == (match step {
                Step::Done(Err(_)) => old(chan)@,
                _ => old(chan)@.after_recv(Some(Hook::with_slot(None, signal))),
            }),
            self.attached(final(chan)@),
    {
        proof {
            model::lemma_unborne(chan@.lockable.woken, signal.token);
            model::lemma_join(chan@.lockable.recv_waiting, Hook::with_slot(None, signal));
        }
        let wait = Blocking { signal, deadline: Some(deadline), now };
        Self::closed_or_late(chan.recv_sync(Some(wait)))
    }

    /// Look after a `recv_deadline` or `recv_timeout` that had to wait. It is over once its party
    /// was handed a message. If the channel is disconnected or the deadline has passed before that,
    /// the party gets what is left in the queue.
    pub fn resume_recv_deadline(
        &self,
        chan: &mut Shared<T>,
        deadline: u128,
        now: u128,
        signal: Signal,
    ) -> (step: Step<Result<T, RecvTimeoutError>>)
        requires
            self.attached(old(chan)@),
        ensures
            step == (match model::held_by(old(chan)@.lockable.woken, signal.token) {
                Some(msg) => Step::Done(Ok(msg)),
                None => match hook::time_left(deadline, now) {
                    Some(dur) if !old(chan)@.disconnected => Step::Wait(Some(dur)),
                    _ => if old(chan)@.lockable.queue.len() > 0 {
                        Step::Done(Ok(old(chan)@.lockable.queue[0]))
                    } else if old(chan)@.disconnected {
                        Step::Done(Err(RecvTimeoutError::Disconnected))
                    } else {
                        Step::Done(Err(RecvTimeoutError::Timeout))
                    },
                },
            }),
            final(chan)@ == old(chan)@.after_resume_recv(
                Blocking { signal, deadline: Some(deadline), now },
            ),
            step is Wait ==> final(chan)@ == old(chan)@,
            self.attached(final(chan)@),
    {
        let wait = Blocking { signal, deadline: Some(deadline), now };
        Self::closed_or_late(chan.resume_recv(wait))
    }

    /// A receive that may wait never fails because the channel is empty.
    fn closed_or_late(step: Step<Result<T, TryRecvTimeoutError>>) -> (res: Step<
        Result<T, RecvTimeoutError>,
    >)
        requires
            step matches Step::Done(Err(err)) ==> !(err is Empty),
        ensures
            res == (match step {
                Step::Done(Ok(msg)) => Step::Done(Ok(msg)),
                Step::Done(Err(err)) => if err is Timeout {
                    Step::Done(Err(RecvTimeoutError::Timeout))
                } else {
                    Step::Done(Err(RecvTimeoutError::Disconnected))
                },
                Step::Wait(dur) => Step::Wait(dur),
            }),
    {
        match step {
            Step::Done(Ok(msg)) => Step::Done(Ok(msg)),
            Step::Done(Err(TryRecvTimeoutError::Disconnected)) => Step::Done(
                Err(RecvTimeoutError::Disconnected),
            ),
            Step::Done(Err(TryRecvTimeoutError::Timeout)) => Step::Done(
                Err(RecvTimeoutError::Timeout),
            ),
            Step::Wait(dur) => Step::Wait(dur),
            _ => unreached(),
        }
    }

    /// Fetch the oldest message, waiting for one for up to `dur` where there is none. It is resumed
    /// with the deadline `now + dur`.
    pub fn recv_timeout(
        &self,
        chan: &mut Shared<T>,
        dur: u128,
        now: u128,
        signal: Signal,
    ) -> (step: Step<Result<T, RecvTimeoutError>>)
        requires
            self.attached(old(chan)@),
            !old(chan)@.lockable.registered(signal.token),
            now + dur <= u128::MAX,
        ensures
            step == (if old(chan)@.contents().len() > 0 {
                Step::Done(Ok(old(chan)@.contents()[0]))
            } else if old(chan)@.disconnected {
                Step::Done(Err(RecvTimeoutError::Disconnected))
            } else {
                Step::Wait(Some(dur))
            }),
            final(chan)@ == old(chan)@.after_recv(Some(Hook::with_slot(None, signal))),
            self.attached(final(chan)@),
    {
        self.recv_deadline(chan, now + dur, now, signal)
    }

    /// Messages one after the other, waiting for each until the channel is disconnected.
    pub fn iter(&self) -> (iter: Iter<'_, T>)
        ensures
            iter.receiver() == *self,
    {
        Iter::new(self)
    }

    /// Messages one after the other, as long as there are any.
    pub fn try_iter(&self) -> (iter: TryIter<'_, T>)
        ensures
            iter.receiver() == *self,
    {
        TryIter::new(self)
    }

    /// Messages one after the other, from an iterator that owns the receiver.
    pub fn into_iter(self) -> (iter: IntoIter<T>)
        ensures
            iter.receiver() == self,
    {
        IntoIter::new(self)
    }

    /// Take all messages that are in the queue out of it at once.
    pub fn drain(&self, chan: &mut Shared<T>) -> (drain: Drain<'_, T>)
        requires
            self.attached(old(chan)@),
        ensures
            drain@ == old(chan)@.settle().lockable.queue,
            final(chan)@ == old(chan)@.after_drain(),
            self.attached(final(chan)@),
    {
        Drain::new(chan.drain())
    }

    /// Whether the channel is disconnected.
    pub fn is_disconnected(&self, chan: &Shared<T>) -> (disconnected: bool)
        requires
            self.attached(chan@),
        ensures
            disconnected == chan@.disconnected,
            disconnected == (chan@.send_count == 0),
    {
        chan.is_disconnected()
    }

    /// Whether there is no message in the queue.
    pub fn is_empty(&self, chan: &mut Shared<T>) -> (empty: bool)
        requires
            self.attached(old(chan)@),
        ensures
            empty == (old(chan)@.settle().lockable.queue.len() == 0),
            final(chan)@ == old(chan)@.settle(),
            self.attached(final(chan)@),
    {
        chan.is_empty()
    }

    /// Whether the channel is bounded and as many messages as its capacity are in the queue.
    pub fn is_full(&self, chan: &mut Shared<T>) -> (full: bool)
        requires
            self.attached(old(chan)@),
        ensures
            full == (old(chan)@.lockable.cap matches Some(cap)
                && old(chan)@.settle().lockable.queue.len() == cap),
            final(chan)@ == old(chan)@.settle(),
            self.attached(final(chan)@),
    {
        chan.is_full()
    }

    /// The number of messages in the queue, once those that wait have gone there as far as there is
    /// room.
    pub fn len(&self, chan: &mut Shared<T>) -> (len: usize)
        requires
            self.attached(old(chan)@),
        ensures
            len == old(chan)@.settle().lockable.queue.len(),
            final(chan)@ == old(chan)@.settle(),
            self.attached(final(chan)@),
    {
        chan.len()
    }

    /// The capacity of a bounded channel.
    pub fn capacity(&self, chan: &Shared<T>) -> (cap: Option<usize>)
        requires
            self.attached(chan@),
        ensures
            cap == chan@.lockable.cap,
    {
        chan.capacity()
    }

    /// The number of senders.
    pub fn sender_count(&self, chan: &Shared<T>) -> (count: usize)
        requires
            self.attached(chan@),
        ensures
            count == chan@.send_count,
    {
        chan.sender_count()
    }

    /// The number of receivers.
    pub fn receiver_count(&self, chan: &Shared<T>) -> (count: usize)
        requires
            self.attached(chan@),
        ensures
            count == chan@.recv_count,
    {
        chan.receiver_count()
    }

    /// Whether both receivers belong to one channel.
    pub fn same_channel(&self, other: &Receiver<T>) -> (same: bool)
        ensures
            same == (self.channel() == other.channel()),
    {
        self.id == other.id
    }

    /// Another receiver of the channel.
    pub fn clone(&self, chan: &mut Shared<T>) -> (receiver: Receiver<T>)
        requires
            self.attached(old(chan)@),
            old(chan)@.recv_count < usize::MAX,
        ensures
            receiver.channel() == self.channel(),
            final(chan)@ == old(chan)@.add_receiver(),
            receiver.attached(final(chan)@),
            self.attached(final(chan)@),
    {
        chan.add_receiver();
        Receiver::new(self.id)
    }

    /// Give up the receiver. The channel is disconnected if it was the last.
    pub fn drop(self, chan: &mut Shared<T>)
        requires
            self.attached(old(chan)@),
        ensures
            final(chan)@ == old(chan)@.drop_receiver(),
            final(chan)@.wf(),
    {
        chan.remove_receiver();
    }
}

} // verus!
