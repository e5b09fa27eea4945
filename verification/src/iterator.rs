//! Messages one after the other.

use crate::hook::{Hook, Signal, Step};
use crate::model::{self, Blocking};
use crate::receiver::Receiver;
use crate::shared::Shared;
use std::collections::VecDeque;
use std::marker::PhantomData;
use vstd::prelude::*;

verus! {

/// An iterator over the msgs received from a channel.
pub struct Iter<'a, T> {
    receiver: &'a Receiver<T>,
}

impl<'a, T> Iter<'a, T> {
    /// The receiver that the messages come through.
    pub closed spec fn receiver(self) -> Receiver<T> {
        *self.receiver
    }

    pub(crate) fn new(receiver: &'a Receiver<T>) -> (iter: Self)
        ensures
            iter.receiver() == *receiver,
    {
        Iter { receiver }
    }

    /// The next message, waiting for one where there is none. `None` once the channel is
    /// disconnected and empty.
    pub fn next(&mut self, chan: &mut Shared<T>, signal: Signal) -> (step: Step<Option<T>>)
        requires
            old(self).receiver().attached(old(chan)@),
            !old(chan)@.lockable.registered(signal.token),
        ensures
            step == (if old(chan)@.contents().len() > 0 {
                Step::Done(Some(old(chan)@.contents()[0]))
            } else if old(chan)@.disconnected {
                Step::Done(None)
            } else {
                Step::Wait(None)
            }),
            final(chan)@ == old(chan)@.after_recv(Some(Hook::with_slot(None, signal))),
            final(self).receiver() == old(self).receiver(),
            final(self).receiver().attached(final(chan)@),
    {
        match self.receiver.recv(chan, signal) {
            Step::Done(res) => Step::Done(res.ok()),
            Step::Wait(dur) => Step::Wait(dur),
        }
    }

    /// Look after a `next` that had to wait.
    pub fn resume_next(&mut self, chan: &mut Shared<T>, signal: Signal) -> (step: Step<Option<T>>)
        requires
            old(self).receiver().attached(old(chan)@),
        ensures
            step == (match model::held_by(old(chan)@.lockable.woken, signal.token) {
                Some(msg) => Step::Done(Some(msg)),
                None => if !old(chan)@.disconnected {
                    Step::Wait(None)
                } else if old(chan)@.lockable.queue.len() > 0 {
                    Step::Done(Some(old(chan)@.lockable.queue[0]))
                } else {
                    Step::Done(None)
                },
            }),
            final(chan)@ == old(chan)@.after_resume_recv(
                Blocking { signal, deadline: None, now: 0 },
            ),
            final(self).receiver() == old(self).receiver(),
            final(self).receiver().attached(final(chan)@),
    {
        match self.receiver.resume_recv(chan, signal) {
            Step::Done(res) => Step::Done(res.ok()),
            Step::Wait(dur) => Step::Wait(dur),
        }
    }
}

/// A non-blocking iterator over the msgs received from a channel.
pub struct TryIter<'a, T> {
    receiver: &'a Receiver<T>,
}

impl<'a, T> TryIter<'a, T> {
    /// The receiver that the messages come through.
    pub closed spec fn receiver(self) -> Receiver<T> {
        *self.receiver
    }

    pub(crate) fn new(receiver: &'a Receiver<T>) -> (iter: Self)
        ensures
            iter.receiver() == *receiver,
    {
        TryIter { receiver }
    }

    /// The next message, if there is one.
    pub fn next(&mut self, chan: &mut Shared<T>) -> (msg: Option<T>)
        requires
            old(self).receiver().attached(old(chan)@),
        ensures
            msg == (if old(chan)@.contents().len() > 0 {
                Some(old(chan)@.contents()[0])
            } else {
                None
            }),
            final(chan)@ == old(chan)@.after_recv(None),
            final(self).receiver() == old(self).receiver(),
            final(self).receiver().attached(final(chan)@),
    {
        self.receiver.try_recv(chan).ok()
    }
}

/// A fixed-sized iterator over the msgs drained from a channel.
#[derive(Debug)]
pub struct Drain<'a, T> {
    queue: VecDeque<T>,
    /// Keeps the iterator from outliving the receiver.
    _phantom: PhantomData<&'a ()>,
}

impl<'a, T> View for Drain<'a, T> {
    type V = Seq<T>;

    /// The messages to come.
    closed spec fn view(&self) -> Seq<T> {
        self.queue@
    }
}

impl<'a, T> Drain<'a, T> {
    pub(crate) fn new(queue: VecDeque<T>) -> (drain: Self)
        ensures
            drain@ == queue@,
    {
        Drain { queue, _phantom: PhantomData }
    }

    /// The next of the drained messages.
    pub fn next(&mut self) -> (msg: Option<T>)
        ensures
            old(self)@.len() > 0 ==> msg == Some(old(self)@[0]) && final(self)@
                == old(self)@.skip(1),
            old(self)@.len() == 0 ==> msg is None && final(self)@ == old(self)@,
    {
        self.queue.pop_front()
    }

    /// How many messages are to come.
    pub fn len(&self) -> (len: usize)
        ensures
            len == self@.len(),
    {
        self.queue.len()
    }
}

/// An owned iterator over the msgs received from a channel.
pub struct IntoIter<T> {
    receiver: Receiver<T>,
}

impl<T> IntoIter<T> {
    /// The receiver that the messages come through.
    pub closed spec fn receiver(self) -> Receiver<T> {
        self.receiver
    }

    pub(crate) fn new(receiver: Receiver<T>) -> (iter: Self)
        ensures
            iter.receiver() == receiver,
    {
        IntoIter { receiver }
    }

    /// The next message, waiting for one where there is none. `None` once the channel is
    /// disconnected and empty.
    pub fn next(&mut self, chan: &mut Shared<T>, signal: Signal) -> (step: Step<Option<T>>)
        requires
            old(self).receiver().attached(old(chan)@),
            !old(chan)@.lockable.registered(signal.token),
        ensures
            step == (if old(chan)@.contents().len() > 0 {
                Step::Done(Some(old(chan)@.contents()[0]))
            } else if old(chan)@.disconnected {
                Step::Done(None)
            } else {
                Step::Wait(None)
            }),
            final(chan)@ == old(chan)@.after_recv(Some(Hook::with_slot(None, signal))),
            final(self).receiver() == old(self).receiver(),
            final(self).receiver().attached(final(chan)@),
    {
        self.receiver.iter().next(chan, signal)
    }

    /// Look after a `next` that had to wait.
    pub fn resume_next(&mut self, chan: &mut Shared<T>, signal: Signal) -> (step: Step<Option<T>>)
        requires
            old(self).receiver().attached(old(chan)@),
        ensures
            step == (match model::held_by(old(chan)@.lockable.woken, signal.token) {
                Some(msg) => Step::Done(Some(msg)),
                None => if !old(chan)@.disconnected {
                    Step::Wait(None)
                } else if old(chan)@.lockable.queue.len() > 0 {
                    Step::Done(Some(old(chan)@.lockable.queue[0]))
                } else {
                    Step::Done(None)
                },
            }),
            final(chan)@ == old(chan)@.after_resume_recv(
                Blocking { signal, deadline: None, now: 0 },
            ),
            final(self).receiver() == old(self).receiver(),
            final(self).receiver().attached(final(chan)@),
    {
        self.receiver.iter().resume_next(chan, signal)
    }

    /// The receiver, for it to be given up.
    pub fn into_receiver(self) -> (receiver: Receiver<T>)
        ensures
            receiver == self.receiver(),
    {
        self.receiver
    }
}

} // verus!
