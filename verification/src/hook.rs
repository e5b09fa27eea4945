//! What stands in a waiting list for a blocked operation.

use vstd::prelude::*;

verus! {

/// How a blocked party is woken up.
///
/// Firing a signal only records it: whoever drives the channel wakes the party named by `token`.
#[derive(Copy, Clone, Debug, PartialEq, Eq, Structural)]
pub struct Signal {
    /// Names the blocked operation. No two operations that wait on one channel share a token.
    pub token: u64,
    /// Whether the party is a stream. A stream that is woken up does not acquire the message that
    /// it is woken up for, so another receiver has to be woken up too.
    pub stream: bool,
}

impl Signal {
    /// Record that the party is to be woken up. Returns whether it is a stream.
    pub fn fire(&self, fired: &mut Vec<Signal>) -> (stream: bool)
        ensures
            final(fired)@ == old(fired)@.push(*self),
            stream == self.stream,
    {
        fired.push(*self);
        self.stream
    }
}

/// Where a blocking operation stands.
#[derive(Clone, Debug, PartialEq, Eq)]
pub enum Step<R> {
    /// The operation is over.
    Done(R),
    /// The party has to sleep until it is woken up, and for no longer than this many nanoseconds
    /// where a number is given. Then it resumes the operation.
    Wait(Option<u128>),
}

/// An optional message slot plus the signal that wakes the party up.
pub struct Hook<T> {
    /// `None` for a hook that only triggers; otherwise the slot, with the message that is in it.
    pub slot: Option<Option<T>>,
    /// How to wake the party up.
    pub signal: Signal,
}

/// What is left of the time until `deadline`: nothing at all once it has passed.
pub open spec fn time_left(deadline: u128, now: u128) -> Option<u128> {
    if now <= deadline {
        Some((deadline - now) as u128)
    } else {
        None
    }
}

impl<T> Hook<T> {
    /// The hook with a slot that holds `msg`.
    pub open spec fn with_slot(msg: Option<T>, signal: Signal) -> Self {
        Hook { slot: Some(msg), signal }
    }

    /// The message in the slot, if there is a slot and a message in it.
    pub open spec fn held(self) -> Option<T> {
        match self.slot {
            Some(msg) => msg,
            None => None,
        }
    }

    /// Whether the party is woken up without acquiring the message that it is woken up for: it has
    /// no slot to put the message into, and it is a stream.
    pub open spec fn passes(self) -> bool {
        self.slot is None && self.signal.stream
    }

    /// Construct with slot.
    pub fn new_slot(msg: Option<T>, signal: Signal) -> (hook: Self)
        ensures
            hook == Self::with_slot(msg, signal),
    {
        Hook { slot: Some(msg), signal }
    }

    /// Construct without slot.
    pub fn new_trigger(signal: Signal) -> (hook: Self)
        ensures
            hook == (Hook::<T> { slot: None, signal }),
    {
        Hook { slot: None, signal }
    }

    /// The slot by optional reference.
    pub fn slot(&self) -> (slot: Option<&Option<T>>)
        ensures
            slot == (match self.slot {
                Some(msg) => Some(&msg),
                None => None,
            }),
    {
        self.slot.as_ref()
    }

    /// The signal.
    pub fn signal(&self) -> (signal: &Signal)
        ensures
            *signal == self.signal,
    {
        &self.signal
    }

    /// Put `msg` into the slot, or give it back where there is none. The signal that comes with it
    /// is to be fired.
    pub fn fire_send(&mut self, msg: T) -> (res: (Option<T>, Signal))
        ensures
            res.1 == old(self).signal,
            old(self).slot is Some ==> res.0 is None && *final(self) == Self::with_slot(
                Some(msg),
                old(self).signal,
            ),
            old(self).slot is None ==> res.0 == Some(msg) && *final(self) == *old(self),
    {
        let ret = match self.slot {
            Some(_) => {
                self.slot = Some(Some(msg));
                None
            },
            None => Some(msg),
        };
        (ret, self.signal)
    }

    /// Fire the signal. Returns whether the party is a stream.
    pub fn fire(&self, fired: &mut Vec<Signal>) -> (stream: bool)
        ensures
            final(fired)@ == old(fired)@.push(self.signal),
            stream == self.signal.stream,
    {
        self.signal().fire(fired)
    }

    /// Whether no message is in the slot.
    pub fn is_empty(&self) -> (empty: bool)
        ensures
            empty == self.held() is None,
    {
        match self.slot() {
            Some(slot) => slot.is_none(),
            None => true,
        }
    }

    /// Take the message out of the slot.
    pub fn take(&mut self) -> (msg: Option<T>)
        requires
            old(self).slot is Some,
        ensures
            msg == old(self).held(),
            *final(self) == Self::with_slot(None, old(self).signal),
    {
        let msg = self.slot.take();
        self.slot = Some(None);
        msg.unwrap()
    }

    /// One round of waiting for a message in the slot. `abort` says whether the channel is
    /// disconnected: then the wait is over without a message.
    pub fn wait_recv(&mut self, abort: bool) -> (step: Step<Option<T>>)
        requires
            old(self).slot is Some,
        ensures
            *final(self) == Self::with_slot(None, old(self).signal),
            step == (match old(self).held() {
                Some(msg) => Step::Done(Some(msg)),
                None => if abort {
                    Step::Done(None)
                } else {
                    Step::Wait(None)
                },
            }),
    {
        let msg = self.take();
        if let Some(msg) = msg {
            Step::Done(Some(msg))
        } else if abort {
            Step::Done(None)
        } else {
            Step::Wait(None)
        }
    }

    /// One round of waiting for a message in the slot, until `deadline`. `Err(true)` if timeout,
    /// `Err(false)` if the channel is disconnected.
    pub fn wait_deadline_recv(&mut self, abort: bool, deadline: u128, now: u128) -> (step: Step<
        Result<T, bool>,
    >)
        requires
            old(self).slot is Some,
        ensures
            *final(self) == Self::with_slot(None, old(self).signal),
            step == (match old(self).held() {
                Some(msg) => Step::Done(Ok(msg)),
                None => if abort {
                    Step::Done(Err(false))
                } else {
                    match time_left(deadline, now) {
                        Some(dur) => Step::Wait(Some(dur)),
                        None => Step::Done(Err(true)),
                    }
                },
            }),
    {
        let msg = self.take();
        if let Some(msg) = msg {
            Step::Done(Ok(msg))
        } else if abort {
            Step::Done(Err(false))
        } else if let Some(dur) = deadline.checked_sub(now) {
            Step::Wait(Some(dur))
        } else {
            Step::Done(Err(true))
        }
    }

    /// One round of waiting for the message to be taken out of the slot. `abort` says whether the
    /// channel is disconnected: then the wait is over whatever is in the slot.
    pub fn wait_send(&self, abort: bool) -> (step: Step<()>)
        ensures
            step == (if abort || self.held() is None {
                Step::Done(())
            } else {
                Step::Wait(None)
            }),
    {
        if abort || self.is_empty() {
            Step::Done(())
        } else {
            Step::Wait(None)
        }
    }

    /// One round of waiting for the message to be taken out of the slot, until `deadline`.
    /// `Err(true)` if timeout, `Err(false)` if the channel is disconnected.
    pub fn wait_deadline_send(&self, abort: bool, deadline: u128, now: u128) -> (step: Step<
        Result<(), bool>,
    >)
        ensures
            step == (if self.held() is None {
                Step::Done(Ok(()))
            } else if abort {
                Step::Done(Err(false))
            } else {
                match time_left(deadline, now) {
                    Some(dur) => Step::Wait(Some(dur)),
                    None => Step::Done(Err(true)),
                }
            }),
    {
        if self.is_empty() {
            Step::Done(Ok(()))
        } else if abort {
            Step::Done(Err(false))
        } else if let Some(dur) = deadline.checked_sub(now) {
            Step::Wait(Some(dur))
        } else {
            Step::Done(Err(true))
        }
    }
}

} // verus!
