//! A multi-producer, multi-consumer channel as a verified state machine.
//!
//! `Shared` is the state of a channel: its queue, the lists of those who wait for room or for a
//! message, and the counts of senders and receivers. `Sender` and `Receiver` are handles; every call
//! takes the state. What each call returns, and what it makes of the state, is a function of the
//! state before it, given in `model`. What that makes of the queue, of each waiting list, of the slots
//! and of the counts is proved in `effects`, and what follows for the channel as a whole in `laws`.
//!
//! No call sleeps. A blocking call is made under a `Signal` of its own. If it cannot complete, it
//! returns `Step::Wait`, and stands in a waiting list from then on. The driver of the channel puts
//! the caller to sleep, and resumes the call, under the same signal, when the caller wakes up. After
//! every call the driver collects, with `Shared::take_fired`, the signals of those who are to be
//! woken up.

use vstd::prelude::*;

pub mod effects;
mod error;
mod hook;
mod iterator;
pub mod laws;
pub mod model;
mod receiver;
mod sender;
mod shared;
mod weak;

pub use error::{
    RecvError, RecvTimeoutError, SendError, SendTimeoutError, TryRecvError, TryRecvTimeoutError,
    TrySendError, TrySendTimeoutError,
};
pub use hook::{Hook, Signal, Step};
pub use iterator::{Drain, IntoIter, Iter, TryIter};
pub use model::Blocking;
pub use receiver::Receiver;
pub use sender::Sender;
pub use shared::{Lockable, SendWaiting, Shared};
pub use weak::WeakSender;

verus! {

/// A channel without limit on the number of messages in it. Channels are told apart by their ids.
pub fn unbounded<T>(id: u64) -> (res: (Shared<T>, Sender<T>, Receiver<T>))
    ensures
        res.0@ == model::ChannelView::<T>::fresh(id, None),
        res.1.channel() == id,
        res.2.channel() == id,
        res.1.attached(res.0@),
        res.2.attached(res.0@),
{
    let shared = Shared::new(id, None);
    (shared, Sender::new(id), Receiver::new(id))
}

/// A channel with a limit on the number of messages in its queue. Channels are told apart by their
/// ids.
pub fn bounded<T>(id: u64, cap: usize) -> (res: (Shared<T>, Sender<T>, Receiver<T>))
    ensures
        res.0@ == model::ChannelView::<T>::fresh(id, Some(cap)),
        res.1.channel() == id,
        res.2.channel() == id,
        res.1.attached(res.0@),
        res.2.attached(res.0@),
{
    let shared = Shared::new(id, Some(cap));
    (shared, Sender::new(id), Receiver::new(id))
}

} // verus!
