//! Handles that do not keep a channel connected.

use crate::sender::Sender;
use crate::shared::Shared;
use std::marker::PhantomData;
use vstd::prelude::*;

verus! {

/// A handle to a channel that does not count as a sender.
pub struct WeakSender<T> {
    id: u64,
    msgs: PhantomData<T>,
}

impl<T> WeakSender<T> {
    /// The id of the channel that this handle belongs to.
    pub closed spec fn channel(self) -> u64 {
        self.id
    }

    /// A handle to the channel with the given id.
    pub(crate) fn new(id: u64) -> (weak: Self)
        ensures
            weak.channel() == id,
    {
        WeakSender { id, msgs: PhantomData }
    }

    /// A sender of the channel, if there are still live senders.
    pub fn upgrade(&self, chan: &mut Shared<T>) -> (sender: Option<Sender<T>>)
        requires
            old(chan)@.wf(),
            old(chan)@.id == self.channel(),
            old(chan)@.send_count < usize::MAX,
        ensures
            sender is Some <==> old(chan)@.send_count > 0,
            sender matches Some(sender) ==> sender.channel() == self.channel() && final(chan)@
                == old(chan)@.add_sender() && sender.attached(final(chan)@),
            sender is None ==> final(chan)@ == old(chan)@,
            final(chan)@.wf(),
    {
        if chan.sender_count() == 0 {
            // all senders are closed already -> don't increase the sender count
            None
        } else {
            // there is still at least one active sender
            chan.add_sender();
            Some(Sender::new(self.id))
        }
    }
}

impl<T> Clone for WeakSender<T> {
    fn clone(&self) -> (weak: Self)
        ensures
            weak == *self,
    {
        WeakSender { id: self.id, msgs: PhantomData }
    }
}

} // verus!
