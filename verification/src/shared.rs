//! The state of a channel, and what senders and receivers do to it.

use crate::error::{TryRecvTimeoutError, TrySendTimeoutError};
use crate::hook::{Hook, Signal, Step};
use crate::model::{self, Blocking, ChannelView, LockableView};
use std::collections::VecDeque;
use vstd::prelude::*;

verus! {

/// See `Lockable::send_waiting`.
pub struct SendWaiting<T> {
    /// Channel capacity.
    cap: usize,
    /// Hook for each party blocking on sending a message.
    signals: VecDeque<Hook<T>>,
}

/// Messages and waiting parties.
pub struct Lockable<T> {
    /// Messages in the channel.
    queue: VecDeque<T>,
    /// If the channel is bounded, state for parties blocking on sending.
    send_waiting: Option<SendWaiting<T>>,
    /// Hook for each party blocking on receiving a message.
    recv_waiting: VecDeque<Hook<T>>,
    /// Hooks with a message for a party that no longer stands in a list and has not come for the
    /// message yet.
    woken: VecDeque<Hook<T>>,
    /// The signals that were fired, in order, and whose parties are still to be woken up.
    fired: Vec<Signal>,
}

impl<T> View for Lockable<T> {
    type V = LockableView<T>;

    closed spec fn view(&self) -> LockableView<T> {
        LockableView {
            queue: self.queue@,
            cap: match self.send_waiting {
                Some(send_waiting) => Some(send_waiting.cap),
                None => None,
            },
            send_waiting: match self.send_waiting {
                Some(send_waiting) => send_waiting.signals@,
                None => Seq::empty(),
            },
            recv_waiting: self.recv_waiting@,
            woken: self.woken@,
            fired: self.fired@,
        }
    }
}

impl<T> Lockable<T> {
    /// No message and nobody waiting.
    pub fn new(cap: Option<usize>) -> (lockable: Self)
        ensures
            lockable@ == (LockableView::<T> {
                queue: Seq::empty(),
                cap,
                send_waiting: Seq::empty(),
                recv_waiting: Seq::empty(),
                woken: Seq::empty(),
                fired: Seq::empty(),
            }),
    {
        let send_waiting = match cap {
            Some(cap) => Some(SendWaiting { cap, signals: VecDeque::new() }),
            None => None,
        };
        Lockable {
            queue: VecDeque::new(),
            send_waiting,
            recv_waiting: VecDeque::new(),
            woken: VecDeque::new(),
            fired: Vec::new(),
        }
    }

    /// Move waiting messages to the queue as far as there is room for them.
    pub fn pull_pending(&mut self, pull_extra: bool)
        requires
            old(self)@.wf(),
            model::loaded(old(self)@.send_waiting.take(old(self)@.pulled(pull_extra))),
        ensures
            final(self)@ == old(self)@.pull(pull_extra),
            final(self)@.wf(),
    {
        let ghost start = self@;
        if let Some(mut send_waiting) = self.send_waiting.take() {
            let cap = send_waiting.cap;
            let ghost waiting = start.send_waiting;
            let ghost n = start.pulled(pull_extra);
            let ghost mut i: int = 0;
            while (self.queue.len() < cap || (pull_extra && self.queue.len() == cap))
                && send_waiting.signals.len() > 0
                invariant
                    0 <= i <= n <= waiting.len(),
                    start.wf(),
                    start.cap == Some(cap),
                    waiting == start.send_waiting,
                    n == start.pulled(pull_extra),
                    model::loaded(waiting.take(n)),
                    send_waiting.cap == cap,
                    send_waiting.signals@ == waiting.skip(i),
                    self.queue@ == start.queue + model::messages(waiting.take(i)),
                    self.fired@ == start.fired + model::signals(waiting.take(i)),
                    self.recv_waiting@ == start.recv_waiting,
                    self.woken@ == start.woken,
                decreases send_waiting.signals@.len(),
            {
                assert(waiting.take(n)[i] == waiting[i]);
                assert(waiting.skip(i)[0] == waiting[i]);
                let mut s = send_waiting.signals.pop_front().unwrap();
                let msg = s.take().unwrap();
                s.fire(&mut self.fired);
                self.queue.push_back(msg);
                proof {
                    assert(waiting.skip(i).subrange(1, waiting.skip(i).len() as int)
                        =~= waiting.skip(i + 1));
                    assert(model::messages(waiting.take(i)).push(msg)
                        =~= model::messages(waiting.take(i + 1)));
                    assert(model::signals(waiting.take(i)).push(s.signal)
                        =~= model::signals(waiting.take(i + 1)));
                    i = i + 1;
                }
            }
            self.send_waiting = Some(send_waiting);
            assert(i == n);
        } else {
            assert(model::messages(start.send_waiting.take(0)) =~= Seq::empty());
            assert(model::signals(start.send_waiting.take(0)) =~= Seq::empty());
        }
        assert(self@ =~= start.pull(pull_extra));
    }

    /// Fire those who wait for a message, down to the first stream, if there are messages.
    pub fn try_wake_receiver_if_pending(&mut self)
        requires
            old(self)@.wf(),
        ensures
            final(self)@ == old(self)@.wake(),
            final(self)@.wf(),
    {
        let ghost start = self@;
        let ghost waiting = start.recv_waiting;
        if self.queue.len() > 0 {
            let ghost mut i: int = 0;
            let mut more: bool = true;
            while more && self.recv_waiting.len() > 0
                invariant
                    0 <= i <= waiting.len(),
                    waiting == start.recv_waiting,
                    more ==> forall|j: int| 0 <= j < i ==> !(#[trigger] waiting[j]).signal.stream,
                    !more ==> i > 0 && waiting[i - 1].signal.stream && forall|j: int|
                        0 <= j < i - 1 ==> !(#[trigger] waiting[j]).signal.stream,
                    self.recv_waiting@ == waiting.skip(i),
                    self@ == (LockableView {
                        recv_waiting: waiting.skip(i),
                        fired: start.fired + model::signals(waiting.take(i)),
                        ..start
                    }),
                decreases self.recv_waiting@.len(),
            {
                assert(waiting.skip(i)[0] == waiting[i]);
                let s = self.recv_waiting.pop_front().unwrap();
                more = !s.fire(&mut self.fired);
                proof {
                    assert(waiting.skip(i).subrange(1, waiting.skip(i).len() as int)
                        =~= waiting.skip(i + 1));
                    assert(model::signals(waiting.take(i)).push(s.signal)
                        =~= model::signals(waiting.take(i + 1)));
                    i = i + 1;
                }
            }
            proof {
                let k = if more {
                    i
                } else {
                    i - 1
                };
                model::lemma_first_index(waiting, model::streams(), k);
            }
        }
        assert(self@ =~= start.wake());
    }

    /// The hook of the blocked send that goes under `token`, while it stands in the waiting list.
    fn sending(&self, token: u64) -> (hook: Option<&Hook<T>>)
        ensures
            hook matches Some(hook) ==> model::position(self@.send_waiting, token)
                < self@.send_waiting.len() && *hook == self@.send_waiting[model::position(
                self@.send_waiting,
                token,
            )],
            hook is None ==> model::position(self@.send_waiting, token) >= self@.send_waiting.len(),
    {
        if let Some(send_waiting) = &self.send_waiting {
            let k = position(&send_waiting.signals, token);
            if k < send_waiting.signals.len() {
                return Some(&send_waiting.signals[k]);
            }
        }
        None
    }

    /// The hook of the blocked receive that goes under `signal`: with a message in the slot if its
    /// party was handed one, which then is its party's.
    fn claim(&mut self, signal: Signal) -> (hook: Hook<T>)
        requires
            old(self)@.wf(),
        ensures
            hook.slot is Some,
            hook.signal.token == signal.token,
            hook.held() == model::held_by(old(self)@.woken, signal.token),
            hook.held() is None ==> final(self)@ == old(self)@,
            hook.held() is Some ==> final(self)@ == (LockableView {
                woken: old(self)@.woken.remove(model::position(old(self)@.woken, signal.token)),
                ..old(self)@
            }),
            final(self)@.wf(),
    {
        let k = position(&self.woken, signal.token);
        proof {
            model::lemma_first_index_found(self.woken@, model::bears(signal.token));
        }
        if let Some(hook) = self.woken.remove(k) {
            hook
        } else {
            Hook::new_slot(None, signal)
        }
    }

    /// Give `msg` to the first waiting receiver that takes it, or to the queue if none does.
    fn hand_over(&mut self, msg: T)
        requires
            old(self)@.wf(),
        ensures
            final(self)@ == old(self)@.hand_over(msg),
            final(self)@.wf(),
    {
        let ghost start = self@;
        let ghost waiting = start.recv_waiting;
        let ghost mut i: int = 0;
        let mut carried = msg;
        loop
            invariant
                0 <= i <= waiting.len(),
                start.wf(),
                start == old(self)@,
                waiting == start.recv_waiting,
                carried == msg,
                forall|j: int| 0 <= j < i ==> (#[trigger] waiting[j]).passes(),
                self.recv_waiting@ == waiting.skip(i),
                self@ == (LockableView {
                    recv_waiting: waiting.skip(i),
                    fired: start.fired + model::signals(waiting.take(i)),
                    ..start
                }),
            decreases self.recv_waiting@.len(),
        {
            match self.recv_waiting.pop_front() {
                None => {
                    self.queue.push_back(carried);
                    proof {
                        model::lemma_first_index(waiting, model::takes(), i);
                        assert(waiting.take(i) =~= waiting);
                        assert(self@ =~= start.hand_over(msg));
                    }
                    return ;
                },
                Some(mut slot) => {
                    let ghost hook = slot;
                    proof {
                        assert(waiting.skip(i)[0] == waiting[i]);
                        assert(waiting.skip(i).subrange(1, waiting.skip(i).len() as int)
                            =~= waiting.skip(i + 1));
                        assert(model::signals(waiting.take(i)).push(hook.signal)
                            =~= model::signals(waiting.take(i + 1)));
                        if !hook.passes() {
                            model::lemma_first_index(waiting, model::takes(), i);
                        }
                    }
                    match slot.fire_send(carried) {
                        (Some(m), signal) => {
                            if signal.fire(&mut self.fired) {
                                // Was async and a stream, so didn't acquire the message. Wake
                                // another receiver, and do not yet push the message.
                                carried = m;
                            } else {
                                // Was async and not a stream, so it did acquire the message. Push
                                // the message to the queue for it to be received.
                                self.queue.push_back(m);
                                assert(self@ =~= start.hand_over(msg));
                                return ;
                            }
                        },
                        (None, signal) => {
                            // Was sync, so it has acquired the message.
                            self.woken.push_back(slot);
                            signal.fire(&mut self.fired);
                            assert(self@ =~= start.hand_over(msg));
                            return ;
                        },
                    }
                    proof {
                        i = i + 1;
                    }
                },
            }
        }
    }
}

/// The index of the hook that bears `token`, or the length where there is none.
fn position<T>(hooks: &VecDeque<Hook<T>>, token: u64) -> (k: usize)
    ensures
        k == model::position(hooks@, token),
        k <= hooks@.len(),
{
    let mut k: usize = 0;
    while k < hooks.len() && hooks[k].signal().token != token
        invariant
            k <= hooks@.len(),
            forall|i: int| 0 <= i < k ==> (#[trigger] hooks@[i]).signal.token != token,
        decreases hooks@.len() - k,
    {
        k += 1;
    }
    proof {
        model::lemma_first_index(hooks@, model::bears(token), k as int);
    }
    k
}

/// Remove the hooks that bear `token`.
fn retain_others<T>(hooks: &mut VecDeque<Hook<T>>, token: u64)
    ensures
        final(hooks)@ == model::without(old(hooks)@, token),
{
    let ghost all = hooks@;
    let n = hooks.len();
    reveal(Seq::filter);
    assert(all.skip(0) + model::without(all.take(0), token) =~= all);
    for i in 0..n
        invariant
            n == all.len(),
            hooks@ == all.skip(i as int) + model::without(all.take(i as int), token),
    {
        proof {
            reveal(Seq::filter);
            let next = all.take(i + 1);
            assert(next.drop_last() =~= all.take(i as int));
            assert(hooks@[0] == all[i as int]);
            assert(hooks@.subrange(1, hooks@.len() as int) =~= all.skip(i + 1) + model::without(
                all.take(i as int),
                token,
            ));
        }
        let hook = hooks.pop_front().unwrap();
        if hook.signal().token != token {
            hooks.push_back(hook);
        }
        assert(hooks@ =~= all.skip(i + 1) + model::without(all.take(i + 1), token));
    }
    assert(all.take(n as int) =~= all);
    assert(all.skip(n as int) + model::without(all, token) =~= model::without(all, token));
}

/// Fire the signals of all hooks.
fn fire_all<T>(hooks: &VecDeque<Hook<T>>, fired: &mut Vec<Signal>)
    ensures
        final(fired)@ == old(fired)@ + model::signals(hooks@),
{
    let ghost start = fired@;
    for i in 0..hooks.len()
        invariant
            fired@ == start + model::signals(hooks@.take(i as int)),
    {
        hooks[i].fire(fired);
        assert(model::signals(hooks@.take(i as int)).push(hooks@[i as int].signal)
            =~= model::signals(hooks@.take(i + 1)));
    }
    assert(hooks@.take(hooks@.len() as int) =~= hooks@);
}

/// The state that the senders and receivers of a channel share.
pub struct Shared<T> {
    /// Tells this channel from others.
    id: u64,
    /// Messages and waiting parties.
    lockable: Lockable<T>,
    /// Whether the channel is disconnected.
    disconnected: bool,
    /// Sender count.
    send_count: usize,
    /// Receiver count.
    recv_count: usize,
}

impl<T> View for Shared<T> {
    type V = ChannelView<T>;

    closed spec fn view(&self) -> ChannelView<T> {
        ChannelView {
            id: self.id,
            lockable: self.lockable@,
            disconnected: self.disconnected,
            send_count: self.send_count,
            recv_count: self.recv_count,
        }
    }
}

impl<T> Shared<T> {
    /// A channel with one sender and one receiver.
    pub fn new(id: u64, cap: Option<usize>) -> (shared: Self)
        ensures
            shared@ == ChannelView::<T>::fresh(id, cap),
            shared@.wf(),
    {
        Shared {
            id,
            lockable: Lockable::new(cap),
            disconnected: false,
            send_count: 1,
            recv_count: 1,
        }
    }

    /// Send a message. `None` if the send has to wait: it then stands in the waiting list, under
    /// the signal that `block` gives.
    pub fn send(&mut self, msg: T, block: Option<Signal>) -> (res: Option<
        Result<(), TrySendTimeoutError<T>>,
    >)
        requires
            old(self)@.wf(),
            block matches Some(signal) ==> !old(self)@.lockable.registered(signal.token),
        ensures
            res == old(self)@.send_result(msg, block is Some),
            final(self)@ == old(self)@.after_send(msg, block),
            final(self)@.wf(),
    {
        if self.is_disconnected() {
            Some(Err(TrySendTimeoutError::Disconnected(msg)))
        } else if self.lockable.recv_waiting.len() > 0 {
            self.lockable.hand_over(msg);
            Some(Ok(()))
        } else {
            let has_room = match &self.lockable.send_waiting {
                Some(send_waiting) => self.lockable.queue.len() < send_waiting.cap,
                None => true,
            };
            if has_room {
                self.lockable.queue.push_back(msg);
                Some(Ok(()))
            } else if let Some(signal) = block {
                // Only bounded from here on
                let hook = Hook::new_slot(Some(msg), signal);
                if let Some(mut send_waiting) = self.lockable.send_waiting.take() {
                    send_waiting.signals.push_back(hook);
                    self.lockable.send_waiting = Some(send_waiting);
                }
                None
            } else {
                Some(Err(TrySendTimeoutError::Full(msg)))
            }
        }
    }

    /// Send a message, waiting for room where `block` says how.
    pub fn send_sync(&mut self, msg: T, block: Option<Blocking>) -> (step: Step<
        Result<(), TrySendTimeoutError<T>>,
    >)
        requires
            old(self)@.wf(),
            old(self)@.send_count > 0,
            block matches Some(wait) ==> !old(self)@.lockable.registered(wait.signal.token),
        ensures
            step == old(self)@.send_sync_result(msg, block),
            final(self)@ == old(self)@.after_send_sync(msg, block),
            final(self)@.wf(),
    {
        match block {
            None => match self.send(msg, None) {
                Some(res) => Step::Done(res),
                None => Step::Wait(None),
            },
            Some(wait) => match self.send(msg, Some(wait.signal)) {
                Some(res) => Step::Done(res),
                None => self.resume_send(wait),
            },
        }
    }

    /// Look after a send that had to wait.
    pub fn resume_send(&mut self, wait: Blocking) -> (step: Step<
        Result<(), TrySendTimeoutError<T>>,
    >)
        requires
            old(self)@.wf(),
            old(self)@.send_count > 0,
        ensures
            step == old(self)@.resume_send_result(wait),
            final(self)@ == old(self)@.after_resume_send(wait),
            final(self)@.wf(),
    {
        let token = wait.signal.token;
        let gone = Hook::new_slot(None, wait.signal);
        let hook = match self.lockable.sending(token) {
            Some(hook) => hook,
            None => &gone,
        };
        if let Some(deadline) = wait.deadline {
            match hook.wait_deadline_send(self.disconnected, deadline, wait.now) {
                Step::Done(Ok(())) => Step::Done(Ok(())),
                Step::Done(Err(timed_out)) => Step::Done(self.end_send(token, timed_out)),
                Step::Wait(dur) => Step::Wait(dur),
            }
        } else {
            match hook.wait_send(self.disconnected) {
                Step::Done(()) => Step::Done(self.end_send(token, false)),
                Step::Wait(dur) => Step::Wait(dur),
            }
        }
    }

    /// Take back the message of a send that need not wait any longer. The send has succeeded if
    /// there is no message to take back. A send that timed out leaves the waiting list.
    fn end_send(&mut self, token: u64, timed_out: bool) -> (res: Result<
        (),
        TrySendTimeoutError<T>,
    >)
        requires
            old(self)@.wf(),
            timed_out || old(self)@.recv_count == 0 || model::held_by(
                old(self)@.lockable.send_waiting,
                token,
            ) is None,
        ensures
            res == (match model::held_by(old(self)@.lockable.send_waiting, token) {
                Some(msg) => Err(
                    if old(self)@.disconnected {
                        TrySendTimeoutError::Disconnected(msg)
                    } else {
                        TrySendTimeoutError::Timeout(msg)
                    },
                ),
                None => Ok(()),
            }),
            final(self)@ == old(self)@.withdraw_send(token, timed_out),
            final(self)@.wf(),
    {
        let ghost start = self@;
        let ghost waiting = start.lockable.send_waiting;
        proof {
            model::lemma_first_index_found(waiting, model::bears(token));
            model::lemma_without_emptied(waiting, token);
            model::lemma_without(waiting, token);
            waiting.lemma_filter_len(model::lacks(token));
        }
        let mut msg = None;
        if let Some(mut send_waiting) = self.lockable.send_waiting.take() {
            let k = position(&send_waiting.signals, token);
            if let Some(mut hook) = send_waiting.signals.remove(k) {
                msg = hook.take();
                send_waiting.signals.insert(k, hook);
            }
            assert(send_waiting.signals@ =~= model::emptied(waiting, token));
            if timed_out {
                retain_others(&mut send_waiting.signals, token);
            }
            self.lockable.send_waiting = Some(send_waiting);
        } else {
            assert(model::without(waiting, token) =~= waiting);
        }
        assert(self@ =~= start.withdraw_send(token, timed_out));
        match msg {
            Some(msg) => if self.is_disconnected() {
                Err(TrySendTimeoutError::Disconnected(msg))
            } else {
                Err(TrySendTimeoutError::Timeout(msg))
            },
            None => Ok(()),
        }
    }

    /// Receive a message. `None` if the receive has to wait: it then stands in the waiting list,
    /// with the hook that `block` gives.
    pub fn recv(&mut self, block: Option<Hook<T>>) -> (res: Option<
        Result<T, TryRecvTimeoutError>,
    >)
        requires
            old(self)@.wf(),
            old(self)@.recv_count > 0,
            block matches Some(hook) ==> hook.held() is None && !old(self)@.lockable.registered(
                hook.signal.token,
            ),
        ensures
            res == old(self)@.recv_result(block is Some),
            final(self)@ == old(self)@.after_recv(block),
            final(self)@.wf(),
    {
        proof {
            self.lockable@.lemma_pull(true);
        }
        self.lockable.pull_pending(true);
        if let Some(msg) = self.lockable.queue.pop_front() {
            Some(Ok(msg))
        } else if self.is_disconnected() {
            Some(Err(TryRecvTimeoutError::Disconnected))
        } else if let Some(hook) = block {
            self.lockable.recv_waiting.push_back(hook);
            None
        } else {
            Some(Err(TryRecvTimeoutError::Empty))
        }
    }

    /// Receive a message, waiting for one where `block` says how.
    pub fn recv_sync(&mut self, block: Option<Blocking>) -> (step: Step<
        Result<T, TryRecvTimeoutError>,
    >)
        requires
            old(self)@.wf(),
            old(self)@.recv_count > 0,
            block matches Some(wait) ==> !old(self)@.lockable.registered(wait.signal.token),
        ensures
            step == old(self)@.recv_sync_result(block),
            final(self)@ == old(self)@.after_recv_sync(block),
            final(self)@.wf(),
    {
        match block {
            None => match self.recv(None) {
                Some(res) => Step::Done(res),
                None => Step::Wait(None),
            },
            Some(wait) => match self.recv(Some(Hook::new_slot(None, wait.signal))) {
                Some(res) => Step::Done(res),
                None => self.resume_recv(wait),
            },
        }
    }

    /// Look after a receive that had to wait.
    pub fn resume_recv(&mut self, wait: Blocking) -> (step: Step<Result<T, TryRecvTimeoutError>>)
        requires
            old(self)@.wf(),
            old(self)@.recv_count > 0,
        ensures
            step == old(self)@.resume_recv_result(wait),
            final(self)@ == old(self)@.after_resume_recv(wait),
            final(self)@.wf(),
    {
        let mut hook = self.lockable.claim(wait.signal);
        if let Some(deadline) = wait.deadline {
            match hook.wait_deadline_recv(self.disconnected, deadline, wait.now) {
                Step::Done(Ok(msg)) => Step::Done(Ok(msg)),
                Step::Done(Err(timed_out)) => Step::Done(self.end_recv(hook, timed_out)),
                Step::Wait(dur) => Step::Wait(dur),
            }
        } else {
            match hook.wait_recv(self.disconnected) {
                Step::Done(Some(msg)) => Step::Done(Ok(msg)),
                Step::Done(None) => Step::Done(
                    self.lockable.queue.pop_front().ok_or(TryRecvTimeoutError::Disconnected),
                ),
                Step::Wait(dur) => Step::Wait(dur),
            }
        }
    }

    /// End a receive that may not wait any longer: with the message in the slot, else with one from
    /// the queue. A receive that timed out leaves the waiting list.
    fn end_recv(&mut self, hook: Hook<T>, timed_out: bool) -> (res: Result<T, TryRecvTimeoutError>)
        requires
            old(self)@.wf(),
            old(self)@.recv_count > 0,
            hook.slot is Some,
        ensures
            res == (match hook.held() {
                Some(msg) => Ok(msg),
                None => if old(self)@.lockable.queue.len() > 0 {
                    Ok(old(self)@.lockable.queue[0])
                } else if old(self)@.disconnected {
                    Err(TryRecvTimeoutError::Disconnected)
                } else {
                    Err(TryRecvTimeoutError::Timeout)
                },
            }),
            hook.held() is None ==> final(self)@ == old(self)@.give_up_recv(
                hook.signal.token,
                timed_out,
            ),
            hook.held() is Some ==> final(self)@ == (ChannelView {
                lockable: LockableView {
                    queue: old(self)@.lockable.queue,
                    ..old(self)@.give_up_recv(hook.signal.token, timed_out).lockable
                },
                ..old(self)@
            }),
            final(self)@.wf(),
    {
        let mut hook = hook;
        if timed_out {
            // Remove our signal
            proof {
                model::lemma_without(self.lockable.recv_waiting@, hook.signal.token);
            }
            retain_others(&mut self.lockable.recv_waiting, hook.signal().token);
        }
        match hook.take() {
            Some(msg) => Ok(msg),
            None => {
                let disconnected = self.is_disconnected();
                if let Some(msg) = self.lockable.queue.pop_front() {
                    Ok(msg)
                } else if disconnected {
                    Err(TryRecvTimeoutError::Disconnected)
                } else {
                    Err(TryRecvTimeoutError::Timeout)
                }
            },
        }
    }

    /// Wake up those who wait for a message, down to the first stream, if there are messages.
    pub fn try_wake_receiver_if_pending(&mut self)
        requires
            old(self)@.wf(),
        ensures
            final(self)@ == old(self)@.wake(),
            final(self)@.wf(),
    {
        self.lockable.try_wake_receiver_if_pending();
    }

    /// Disconnect anything listening on this channel (this will not prevent receivers receiving
    /// msgs that have already been sent).
    pub fn disconnect_all(&mut self)
        requires
            old(self)@.lockable.wf(),
            model::loaded(
                old(self)@.lockable.send_waiting.take(old(self)@.lockable.pulled(false)),
            ),
        ensures
            final(self)@ == old(self)@.cut_off(),
            final(self)@.lockable.wf(),
    {
        self.disconnected = true;
        self.lockable.pull_pending(false);
        if let Some(send_waiting) = &self.lockable.send_waiting {
            fire_all(&send_waiting.signals, &mut self.lockable.fired);
        }
        fire_all(&self.lockable.recv_waiting, &mut self.lockable.fired);
        assert(self@ =~= old(self)@.cut_off());
    }

    /// Whether the channel is disconnected.
    pub fn is_disconnected(&self) -> (disconnected: bool)
        ensures
            disconnected == self@.disconnected,
    {
        self.disconnected
    }

    /// Whether there is no message in the queue.
    pub fn is_empty(&mut self) -> (empty: bool)
        requires
            old(self)@.wf(),
        ensures
            empty == (old(self)@.settle().lockable.queue.len() == 0),
            final(self)@ == old(self)@.settle(),
            final(self)@.wf(),
    {
        self.len() == 0
    }

    /// Whether the channel is bounded and as many messages as its capacity are in the queue.
    pub fn is_full(&mut self) -> (full: bool)
        requires
            old(self)@.wf(),
        ensures
            full == (old(self)@.lockable.cap matches Some(cap)
                && old(self)@.settle().lockable.queue.len() == cap),
            final(self)@ == old(self)@.settle(),
            final(self)@.wf(),
    {
        let len = self.len();
        match self.capacity() {
            Some(cap) => cap == len,
            None => false,
        }
    }

    /// The number of messages in the queue, once those that wait have gone there as far as there is
    /// room.
    pub fn len(&mut self) -> (len: usize)
        requires
            old(self)@.wf(),
        ensures
            len == old(self)@.settle().lockable.queue.len(),
            final(self)@ == old(self)@.settle(),
            final(self)@.wf(),
    {
        proof {
            self.lockable@.lemma_pull(false);
        }
        self.lockable.pull_pending(false);
        self.lockable.queue.len()
    }

    /// The capacity of a bounded channel.
    pub fn capacity(&self) -> (cap: Option<usize>)
        ensures
            cap == self@.lockable.cap,
    {
        match &self.lockable.send_waiting {
            Some(send_waiting) => Some(send_waiting.cap),
            None => None,
        }
    }

    /// The number of senders.
    pub fn sender_count(&self) -> (count: usize)
        ensures
            count == self@.send_count,
    {
        self.send_count
    }

    /// The number of receivers.
    pub fn receiver_count(&self) -> (count: usize)
        ensures
            count == self@.recv_count,
    {
        self.recv_count
    }

    /// What tells this channel from others.
    pub fn id(&self) -> (id: u64)
        ensures
            id == self@.id,
    {
        self.id
    }

    /// Count one sender more.
    pub fn add_sender(&mut self)
        requires
            old(self)@.wf(),
            0 < old(self)@.send_count < usize::MAX,
        ensures
            final(self)@ == old(self)@.add_sender(),
            final(self)@.wf(),
    {
        self.send_count += 1;
    }

    /// Count one receiver more.
    pub fn add_receiver(&mut self)
        requires
            old(self)@.wf(),
            0 < old(self)@.recv_count < usize::MAX,
        ensures
            final(self)@ == old(self)@.add_receiver(),
            final(self)@.wf(),
    {
        self.recv_count += 1;
    }

    /// Count one sender less. Notify receivers that all senders have been dropped if the number of
    /// senders drops to 0.
    pub fn remove_sender(&mut self)
        requires
            old(self)@.wf(),
            old(self)@.send_count > 0,
        ensures
            final(self)@ == old(self)@.drop_sender(),
            final(self)@.wf(),
    {
        proof {
            self.lockable@.lemma_pull(false);
        }
        self.send_count -= 1;
        if self.send_count == 0 {
            self.disconnect_all();
        }
    }

    /// Count one receiver less. Notify senders that all receivers have been dropped if the number
    /// of receivers drops to 0.
    pub fn remove_receiver(&mut self)
        requires
            old(self)@.wf(),
            old(self)@.recv_count > 0,
        ensures
            final(self)@ == old(self)@.drop_receiver(),
            final(self)@.wf(),
    {
        proof {
            self.lockable@.lemma_pull(false);
        }
        self.recv_count -= 1;
        if self.recv_count == 0 {
            self.disconnect_all();
        }
    }

    /// Take all messages out of the queue at once.
    pub fn drain(&mut self) -> (queue: VecDeque<T>)
        requires
            old(self)@.wf(),
            old(self)@.recv_count > 0,
        ensures
            queue@ == old(self)@.settle().lockable.queue,
            final(self)@ == old(self)@.after_drain(),
            final(self)@.wf(),
    {
        proof {
            self.lockable@.lemma_pull(false);
        }
        self.lockable.pull_pending(false);
        let mut queue = VecDeque::new();
        std::mem::swap(&mut queue, &mut self.lockable.queue);
        queue
    }

    /// Whether an operation of this channel goes under `token` already.
    pub fn is_registered(&self, token: u64) -> (registered: bool)
        ensures
            registered == self@.lockable.registered(token),
    {
        proof {
            model::lemma_borne(self@.lockable.send_waiting, token);
            model::lemma_borne(self@.lockable.recv_waiting, token);
            model::lemma_borne(self@.lockable.woken, token);
        }
        let sending = match &self.lockable.send_waiting {
            Some(send_waiting) => position(&send_waiting.signals, token)
                < send_waiting.signals.len(),
            None => false,
        };
        sending || position(&self.lockable.recv_waiting, token) < self.lockable.recv_waiting.len()
            || position(&self.lockable.woken, token) < self.lockable.woken.len()
    }

    /// The signals that were fired since the last call, for their parties to be woken up.
    pub fn take_fired(&mut self) -> (fired: Vec<Signal>)
        ensures
            fired@ == old(self)@.lockable.fired,
            final(self)@ == old(self)@.after_take_fired(),
            old(self)@.wf() ==> final(self)@.wf(),
    {
        let mut fired = Vec::new();
        std::mem::swap(&mut fired, &mut self.lockable.fired);
        fired
    }
}

} // verus!
