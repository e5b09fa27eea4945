//! What a channel stands for, and what each operation makes of it.

use crate::error::{TryRecvTimeoutError, TrySendTimeoutError};
use crate::hook::{self, Hook, Signal, Step};
use vstd::prelude::*;

verus! {

/// What a `Lockable` stands for.
#[verifier::ext_equal]
pub struct LockableView<T> {
    /// Messages in the channel, the oldest first.
    pub queue: Seq<T>,
    /// The capacity of a bounded channel.
    pub cap: Option<usize>,
    /// Those who wait for room, the first to come first.
    pub send_waiting: Seq<Hook<T>>,
    /// Those who wait for a message, the first to come first.
    pub recv_waiting: Seq<Hook<T>>,
    /// The messages handed to parties that have not come for them yet.
    pub woken: Seq<Hook<T>>,
    /// The signals whose parties are still to be woken up.
    pub fired: Seq<Signal>,
}

/// The index of the first element with property `p`, or the length where there is none.
pub open spec fn first_index<A>(s: Seq<A>, p: spec_fn(A) -> bool) -> nat
    decreases s.len(),
{
    if s.len() == 0 || p(s[0]) {
        0
    } else {
        1 + first_index(s.skip(1), p)
    }
}

/// `first_index` is the only index with its two properties.
pub proof fn lemma_first_index<A>(s: Seq<A>, p: spec_fn(A) -> bool, k: int)
    requires
        0 <= k <= s.len(),
        forall|i: int| 0 <= i < k ==> !p(#[trigger] s[i]),
        k < s.len() ==> p(s[k]),
    ensures
        first_index(s, p) == k,
    decreases s.len(),
{
    if k > 0 {
        assert(!p(s[0]));
        assert forall|i: int| 0 <= i < k - 1 implies !p(#[trigger] s.skip(1)[i]) by {
            assert(!p(s[i + 1]));
        }
        lemma_first_index(s.skip(1), p, k - 1);
    }
}

/// What `first_index` finds.
pub proof fn lemma_first_index_found<A>(s: Seq<A>, p: spec_fn(A) -> bool)
    ensures
        first_index(s, p) <= s.len(),
        first_index(s, p) < s.len() ==> p(s[first_index(s, p) as int]),
        forall|i: int| 0 <= i < first_index(s, p) ==> !p(#[trigger] s[i]),
    decreases s.len(),
{
    if s.len() > 0 && !p(s[0]) {
        lemma_first_index_found(s.skip(1), p);
        assert forall|i: int| 0 <= i < first_index(s, p) implies !p(#[trigger] s[i]) by {
            if i > 0 {
                assert(!p(s.skip(1)[i - 1]));
            }
        }
    }
}

/// Tells the hooks that bear `token`.
pub open spec fn bears<T>(token: u64) -> spec_fn(Hook<T>) -> bool {
    |hook: Hook<T>| hook.signal.token == token
}

/// Tells the hooks that do not bear `token`.
pub open spec fn lacks<T>(token: u64) -> spec_fn(Hook<T>) -> bool {
    |hook: Hook<T>| hook.signal.token != token
}

/// Tells the hooks whose party acquires the message that it is woken up for.
pub open spec fn takes<T>() -> spec_fn(Hook<T>) -> bool {
    |hook: Hook<T>| !hook.passes()
}

/// Tells the hooks of streams.
pub open spec fn streams<T>() -> spec_fn(Hook<T>) -> bool {
    |hook: Hook<T>| hook.signal.stream
}

/// The index of the hook that bears `token`, or the length where there is none.
pub open spec fn position<T>(hooks: Seq<Hook<T>>, token: u64) -> int {
    first_index(hooks, bears(token)) as int
}

/// The message in the slot of the hook that bears `token`. A party whose hook is gone from a list
/// has an empty slot.
pub open spec fn held_by<T>(hooks: Seq<Hook<T>>, token: u64) -> Option<T> {
    if position(hooks, token) < hooks.len() {
        hooks[position(hooks, token)].held()
    } else {
        None
    }
}

/// Whether some hook bears `token`.
pub open spec fn borne<T>(hooks: Seq<Hook<T>>, token: u64) -> bool {
    exists|i: int| 0 <= i < hooks.len() && #[trigger] hooks[i].signal.token == token
}

/// The hooks that do not bear `token`.
pub open spec fn without<T>(hooks: Seq<Hook<T>>, token: u64) -> Seq<Hook<T>> {
    hooks.filter(lacks(token))
}

/// The hooks, with the slot emptied of the one that bears `token`.
pub open spec fn emptied<T>(hooks: Seq<Hook<T>>, token: u64) -> Seq<Hook<T>> {
    let k = position(hooks, token);
    if k < hooks.len() {
        hooks.update(k, Hook::with_slot(None, hooks[k].signal))
    } else {
        hooks
    }
}

/// Nothing but hooks of the list is left of it without those that bear `token`.
pub proof fn lemma_without<T>(hooks: Seq<Hook<T>>, token: u64)
    ensures
        forall|i: int|
            0 <= i < without(hooks, token).len() ==> hooks.contains(
                #[trigger] without(hooks, token)[i],
            ) && without(hooks, token)[i].signal.token != token,
        distinct(hooks) ==> distinct(without(hooks, token)),
    decreases hooks.len(),
{
    reveal(Seq::filter);
    if hooks.len() > 0 {
        let front = hooks.drop_last();
        lemma_without(front, token);
        assert forall|i: int| 0 <= i < without(hooks, token).len() implies hooks.contains(
            #[trigger] without(hooks, token)[i],
        ) && without(hooks, token)[i].signal.token != token by {
            if i < without(front, token).len() {
                let hook = without(front, token)[i];
                assert(front.contains(hook));
                let j = front.index_of(hook);
                assert(hooks[j] == hook);
            } else {
                assert(hooks[hooks.len() - 1] == hooks.last());
            }
        }
    }
}

/// Where no two hooks bear one token, just one hook leaves with it.
pub proof fn lemma_without_one<T>(hooks: Seq<Hook<T>>, k: int)
    requires
        distinct(hooks),
        0 <= k < hooks.len(),
    ensures
        position(hooks, hooks[k].signal.token) == k,
        without(hooks, hooks[k].signal.token) == hooks.remove(k),
    decreases hooks.len(),
{
    let token = hooks[k].signal.token;
    lemma_first_index(hooks, bears(token), k);
    reveal(Seq::filter);
    let front = hooks.drop_last();
    if k < hooks.len() - 1 {
        lemma_without_one(front, k);
        assert(hooks.last().signal.token != token);
        assert(front.remove(k).push(hooks.last()) =~= hooks.remove(k));
    } else {
        lemma_unborne(front, token);
        assert(front =~= hooks.remove(k));
    }
}

/// Emptying the slot of the hook that bears `token` makes no difference to the others.
pub proof fn lemma_without_emptied<T>(hooks: Seq<Hook<T>>, token: u64)
    ensures
        without(emptied(hooks, token), token) == without(hooks, token),
{
    let k = position(hooks, token);
    lemma_first_index_found(hooks, bears(token));
    if k < hooks.len() {
        let other = emptied(hooks, token);
        lemma_without_update(hooks, k, other[k], token);
    }
}

proof fn lemma_without_update<T>(hooks: Seq<Hook<T>>, k: int, hook: Hook<T>, token: u64)
    requires
        0 <= k < hooks.len(),
        hooks[k].signal.token == token,
        hook.signal.token == token,
    ensures
        without(hooks.update(k, hook), token) == without(hooks, token),
    decreases hooks.len(),
{
    reveal(Seq::filter);
    let other = hooks.update(k, hook);
    if k < hooks.len() - 1 {
        assert(other.drop_last() =~= hooks.drop_last().update(k, hook));
        lemma_without_update(hooks.drop_last(), k, hook, token);
    } else {
        assert(other.drop_last() =~= hooks.drop_last());
    }
}

/// A hook that joins a list under a token of its own is the one found under it, and the list is
/// the same as before once it has left.
pub proof fn lemma_join<T>(hooks: Seq<Hook<T>>, hook: Hook<T>)
    requires
        !borne(hooks, hook.signal.token),
    ensures
        position(hooks.push(hook), hook.signal.token) == hooks.len(),
        held_by(hooks.push(hook), hook.signal.token) == hook.held(),
        without(hooks.push(hook), hook.signal.token) == hooks,
        held_by(hooks, hook.signal.token) is None,
{
    let token = hook.signal.token;
    let more = hooks.push(hook);
    assert forall|i: int| 0 <= i < hooks.len() implies !bears::<T>(token)(#[trigger] more[i]) by {
        assert(hooks[i].signal.token != token);
    }
    lemma_first_index(more, bears(token), hooks.len() as int);
    lemma_unborne(hooks, token);
    reveal(Seq::filter);
    assert(more.drop_last() =~= hooks);
}

/// A hook is found under `token` where one bears it, and only there.
pub proof fn lemma_borne<T>(hooks: Seq<Hook<T>>, token: u64)
    ensures
        borne(hooks, token) <==> position(hooks, token) < hooks.len(),
{
    lemma_first_index_found(hooks, bears(token));
    if borne(hooks, token) {
        let i = choose|i: int| 0 <= i < hooks.len() && #[trigger] hooks[i].signal.token == token;
        assert(bears::<T>(token)(hooks[i]));
    }
}

/// Where no hook bears `token`, none is found under it and none leaves with it.
pub proof fn lemma_unborne<T>(hooks: Seq<Hook<T>>, token: u64)
    requires
        !borne(hooks, token),
    ensures
        position(hooks, token) == hooks.len(),
        held_by(hooks, token) is None,
        without(hooks, token) == hooks,
        emptied(hooks, token) == hooks,
    decreases hooks.len(),
{
    reveal(Seq::filter);
    assert forall|i: int| 0 <= i < hooks.len() implies !bears::<T>(token)(#[trigger] hooks[i]) by {
        assert(hooks[i].signal.token != token);
    }
    lemma_first_index(hooks, bears(token), hooks.len() as int);
    if hooks.len() > 0 {
        let front = hooks.drop_last();
        assert forall|i: int| 0 <= i < front.len() implies (#[trigger] front[i]).signal.token
            != token by {
            assert(hooks[i].signal.token != token);
        }
        lemma_unborne(front, token);
        assert(hooks[hooks.len() - 1].signal.token != token);
        assert(front.push(hooks.last()) =~= hooks);
    }
}

/// The messages in the slots.
pub open spec fn messages<T>(hooks: Seq<Hook<T>>) -> Seq<T> {
    Seq::new(hooks.len(), |i: int| hooks[i].held()->0)
}

/// The signals of the hooks.
pub open spec fn signals<T>(hooks: Seq<Hook<T>>) -> Seq<Signal> {
    Seq::new(hooks.len(), |i: int| hooks[i].signal)
}

/// Whether no two of the hooks bear one token.
pub open spec fn distinct<T>(hooks: Seq<Hook<T>>) -> bool {
    forall|i: int, j: int|
        0 <= i < j < hooks.len() ==> (#[trigger] hooks[i]).signal.token != (
        #[trigger] hooks[j]).signal.token
}

/// Whether no hook of one list bears a token of the other.
pub open spec fn apart<T>(hooks: Seq<Hook<T>>, others: Seq<Hook<T>>) -> bool {
    forall|i: int, j: int|
        0 <= i < hooks.len() && 0 <= j < others.len() ==> (#[trigger] hooks[i]).signal.token != (
        #[trigger] others[j]).signal.token
}

/// Whether there is a message in every slot.
pub open spec fn loaded<T>(hooks: Seq<Hook<T>>) -> bool {
    forall|i: int| 0 <= i < hooks.len() ==> (#[trigger] hooks[i]).held() is Some
}

impl<T> LockableView<T> {
    /// What holds of the lists at all times: only a bounded channel has parties waiting to send;
    /// they have slots; there is no message in the slot of a party that waits for one; there is one
    /// in the slot of a party that was handed one; and no two operations share a token.
    pub open spec fn wf(self) -> bool {
        &&& self.cap is None ==> self.send_waiting.len() == 0
        &&& forall|i: int|
            0 <= i < self.send_waiting.len() ==> (#[trigger] self.send_waiting[i]).slot is Some
        &&& forall|i: int|
            0 <= i < self.recv_waiting.len() ==> (#[trigger] self.recv_waiting[i]).held() is None
        &&& loaded(self.woken)
        &&& distinct(self.send_waiting)
        &&& distinct(self.recv_waiting)
        &&& distinct(self.woken)
        &&& apart(self.send_waiting, self.recv_waiting)
        &&& apart(self.send_waiting, self.woken)
        &&& apart(self.recv_waiting, self.woken)
    }

    /// Whether an operation of this channel goes under `token` already.
    pub open spec fn registered(self, token: u64) -> bool {
        ||| borne(self.send_waiting, token)
        ||| borne(self.recv_waiting, token)
        ||| borne(self.woken, token)
    }

    /// The messages that a receiver can get: those in the queue, then those of the parties that
    /// wait to send.
    pub open spec fn contents(self) -> Seq<T> {
        self.queue + messages(self.send_waiting)
    }

    /// Whether the queue can grow without exceeding the capacity.
    pub open spec fn has_room(self) -> bool {
        match self.cap {
            Some(cap) => self.queue.len() < cap,
            None => true,
        }
    }

    /// How many of the waiting messages there is room for, with one place more than the capacity
    /// where `pull_extra` says so.
    pub open spec fn pulled(self, pull_extra: bool) -> int {
        match self.cap {
            Some(cap) => {
                let room = cap + (if pull_extra { 1int } else { 0 }) - self.queue.len();
                if room <= 0 {
                    0
                } else if room <= self.send_waiting.len() {
                    room
                } else {
                    self.send_waiting.len() as int
                }
            },
            None => 0,
        }
    }

    /// The waiting messages that there is room for go to the queue, and their senders are woken up.
    pub open spec fn pull(self, pull_extra: bool) -> Self {
        let n = self.pulled(pull_extra);
        LockableView {
            queue: self.queue + messages(self.send_waiting.take(n)),
            send_waiting: self.send_waiting.skip(n),
            fired: self.fired + signals(self.send_waiting.take(n)),
            ..self
        }
    }

    /// Pulling neither loses a message nor changes the order. With one place more than the capacity
    /// there is something in the queue if there is any message at all.
    pub proof fn lemma_pull(self, pull_extra: bool)
        requires
            self.wf(),
            loaded(self.send_waiting.take(self.pulled(pull_extra))),
        ensures
            self.pull(pull_extra).contents() == self.contents(),
            self.pull(pull_extra).wf(),
            self.pulled(pull_extra) == 0 ==> self.pull(pull_extra) == self,
            self.pull(true).queue.len() == 0 ==> self.contents().len() == 0,
            self.pull(pull_extra).pulled(pull_extra) == 0,
            loaded(self.send_waiting) ==> loaded(self.pull(pull_extra).send_waiting),
    {
        let n = self.pulled(pull_extra);
        assert(self.pull(pull_extra).contents() =~= self.contents());
        if n == 0 {
            assert(self.pull(pull_extra) =~= self);
        }
    }

    /// Where there are messages, all waiting receivers are woken up, down to the first stream.
    pub open spec fn wake(self) -> Self {
        let k = first_index(self.recv_waiting, streams()) as int;
        let n = if k < self.recv_waiting.len() {
            k + 1
        } else {
            k
        };
        if self.queue.len() == 0 {
            self
        } else {
            LockableView {
                recv_waiting: self.recv_waiting.skip(n),
                fired: self.fired + signals(self.recv_waiting.take(n)),
                ..self
            }
        }
    }

    /// The message goes to the first waiting receiver that takes it: into its slot, or into the
    /// queue for a receiver without one. Those before it are woken up as well. Where nobody takes
    /// the message, it goes to the queue.
    pub open spec fn hand_over(self, msg: T) -> Self {
        let k = first_index(self.recv_waiting, takes()) as int;
        if k < self.recv_waiting.len() {
            let rest = LockableView {
                recv_waiting: self.recv_waiting.skip(k + 1),
                fired: self.fired + signals(self.recv_waiting.take(k + 1)),
                ..self
            };
            if self.recv_waiting[k].slot is Some {
                LockableView {
                    woken: self.woken.push(
                        Hook::with_slot(Some(msg), self.recv_waiting[k].signal),
                    ),
                    ..rest
                }
            } else {
                LockableView { queue: self.queue.push(msg), ..rest }
            }
        } else {
            LockableView {
                recv_waiting: Seq::empty(),
                fired: self.fired + signals(self.recv_waiting),
                queue: self.queue.push(msg),
                ..self
            }
        }
    }
}


/// How a blocking operation waits.
#[derive(Copy, Clone, Debug, PartialEq, Eq, Structural)]
pub struct Blocking {
    /// How to wake up the party that blocks.
    pub signal: Signal,
    /// When to give up, in nanoseconds since a moment of the caller's choice; never if `None`.
    pub deadline: Option<u128>,
    /// The present moment, counted like the deadline.
    pub now: u128,
}

/// What a `Shared` stands for.
#[verifier::ext_equal]
pub struct ChannelView<T> {
    /// Tells this channel from others.
    pub id: u64,
    /// The messages and the waiting parties.
    pub lockable: LockableView<T>,
    /// Whether the channel is disconnected.
    pub disconnected: bool,
    /// How many senders there are.
    pub send_count: usize,
    /// How many receivers there are.
    pub recv_count: usize,
}

impl<T> ChannelView<T> {
    /// A channel with one sender and one receiver, and no message in it.
    pub open spec fn fresh(id: u64, cap: Option<usize>) -> Self {
        ChannelView {
            id,
            lockable: LockableView {
                queue: Seq::empty(),
                cap,
                send_waiting: Seq::empty(),
                recv_waiting: Seq::empty(),
                woken: Seq::empty(),
                fired: Seq::empty(),
            },
            disconnected: false,
            send_count: 1,
            recv_count: 1,
        }
    }

    /// What holds of a channel at all times.
    ///
    /// It is disconnected as soon as all senders or all receivers are gone, and only then. As long
    /// as there are receivers, all those who wait to send still offer their message. Once there are
    /// none, some of them have taken it back, and there is no room for the message of anybody who
    /// waits.
    pub open spec fn wf(self) -> bool {
        &&& self.lockable.wf()
        &&& self.disconnected <==> self.send_count == 0 || self.recv_count == 0
        &&& self.recv_count > 0 ==> loaded(self.lockable.send_waiting)
        &&& self.recv_count == 0 ==> self.lockable.pulled(false) == 0
    }

    /// The messages that a receiver can get, the oldest first.
    pub open spec fn contents(self) -> Seq<T> {
        self.lockable.contents()
    }

    /// How a send ends, or `None` where it has to wait.
    pub open spec fn send_result(self, msg: T, should_block: bool) -> Option<
        Result<(), TrySendTimeoutError<T>>,
    > {
        if self.disconnected {
            Some(Err(TrySendTimeoutError::Disconnected(msg)))
        } else if self.lockable.recv_waiting.len() > 0 || self.lockable.has_room() {
            Some(Ok(()))
        } else if should_block {
            None
        } else {
            Some(Err(TrySendTimeoutError::Full(msg)))
        }
    }

    /// The channel after a send: the message goes to those who wait for one, else to the queue if
    /// there is room, else to the waiting list if the send is to block.
    pub open spec fn after_send(self, msg: T, block: Option<Signal>) -> Self {
        if self.disconnected {
            self
        } else if self.lockable.recv_waiting.len() > 0 {
            ChannelView { lockable: self.lockable.hand_over(msg), ..self }
        } else if self.lockable.has_room() {
            let queue = self.lockable.queue.push(msg);
            ChannelView { lockable: LockableView { queue, ..self.lockable }, ..self }
        } else {
            match block {
                Some(signal) => {
                    let hook = Hook::with_slot(Some(msg), signal);
                    let send_waiting = self.lockable.send_waiting.push(hook);
                    ChannelView { lockable: LockableView { send_waiting, ..self.lockable }, ..self }
                },
                None => self,
            }
        }
    }

    /// How a blocked send stands when its party looks after it: over once somebody has taken the
    /// message, failed if the channel is disconnected or the deadline has passed.
    pub open spec fn resume_send_result(self, wait: Blocking) -> Step<
        Result<(), TrySendTimeoutError<T>>,
    > {
        match held_by(self.lockable.send_waiting, wait.signal.token) {
            None => Step::Done(Ok(())),
            Some(msg) => if self.disconnected {
                Step::Done(Err(TrySendTimeoutError::Disconnected(msg)))
            } else {
                match wait.deadline {
                    None => Step::Wait(None),
                    Some(deadline) => match hook::time_left(deadline, wait.now) {
                        Some(dur) => Step::Wait(Some(dur)),
                        None => Step::Done(Err(TrySendTimeoutError::Timeout(msg))),
                    },
                }
            },
        }
    }

    /// The channel after the party of a blocked send has looked after it. A send that times out
    /// leaves the waiting list; one that is cut off takes its message back.
    pub open spec fn after_resume_send(self, wait: Blocking) -> Self {
        let token = wait.signal.token;
        match self.resume_send_result(wait) {
            Step::Done(Err(TrySendTimeoutError::Timeout(_))) => self.withdraw_send(token, true),
            Step::Done(Err(TrySendTimeoutError::Disconnected(_))) => self.withdraw_send(
                token,
                false,
            ),
            _ => self,
        }
    }

    /// The channel without the message of the blocked send that goes under `token`, and without
    /// its hook where it timed out.
    pub open spec fn withdraw_send(self, token: u64, timed_out: bool) -> Self {
        let send_waiting = if timed_out {
            without(self.lockable.send_waiting, token)
        } else {
            emptied(self.lockable.send_waiting, token)
        };
        ChannelView { lockable: LockableView { send_waiting, ..self.lockable }, ..self }
    }

    /// How a send stands, blocking or not.
    pub open spec fn send_sync_result(self, msg: T, block: Option<Blocking>) -> Step<
        Result<(), TrySendTimeoutError<T>>,
    > {
        match self.send_result(msg, block is Some) {
            Some(res) => Step::Done(res),
            None => self.after_send(msg, Some(block->0.signal)).resume_send_result(block->0),
        }
    }

    /// The channel after a send, blocking or not.
    pub open spec fn after_send_sync(self, msg: T, block: Option<Blocking>) -> Self {
        match block {
            None => self.after_send(msg, None),
            Some(wait) => if self.send_result(msg, true) is Some {
                self.after_send(msg, Some(wait.signal))
            } else {
                self.after_send(msg, Some(wait.signal)).after_resume_send(wait)
            },
        }
    }

    /// How a receive ends, or `None` where it has to wait: with the oldest message if there is one.
    pub open spec fn recv_result(self, should_block: bool) -> Option<
        Result<T, TryRecvTimeoutError>,
    > {
        if self.contents().len() > 0 {
            Some(Ok(self.contents()[0]))
        } else if self.disconnected {
            Some(Err(TryRecvTimeoutError::Disconnected))
        } else if should_block {
            None
        } else {
            Some(Err(TryRecvTimeoutError::Empty))
        }
    }

    /// The channel after a receive: senders that wait get the room that there is, with one place
    /// more for the message that leaves; a receive that is to block goes to the waiting list.
    pub open spec fn after_recv(self, block: Option<Hook<T>>) -> Self {
        if self.contents().len() > 0 {
            let lockable = self.lockable.pull(true);
            let queue = lockable.queue.skip(1);
            ChannelView { lockable: LockableView { queue, ..lockable }, ..self }
        } else if self.disconnected {
            self
        } else {
            match block {
                Some(hook) => {
                    let recv_waiting = self.lockable.recv_waiting.push(hook);
                    ChannelView { lockable: LockableView { recv_waiting, ..self.lockable }, ..self }
                },
                None => self,
            }
        }
    }

    /// How a blocked receive stands when its party looks after it. A party that was handed no
    /// message and may not wait any longer gets one from the queue if there is one.
    pub open spec fn resume_recv_result(self, wait: Blocking) -> Step<
        Result<T, TryRecvTimeoutError>,
    > {
        match held_by(self.lockable.woken, wait.signal.token) {
            Some(msg) => Step::Done(Ok(msg)),
            None => if !self.disconnected && wait.deadline is None {
                Step::Wait(None)
            } else if !self.disconnected && hook::time_left(wait.deadline->0, wait.now) is Some {
                Step::Wait(hook::time_left(wait.deadline->0, wait.now))
            } else if self.lockable.queue.len() > 0 {
                Step::Done(Ok(self.lockable.queue[0]))
            } else if self.disconnected {
                Step::Done(Err(TryRecvTimeoutError::Disconnected))
            } else {
                Step::Done(Err(TryRecvTimeoutError::Timeout))
            },
        }
    }

    /// The channel after the party of a blocked receive has looked after it.
    pub open spec fn after_resume_recv(self, wait: Blocking) -> Self {
        let token = wait.signal.token;
        let k = position(self.lockable.woken, token);
        if held_by(self.lockable.woken, token) is Some {
            let woken = self.lockable.woken.remove(k);
            ChannelView { lockable: LockableView { woken, ..self.lockable }, ..self }
        } else if self.resume_recv_result(wait) is Wait {
            self
        } else {
            self.give_up_recv(token, !self.disconnected)
        }
    }

    /// The channel without its oldest queued message, and without the hook of the blocked receive
    /// that goes under `token` where it timed out.
    pub open spec fn give_up_recv(self, token: u64, timed_out: bool) -> Self {
        let recv_waiting = if timed_out {
            without(self.lockable.recv_waiting, token)
        } else {
            self.lockable.recv_waiting
        };
        let queue = if self.lockable.queue.len() > 0 {
            self.lockable.queue.skip(1)
        } else {
            self.lockable.queue
        };
        ChannelView { lockable: LockableView { recv_waiting, queue, ..self.lockable }, ..self }
    }

    /// How a receive stands, blocking or not.
    pub open spec fn recv_sync_result(self, block: Option<Blocking>) -> Step<
        Result<T, TryRecvTimeoutError>,
    > {
        match self.recv_result(block is Some) {
            Some(res) => Step::Done(res),
            None => self.after_recv(
                Some(Hook::with_slot(None, block->0.signal)),
            ).resume_recv_result(block->0),
        }
    }

    /// The channel after a receive, blocking or not.
    pub open spec fn after_recv_sync(self, block: Option<Blocking>) -> Self {
        match block {
            None => self.after_recv(None),
            Some(wait) => {
                let after = self.after_recv(Some(Hook::with_slot(None, wait.signal)));
                if self.recv_result(true) is Some {
                    after
                } else {
                    after.after_resume_recv(wait)
                }
            },
        }
    }

    /// The channel after the waiting messages have gone to the queue as far as there is room.
    pub open spec fn settle(self) -> Self {
        ChannelView { lockable: self.lockable.pull(false), ..self }
    }

    /// The channel after those who wait for a message were woken up because there are some.
    pub open spec fn wake(self) -> Self {
        ChannelView { lockable: self.lockable.wake(), ..self }
    }

    /// The channel after the signals that were fired have been collected.
    pub open spec fn after_take_fired(self) -> Self {
        ChannelView {
            lockable: LockableView { fired: Seq::empty(), ..self.lockable },
            ..self
        }
    }

    /// The channel cut off: nothing can be sent any more, and everybody who waits is woken up.
    pub open spec fn cut_off(self) -> Self {
        let lockable = self.lockable.pull(false);
        ChannelView {
            disconnected: true,
            lockable: LockableView {
                fired: lockable.fired + signals(lockable.send_waiting) + signals(
                    lockable.recv_waiting,
                ),
                ..lockable
            },
            ..self
        }
    }

    /// The channel with one sender more.
    pub open spec fn add_sender(self) -> Self {
        ChannelView { send_count: (self.send_count + 1) as usize, ..self }
    }

    /// The channel with one receiver more.
    pub open spec fn add_receiver(self) -> Self {
        ChannelView { recv_count: (self.recv_count + 1) as usize, ..self }
    }

    /// The channel with one sender less, cut off if that was the last.
    pub open spec fn drop_sender(self) -> Self {
        let less = ChannelView { send_count: (self.send_count - 1) as usize, ..self };
        if self.send_count == 1 {
            less.cut_off()
        } else {
            less
        }
    }

    /// The channel with one receiver less, cut off if that was the last.
    pub open spec fn drop_receiver(self) -> Self {
        let less = ChannelView { recv_count: (self.recv_count - 1) as usize, ..self };
        if self.recv_count == 1 {
            less.cut_off()
        } else {
            less
        }
    }

    /// The channel after its queue was drained.
    pub open spec fn after_drain(self) -> Self {
        let lockable = self.lockable.pull(false);
        ChannelView { lockable: LockableView { queue: Seq::empty(), ..lockable }, ..self }
    }
}

} // verus!
