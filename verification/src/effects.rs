//! What each operation does, in terms of the queue, the lists, the slots and the counts themselves.

use crate::error::{
    RecvError, RecvTimeoutError, SendError, SendTimeoutError, TryRecvError, TryRecvTimeoutError,
    TrySendError, TrySendTimeoutError,
};
use crate::hook::{self, Hook, Signal, Step};
use crate::model::{self, Blocking, ChannelView, LockableView};
use vstd::prelude::*;
use vstd::std_specs::convert::FromSpec;

verus! {

// ---- Words ----

/// Whether the queue can take another message.
pub open spec fn room<T>(lists: LockableView<T>) -> bool {
    lists.cap matches Some(cap) ==> lists.queue.len() < cap
}

/// Whether none of the hooks bears `token`.
pub open spec fn unused<T>(hooks: Seq<Hook<T>>, token: u64) -> bool {
    forall|i: int| 0 <= i < hooks.len() ==> (#[trigger] hooks[i]).signal.token != token
}

/// Whether `later` is `earlier` with the signals of `hooks` fired after it, in order.
pub open spec fn fired_in_order<T>(
    earlier: Seq<Signal>,
    later: Seq<Signal>,
    hooks: Seq<Hook<T>>,
) -> bool {
    &&& later.len() == earlier.len() + hooks.len()
    &&& forall|i: int| 0 <= i < earlier.len() ==> #[trigger] later[i] == earlier[i]
    &&& forall|i: int|
        0 <= i < hooks.len() ==> later[earlier.len() + i] == (#[trigger] hooks[i]).signal
}

/// Whether messages moved from the front of the line of waiting senders to the end of the queue, as
/// many as a queue of `limit` messages has room for, and the senders of just those were fired.
pub open spec fn moved_up<T>(
    before: LockableView<T>,
    after: LockableView<T>,
    limit: int,
) -> bool {
    let n = before.send_waiting.len() - after.send_waiting.len();
    let len = before.queue.len();
    // Those at the front have left the line, and the others stand in it as before.
    &&& 0 <= n
    &&& after.send_waiting == before.send_waiting.skip(n)
    // Their messages follow those that were in the queue, and come from their slots.
    &&& after.queue.len() == len + n
    &&& forall|i: int| 0 <= i < len ==> #[trigger] after.queue[i] == before.queue[i]
    &&& forall|i: int|
        0 <= i < n ==> (#[trigger] before.send_waiting[i]).slot == Some(Some(after.queue[len + i]))
    &&& fired_in_order(before.fired, after.fired, before.send_waiting.take(n))
    // They are as many as there is room for.
    &&& before.cap is None ==> n == 0
    &&& n > 0 ==> after.queue.len() <= limit
    &&& before.cap is Some ==> after.queue.len() >= limit || after.send_waiting.len() == 0
    // Nothing else has changed.
    &&& after.cap == before.cap
    &&& after.recv_waiting == before.recv_waiting
    &&& after.woken == before.woken
}

/// Whether there is a message in the slot of every waiting sender that a queue of `limit` messages
/// has room for.
pub open spec fn ready<T>(lists: LockableView<T>, limit: int) -> bool {
    forall|i: int|
        0 <= i < lists.send_waiting.len() && lists.queue.len() + i < limit ==> (
        #[trigger] lists.send_waiting[i]).slot matches Some(Some(_))
}

/// The capacity, or nothing for an unbounded channel.
pub open spec fn limit<T>(lists: LockableView<T>) -> int {
    match lists.cap {
        Some(cap) => cap as int,
        None => 0,
    }
}

/// The places that count beyond the capacity.
pub open spec fn extra(pull_extra: bool) -> int {
    if pull_extra {
        1
    } else {
        0
    }
}

/// How long a wait may go on: `None` where it may not.
pub open spec fn patience(wait: Blocking) -> Option<Option<int>> {
    match wait.deadline {
        None => Some(None),
        Some(deadline) => if wait.now <= deadline {
            Some(Some(deadline - wait.now))
        } else {
            None
        },
    }
}

/// Whether a step is a wait for as long as `patience` says.
pub open spec fn waits<R>(step: Step<R>, wait: Blocking) -> bool {
    match (step, patience(wait)) {
        (Step::Wait(None), Some(None)) => true,
        (Step::Wait(Some(dur)), Some(Some(left))) => dur == left,
        _ => false,
    }
}

// ---- Small parts ----

/// What a hook is made of: its slot, and the message in it.
pub proof fn law_hook_slots<T>(msg: Option<T>, signal: Signal, hook: Hook<T>)
    ensures
        Hook::with_slot(msg, signal).slot == Some(msg),
        Hook::with_slot(msg, signal).signal == signal,
        forall|m: T| hook.held() == Some(m) <==> hook.slot == Some(Some(m)),
        hook.held() is None <==> hook.slot is None || hook.slot == Some(None::<T>),
        hook.passes() <==> hook.slot is None && hook.signal.stream,
{
}

/// The time left is the difference, and there is none once the deadline has passed.
pub proof fn law_time_left(deadline: u128, now: u128)
    ensures
        now <= deadline ==> hook::time_left(deadline, now) is Some && hook::time_left(
            deadline,
            now,
        )->0 + now == deadline,
        now > deadline ==> hook::time_left(deadline, now) is None,
{
}

/// Errors of operations that only fail on a disconnected channel become the same of those that can
/// fail otherwise too, with their message.
pub proof fn law_disconnected_stays_disconnected<T>(send: SendError<T>, recv: RecvError)
    ensures
        <TrySendError<T> as FromSpec<SendError<T>>>::obeys_from_spec(),
        <TrySendError<T> as FromSpec<SendError<T>>>::from_spec(send) == TrySendError::Disconnected(
            send.0,
        ),
        <SendTimeoutError<T> as FromSpec<SendError<T>>>::obeys_from_spec(),
        <SendTimeoutError<T> as FromSpec<SendError<T>>>::from_spec(send)
            == SendTimeoutError::Disconnected(send.0),
        <TryRecvError as FromSpec<RecvError>>::obeys_from_spec(),
        <TryRecvError as FromSpec<RecvError>>::from_spec(recv) == TryRecvError::Disconnected,
        <RecvTimeoutError as FromSpec<RecvError>>::obeys_from_spec(),
        <RecvTimeoutError as FromSpec<RecvError>>::from_spec(recv)
            == RecvTimeoutError::Disconnected,
{
}

/// A token is registered if and only if a hook in one of the lists bears it.
pub proof fn law_registered<T>(lists: LockableView<T>, token: u64)
    ensures
        !lists.registered(token) <==> unused(lists.send_waiting, token) && unused(
            lists.recv_waiting,
            token,
        ) && unused(lists.woken, token),
{
    if unused(lists.send_waiting, token) && unused(lists.recv_waiting, token) && unused(
        lists.woken,
        token,
    ) {
        assert(!lists.registered(token));
    }
    if !lists.registered(token) {
        assert(unused(lists.send_waiting, token));
    }
}

/// What is found under a token: the message in the slot of the one hook that bears it, or nothing.
pub proof fn law_held_by<T>(hooks: Seq<Hook<T>>, token: u64)
    requires
        model::distinct(hooks),
    ensures
        forall|k: int|
            0 <= k < hooks.len() && (#[trigger] hooks[k]).signal.token == token ==> {
                &&& forall|m: T|
                    model::held_by(hooks, token) == Some(m) <==> hooks[k].slot == Some(Some(m))
            },
        unused(hooks, token) ==> model::held_by(hooks, token) is None,
{
    assert forall|k: int|
        0 <= k < hooks.len() && (#[trigger] hooks[k]).signal.token == token implies {
        &&& forall|m: T|
            model::held_by(hooks, token) == Some(m) <==> hooks[k].slot == Some(Some(m))
    } by {
        model::lemma_without_one(hooks, k);
    }
    if unused(hooks, token) {
        model::lemma_unborne(hooks, token);
    }
}

/// The messages of a channel are those in the queue, then those in the slots of the parties that
/// wait to send.
pub proof fn law_contents<T>(chan: ChannelView<T>)
    requires
        chan.wf(),
        chan.recv_count > 0,
    ensures
        chan.contents().len() == chan.lockable.queue.len() + chan.lockable.send_waiting.len(),
        forall|i: int|
            0 <= i < chan.lockable.queue.len() ==> #[trigger] chan.contents()[i]
                == chan.lockable.queue[i],
        forall|i: int|
            0 <= i < chan.lockable.send_waiting.len() ==> (
            #[trigger] chan.lockable.send_waiting[i]).slot == Some(
                Some(chan.contents()[chan.lockable.queue.len() + i]),
            ),
{
}

// ---- Making a channel ----

/// A channel that was just made is empty and connected, nobody waits, and it has exactly one sender
/// and one receiver, whatever its capacity. So it is disconnected as soon as either is given up.
pub proof fn law_fresh_channel<T>(id: u64, cap: Option<usize>)
    ensures
        ({
            let chan = ChannelView::<T>::fresh(id, cap);
            &&& chan.id == id
            &&& chan.lockable.cap == cap
            &&& chan.lockable.queue.len() == 0
            &&& chan.lockable.send_waiting.len() == 0
            &&& chan.lockable.recv_waiting.len() == 0
            &&& chan.lockable.woken.len() == 0
            &&& chan.lockable.fired.len() == 0
            &&& !chan.disconnected
            &&& chan.send_count == 1
            &&& chan.recv_count == 1
            &&& chan.drop_sender().disconnected
            &&& chan.drop_receiver().disconnected
        }),
{
}

// ---- Sending ----

/// How a send ends: it fails with its message on a disconnected channel, succeeds if somebody waits
/// for a message or there is room, and otherwise waits if it may or fails with its message.
pub proof fn law_send_result<T>(chan: ChannelView<T>, msg: T, may_wait: bool)
    ensures
        chan.send_result(msg, may_wait) is None <==> !chan.disconnected && may_wait
            && chan.lockable.recv_waiting.len() == 0 && !room(chan.lockable),
        chan.send_result(msg, may_wait) == Some(Ok::<(), TrySendTimeoutError<T>>(()))
            <==> !chan.disconnected && (chan.lockable.recv_waiting.len() > 0 || room(
            chan.lockable,
        )),
        chan.send_result(msg, may_wait) matches Some(Err(err)) ==> err == (if chan.disconnected {
            TrySendTimeoutError::Disconnected(msg)
        } else {
            TrySendTimeoutError::Full(msg)
        }),
        chan.lockable.has_room() <==> room(chan.lockable),
{
}

/// What a send changes while nobody waits for a message: it puts the message last into the queue if
/// there is room, or else, if it may wait, puts itself with the message last in line. Whatever else
/// is in the channel stays, and so do the handles.
pub proof fn law_send_joins_queue_or_line<T>(chan: ChannelView<T>, msg: T, block: Option<Signal>)
    requires
        chan.lockable.recv_waiting.len() == 0 || chan.disconnected,
    ensures
        ({
            let after = chan.after_send(msg, block);
            let lists = chan.lockable;
            let queue = lists.queue.push(msg);
            let hook = Hook { slot: Some(Some(msg)), signal: block->0 };
            let send_waiting = lists.send_waiting.push(hook);
            if chan.disconnected || (!room(lists) && block is None) {
                after == chan
            } else if room(lists) {
                after == ChannelView { lockable: LockableView { queue, ..lists }, ..chan }
            } else {
                after == ChannelView { lockable: LockableView { send_waiting, ..lists }, ..chan }
            }
        }),
{
}

/// What a send changes while somebody waits for a message. Those at the front of the line who have
/// no slot and are streams are woken up, and leave the line; so does the next one, at `k`, who gets
/// the message: into the slot, or last in the queue. If there is no such one, the message goes last
/// into the queue. Whatever else is in the channel stays, and so do the handles.
pub proof fn law_send_goes_to_waiting_receiver<T>(
    chan: ChannelView<T>,
    msg: T,
    block: Option<Signal>,
    k: int,
)
    requires
        chan.lockable.recv_waiting.len() > 0,
        !chan.disconnected,
        0 <= k <= chan.lockable.recv_waiting.len(),
        forall|i: int|
            0 <= i < k ==> (#[trigger] chan.lockable.recv_waiting[i]).slot is None
                && chan.lockable.recv_waiting[i].signal.stream,
        k < chan.lockable.recv_waiting.len() ==> !(chan.lockable.recv_waiting[k].slot is None
            && chan.lockable.recv_waiting[k].signal.stream),
    ensures
        ({
            let after = chan.after_send(msg, block);
            let lists = chan.lockable;
            let line = lists.recv_waiting;
            let n = if k < line.len() {
                k + 1
            } else {
                k
            };
            let to_slot = k < line.len() && line[k].slot is Some;
            let hook = Hook { slot: Some(Some(msg)), signal: line[k].signal };
            &&& after == ChannelView {
                lockable: LockableView {
                    queue: if to_slot {
                        lists.queue
                    } else {
                        lists.queue.push(msg)
                    },
                    woken: if to_slot {
                        lists.woken.push(hook)
                    } else {
                        lists.woken
                    },
                    recv_waiting: line.skip(n),
                    fired: after.lockable.fired,
                    ..lists
                },
                ..chan
            }
            &&& fired_in_order(lists.fired, after.lockable.fired, line.take(n))
        }),
{
    let lists = chan.lockable;
    let line = lists.recv_waiting;
    let after = chan.after_send(msg, block);
    model::lemma_first_index(line, model::takes(), k);
    if k < line.len() {
        assert(after.lockable.fired =~= lists.fired + model::signals(line.take(k + 1)));
    } else {
        assert(line.take(k) =~= line);
        assert(line.skip(k) =~= Seq::empty());
    }
}

/// A send without leave to wait, or one that need not wait, ends at once.
pub proof fn law_send_that_need_not_wait<T>(chan: ChannelView<T>, msg: T, block: Option<Blocking>)
    requires
        block is None || chan.disconnected || chan.lockable.recv_waiting.len() > 0 || room(
            chan.lockable,
        ),
    ensures
        chan.send_sync_result(msg, block) == Step::Done(chan.send_result(msg, block is Some)->0),
        chan.after_send_sync(msg, block) == chan.after_send(
            msg,
            match block {
                Some(wait) => Some(wait.signal),
                None => None,
            },
        ),
{
}

/// A send that has to wait stands last in line with its message. If its deadline has passed already,
/// its message comes back and the channel is as it was.
pub proof fn law_send_that_has_to_wait<T>(chan: ChannelView<T>, msg: T, wait: Blocking)
    requires
        chan.wf(),
        !chan.disconnected,
        chan.lockable.recv_waiting.len() == 0,
        !room(chan.lockable),
        unused(chan.lockable.send_waiting, wait.signal.token),
    ensures
        ({
            let step = chan.send_sync_result(msg, Some(wait));
            let after = chan.after_send_sync(msg, Some(wait));
            let hook = Hook { slot: Some(Some(msg)), signal: wait.signal };
            let send_waiting = chan.lockable.send_waiting.push(hook);
            if patience(wait) is Some {
                &&& waits(step, wait)
                &&& after == ChannelView {
                    lockable: LockableView { send_waiting, ..chan.lockable },
                    ..chan
                }
            } else {
                &&& step == Step::<Result<(), TrySendTimeoutError<T>>>::Done(
                    Err(TrySendTimeoutError::Timeout(msg)),
                )
                &&& after == chan
            }
        }),
{
    let hook = Hook::with_slot(Some(msg), wait.signal);
    model::lemma_join(chan.lockable.send_waiting, hook);
}

/// A blocked send whose message is still in its slot: it goes on waiting, or its message comes back
/// because the channel is disconnected or the deadline has passed. One that times out leaves the
/// line, and all others stay in line in their order; one that is cut off only empties its own slot.
/// Whatever else is in the channel stays, and so do the handles.
pub proof fn law_blocked_send_not_served<T>(
    chan: ChannelView<T>,
    wait: Blocking,
    k: int,
    msg: T,
)
    requires
        chan.wf(),
        0 <= k < chan.lockable.send_waiting.len(),
        chan.lockable.send_waiting[k].signal.token == wait.signal.token,
        chan.lockable.send_waiting[k].slot == Some(Some(msg)),
    ensures
        ({
            let step = chan.resume_send_result(wait);
            let after = chan.after_resume_send(wait);
            let line = chan.lockable.send_waiting;
            let empty = Hook { slot: Some(None::<T>), signal: line[k].signal };
            if chan.disconnected {
                &&& step == Step::<Result<(), TrySendTimeoutError<T>>>::Done(
                    Err(TrySendTimeoutError::Disconnected(msg)),
                )
                &&& after == ChannelView {
                    lockable: LockableView {
                        send_waiting: line.update(k, empty),
                        ..chan.lockable
                    },
                    ..chan
                }
            } else if patience(wait) is Some {
                &&& waits(step, wait)
                &&& after == chan
            } else {
                &&& step == Step::<Result<(), TrySendTimeoutError<T>>>::Done(
                    Err(TrySendTimeoutError::Timeout(msg)),
                )
                &&& after == ChannelView {
                    lockable: LockableView { send_waiting: line.remove(k), ..chan.lockable },
                    ..chan
                }
            }
        }),
{
    model::lemma_without_one(chan.lockable.send_waiting, k);
}

/// A send that times out takes its own message out of the channel, and all others stay there in
/// their order.
pub proof fn law_timed_out_send_leaves_others_in_order<T>(
    chan: ChannelView<T>,
    wait: Blocking,
    k: int,
)
    requires
        chan.wf(),
        !chan.disconnected,
        0 <= k < chan.lockable.send_waiting.len(),
        chan.lockable.send_waiting[k].signal.token == wait.signal.token,
        wait.deadline matches Some(deadline) && deadline < wait.now,
    ensures
        chan.resume_send_result(wait) == Step::<Result<(), TrySendTimeoutError<T>>>::Done(
            Err(TrySendTimeoutError::Timeout(chan.contents()[chan.lockable.queue.len() + k])),
        ),
        chan.after_resume_send(wait).contents() == chan.contents().remove(
            chan.lockable.queue.len() + k,
        ),
{
    let msg = chan.contents()[chan.lockable.queue.len() + k];
    law_contents(chan);
    law_blocked_send_not_served(chan, wait, k, msg);
    assert(chan.after_resume_send(wait).contents() =~= chan.contents().remove(
        chan.lockable.queue.len() + k,
    ));
}

/// A blocked send whose message was taken, so that its hook is gone or its slot empty, has succeeded,
/// and the channel stays as it is.
pub proof fn law_blocked_send_served<T>(chan: ChannelView<T>, wait: Blocking)
    requires
        chan.wf(),
        forall|i: int|
            0 <= i < chan.lockable.send_waiting.len() && (
            #[trigger] chan.lockable.send_waiting[i]).signal.token == wait.signal.token
                ==> chan.lockable.send_waiting[i].slot == Some(None::<T>),
    ensures
        chan.resume_send_result(wait) == Step::Done(Ok::<(), TrySendTimeoutError<T>>(())),
        chan.after_resume_send(wait) == chan,
{
    model::lemma_first_index_found(
        chan.lockable.send_waiting,
        model::bears(wait.signal.token),
    );
}

// ---- Receiving ----

/// Moving waiting messages up: as many as there is room for, from the front of the line to the end of
/// the queue.
pub proof fn law_pull_moves_up<T>(lists: LockableView<T>, pull_extra: bool)
    requires
        lists.wf(),
        ready(lists, limit(lists) + extra(pull_extra)),
    ensures
        moved_up(lists, lists.pull(pull_extra), limit(lists) + extra(pull_extra)),
{
}

/// A receive succeeds if and only if there is a message, in the queue or in the slot of a waiting
/// sender, and gets the first. Waiting messages move up as far as there is room for them, with the
/// place counted that becomes free; whatever else is in the channel stays, and so do the handles.
pub proof fn law_recv_gets_first<T>(chan: ChannelView<T>, block: Option<Hook<T>>)
    requires
        chan.wf(),
        chan.recv_count > 0,
    ensures
        chan.recv_result(block is Some) matches Some(Ok(_)) <==> chan.lockable.queue.len()
            + chan.lockable.send_waiting.len() > 0,
        chan.recv_result(block is Some) matches Some(Ok(msg)) ==> {
            let after = chan.after_recv(block);
            &&& after == ChannelView { lockable: after.lockable, ..chan }
            &&& moved_up(
                chan.lockable,
                LockableView { queue: seq![msg] + after.lockable.queue, ..after.lockable },
                limit(chan.lockable) + 1,
            )
        },
{
    if chan.contents().len() > 0 {
        let after = chan.after_recv(block);
        let pulled = chan.lockable.pull(true);
        let msg = chan.contents()[0];
        law_pull_moves_up(chan.lockable, true);
        chan.lockable.lemma_pull(true);
        assert(pulled.contents()[0] == msg);
        assert(seq![msg] + after.lockable.queue =~= pulled.queue);
    }
}

/// A receive that finds no message says whether the channel is disconnected, or waits if it may: then
/// it stands last in line with its hook. Whatever else is in the channel stays, and so do the
/// handles.
pub proof fn law_recv_finds_nothing<T>(chan: ChannelView<T>, block: Option<Hook<T>>)
    requires
        chan.lockable.queue.len() == 0,
        chan.lockable.send_waiting.len() == 0,
    ensures
        ({
            let res = chan.recv_result(block is Some);
            let after = chan.after_recv(block);
            if chan.disconnected {
                &&& res == Some(Err::<T, TryRecvTimeoutError>(TryRecvTimeoutError::Disconnected))
                &&& after == chan
            } else if block is None {
                &&& res == Some(Err::<T, TryRecvTimeoutError>(TryRecvTimeoutError::Empty))
                &&& after == chan
            } else {
                &&& res is None
                &&& after == ChannelView {
                    lockable: LockableView {
                        recv_waiting: chan.lockable.recv_waiting.push(block->0),
                        ..chan.lockable
                    },
                    ..chan
                }
            }
        }),
{
}

/// A receive without leave to wait, or one that need not wait, ends at once.
pub proof fn law_recv_that_need_not_wait<T>(chan: ChannelView<T>, block: Option<Blocking>)
    requires
        block is None || chan.disconnected || chan.lockable.queue.len()
            + chan.lockable.send_waiting.len() > 0,
    ensures
        chan.recv_sync_result(block) == Step::Done(chan.recv_result(block is Some)->0),
        chan.after_recv_sync(block) == chan.after_recv(
            match block {
                Some(wait) => Some(Hook { slot: Some(None::<T>), signal: wait.signal }),
                None => None,
            },
        ),
{
}

/// A receive that has to wait stands last in line with an empty slot. If its deadline has passed
/// already, it fails and the channel is as it was.
pub proof fn law_recv_that_has_to_wait<T>(chan: ChannelView<T>, wait: Blocking)
    requires
        chan.wf(),
        !chan.disconnected,
        chan.lockable.queue.len() == 0,
        chan.lockable.send_waiting.len() == 0,
        unused(chan.lockable.recv_waiting, wait.signal.token),
        unused(chan.lockable.woken, wait.signal.token),
    ensures
        ({
            let step = chan.recv_sync_result(Some(wait));
            let after = chan.after_recv_sync(Some(wait));
            let hook = Hook { slot: Some(None::<T>), signal: wait.signal };
            let recv_waiting = chan.lockable.recv_waiting.push(hook);
            if patience(wait) is Some {
                &&& waits(step, wait)
                &&& after == ChannelView {
                    lockable: LockableView { recv_waiting, ..chan.lockable },
                    ..chan
                }
            } else {
                &&& step == Step::<Result<T, TryRecvTimeoutError>>::Done(
                    Err(TryRecvTimeoutError::Timeout),
                )
                &&& after == chan
            }
        }),
{
    let hook = Hook::<T>::with_slot(None, wait.signal);
    model::lemma_join(chan.lockable.recv_waiting, hook);
    model::lemma_unborne(chan.lockable.woken, wait.signal.token);
}

/// A blocked receive that was handed a message gets that message. It leaves those who still wait as
/// they are, and everything else in the channel, and the handles.
pub proof fn law_blocked_recv_served<T>(chan: ChannelView<T>, wait: Blocking, k: int, msg: T)
    requires
        chan.wf(),
        0 <= k < chan.lockable.woken.len(),
        chan.lockable.woken[k].signal.token == wait.signal.token,
        chan.lockable.woken[k].slot == Some(Some(msg)),
    ensures
        chan.resume_recv_result(wait) == Step::Done(Ok::<T, TryRecvTimeoutError>(msg)),
        chan.after_resume_recv(wait) == (ChannelView {
            lockable: LockableView { woken: chan.lockable.woken.remove(k), ..chan.lockable },
            ..chan
        }),
{
    model::lemma_without_one(chan.lockable.woken, k);
}

/// A blocked receive that was handed nothing goes on waiting while the channel is connected and its
/// deadline has not passed. Otherwise it is over: with the first message of the queue if there is
/// one, or else without any.
pub proof fn law_blocked_recv_not_served<T>(chan: ChannelView<T>, wait: Blocking)
    requires
        unused(chan.lockable.woken, wait.signal.token),
    ensures
        ({
            let step = chan.resume_recv_result(wait);
            let queue = chan.lockable.queue;
            if !chan.disconnected && patience(wait) is Some {
                &&& waits(step, wait)
                &&& chan.after_resume_recv(wait) == chan
            } else if queue.len() > 0 {
                step == Step::Done(Ok::<T, TryRecvTimeoutError>(queue[0]))
            } else if chan.disconnected {
                step == Step::<Result<T, TryRecvTimeoutError>>::Done(
                    Err(TryRecvTimeoutError::Disconnected),
                )
            } else {
                step == Step::<Result<T, TryRecvTimeoutError>>::Done(
                    Err(TryRecvTimeoutError::Timeout),
                )
            }
        }),
{
    model::lemma_unborne(chan.lockable.woken, wait.signal.token);
}

/// A blocked receive that is over without having been handed a message takes none but the first out
/// of the queue. If it timed out, it leaves the line it stood in at `k`, and all others stay in line
/// in their order; if it does not stand in line, or was cut off, the line stays as it is. Whatever
/// else is in the channel stays, and so do the handles.
pub proof fn law_blocked_recv_over<T>(chan: ChannelView<T>, wait: Blocking, k: int)
    requires
        chan.wf(),
        unused(chan.lockable.woken, wait.signal.token),
        chan.disconnected || patience(wait) is None,
        0 <= k < chan.lockable.recv_waiting.len() ==> chan.lockable.recv_waiting[k].signal.token
            == wait.signal.token,
        !(0 <= k < chan.lockable.recv_waiting.len()) ==> unused(
            chan.lockable.recv_waiting,
            wait.signal.token,
        ),
    ensures
        ({
            let after = chan.after_resume_recv(wait);
            let line = chan.lockable.recv_waiting;
            let queue = chan.lockable.queue;
            after == ChannelView {
                lockable: LockableView {
                    queue: if queue.len() > 0 {
                        queue.skip(1)
                    } else {
                        queue
                    },
                    recv_waiting: if !chan.disconnected && 0 <= k < line.len() {
                        line.remove(k)
                    } else {
                        line
                    },
                    ..chan.lockable
                },
                ..chan
            }
        }),
{
    let line = chan.lockable.recv_waiting;
    model::lemma_unborne(chan.lockable.woken, wait.signal.token);
    if 0 <= k < line.len() {
        model::lemma_without_one(line, k);
    } else {
        model::lemma_unborne(line, wait.signal.token);
    }
}

// ---- The rest ----

/// Looking at the length moves waiting messages up and does nothing else.
pub proof fn law_settle_moves_up<T>(chan: ChannelView<T>)
    requires
        chan.wf(),
    ensures
        moved_up(chan.lockable, chan.settle().lockable, limit(chan.lockable)),
        chan.settle() == (ChannelView { lockable: chan.settle().lockable, ..chan }),
{
    law_pull_moves_up(chan.lockable, false);
}

/// Draining moves waiting messages up, takes all messages out of the queue, and does nothing else.
pub proof fn law_drain_empties_queue<T>(chan: ChannelView<T>)
    requires
        chan.wf(),
    ensures
        moved_up(
            chan.lockable,
            LockableView {
                queue: chan.settle().lockable.queue,
                ..chan.after_drain().lockable
            },
            limit(chan.lockable),
        ),
        chan.after_drain().lockable.queue.len() == 0,
        chan.after_drain() == (ChannelView { lockable: chan.after_drain().lockable, ..chan }),
{
    law_pull_moves_up(chan.lockable, false);
}

/// Receivers are woken up if there are messages: those in line down to the first stream, at `k`, or
/// all if none is a stream. They leave the line, and nothing else changes.
pub proof fn law_wake_down_to_stream<T>(lists: LockableView<T>, k: int)
    requires
        0 <= k <= lists.recv_waiting.len(),
        forall|i: int| 0 <= i < k ==> !(#[trigger] lists.recv_waiting[i]).signal.stream,
        k < lists.recv_waiting.len() ==> lists.recv_waiting[k].signal.stream,
    ensures
        ({
            let after = lists.wake();
            let n = if k < lists.recv_waiting.len() {
                k + 1
            } else {
                k
            };
            if lists.queue.len() == 0 {
                after == lists
            } else {
                &&& fired_in_order(lists.fired, after.fired, lists.recv_waiting.take(n))
                &&& after == LockableView {
                    recv_waiting: lists.recv_waiting.skip(n),
                    fired: after.fired,
                    ..lists
                }
            }
        }),
{
    model::lemma_first_index(lists.recv_waiting, model::streams(), k);
}

/// Waking receivers up touches their line alone, and collecting the signals takes just those.
pub proof fn law_wake_and_collect<T>(chan: ChannelView<T>)
    ensures
        chan.wake() == (ChannelView { lockable: chan.lockable.wake(), ..chan }),
        chan.after_take_fired() == (ChannelView {
            lockable: LockableView { fired: Seq::empty(), ..chan.lockable },
            ..chan
        }),
{
}

/// Cutting a channel off disconnects it, moves waiting messages up, and fires everybody who waited:
/// senders in their order, then receivers in theirs. Nobody leaves a line but the senders whose
/// messages moved up, and the handles stay.
pub proof fn law_cut_off<T>(chan: ChannelView<T>)
    requires
        chan.lockable.wf(),
        ready(chan.lockable, limit(chan.lockable)),
    ensures
        ({
            let after = chan.cut_off();
            let lists = chan.lockable;
            let n = lists.send_waiting.len() - after.lockable.send_waiting.len();
            let fired = after.lockable.fired;
            &&& after == ChannelView { lockable: after.lockable, disconnected: true, ..chan }
            &&& fired_in_order(lists.fired, fired, lists.send_waiting + lists.recv_waiting)
            &&& moved_up(
                lists,
                LockableView { fired: fired.take(lists.fired.len() + n), ..after.lockable },
                limit(lists),
            )
        }),
{
    let lists = chan.lockable;
    let pulled = lists.pull(false);
    let after = chan.cut_off();
    let n = lists.pulled(false);
    let fired = after.lockable.fired;
    let all = lists.send_waiting + lists.recv_waiting;
    law_pull_moves_up(lists, false);
    assert(fired.take(lists.fired.len() + n) =~= pulled.fired);
    assert(fired =~= lists.fired + model::signals(all)) by {
        assert(pulled.fired =~= lists.fired + model::signals(lists.send_waiting.take(n)));
    }
    assert forall|i: int| 0 <= i < all.len() implies fired[lists.fired.len() + i] == (
    #[trigger] all[i]).signal by {
        assert(model::signals(all)[i] == all[i].signal);
    }
}

/// Making or giving up a handle changes one count by one. Giving up the last sender or the last
/// receiver cuts the channel off, and giving up another changes nothing else.
pub proof fn law_handles_are_counted<T>(chan: ChannelView<T>)
    ensures
        chan.send_count < usize::MAX ==> chan.add_sender() == (ChannelView {
            send_count: (chan.send_count + 1) as usize,
            ..chan
        }),
        chan.recv_count < usize::MAX ==> chan.add_receiver() == (ChannelView {
            recv_count: (chan.recv_count + 1) as usize,
            ..chan
        }),
        chan.send_count > 1 ==> chan.drop_sender() == (ChannelView {
            send_count: (chan.send_count - 1) as usize,
            ..chan
        }),
        chan.recv_count > 1 ==> chan.drop_receiver() == (ChannelView {
            recv_count: (chan.recv_count - 1) as usize,
            ..chan
        }),
        chan.wf() ==> ready(chan.lockable, limit(chan.lockable)),
        chan.send_count == 1 ==> chan.drop_sender() == (ChannelView {
            send_count: 0,
            ..chan.cut_off()
        }),
        chan.recv_count == 1 ==> chan.drop_receiver() == (ChannelView {
            recv_count: 0,
            ..chan.cut_off()
        }),
{
}

} // verus!
