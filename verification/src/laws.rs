//! What holds of the channel as a whole.

use crate::effects;
use crate::error::{TryRecvTimeoutError, TrySendTimeoutError};
use crate::hook::{Hook, Signal, Step};
use crate::model::{self, Blocking, ChannelView};
use vstd::multiset::Multiset;
use vstd::prelude::*;

verus! {

/// The channel after a series of blocking sends, none of which is resumed.
pub open spec fn after_sends<T>(chan: ChannelView<T>, sends: Seq<(T, Signal)>) -> ChannelView<T>
    decreases sends.len(),
{
    if sends.len() == 0 {
        chan
    } else {
        let (msg, signal) = sends.last();
        after_sends(chan, sends.drop_last()).after_send(msg, Some(signal))
    }
}

/// The messages of a series of sends.
pub open spec fn sent<T>(sends: Seq<(T, Signal)>) -> Seq<T> {
    Seq::new(sends.len(), |i: int| sends[i].0)
}

/// The channel after `n` receives that do not block.
pub open spec fn after_recvs<T>(chan: ChannelView<T>, n: nat) -> ChannelView<T>
    decreases n,
{
    if n == 0 {
        chan
    } else {
        after_recvs(chan, (n - 1) as nat).after_recv(None)
    }
}

/// Whether nobody waits to send a message that there is room for. It is so at all times but after
/// a receive has emptied places without giving them away: a `drain`, or a blocked receive that got
/// its message from the queue in the end.
pub open spec fn settled<T>(chan: ChannelView<T>) -> bool {
    chan.lockable.pulled(false) == 0
}

/// What can be done to a channel.
pub enum Op<T> {
    /// Send a message.
    Send(T, Option<Blocking>),
    /// Look after a blocked send.
    ResumeSend(Blocking),
    /// Receive a message.
    Recv(Option<Blocking>),
    /// Look after a blocked receive.
    ResumeRecv(Blocking),
    /// Look at the length.
    Len,
    /// Drain the queue.
    Drain,
    /// Wake up receivers because there are messages.
    Wake,
    /// Collect the signals that were fired.
    TakeFired,
    /// Make another sender.
    AddSender,
    /// Make another receiver.
    AddReceiver,
    /// Give up a sender.
    DropSender,
    /// Give up a receiver.
    DropReceiver,
}

/// Whether the channel has the sender or receiver that does this, and a blocking operation goes
/// under a token of its own.
pub open spec fn allowed<T>(chan: ChannelView<T>, op: Op<T>) -> bool {
    match op {
        Op::Send(_, block) => chan.send_count > 0 && (block matches Some(wait)
            ==> !chan.lockable.registered(wait.signal.token)),
        Op::ResumeSend(_) => chan.send_count > 0,
        Op::Recv(block) => chan.recv_count > 0 && (block matches Some(wait)
            ==> !chan.lockable.registered(wait.signal.token)),
        Op::ResumeRecv(_) => chan.recv_count > 0,
        Op::Len => true,
        Op::Drain => chan.recv_count > 0,
        Op::Wake => true,
        Op::TakeFired => true,
        Op::AddSender => 0 < chan.send_count < usize::MAX,
        Op::AddReceiver => 0 < chan.recv_count < usize::MAX,
        Op::DropSender => chan.send_count > 0,
        Op::DropReceiver => chan.recv_count > 0,
    }
}

/// The channel after it.
pub open spec fn apply<T>(chan: ChannelView<T>, op: Op<T>) -> ChannelView<T> {
    match op {
        Op::Send(msg, block) => chan.after_send_sync(msg, block),
        Op::ResumeSend(wait) => chan.after_resume_send(wait),
        Op::Recv(block) => chan.after_recv_sync(block),
        Op::ResumeRecv(wait) => chan.after_resume_recv(wait),
        Op::Len => chan.settle(),
        Op::Drain => chan.after_drain(),
        Op::Wake => chan.wake(),
        Op::TakeFired => chan.after_take_fired(),
        Op::AddSender => chan.add_sender(),
        Op::AddReceiver => chan.add_receiver(),
        Op::DropSender => chan.drop_sender(),
        Op::DropReceiver => chan.drop_receiver(),
    }
}

/// The channel after a series of operations.
pub open spec fn run<T>(chan: ChannelView<T>, ops: Seq<Op<T>>) -> ChannelView<T>
    decreases ops.len(),
{
    if ops.len() == 0 {
        chan
    } else {
        apply(run(chan, ops.drop_last()), ops.last())
    }
}

/// Whether each operation of a series can be done when its turn comes.
pub open spec fn runnable<T>(chan: ChannelView<T>, ops: Seq<Op<T>>) -> bool
    decreases ops.len(),
{
    ops.len() > 0 ==> runnable(chan, ops.drop_last()) && allowed(
        run(chan, ops.drop_last()),
        ops.last(),
    )
}

// ---- Order ----

/// Whether a send hands its message over to somebody who waits for one, instead of leaving it in
/// the channel.
pub open spec fn hands_over<T>(chan: ChannelView<T>) -> bool {
    let waiting = chan.lockable.recv_waiting;
    let k = model::first_index(waiting, model::takes()) as int;
    k < waiting.len() && waiting[k].slot is Some
}

/// A message that is accepted, and not handed over to somebody who waits for one, comes after all
/// that are in the channel, whether there is room for it or its sender has to wait.
pub proof fn law_send_appends<T>(chan: ChannelView<T>, msg: T, block: Option<Signal>)
    requires
        chan.wf(),
        chan.lockable.send_waiting.len() > 0 ==> settled(chan) && chan.lockable.recv_waiting.len()
            == 0,
        !(chan.send_result(msg, block is Some) matches Some(Err(_))),
    ensures
        chan.after_send(msg, block).contents() == if hands_over(chan) {
            chan.contents()
        } else {
            chan.contents().push(msg)
        },
{
    if hands_over(chan) {
        assert(chan.after_send(msg, block).contents() =~= chan.contents());
    } else {
        assert(chan.after_send(msg, block).contents() =~= chan.contents().push(msg));
    }
}

/// A channel stays settled over sends, receives, and the last sender or receiver going. Whoever
/// looks at the length settles it, and so does a receive that gets a message.
pub proof fn law_settled_is_kept<T>(
    chan: ChannelView<T>,
    msg: T,
    block: Option<Signal>,
    hook: Option<Hook<T>>,
    wait: Blocking,
)
    requires
        chan.wf(),
    ensures
        settled(chan.settle()),
        settled(chan.cut_off()),
        chan.recv_count > 0 && chan.contents().len() > 0 ==> settled(chan.after_recv(hook)),
        settled(chan) ==> settled(chan.after_send(msg, block)) && settled(
            chan.after_resume_send(wait),
        ) && settled(chan.after_recv(hook)),
        settled(chan) && !(chan.resume_recv_result(wait) is Done) ==> settled(
            chan.after_resume_recv(wait),
        ),
{
    chan.lockable.lemma_pull(false);
    if chan.recv_count > 0 {
        chan.lockable.lemma_pull(true);
    }
    chan.lockable.send_waiting.lemma_filter_len(model::lacks(wait.signal.token));
}

/// A receive gets the oldest message and leaves the others in their order.
pub proof fn law_recv_takes_oldest<T>(chan: ChannelView<T>, block: Option<Hook<T>>)
    requires
        chan.wf(),
        chan.recv_count > 0,
    ensures
        chan.contents().len() > 0 ==> chan.recv_result(block is Some) == Some(
            Ok::<T, TryRecvTimeoutError>(chan.contents()[0]),
        ) && chan.after_recv(block).contents() == chan.contents().skip(1) && settled(
            chan.after_recv(block),
        ),
        chan.contents().len() == 0 ==> chan.after_recv(block).contents() == chan.contents(),
{
    chan.lockable.lemma_pull(true);
    let pulled = chan.lockable.pull(true);
    if chan.contents().len() > 0 {
        assert(pulled.queue.len() > 0);
        assert(chan.after_recv(block).contents() =~= pulled.contents().skip(1));
    }
}

/// Receiving keeps a channel in working order.
proof fn lemma_after_recv_wf<T>(chan: ChannelView<T>)
    requires
        chan.wf(),
        chan.recv_count > 0,
    ensures
        chan.after_recv(None).wf(),
        chan.after_recv(None).recv_count == chan.recv_count,
        chan.after_recv(None).disconnected == chan.disconnected,
{
    chan.lockable.lemma_pull(true);
}

/// The messages of a channel are received one by one in their order.
pub proof fn law_recvs_in_order<T>(chan: ChannelView<T>, n: nat)
    requires
        chan.wf(),
        chan.recv_count > 0,
        n <= chan.contents().len(),
    ensures
        after_recvs(chan, n).contents() == chan.contents().skip(n as int),
        n < chan.contents().len() ==> after_recvs(chan, n).recv_result(false) == Some(
            Ok::<T, TryRecvTimeoutError>(chan.contents()[n as int]),
        ),
        after_recvs(chan, n).wf(),
        after_recvs(chan, n).recv_count == chan.recv_count,
    decreases n,
{
    if n > 0 {
        let before = after_recvs(chan, (n - 1) as nat);
        law_recvs_in_order(chan, (n - 1) as nat);
        law_recv_takes_oldest(before, None);
        lemma_after_recv_wf(before);
        assert(before.contents().skip(1) =~= chan.contents().skip(n as int));
    } else {
        assert(chan.contents().skip(0) =~= chan.contents());
    }
}

/// Messages sent one after the other while nobody waits for one stand in the channel in that order,
/// however many of them there is room for.
pub proof fn law_sends_in_order<T>(chan: ChannelView<T>, sends: Seq<(T, Signal)>)
    requires
        chan.wf(),
        settled(chan),
        !chan.disconnected,
        chan.lockable.recv_waiting.len() == 0,
        forall|i: int|
            0 <= i < sends.len() ==> !chan.lockable.registered((#[trigger] sends[i]).1.token),
        forall|i: int, j: int|
            0 <= i < j < sends.len() ==> (#[trigger] sends[i]).1.token != (
            #[trigger] sends[j]).1.token,
    ensures
        after_sends(chan, sends).contents() == chan.contents() + sent(sends),
        after_sends(chan, sends).wf(),
        settled(after_sends(chan, sends)),
        !after_sends(chan, sends).disconnected,
        after_sends(chan, sends).recv_count == chan.recv_count,
        after_sends(chan, sends).lockable.recv_waiting.len() == 0,
        after_sends(chan, sends).lockable.woken == chan.lockable.woken,
        forall|k: int|
            0 <= k < after_sends(chan, sends).lockable.send_waiting.len() ==> {
                let hook = #[trigger] after_sends(chan, sends).lockable.send_waiting[k];
                ||| chan.lockable.send_waiting.contains(hook)
                ||| exists|i: int| 0 <= i < sends.len() && hook.signal == (#[trigger] sends[i]).1
            },
    decreases sends.len(),
{
    if sends.len() == 0 {
        assert(chan.contents() + sent(sends) =~= chan.contents());
    } else {
        let front = sends.drop_last();
        let (msg, signal) = sends.last();
        let before = after_sends(chan, front);
        assert forall|i: int| 0 <= i < front.len() implies !chan.lockable.registered(
            (#[trigger] front[i]).1.token,
        ) by {
            assert(!chan.lockable.registered(sends[i].1.token));
        }
        law_sends_in_order(chan, front);
        assert forall|k: int| 0 <= k < before.lockable.send_waiting.len() implies (
        #[trigger] before.lockable.send_waiting[k]).signal.token != signal.token by {
            let hook = before.lockable.send_waiting[k];
            assert(!chan.lockable.registered(sends[sends.len() - 1].1.token));
            if chan.lockable.send_waiting.contains(hook) {
                let i = chan.lockable.send_waiting.index_of(hook);
                assert(chan.lockable.send_waiting[i] == hook);
            } else {
                let i = choose|i: int| 0 <= i < front.len() && hook.signal == (
                #[trigger] front[i]).1;
                assert(sends[i].1.token != sends[sends.len() - 1].1.token);
            }
        }
        law_send_appends(before, msg, Some(signal));
        let after = before.after_send(msg, Some(signal));
        assert(chan.contents() + sent(sends) =~= (chan.contents() + sent(front)).push(msg));
        assert(!chan.lockable.registered(sends[sends.len() - 1].1.token));
        assert(after.wf());
        assert forall|k: int| 0 <= k < after.lockable.send_waiting.len() implies {
            let hook = #[trigger] after.lockable.send_waiting[k];
            ||| chan.lockable.send_waiting.contains(hook)
            ||| exists|i: int| 0 <= i < sends.len() && hook.signal == (#[trigger] sends[i]).1
        } by {
            let hook = after.lockable.send_waiting[k];
            if k < before.lockable.send_waiting.len() {
                assert(hook == before.lockable.send_waiting[k]);
                if !chan.lockable.send_waiting.contains(hook) {
                    let i = choose|i: int| 0 <= i < front.len() && hook.signal == (
                    #[trigger] front[i]).1;
                    assert(hook.signal == sends[i].1);
                }
            } else {
                assert(hook.signal == sends[sends.len() - 1].1);
            }
        }
    }
}

/// What goes in comes out in the same order: the `n`th receive from a channel that was empty gets
/// the `n`th message sent.
pub proof fn law_first_in_first_out<T>(chan: ChannelView<T>, sends: Seq<(T, Signal)>, n: nat)
    requires
        chan.wf(),
        chan.contents().len() == 0,
        !chan.disconnected,
        chan.lockable.recv_waiting.len() == 0,
        n < sends.len(),
        forall|i: int|
            0 <= i < sends.len() ==> !chan.lockable.registered((#[trigger] sends[i]).1.token),
        forall|i: int, j: int|
            0 <= i < j < sends.len() ==> (#[trigger] sends[i]).1.token != (
            #[trigger] sends[j]).1.token,
    ensures
        after_recvs(after_sends(chan, sends), n).recv_result(false) == Some(
            Ok::<T, TryRecvTimeoutError>(sends[n as int].0),
        ),
{
    law_sends_in_order(chan, sends);
    assert(chan.contents() + sent(sends) =~= sent(sends));
    law_recvs_in_order(after_sends(chan, sends), n);
}

/// The message that an operation puts into the channel, if it does.
pub open spec fn sent_by<T>(chan: ChannelView<T>, op: Op<T>) -> Seq<T> {
    match op {
        Op::Send(msg, block) => match chan.send_sync_result(msg, block) {
            Step::Done(Err(_)) => Seq::empty(),
            _ => seq![msg],
        },
        _ => Seq::empty(),
    }
}

/// The message that an operation receives, if it does.
pub open spec fn received_by<T>(chan: ChannelView<T>, op: Op<T>) -> Seq<T> {
    match op {
        Op::Recv(block) => match chan.recv_sync_result(block) {
            Step::Done(Ok(msg)) => seq![msg],
            _ => Seq::empty(),
        },
        _ => Seq::empty(),
    }
}

/// The message that an operation brings to a receiver, if it does: to its caller, or to somebody who
/// waits for one.
pub open spec fn delivered_by<T>(chan: ChannelView<T>, op: Op<T>) -> Seq<T> {
    match op {
        Op::Send(_, _) if chan.lockable.recv_waiting.len() > 0 => sent_by(chan, op),
        _ => received_by(chan, op),
    }
}

/// The messages that a series of operations puts into the channel, in order.
pub open spec fn all_sent<T>(chan: ChannelView<T>, ops: Seq<Op<T>>) -> Seq<T>
    decreases ops.len(),
{
    if ops.len() == 0 {
        Seq::empty()
    } else {
        all_sent(chan, ops.drop_last()) + sent_by(run(chan, ops.drop_last()), ops.last())
    }
}

/// The messages that a series of operations receives, in order.
pub open spec fn all_received<T>(chan: ChannelView<T>, ops: Seq<Op<T>>) -> Seq<T>
    decreases ops.len(),
{
    if ops.len() == 0 {
        Seq::empty()
    } else {
        all_received(chan, ops.drop_last()) + received_by(run(chan, ops.drop_last()), ops.last())
    }
}

/// The messages that a series of operations brings to receivers, in order.
pub open spec fn all_delivered<T>(chan: ChannelView<T>, ops: Seq<Op<T>>) -> Seq<T>
    decreases ops.len(),
{
    if ops.len() == 0 {
        Seq::empty()
    } else {
        all_delivered(chan, ops.drop_last()) + delivered_by(run(chan, ops.drop_last()), ops.last())
    }
}

/// Whether the next message comes after all others: the channel is settled, and as long as it is
/// connected nobody waits for a message, with a slot to put it into, while there is one.
pub open spec fn in_step<T>(chan: ChannelView<T>) -> bool {
    &&& settled(chan)
    &&& forall|i: int|
        0 <= i < chan.lockable.recv_waiting.len() ==> (
        #[trigger] chan.lockable.recv_waiting[i]).slot is Some
    &&& !chan.disconnected && chan.lockable.recv_waiting.len() > 0 ==> chan.contents().len() == 0
}

/// Whether an operation takes no message out of its turn. A send that fails takes back its message,
/// wherever it stands. Draining, or a blocked receive that gets its message from the queue in the
/// end, empties places without giving them away.
pub open spec fn takes_turns<T>(chan: ChannelView<T>, op: Op<T>) -> bool {
    match op {
        Op::ResumeSend(wait) => !(chan.resume_send_result(wait) matches Step::Done(Err(_))),
        Op::ResumeRecv(wait) => chan.resume_recv_result(wait) is Wait || chan.lockable.queue.len()
            == 0 || model::held_by(chan.lockable.woken, wait.signal.token) is Some,
        Op::Drain => false,
        _ => true,
    }
}

/// Whether no operation of a series takes a message out of its turn.
pub open spec fn all_take_turns<T>(chan: ChannelView<T>, ops: Seq<Op<T>>) -> bool
    decreases ops.len(),
{
    ops.len() > 0 ==> all_take_turns(chan, ops.drop_last()) && takes_turns(
        run(chan, ops.drop_last()),
        ops.last(),
    )
}

/// What goes in comes out in the same order, over any one operation that takes no message out of its
/// turn: what was in the channel, then what it took in, is what it brought to a receiver, then what
/// is in the channel after it.
pub proof fn law_every_operation_takes_turns<T>(chan: ChannelView<T>, op: Op<T>)
    requires
        chan.wf(),
        in_step(chan),
        allowed(chan, op),
        takes_turns(chan, op),
    ensures
        chan.contents() + sent_by(chan, op) == delivered_by(chan, op) + apply(chan, op).contents(),
        in_step(apply(chan, op)),
{
    match op {
        Op::Send(msg, block) => lemma_send_takes_turns(chan, msg, block),
        Op::Recv(block) => lemma_recv_takes_turns(chan, block),
        Op::ResumeRecv(wait) => {
            let token = wait.signal.token;
            model::lemma_without(chan.lockable.recv_waiting, token);
            chan.lockable.recv_waiting.lemma_filter_len(model::lacks(token));
            assert(apply(chan, op).contents() =~= chan.contents());
        },
        Op::Wake => model::lemma_first_index_found(chan.lockable.recv_waiting, model::streams()),
        _ => chan.lockable.lemma_pull(false),
    }
    assert(chan.contents() + sent_by(chan, op) =~= delivered_by(chan, op) + apply(
        chan,
        op,
    ).contents());
}

proof fn lemma_send_takes_turns<T>(chan: ChannelView<T>, msg: T, block: Option<Blocking>)
    requires
        chan.wf(),
        in_step(chan),
        block matches Some(wait) ==> !chan.lockable.registered(wait.signal.token),
    ensures
        ({
            let op = Op::Send(msg, block);
            let after = chan.after_send_sync(msg, block);
            &&& chan.contents() + sent_by(chan, op) == delivered_by(chan, op) + after.contents()
            &&& in_step(after)
        }),
{
    let op = Op::Send(msg, block);
    let after = chan.after_send_sync(msg, block);
    let receivers = chan.lockable.recv_waiting;
    if !chan.disconnected && receivers.len() > 0 {
        model::lemma_first_index(receivers, model::takes(), 0);
        assert(after.contents() =~= chan.contents());
    } else if let Some(wait) = block {
        let hook = Hook::with_slot(Some(msg), wait.signal);
        model::lemma_join(chan.lockable.send_waiting, hook);
    }
    assert(chan.contents() + sent_by(chan, op) =~= delivered_by(chan, op) + after.contents());
}

proof fn lemma_recv_takes_turns<T>(chan: ChannelView<T>, block: Option<Blocking>)
    requires
        chan.wf(),
        in_step(chan),
        chan.recv_count > 0,
        block matches Some(wait) ==> !chan.lockable.registered(wait.signal.token),
    ensures
        ({
            let op = Op::Recv(block);
            let after = chan.after_recv_sync(block);
            &&& chan.contents() + sent_by(chan, op) == delivered_by(chan, op) + after.contents()
            &&& in_step(after)
        }),
{
    let op = Op::Recv(block);
    let after = chan.after_recv_sync(block);
    let hook = match block {
        Some(wait) => Some(Hook::<T>::with_slot(None, wait.signal)),
        None => None,
    };
    if let Some(wait) = block {
        model::lemma_join(chan.lockable.recv_waiting, Hook::<T>::with_slot(None, wait.signal));
        model::lemma_unborne(chan.lockable.woken, wait.signal.token);
    }
    law_recv_takes_oldest(chan, hook);
    if chan.contents().len() > 0 {
        assert(after == chan.after_recv(hook));
    } else {
        assert(after.contents() =~= chan.contents());
    }
    assert(chan.contents() + sent_by(chan, op) =~= delivered_by(chan, op) + after.contents());
}

/// What goes in comes out in the same order, over any run in which no message is taken out of its
/// turn, whoever waits: what was in the channel, then what was sent, is what was brought to
/// receivers, then what is in the channel at the end.
pub proof fn law_every_run_takes_turns<T>(chan: ChannelView<T>, ops: Seq<Op<T>>)
    requires
        chan.wf(),
        in_step(chan),
        runnable(chan, ops),
        all_take_turns(chan, ops),
    ensures
        chan.contents() + all_sent(chan, ops) == all_delivered(chan, ops) + run(
            chan,
            ops,
        ).contents(),
        in_step(run(chan, ops)),
        run(chan, ops).wf(),
    decreases ops.len(),
{
    if ops.len() == 0 {
        assert(chan.contents() + all_sent(chan, ops) =~= all_delivered(chan, ops)
            + chan.contents());
    } else {
        let front = ops.drop_last();
        let op = ops.last();
        let before = run(chan, front);
        law_every_run_takes_turns(chan, front);
        law_every_operation_takes_turns(before, op);
        law_every_operation_keeps_order(before, op);
        assert(chan.contents() + all_sent(chan, ops) =~= (chan.contents() + all_sent(chan, front))
            + sent_by(before, op));
        assert((all_delivered(chan, front) + before.contents()) + sent_by(before, op)
            =~= all_delivered(chan, front) + (before.contents() + sent_by(before, op)));
        assert(all_delivered(chan, front) + (delivered_by(before, op) + apply(
            before,
            op,
        ).contents()) =~= all_delivered(chan, ops) + run(chan, ops).contents());
    }
}

/// What goes in comes out in the same order, however sends and receives alternate: on a channel on
/// which nobody waits for a message, what was in it, then what was sent, is what was received, then
/// what is in it at the end.
pub proof fn law_mixed_run_is_first_in_first_out<T>(chan: ChannelView<T>, ops: Seq<Op<T>>)
    requires
        chan.wf(),
        settled(chan),
        chan.lockable.recv_waiting.len() == 0,
        runnable(chan, ops),
        forall|i: int|
            0 <= i < ops.len() ==> #[trigger] ops[i] is Send || ops[i] == Op::<T>::Recv(None)
                || ops[i] is Len,
    ensures
        chan.contents() + all_sent(chan, ops) == all_received(chan, ops) + run(
            chan,
            ops,
        ).contents(),
{
    lemma_nobody_comes_to_wait(chan, ops);
    law_every_run_takes_turns(chan, ops);
}

proof fn lemma_nobody_comes_to_wait<T>(chan: ChannelView<T>, ops: Seq<Op<T>>)
    requires
        chan.wf(),
        chan.lockable.recv_waiting.len() == 0,
        runnable(chan, ops),
        forall|i: int|
            0 <= i < ops.len() ==> #[trigger] ops[i] is Send || ops[i] == Op::<T>::Recv(None)
                || ops[i] is Len,
    ensures
        run(chan, ops).lockable.recv_waiting.len() == 0,
        all_delivered(chan, ops) == all_received(chan, ops),
        all_take_turns(chan, ops),
    decreases ops.len(),
{
    if ops.len() > 0 {
        let front = ops.drop_last();
        assert forall|i: int| 0 <= i < front.len() implies #[trigger] front[i] is Send
            || front[i] == Op::<T>::Recv(None) || front[i] is Len by {
            assert(ops[i] is Send || ops[i] == Op::<T>::Recv(None) || ops[i] is Len);
        }
        lemma_nobody_comes_to_wait(chan, front);
        let op = ops[ops.len() - 1];
        assert(op is Send || op == Op::<T>::Recv(None) || op is Len);
    }
}

// ---- Conservation ----

/// The message that a hook offers, if it still does.
pub open spec fn offer<T>(hook: Hook<T>) -> Multiset<T> {
    match hook.held() {
        Some(msg) => Multiset::singleton(msg),
        None => Multiset::empty(),
    }
}

/// The messages that hooks offer.
pub open spec fn offers<T>(hooks: Seq<Hook<T>>) -> Multiset<T>
    decreases hooks.len(),
{
    if hooks.len() == 0 {
        Multiset::empty()
    } else {
        offers(hooks.drop_last()).add(offer(hooks.last()))
    }
}

/// All messages that are in the channel: in the queue, offered by somebody who waits to send, or
/// handed to somebody who has not come for them yet.
pub open spec fn in_flight<T>(chan: ChannelView<T>) -> Multiset<T> {
    chan.lockable.queue.to_multiset().add(offers(chan.lockable.send_waiting)).add(
        offers(chan.lockable.woken),
    )
}

proof fn lemma_offers_loaded<T>(hooks: Seq<Hook<T>>)
    requires
        model::loaded(hooks),
    ensures
        offers(hooks) == model::messages(hooks).to_multiset(),
    decreases hooks.len(),
{
    if hooks.len() == 0 {
        vstd::seq_lib::to_multiset_len(model::messages(hooks));
        assert(offers(hooks) =~= model::messages(hooks).to_multiset());
    } else {
        let front = hooks.drop_last();
        let msg = hooks.last().held()->0;
        assert forall|i: int| 0 <= i < front.len() implies (#[trigger] front[i]).held() is Some by {
            assert(hooks[i].held() is Some);
        }
        lemma_offers_loaded(front);
        assert(hooks[hooks.len() - 1].held() is Some);
        assert(model::messages(hooks) =~= model::messages(front).push(msg));
        vstd::seq_lib::to_multiset_build(model::messages(front), msg);
        assert(offers(hooks) =~= model::messages(hooks).to_multiset());
    }
}

proof fn lemma_offers_update<T>(hooks: Seq<Hook<T>>, k: int, hook: Hook<T>)
    requires
        0 <= k < hooks.len(),
    ensures
        offers(hooks.update(k, hook)).add(offer(hooks[k])) == offers(hooks).add(offer(hook)),
    decreases hooks.len(),
{
    let front = hooks.drop_last();
    let other = hooks.update(k, hook);
    if k < hooks.len() - 1 {
        lemma_offers_update(front, k, hook);
        assert(other.drop_last() =~= front.update(k, hook));
        assert(offers(other).add(offer(hooks[k])) =~= offers(front.update(k, hook)).add(
            offer(hooks[k]),
        ).add(offer(hooks.last())));
        assert(offers(hooks).add(offer(hook)) =~= offers(front).add(offer(hook)).add(
            offer(hooks.last()),
        ));
    } else {
        assert(other.drop_last() =~= front);
        assert(offers(other).add(offer(hooks[k])) =~= offers(hooks).add(offer(hook)));
    }
}

/// While everybody who waits to send still offers a message, what a receiver can get and what was
/// handed over is all there is.
proof fn lemma_in_flight<T>(chan: ChannelView<T>)
    requires
        model::loaded(chan.lockable.send_waiting),
        model::loaded(chan.lockable.woken),
    ensures
        in_flight(chan) == chan.contents().to_multiset().add(
            model::messages(chan.lockable.woken).to_multiset(),
        ),
{
    lemma_offers_loaded(chan.lockable.send_waiting);
    lemma_offers_loaded(chan.lockable.woken);
    vstd::seq_lib::lemma_multiset_commutative(
        chan.lockable.queue,
        model::messages(chan.lockable.send_waiting),
    );
}

/// A message that is accepted is in the channel, once, and no other message is lost over it.
pub proof fn law_send_adds_one<T>(chan: ChannelView<T>, msg: T, block: Option<Signal>)
    requires
        chan.wf(),
        !(chan.send_result(msg, block is Some) matches Some(Err(_))),
    ensures
        in_flight(chan.after_send(msg, block)) == in_flight(chan).insert(msg),
{
    let after = chan.after_send(msg, block);
    let n = chan.lockable.queue.len() as int;
    let woken = model::messages(chan.lockable.woken);
    lemma_in_flight(chan);
    lemma_in_flight(after);
    vstd::seq_lib::to_multiset_insert(chan.contents(), n, msg);
    vstd::seq_lib::to_multiset_build(chan.contents(), msg);
    vstd::seq_lib::to_multiset_build(woken, msg);
    if after.lockable.woken.len() > chan.lockable.woken.len() {
        assert(model::messages(after.lockable.woken) =~= woken.push(msg));
        assert(after.contents() =~= chan.contents());
    } else {
        assert(after.lockable.woken =~= chan.lockable.woken);
        if after.lockable.queue.len() > n {
            assert(after.contents() =~= chan.contents().insert(n, msg));
        } else {
            assert(after.contents() =~= chan.contents().push(msg));
        }
    }
    assert(in_flight(after) =~= in_flight(chan).insert(msg));
}

/// A send that fails gives its message back and leaves the channel as it was.
pub proof fn law_failed_send_changes_nothing<T>(chan: ChannelView<T>, msg: T, block: Option<Signal>)
    requires
        chan.send_result(msg, block is Some) matches Some(Err(_)),
    ensures
        chan.send_result(msg, block is Some)->0->Err_0.msg() == msg,
        chan.after_send(msg, block) == chan,
{
}

/// A receive that gets a message takes that one out of the channel, and no other. One that gets
/// none takes none.
pub proof fn law_recv_removes_one<T>(chan: ChannelView<T>, block: Option<Hook<T>>)
    requires
        chan.wf(),
        chan.recv_count > 0,
    ensures
        match chan.recv_result(block is Some) {
            Some(Ok(msg)) => in_flight(chan).contains(msg) && in_flight(chan.after_recv(block))
                == in_flight(chan).remove(msg),
            _ => in_flight(chan.after_recv(block)) == in_flight(chan),
        },
{
    law_recv_takes_oldest(chan, block);
    chan.lockable.lemma_pull(true);
    lemma_in_flight(chan);
    lemma_in_flight(chan.after_recv(block));
    let contents = chan.contents();
    if contents.len() > 0 {
        vstd::seq_lib::to_multiset_contains(contents, contents[0]);
        vstd::seq_lib::to_multiset_remove(contents, 0);
        assert(contents.contains(contents[0]));
        assert(contents.remove(0) =~= contents.skip(1));
        assert(in_flight(chan.after_recv(block)) =~= in_flight(chan).remove(contents[0]));
    }
}

/// A blocked receive that gets a message in the end takes that one out of the channel, and no
/// other. One that gets none takes none.
pub proof fn law_resume_recv_removes_one<T>(chan: ChannelView<T>, wait: Blocking)
    requires
        chan.wf(),
        chan.recv_count > 0,
    ensures
        match chan.resume_recv_result(wait) {
            Step::Done(Ok(msg)) => in_flight(chan).contains(msg) && in_flight(
                chan.after_resume_recv(wait),
            ) == in_flight(chan).remove(msg),
            _ => in_flight(chan.after_resume_recv(wait)) == in_flight(chan),
        },
{
    let after = chan.after_resume_recv(wait);
    let contents = chan.contents();
    let woken = model::messages(chan.lockable.woken);
    let token = wait.signal.token;
    let k = model::position(chan.lockable.woken, token);
    model::lemma_first_index_found(chan.lockable.woken, model::bears(token));
    lemma_in_flight(chan);
    lemma_in_flight(after);
    if k < chan.lockable.woken.len() {
        let msg = woken[k];
        vstd::seq_lib::to_multiset_contains(woken, msg);
        vstd::seq_lib::to_multiset_remove(woken, k);
        assert(woken.contains(msg));
        assert(woken.remove(k) =~= model::messages(after.lockable.woken));
        assert(in_flight(after) =~= in_flight(chan).remove(msg));
    } else if chan.resume_recv_result(wait) is Done && chan.lockable.queue.len() > 0 {
        let msg = contents[0];
        vstd::seq_lib::to_multiset_contains(contents, msg);
        vstd::seq_lib::to_multiset_remove(contents, 0);
        assert(contents.contains(msg));
        assert(after.contents() =~= contents.remove(0));
        assert(in_flight(after) =~= in_flight(chan).remove(msg));
    } else {
        assert(after.contents() =~= contents);
    }
}

/// A blocked send that fails in the end takes its own message out of the channel, and no other. One
/// that succeeds or goes on waiting takes none.
pub proof fn law_resume_send_removes_own<T>(chan: ChannelView<T>, wait: Blocking)
    requires
        chan.wf(),
        chan.send_count > 0,
    ensures
        match chan.resume_send_result(wait) {
            Step::Done(Err(err)) => in_flight(chan).contains(err.msg()) && in_flight(
                chan.after_resume_send(wait),
            ) == in_flight(chan).remove(err.msg()),
            _ => chan.after_resume_send(wait) == chan,
        },
{
    let waiting = chan.lockable.send_waiting;
    let token = wait.signal.token;
    let k = model::position(waiting, token);
    let after = chan.after_resume_send(wait);
    model::lemma_first_index_found(waiting, model::bears(token));
    if let Step::Done(Err(err)) = chan.resume_send_result(wait) {
        let msg = err.msg();
        model::lemma_without_one(waiting, k);
        if chan.disconnected {
            lemma_offers_update(waiting, k, Hook::with_slot(None, waiting[k].signal));
        } else {
            let msgs = model::messages(waiting);
            lemma_offers_loaded(waiting);
            lemma_offers_loaded(after.lockable.send_waiting);
            assert(model::messages(after.lockable.send_waiting) =~= msgs.remove(k));
            vstd::seq_lib::to_multiset_contains(msgs, msg);
            vstd::seq_lib::to_multiset_remove(msgs, k);
            assert(msgs.contains(msgs[k]));
        }
        assert(offers(waiting) =~= offers(after.lockable.send_waiting).add(
            Multiset::singleton(msg),
        ));
        assert(in_flight(after) =~= in_flight(chan).remove(msg));
    }
}

/// Draining the queue splits the messages in two, in their order: those drained, and those of the
/// parties that go on waiting to send.
pub proof fn law_drain_splits<T>(chan: ChannelView<T>)
    requires
        chan.wf(),
        chan.recv_count > 0,
    ensures
        chan.settle().lockable.queue + chan.after_drain().contents() == chan.contents(),
        chan.after_drain().lockable.queue.len() == 0,
{
    chan.lockable.lemma_pull(false);
    assert(chan.settle().lockable.queue + chan.after_drain().contents() =~= chan.contents());
}

/// The message that an operation puts into the channel.
pub open spec fn accepted<T>(chan: ChannelView<T>, op: Op<T>) -> Multiset<T> {
    match op {
        Op::Send(msg, block) => match chan.send_sync_result(msg, block) {
            Step::Done(Err(_)) => Multiset::empty(),
            _ => Multiset::singleton(msg),
        },
        _ => Multiset::empty(),
    }
}

/// The messages that an operation gives to its caller out of the channel.
pub open spec fn yielded<T>(chan: ChannelView<T>, op: Op<T>) -> Multiset<T> {
    match op {
        Op::Recv(block) => match chan.recv_sync_result(block) {
            Step::Done(Ok(msg)) => Multiset::singleton(msg),
            _ => Multiset::empty(),
        },
        Op::ResumeRecv(wait) => match chan.resume_recv_result(wait) {
            Step::Done(Ok(msg)) => Multiset::singleton(msg),
            _ => Multiset::empty(),
        },
        Op::ResumeSend(wait) => match chan.resume_send_result(wait) {
            Step::Done(Err(err)) => Multiset::singleton(err.msg()),
            _ => Multiset::empty(),
        },
        Op::Drain => chan.settle().lockable.queue.to_multiset(),
        _ => Multiset::empty(),
    }
}

/// The messages that a series of operations puts into the channel.
pub open spec fn all_accepted<T>(chan: ChannelView<T>, ops: Seq<Op<T>>) -> Multiset<T>
    decreases ops.len(),
{
    if ops.len() == 0 {
        Multiset::empty()
    } else {
        all_accepted(chan, ops.drop_last()).add(accepted(run(chan, ops.drop_last()), ops.last()))
    }
}

/// The messages that a series of operations gives to its callers out of the channel.
pub open spec fn all_yielded<T>(chan: ChannelView<T>, ops: Seq<Op<T>>) -> Multiset<T>
    decreases ops.len(),
{
    if ops.len() == 0 {
        Multiset::empty()
    } else {
        all_yielded(chan, ops.drop_last()).add(yielded(run(chan, ops.drop_last()), ops.last()))
    }
}

proof fn lemma_send_accounts<T>(chan: ChannelView<T>, msg: T, block: Option<Blocking>)
    requires
        chan.wf(),
        block matches Some(wait) ==> !chan.lockable.registered(wait.signal.token),
    ensures
        in_flight(chan.after_send_sync(msg, block)) == in_flight(chan).add(
            accepted(chan, Op::Send(msg, block)),
        ),
{
    let after = chan.after_send_sync(msg, block);
    let signal = match block {
        Some(wait) => Some(wait.signal),
        None => None,
    };
    if let Some(wait) = block {
        let hook = Hook::with_slot(Some(msg), wait.signal);
        model::lemma_join(chan.lockable.send_waiting, hook);
    }
    if chan.send_sync_result(msg, block) matches Step::Done(Err(_)) {
        assert(after == chan);
        assert(in_flight(chan).add(Multiset::empty()) =~= in_flight(chan));
    } else {
        assert(after == chan.after_send(msg, signal));
        law_send_adds_one(chan, msg, signal);
        assert(in_flight(chan).add(Multiset::singleton(msg)) =~= in_flight(chan).insert(msg));
    }
}

proof fn lemma_recv_accounts<T>(chan: ChannelView<T>, block: Option<Blocking>)
    requires
        chan.wf(),
        chan.recv_count > 0,
        block matches Some(wait) ==> !chan.lockable.registered(wait.signal.token),
    ensures
        in_flight(chan.after_recv_sync(block)).add(yielded(chan, Op::Recv(block))) == in_flight(
            chan,
        ),
{
    let after = chan.after_recv_sync(block);
    let hook = match block {
        Some(wait) => Some(Hook::<T>::with_slot(None, wait.signal)),
        None => None,
    };
    if let Some(wait) = block {
        model::lemma_join(chan.lockable.recv_waiting, Hook::<T>::with_slot(None, wait.signal));
        model::lemma_unborne(chan.lockable.woken, wait.signal.token);
    }
    law_recv_removes_one(chan, hook);
    if chan.contents().len() > 0 {
        let msg = chan.contents()[0];
        assert(in_flight(chan).remove(msg).add(Multiset::singleton(msg)) =~= in_flight(chan));
    } else {
        assert(in_flight(after) =~= in_flight(chan));
        assert(in_flight(chan).add(Multiset::empty()) =~= in_flight(chan));
    }
}

proof fn lemma_settling_accounts<T>(chan: ChannelView<T>)
    requires
        chan.wf(),
    ensures
        in_flight(chan.settle()) == in_flight(chan),
        in_flight(chan.cut_off()) == in_flight(chan),
{
    chan.lockable.lemma_pull(false);
    if chan.recv_count > 0 {
        lemma_in_flight(chan);
        lemma_in_flight(chan.settle());
    }
}

proof fn lemma_drain_accounts<T>(chan: ChannelView<T>)
    requires
        chan.wf(),
        chan.recv_count > 0,
    ensures
        in_flight(chan.after_drain()).add(yielded(chan, Op::Drain)) == in_flight(chan),
{
    let queue = chan.settle().lockable.queue;
    let after = chan.after_drain();
    chan.lockable.lemma_pull(false);
    law_drain_splits(chan);
    lemma_in_flight(chan);
    lemma_in_flight(after);
    vstd::seq_lib::lemma_multiset_commutative(queue, after.contents());
    assert(in_flight(after).add(queue.to_multiset()) =~= in_flight(chan));
}

/// No operation loses, doubles or makes up a message: what is in the channel after it, with what it
/// gave to its caller, is what was in the channel before it, with what it took in.
pub proof fn law_every_operation_accounts<T>(chan: ChannelView<T>, op: Op<T>)
    requires
        chan.wf(),
        allowed(chan, op),
    ensures
        in_flight(apply(chan, op)).add(yielded(chan, op)) == in_flight(chan).add(
            accepted(chan, op),
        ),
{
    let after = apply(chan, op);
    let before = in_flight(chan);
    assert(before.add(Multiset::empty()) =~= before);
    assert(in_flight(after).add(Multiset::empty()) =~= in_flight(after));
    match op {
        Op::Send(msg, block) => lemma_send_accounts(chan, msg, block),
        Op::Recv(block) => lemma_recv_accounts(chan, block),
        Op::ResumeSend(wait) => {
            law_resume_send_removes_own(chan, wait);
            if let Step::Done(Err(err)) = chan.resume_send_result(wait) {
                let msg = err.msg();
                assert(before.remove(msg).add(Multiset::singleton(msg)) =~= before);
            }
        },
        Op::ResumeRecv(wait) => {
            law_resume_recv_removes_one(chan, wait);
            if let Step::Done(Ok(msg)) = chan.resume_recv_result(wait) {
                assert(before.remove(msg).add(Multiset::singleton(msg)) =~= before);
            }
        },
        Op::Drain => lemma_drain_accounts(chan),
        _ => lemma_settling_accounts(chan),
    }
}

/// Every message that was accepted since the channel was made is still in it or was given to just
/// one party.
pub proof fn law_every_message_is_accounted_for<T>(id: u64, cap: Option<usize>, ops: Seq<Op<T>>)
    requires
        runnable(ChannelView::fresh(id, cap), ops),
    ensures
        ({
            let fresh = ChannelView::fresh(id, cap);
            in_flight(run(fresh, ops)).add(all_yielded(fresh, ops)) == all_accepted(fresh, ops)
        }),
    decreases ops.len(),
{
    let fresh = ChannelView::<T>::fresh(id, cap);
    if ops.len() == 0 {
        vstd::seq_lib::to_multiset_len(fresh.lockable.queue);
        assert(in_flight(fresh).add(all_yielded(fresh, ops)) =~= all_accepted(fresh, ops));
    } else {
        let front = ops.drop_last();
        let before = run(fresh, front);
        law_every_channel_is_orderly(id, cap, front);
        law_every_message_is_accounted_for(id, cap, front);
        law_every_operation_accounts(before, ops.last());
        assert(in_flight(run(fresh, ops)).add(all_yielded(fresh, ops)) =~= in_flight(
            run(fresh, ops),
        ).add(yielded(before, ops.last())).add(all_yielded(fresh, front)));
        assert(all_accepted(fresh, ops) =~= in_flight(before).add(
            accepted(before, ops.last()),
        ).add(all_yielded(fresh, front)));
    }
}

/// What can be done to a channel, with receives that wait otherwise than with a slot among it.
pub enum AnyOp<T> {
    /// An operation of a sender or a receiver.
    Handle(Op<T>),
    /// A receive that waits with this hook if there is no message.
    RecvWith(Hook<T>),
}

/// Whether the channel has the sender or receiver that does this, and an operation that may wait
/// goes under a token of its own, with no message in its slot if it is to receive one.
pub open spec fn any_allowed<T>(chan: ChannelView<T>, op: AnyOp<T>) -> bool {
    match op {
        AnyOp::Handle(op) => allowed(chan, op),
        AnyOp::RecvWith(hook) => chan.recv_count > 0 && hook.held() is None
            && !chan.lockable.registered(hook.signal.token),
    }
}

/// The channel after it.
pub open spec fn any_apply<T>(chan: ChannelView<T>, op: AnyOp<T>) -> ChannelView<T> {
    match op {
        AnyOp::Handle(op) => apply(chan, op),
        AnyOp::RecvWith(hook) => chan.after_recv(Some(hook)),
    }
}

/// The message that an operation puts into the channel.
pub open spec fn any_accepted<T>(chan: ChannelView<T>, op: AnyOp<T>) -> Multiset<T> {
    match op {
        AnyOp::Handle(op) => accepted(chan, op),
        AnyOp::RecvWith(_) => Multiset::empty(),
    }
}

/// The messages that an operation gives to its caller out of the channel.
pub open spec fn any_yielded<T>(chan: ChannelView<T>, op: AnyOp<T>) -> Multiset<T> {
    match op {
        AnyOp::Handle(op) => yielded(chan, op),
        AnyOp::RecvWith(_) => match chan.recv_result(true) {
            Some(Ok(msg)) => Multiset::singleton(msg),
            _ => Multiset::empty(),
        },
    }
}

/// The channel after a series of operations.
pub open spec fn any_run<T>(chan: ChannelView<T>, ops: Seq<AnyOp<T>>) -> ChannelView<T>
    decreases ops.len(),
{
    if ops.len() == 0 {
        chan
    } else {
        any_apply(any_run(chan, ops.drop_last()), ops.last())
    }
}

/// Whether each operation of a series can be done when its turn comes.
pub open spec fn any_runnable<T>(chan: ChannelView<T>, ops: Seq<AnyOp<T>>) -> bool
    decreases ops.len(),
{
    ops.len() > 0 ==> any_runnable(chan, ops.drop_last()) && any_allowed(
        any_run(chan, ops.drop_last()),
        ops.last(),
    )
}

/// The messages that a series of operations puts into the channel.
pub open spec fn any_all_accepted<T>(chan: ChannelView<T>, ops: Seq<AnyOp<T>>) -> Multiset<T>
    decreases ops.len(),
{
    if ops.len() == 0 {
        Multiset::empty()
    } else {
        any_all_accepted(chan, ops.drop_last()).add(
            any_accepted(any_run(chan, ops.drop_last()), ops.last()),
        )
    }
}

/// The messages that a series of operations gives to its callers out of the channel.
pub open spec fn any_all_yielded<T>(chan: ChannelView<T>, ops: Seq<AnyOp<T>>) -> Multiset<T>
    decreases ops.len(),
{
    if ops.len() == 0 {
        Multiset::empty()
    } else {
        any_all_yielded(chan, ops.drop_last()).add(
            any_yielded(any_run(chan, ops.drop_last()), ops.last()),
        )
    }
}

/// Whatever is done to a channel leaves it in working order, with its id and its capacity, however
/// receivers wait.
pub proof fn law_any_operation_keeps_working_order<T>(chan: ChannelView<T>, op: AnyOp<T>)
    requires
        chan.wf(),
        any_allowed(chan, op),
    ensures
        any_apply(chan, op).wf(),
        any_apply(chan, op).id == chan.id,
        any_apply(chan, op).lockable.cap == chan.lockable.cap,
{
    match op {
        AnyOp::Handle(op) => law_every_operation_keeps_order(chan, op),
        AnyOp::RecvWith(_) => chan.lockable.lemma_pull(true),
    }
}

/// No operation loses, doubles or makes up a message, however receivers wait.
pub proof fn law_any_operation_accounts<T>(chan: ChannelView<T>, op: AnyOp<T>)
    requires
        chan.wf(),
        any_allowed(chan, op),
    ensures
        in_flight(any_apply(chan, op)).add(any_yielded(chan, op)) == in_flight(chan).add(
            any_accepted(chan, op),
        ),
{
    match op {
        AnyOp::Handle(op) => law_every_operation_accounts(chan, op),
        AnyOp::RecvWith(hook) => {
            let before = in_flight(chan);
            let after = in_flight(any_apply(chan, op));
            law_recv_removes_one(chan, Some(hook));
            assert(before.add(Multiset::empty()) =~= before);
            if let Some(Ok(msg)) = chan.recv_result(true) {
                assert(before.remove(msg).add(Multiset::singleton(msg)) =~= before);
            } else {
                assert(after.add(Multiset::empty()) =~= before);
            }
        },
    }
}

/// Every message that was accepted since the channel was made is still in it or was given to just
/// one party, however receivers wait. The channel is in working order all the time, and disconnected
/// if and only if all senders or all receivers are gone.
pub proof fn law_any_message_is_accounted_for<T>(id: u64, cap: Option<usize>, ops: Seq<AnyOp<T>>)
    requires
        any_runnable(ChannelView::fresh(id, cap), ops),
    ensures
        ({
            let fresh = ChannelView::fresh(id, cap);
            let chan = any_run(fresh, ops);
            &&& in_flight(chan).add(any_all_yielded(fresh, ops)) == any_all_accepted(fresh, ops)
            &&& chan.wf()
            &&& chan.id == id
            &&& chan.lockable.cap == cap
            &&& chan.disconnected <==> chan.send_count == 0 || chan.recv_count == 0
        }),
    decreases ops.len(),
{
    let fresh = ChannelView::<T>::fresh(id, cap);
    if ops.len() == 0 {
        vstd::seq_lib::to_multiset_len(fresh.lockable.queue);
        assert(in_flight(fresh).add(any_all_yielded(fresh, ops)) =~= any_all_accepted(fresh, ops));
    } else {
        let front = ops.drop_last();
        let op = ops.last();
        let before = any_run(fresh, front);
        law_any_message_is_accounted_for(id, cap, front);
        law_any_operation_accounts(before, op);
        law_any_operation_keeps_working_order(before, op);
        assert(in_flight(any_run(fresh, ops)).add(any_all_yielded(fresh, ops)) =~= in_flight(
            any_run(fresh, ops),
        ).add(any_yielded(before, op)).add(any_all_yielded(fresh, front)));
        assert(any_all_accepted(fresh, ops) =~= in_flight(before).add(any_accepted(before, op)).add(
            any_all_yielded(fresh, front),
        ));
    }
}

// ---- Waiting parties ----

/// The first waiting receiver that takes a message gets the next message sent, is woken up for it,
/// and leaves the list with those before it, which are streams. The messages in the channel stay.
pub proof fn law_waiting_receiver_gets_message<T>(
    chan: ChannelView<T>,
    msg: T,
    block: Option<Signal>,
    k: int,
    wait: Blocking,
)
    requires
        chan.wf(),
        !chan.disconnected,
        0 <= k < chan.lockable.recv_waiting.len(),
        forall|i: int| 0 <= i < k ==> (#[trigger] chan.lockable.recv_waiting[i]).passes(),
        chan.lockable.recv_waiting[k].slot is Some,
        wait.signal == chan.lockable.recv_waiting[k].signal,
    ensures
        chan.send_result(msg, block is Some) == Some(Ok::<(), TrySendTimeoutError<T>>(())),
        chan.after_send(msg, block).resume_recv_result(wait) == Step::Done(
            Ok::<T, TryRecvTimeoutError>(msg),
        ),
        chan.after_send(msg, block).lockable.fired.contains(wait.signal),
        chan.after_send(msg, block).lockable.recv_waiting == chan.lockable.recv_waiting.skip(k + 1),
        chan.after_send(msg, block).contents() == chan.contents(),
{
    let waiting = chan.lockable.recv_waiting;
    let after = chan.after_send(msg, block);
    model::lemma_first_index(waiting, model::takes(), k);
    assert forall|j: int| 0 <= j < chan.lockable.woken.len() implies (
    #[trigger] chan.lockable.woken[j]).signal.token != wait.signal.token by {
        assert(waiting[k].signal.token != chan.lockable.woken[j].signal.token);
    }
    model::lemma_join(chan.lockable.woken, Hook::with_slot(Some(msg), wait.signal));
    assert(after.lockable.fired[chan.lockable.fired.len() + k] == wait.signal);
    assert(after.contents() =~= chan.contents());
}

/// A message is sent to all who wait for one, down to the first that takes it: they are woken up and
/// leave the list. Unless that one has a slot, the message is then last in the queue for them to
/// fetch.
pub proof fn law_send_wakes_receivers<T>(
    chan: ChannelView<T>,
    msg: T,
    block: Option<Signal>,
    k: int,
)
    requires
        chan.wf(),
        !chan.disconnected,
        0 <= k < chan.lockable.recv_waiting.len(),
        forall|i: int| 0 <= i < k ==> (#[trigger] chan.lockable.recv_waiting[i]).passes(),
    ensures
        fired_since(chan, chan.after_send(msg, block), chan.lockable.recv_waiting[k].signal),
        !model::borne(
            chan.after_send(msg, block).lockable.recv_waiting,
            chan.lockable.recv_waiting[k].signal.token,
        ),
        chan.after_send(msg, block).lockable.queue == if hands_over(chan) {
            chan.lockable.queue
        } else {
            chan.lockable.queue.push(msg)
        },
{
    let waiting = chan.lockable.recv_waiting;
    let after = chan.after_send(msg, block);
    let n = model::first_index(waiting, model::takes()) as int;
    model::lemma_first_index_found(waiting, model::takes());
    let fired = after.lockable.fired.skip(chan.lockable.fired.len() as int);
    assert(fired[k] == waiting[k].signal);
    assert forall|j: int| 0 <= j < after.lockable.recv_waiting.len() implies (
    #[trigger] after.lockable.recv_waiting[j]).signal.token != waiting[k].signal.token by {
        assert(after.lockable.recv_waiting[j] == waiting[n + 1 + j]);
    }
}

/// A sender whose message goes from the waiting list to the queue is woken up, and its send is over.
pub proof fn law_waiting_sender_is_served<T>(
    chan: ChannelView<T>,
    pull_extra: bool,
    k: int,
    wait: Blocking,
)
    requires
        chan.wf(),
        chan.recv_count > 0,
        0 <= k < chan.lockable.pulled(pull_extra),
        wait.signal == chan.lockable.send_waiting[k].signal,
    ensures
        ({
            let after = ChannelView { lockable: chan.lockable.pull(pull_extra), ..chan };
            &&& after.resume_send_result(wait) == Step::Done(
                Ok::<(), TrySendTimeoutError<T>>(()),
            )
            &&& after.lockable.fired.contains(wait.signal)
            &&& after.lockable.queue[chan.lockable.queue.len() + k] == chan.lockable.send_waiting[k]
                .held()->0
        }),
{
    let after = ChannelView { lockable: chan.lockable.pull(pull_extra), ..chan };
    let n = chan.lockable.pulled(pull_extra);
    let left = after.lockable.send_waiting;
    assert forall|j: int| 0 <= j < left.len() implies (#[trigger] left[j]).signal.token
        != wait.signal.token by {
        assert(chan.lockable.send_waiting[k].signal.token
            != chan.lockable.send_waiting[n + j].signal.token);
    }
    model::lemma_unborne(left, wait.signal.token);
    assert(after.lockable.fired[chan.lockable.fired.len() + k] == wait.signal);
}

/// A send that has to wait, and times out before anything else happens, leaves no trace.
pub proof fn law_timed_out_send_is_undone<T>(chan: ChannelView<T>, msg: T, wait: Blocking)
    requires
        chan.wf(),
        !chan.lockable.registered(wait.signal.token),
        chan.send_result(msg, true) is None,
        wait.deadline matches Some(deadline) && deadline < wait.now,
    ensures
        ({
            let waiting = chan.after_send(msg, Some(wait.signal));
            &&& waiting.resume_send_result(wait) == Step::<Result<(), TrySendTimeoutError<T>>>::Done(
                Err(TrySendTimeoutError::Timeout(msg)),
            )
            &&& waiting.after_resume_send(wait) == chan
        }),
{
    model::lemma_join(chan.lockable.send_waiting, Hook::with_slot(Some(msg), wait.signal));
}

/// A receive that has to wait, and times out before anything else happens, leaves no trace.
pub proof fn law_timed_out_recv_is_undone<T>(chan: ChannelView<T>, wait: Blocking)
    requires
        chan.wf(),
        chan.recv_count > 0,
        !chan.lockable.registered(wait.signal.token),
        chan.recv_result(true) is None,
        wait.deadline matches Some(deadline) && deadline < wait.now,
    ensures
        ({
            let waiting = chan.after_recv(Some(Hook::with_slot(None, wait.signal)));
            &&& waiting.resume_recv_result(wait) == Step::<Result<T, TryRecvTimeoutError>>::Done(
                Err(TryRecvTimeoutError::Timeout),
            )
            &&& waiting.after_resume_recv(wait) == chan
        }),
{
    model::lemma_unborne(chan.lockable.woken, wait.signal.token);
    model::lemma_join(chan.lockable.recv_waiting, Hook::<T>::with_slot(None, wait.signal));
}

/// On a channel of capacity 0 a send waits until its message is received.
pub proof fn law_rendezvous<T>(chan: ChannelView<T>, msg: T, wait: Blocking)
    requires
        chan.wf(),
        !chan.disconnected,
        chan.lockable.cap == Some(0usize),
        chan.contents().len() == 0,
        chan.lockable.recv_waiting.len() == 0,
        !chan.lockable.registered(wait.signal.token),
        wait.deadline is None,
    ensures
        chan.send_result(msg, true) is None,
        ({
            let waiting = chan.after_send(msg, Some(wait.signal));
            &&& waiting.resume_send_result(wait) == Step::<Result<(), TrySendTimeoutError<T>>>::Wait(
                None,
            )
            &&& waiting.recv_result(false) == Some(Ok::<T, TryRecvTimeoutError>(msg))
            &&& waiting.after_recv(None).resume_send_result(wait) == Step::Done(
                Ok::<(), TrySendTimeoutError<T>>(()),
            )
            &&& waiting.after_recv(None).contents().len() == 0
        }),
{
    let waiting = chan.after_send(msg, Some(wait.signal));
    model::lemma_join(chan.lockable.send_waiting, Hook::with_slot(Some(msg), wait.signal));
    assert(waiting.lockable.send_waiting.skip(1) =~= Seq::empty());
    assert(waiting.after_recv(None).lockable.send_waiting =~= Seq::empty());
    model::lemma_unborne(waiting.after_recv(None).lockable.send_waiting, wait.signal.token);
}

/// Whether an operation is a new send under `token`.
pub open spec fn sends_under<T>(op: Op<T>, token: u64) -> bool {
    op matches Op::Send(_, Some(wait)) && wait.signal.token == token
}

/// A blocked send goes on offering its own message until somebody takes it or the send takes it
/// back: nothing that is done to the channel puts another message in its place.
pub proof fn law_blocked_send_keeps_its_message<T>(chan: ChannelView<T>, op: Op<T>, token: u64)
    requires
        chan.wf(),
        allowed(chan, op),
        !sends_under(op, token),
    ensures
        ({
            let before = model::held_by(chan.lockable.send_waiting, token);
            let after = model::held_by(apply(chan, op).lockable.send_waiting, token);
            after is None || after == before
        }),
{
    let waiting = chan.lockable.send_waiting;
    let left = apply(chan, op).lockable.send_waiting;
    let j = model::position(left, token);
    model::lemma_first_index_found(left, model::bears(token));
    if j < left.len() && left[j].held() is Some {
        assert(waiting.contains(left[j])) by {
            match op {
                Op::Send(msg, block) => {
                    if let Some(wait) = block {
                        let hook = Hook::with_slot(Some(msg), wait.signal);
                        model::lemma_join(waiting, hook);
                    }
                    assert(waiting[j] == left[j]);
                },
                Op::ResumeSend(wait) => {
                    model::lemma_without(waiting, wait.signal.token);
                    if !waiting.contains(left[j]) {
                        assert(waiting[j] == left[j]);
                    }
                },
                Op::Recv(_) => {
                    let n = if chan.contents().len() > 0 {
                        chan.lockable.pulled(true)
                    } else {
                        0
                    };
                    assert(waiting[n + j] == left[j]);
                },
                _ => {
                    let n = if left.len() < waiting.len() {
                        chan.lockable.pulled(false)
                    } else {
                        0
                    };
                    assert(waiting[n + j] == left[j]);
                },
            }
        }
        let i = waiting.index_of(left[j]);
        model::lemma_without_one(waiting, i);
    }
}

/// A channel stays in working order over a series of operations.
proof fn lemma_run_wf<T>(chan: ChannelView<T>, ops: Seq<Op<T>>)
    requires
        chan.wf(),
        runnable(chan, ops),
    ensures
        run(chan, ops).wf(),
    decreases ops.len(),
{
    if ops.len() > 0 {
        lemma_run_wf(chan, ops.drop_last());
        law_every_operation_keeps_order(run(chan, ops.drop_last()), ops.last());
    }
}

/// Over any series of operations, a blocked send goes on offering its own message until somebody
/// takes it or the send takes it back.
pub proof fn law_blocked_send_keeps_its_message_over_a_run<T>(
    chan: ChannelView<T>,
    ops: Seq<Op<T>>,
    token: u64,
)
    requires
        chan.wf(),
        runnable(chan, ops),
        forall|i: int| 0 <= i < ops.len() ==> !sends_under(#[trigger] ops[i], token),
    ensures
        ({
            let before = model::held_by(chan.lockable.send_waiting, token);
            let after = model::held_by(run(chan, ops).lockable.send_waiting, token);
            after is None || after == before
        }),
    decreases ops.len(),
{
    if ops.len() > 0 {
        let front = ops.drop_last();
        assert forall|i: int| 0 <= i < front.len() implies !sends_under(
            #[trigger] front[i],
            token,
        ) by {
            assert(!sends_under(ops[i], token));
        }
        law_blocked_send_keeps_its_message_over_a_run(chan, front, token);
        lemma_run_wf(chan, front);
        assert(!sends_under(ops[ops.len() - 1], token));
        law_blocked_send_keeps_its_message(run(chan, front), ops.last(), token);
    }
}

/// A send that fails gives back its own message: at once, or whenever its party looks after it,
/// whatever is done to the channel meanwhile.
pub proof fn law_failed_send_returns_its_message<T>(
    chan: ChannelView<T>,
    msg: T,
    wait: Blocking,
    ops: Seq<Op<T>>,
    later: Blocking,
)
    requires
        chan.wf(),
        allowed(chan, Op::Send(msg, Some(wait))),
        runnable(apply(chan, Op::Send(msg, Some(wait))), ops),
        forall|i: int|
            0 <= i < ops.len() ==> !sends_under(#[trigger] ops[i], wait.signal.token),
        later.signal.token == wait.signal.token,
    ensures
        chan.send_sync_result(msg, Some(wait)) matches Step::Done(Err(err)) ==> err.msg() == msg
            && apply(chan, Op::Send(msg, Some(wait))) == chan,
        run(apply(chan, Op::Send(msg, Some(wait))), ops).resume_send_result(
            later,
        ) matches Step::Done(Err(err)) ==> err.msg() == msg,
{
    let hook = Hook::with_slot(Some(msg), wait.signal);
    model::lemma_join(chan.lockable.send_waiting, hook);
    law_every_operation_keeps_order(chan, Op::Send(msg, Some(wait)));
    law_blocked_send_keeps_its_message_over_a_run(
        apply(chan, Op::Send(msg, Some(wait))),
        ops,
        wait.signal.token,
    );
}

/// A message that was handed to a blocked receive stays there until its party comes for it, whatever
/// is done to the channel meanwhile.
pub proof fn law_handed_message_stays<T>(
    chan: ChannelView<T>,
    ops: Seq<Op<T>>,
    wait: Blocking,
)
    requires
        chan.wf(),
        runnable(chan, ops),
        model::held_by(chan.lockable.woken, wait.signal.token) is Some,
        forall|i: int|
            0 <= i < ops.len() ==> !(#[trigger] ops[i] matches Op::ResumeRecv(other)
                && other.signal.token == wait.signal.token),
    ensures
        model::held_by(run(chan, ops).lockable.woken, wait.signal.token) == model::held_by(
            chan.lockable.woken,
            wait.signal.token,
        ),
        run(chan, ops).resume_recv_result(wait) == chan.resume_recv_result(wait),
    decreases ops.len(),
{
    let token = wait.signal.token;
    if ops.len() > 0 {
        let front = ops.drop_last();
        let op = ops.last();
        let before = run(chan, front);
        let after = apply(before, op);
        assert forall|i: int| 0 <= i < front.len() implies !(#[trigger] front[i] matches
            Op::ResumeRecv(other) && other.signal.token == token) by {
            assert(!(ops[i] matches Op::ResumeRecv(other) && other.signal.token == token));
        }
        law_handed_message_stays(chan, front, wait);
        lemma_run_wf(chan, front);
        law_every_operation_keeps_order(before, op);
        let woken = before.lockable.woken;
        let i = model::position(woken, token);
        model::lemma_first_index_found(woken, model::bears(token));
        assert(!(ops[ops.len() - 1] matches Op::ResumeRecv(other) && other.signal.token == token));
        let j = match op {
            Op::ResumeRecv(other) => {
                let k = model::position(woken, other.signal.token);
                if k < i {
                    i - 1
                } else {
                    i
                }
            },
            _ => i,
        };
        if let Op::ResumeRecv(other) = op {
            model::lemma_first_index_found(woken, model::bears(other.signal.token));
        }
        if let Op::Recv(Some(other)) = op {
            model::lemma_unborne(woken, other.signal.token);
        }
        assert(after.lockable.woken[j] == woken[i]);
        model::lemma_without_one(after.lockable.woken, j);
    }
}

/// How many operations of a series are receives.
pub open spec fn recvs<T>(ops: Seq<Op<T>>) -> nat
    decreases ops.len(),
{
    if ops.len() == 0 {
        0
    } else {
        recvs(ops.drop_last()) + if ops.last() is Recv {
            1nat
        } else {
            0
        }
    }
}

/// Those who wait to send are served in turn.
///
/// A send that has to wait comes after all messages in the channel. It goes on waiting over as many
/// receives as there are messages beyond the capacity: on a channel that is just full, as many as
/// there are parties waiting before it. The next receive serves it. If the last receiver goes before
/// that, its message comes back.
pub proof fn law_senders_are_served_in_turn<T>(
    chan: ChannelView<T>,
    msg: T,
    wait: Blocking,
    ops: Seq<Op<T>>,
)
    requires
        chan.wf(),
        allowed(chan, Op::Send(msg, Some(wait))),
        chan.send_sync_result(msg, Some(wait)) is Wait,
        runnable(apply(chan, Op::Send(msg, Some(wait))), ops),
        forall|i: int|
            0 <= i < ops.len() ==> #[trigger] ops[i] is Recv || ops[i] is DropReceiver,
    ensures
        ({
            let end = run(apply(chan, Op::Send(msg, Some(wait))), ops);
            let all = chan.contents().push(msg);
            let turn = chan.contents().len() - chan.lockable.cap->0;
            let n = recvs(ops);
            &&& chan.lockable.queue.len() == chan.lockable.cap->0 ==> turn
                == chan.lockable.send_waiting.len()
            &&& n <= turn && end.recv_count > 0 ==> end.resume_send_result(wait)
                == chan.send_sync_result(msg, Some(wait))
            &&& n <= turn && end.recv_count == 0 ==> end.resume_send_result(wait) == Step::<
                Result<(), TrySendTimeoutError<T>>,
            >::Done(Err(TrySendTimeoutError::Disconnected(msg)))
            &&& n > turn ==> end.resume_send_result(wait) == Step::Done(
                Ok::<(), TrySendTimeoutError<T>>(()),
            )
            &&& model::held_by(end.lockable.send_waiting, wait.signal.token) == if n <= turn {
                Some(msg)
            } else {
                None
            }
            &&& end.disconnected <==> end.recv_count == 0
            &&& end.contents() == if n <= all.len() {
                all.skip(n as int)
            } else {
                Seq::empty()
            }
            &&& n < all.len() ==> end.recv_result(true) == Some(
                Ok::<T, TryRecvTimeoutError>(all[n as int]),
            )
        }),
{
    let token = wait.signal.token;
    let hook = Hook::with_slot(Some(msg), wait.signal);
    let end = run(apply(chan, Op::Send(msg, Some(wait))), ops);
    model::lemma_join(chan.lockable.send_waiting, hook);
    lemma_turn(chan, msg, wait, ops);
    let left = end.lockable.send_waiting;
    if left.len() > 0 {
        model::lemma_without_one(left, left.len() - 1);
    } else {
        model::lemma_unborne(left, token);
    }
}

/// A receive brings a full channel one step nearer to the turn of whoever stands last.
proof fn lemma_turn_recv<T>(
    chan: ChannelView<T>,
    block: Option<Blocking>,
    cap: usize,
    hook: Hook<T>,
)
    requires
        chan.wf(),
        allowed(chan, Op::Recv(block)),
        chan.lockable.cap == Some(cap),
    ensures
        ({
            let after = apply(chan, Op::Recv(block));
            let waiting = chan.lockable.send_waiting;
            let left = after.lockable.send_waiting;
            &&& after.contents() == if chan.contents().len() > 0 {
                chan.contents().skip(1)
            } else {
                Seq::empty()
            }
            &&& waiting.len() == 0 ==> left.len() == 0
            &&& waiting.len() > 0 && waiting.last() == hook && chan.lockable.queue.len() >= cap ==> {
                &&& after.lockable.queue.len() >= cap
                &&& chan.contents().len() > cap + 1 ==> left.len() > 0 && left.last() == hook
                &&& chan.contents().len() <= cap + 1 ==> left.len() == 0
            }
            &&& after.send_count == chan.send_count
        }),
{
    let after = apply(chan, Op::Recv(block));
    let other = match block {
        Some(wait) => Some(Hook::<T>::with_slot(None, wait.signal)),
        None => None,
    };
    law_recv_takes_oldest(chan, other);
    if chan.contents().len() > 0 {
        assert(after == chan.after_recv(other));
    } else {
        assert(after.contents() =~= Seq::empty());
    }
}

/// Until its turn has come, a send stands last in its list, and the channel is full; then nobody
/// waits to send any more.
proof fn lemma_turn<T>(chan: ChannelView<T>, msg: T, wait: Blocking, ops: Seq<Op<T>>)
    requires
        chan.wf(),
        allowed(chan, Op::Send(msg, Some(wait))),
        chan.send_sync_result(msg, Some(wait)) is Wait,
        runnable(apply(chan, Op::Send(msg, Some(wait))), ops),
        forall|i: int|
            0 <= i < ops.len() ==> #[trigger] ops[i] is Recv || ops[i] is DropReceiver,
    ensures
        ({
            let end = run(apply(chan, Op::Send(msg, Some(wait))), ops);
            let all = chan.contents().push(msg);
            let turn = chan.contents().len() - chan.lockable.cap->0;
            let n = recvs(ops);
            &&& end.wf()
            &&& end.send_count == chan.send_count
            &&& end.lockable.cap == chan.lockable.cap
            &&& n <= turn ==> {
                &&& end.lockable.send_waiting.len() > 0
                &&& end.lockable.send_waiting.last() == Hook::with_slot(Some(msg), wait.signal)
                &&& end.lockable.queue.len() >= chan.lockable.cap->0
            }
            &&& n > turn ==> end.lockable.send_waiting.len() == 0
            &&& end.contents() == if n <= all.len() {
                all.skip(n as int)
            } else {
                Seq::empty()
            }
        }),
    decreases ops.len(),
{
    let start = apply(chan, Op::Send(msg, Some(wait)));
    let all = chan.contents().push(msg);
    let hook = Hook::with_slot(Some(msg), wait.signal);
    if ops.len() == 0 {
        model::lemma_join(chan.lockable.send_waiting, hook);
        law_every_operation_keeps_order(chan, Op::Send(msg, Some(wait)));
        assert(start == chan.after_send(msg, Some(wait.signal)));
        assert(start.contents() =~= all);
        assert(all.skip(0) =~= all);
    } else {
        let front = ops.drop_last();
        let op = ops.last();
        let before = run(start, front);
        let n = recvs(front) as int;
        assert forall|i: int| 0 <= i < front.len() implies #[trigger] front[i] is Recv
            || front[i] is DropReceiver by {
            assert(ops[i] is Recv || ops[i] is DropReceiver);
        }
        lemma_turn(chan, msg, wait, front);
        law_every_operation_keeps_order(before, op);
        assert(ops[ops.len() - 1] is Recv || ops[ops.len() - 1] is DropReceiver);
        if let Op::Recv(block) = op {
            lemma_turn_recv(before, block, chan.lockable.cap->0, hook);
            assert(0 <= n < all.len() ==> all.skip(n).skip(1) =~= all.skip(n + 1));
        } else {
            before.lockable.lemma_pull(false);
        }
    }
}

/// The hooks of the first waiting receivers, each with the message of one send in its slot.
pub open spec fn handed<T>(waiting: Seq<Hook<T>>, sends: Seq<(T, Signal)>) -> Seq<Hook<T>> {
    Seq::new(sends.len(), |i: int| Hook::with_slot(Some(sends[i].0), waiting[i].signal))
}

/// Those who wait for a message are served in turn: of messages sent one after the other, the first
/// waiting receiver gets the first, the second gets the second, and so on. The others go on waiting,
/// and the messages in the channel stay.
pub proof fn law_receivers_are_served_in_turn<T>(
    chan: ChannelView<T>,
    sends: Seq<(T, Signal)>,
    k: int,
    wait: Blocking,
)
    requires
        chan.wf(),
        !chan.disconnected,
        sends.len() <= chan.lockable.recv_waiting.len(),
        forall|i: int|
            0 <= i < chan.lockable.recv_waiting.len() ==> (
            #[trigger] chan.lockable.recv_waiting[i]).slot is Some,
        0 <= k < chan.lockable.recv_waiting.len(),
        wait.signal == chan.lockable.recv_waiting[k].signal,
    ensures
        after_sends(chan, sends).resume_recv_result(wait) == if k < sends.len() {
            Step::Done(Ok(sends[k].0))
        } else {
            chan.resume_recv_result(wait)
        },
        after_sends(chan, sends).lockable.recv_waiting == chan.lockable.recv_waiting.skip(
            sends.len() as int,
        ),
        after_sends(chan, sends).contents() == chan.contents(),
{
    let waiting = chan.lockable.recv_waiting;
    let token = wait.signal.token;
    let end = after_sends(chan, sends);
    let woken = end.lockable.woken;
    lemma_hand_overs(chan, sends);
    assert forall|j: int| 0 <= j < chan.lockable.woken.len() implies (
    #[trigger] chan.lockable.woken[j]).signal.token != token by {
        assert(waiting[k].signal.token != chan.lockable.woken[j].signal.token);
    }
    model::lemma_unborne(chan.lockable.woken, token);
    if k < sends.len() {
        let j = chan.lockable.woken.len() + k;
        assert(woken[j] == handed(waiting, sends)[k]);
        model::lemma_without_one(woken, j);
    } else {
        assert forall|j: int| 0 <= j < woken.len() implies (#[trigger] woken[j]).signal.token
            != token by {
            let n = chan.lockable.woken.len();
            if j < n {
                assert(woken[j] == chan.lockable.woken[j]);
            } else {
                assert(woken[j] == handed(waiting, sends)[j - n]);
                assert(waiting[j - n].signal.token != waiting[k].signal.token);
            }
        }
        model::lemma_unborne(woken, token);
    }
}

proof fn lemma_hand_overs<T>(chan: ChannelView<T>, sends: Seq<(T, Signal)>)
    requires
        chan.wf(),
        !chan.disconnected,
        sends.len() <= chan.lockable.recv_waiting.len(),
        forall|i: int|
            0 <= i < chan.lockable.recv_waiting.len() ==> (
            #[trigger] chan.lockable.recv_waiting[i]).slot is Some,
    ensures
        ({
            let end = after_sends(chan, sends);
            let waiting = chan.lockable.recv_waiting;
            &&& end.wf()
            &&& !end.disconnected
            &&& end.lockable.queue == chan.lockable.queue
            &&& end.lockable.send_waiting == chan.lockable.send_waiting
            &&& end.lockable.recv_waiting == waiting.skip(sends.len() as int)
            &&& end.lockable.woken == chan.lockable.woken + handed(waiting, sends)
        }),
    decreases sends.len(),
{
    let waiting = chan.lockable.recv_waiting;
    if sends.len() == 0 {
        assert(waiting.skip(0) =~= waiting);
        assert(chan.lockable.woken + handed(waiting, sends) =~= chan.lockable.woken);
    } else {
        let front = sends.drop_last();
        let n = front.len() as int;
        let before = after_sends(chan, front);
        let (msg, signal) = sends.last();
        lemma_hand_overs(chan, front);
        assert(before.lockable.recv_waiting[0] == waiting[n]);
        model::lemma_first_index(before.lockable.recv_waiting, model::takes(), 0);
        lemma_send_keeps_order(before, msg, None);
        assert(before.after_send(msg, Some(signal)) == before.after_send_sync(msg, None));
        assert(waiting.skip(n).skip(1) =~= waiting.skip(n + 1));
        assert(handed(waiting, sends) =~= handed(waiting, front).push(
            Hook::with_slot(Some(msg), waiting[n].signal),
        ));
        assert(after_sends(chan, sends).lockable.woken =~= chan.lockable.woken + handed(
            waiting,
            sends,
        ));
    }
}

/// Whether `signal` was fired between two states of a channel.
pub open spec fn fired_since<T>(
    before: ChannelView<T>,
    after: ChannelView<T>,
    signal: Signal,
) -> bool {
    after.lockable.fired.skip(before.lockable.fired.len() as int).contains(signal)
}

/// No wake-up is lost on those who wait to send: an operation of somebody else after which a send
/// need not wait any longer fires its signal.
pub proof fn law_waiting_sender_is_woken<T>(
    chan: ChannelView<T>,
    op: Op<T>,
    k: int,
    wait: Blocking,
)
    requires
        chan.wf(),
        allowed(chan, op),
        !(op is TakeFired),
        op matches Op::ResumeSend(other) ==> other.signal.token != wait.signal.token,
        0 <= k < chan.lockable.send_waiting.len(),
        wait.signal == chan.lockable.send_waiting[k].signal,
        chan.resume_send_result(wait) is Wait,
        apply(chan, op).resume_send_result(wait) is Done,
    ensures
        fired_since(chan, apply(chan, op), wait.signal),
{
    let waiting = chan.lockable.send_waiting;
    let after = apply(chan, op);
    let left = after.lockable.send_waiting;
    let fired = after.lockable.fired.skip(chan.lockable.fired.len() as int);
    law_every_operation_keeps_order(chan, op);
    model::lemma_without_one(waiting, k);
    assert forall|j: int| 0 <= j < left.len() && !after.disconnected implies #[trigger] left[j]
        != waiting[k] by {
        model::lemma_without_one(left, j);
    }
    match op {
        Op::Send(msg, block) => {
            if let Some(other) = block {
                model::lemma_join(waiting, Hook::with_slot(Some(msg), other.signal));
            }
            assert(left[k] == waiting[k]);
        },
        Op::ResumeSend(other) => {
            if let Step::Done(Err(TrySendTimeoutError::Timeout(_))) = chan.resume_send_result(
                other,
            ) {
                waiting.lemma_filter_contains(model::lacks(other.signal.token), k);
                let j = left.index_of(waiting[k]);
                assert(left[j] == waiting[k]);
            } else {
                assert(left[k] == waiting[k]);
            }
        },
        Op::Recv(block) => {
            let n = chan.lockable.pulled(true);
            if chan.contents().len() > 0 && k < n {
                assert(fired[k] == wait.signal);
            } else if chan.contents().len() > 0 {
                assert(left[k - n] == waiting[k]);
            } else {
                assert(chan.contents()[chan.lockable.queue.len() + k] == waiting[k].held()->0);
            }
        },
        Op::Len | Op::Drain => {
            let n = chan.lockable.pulled(false);
            if k < n {
                assert(fired[k] == wait.signal);
            } else {
                assert(left[k - n] == waiting[k]);
            }
        },
        Op::DropSender | Op::DropReceiver => {
            if after.disconnected {
                assert(fired[k] == wait.signal);
            } else {
                assert(left[k] == waiting[k]);
            }
        },
        _ => {
            assert(left[k] == waiting[k]);
        },
    }
}

/// No wake-up is lost on those who wait for a message: an operation of somebody else after which a
/// receive need not wait any longer fires its signal.
pub proof fn law_waiting_receiver_is_woken<T>(
    chan: ChannelView<T>,
    op: Op<T>,
    k: int,
    wait: Blocking,
)
    requires
        chan.wf(),
        allowed(chan, op),
        !(op is TakeFired),
        op matches Op::ResumeRecv(other) ==> other.signal.token != wait.signal.token,
        0 <= k < chan.lockable.recv_waiting.len(),
        wait.signal == chan.lockable.recv_waiting[k].signal,
        chan.resume_recv_result(wait) is Wait,
        apply(chan, op).resume_recv_result(wait) is Done,
    ensures
        fired_since(chan, apply(chan, op), wait.signal),
{
    let waiting = chan.lockable.recv_waiting;
    let after = apply(chan, op);
    let woken = after.lockable.woken;
    let fired = after.lockable.fired.skip(chan.lockable.fired.len() as int);
    let token = wait.signal.token;
    model::lemma_first_index_found(woken, model::bears(token));
    match op {
        Op::Send(msg, block) => {
            let n = model::first_index(waiting, model::takes()) as int;
            model::lemma_first_index_found(waiting, model::takes());
            let j = model::position(woken, token);
            assert(j < woken.len() && woken[j].signal.token == token);
            if j < chan.lockable.woken.len() {
                assert(waiting[k].signal.token != chan.lockable.woken[j].signal.token);
            } else {
                assert(waiting[n].signal.token == waiting[k].signal.token);
                assert(n == k);
                assert(fired[k] == wait.signal);
            }
        },
        Op::DropSender | Op::DropReceiver => {
            if after.disconnected {
                let pulled = chan.lockable.pull(false);
                let n = pulled.fired.len() - chan.lockable.fired.len() + pulled.send_waiting.len();
                assert(fired[n + k] == wait.signal);
            }
        },
        Op::ResumeRecv(other) => {
            let j = model::position(woken, token);
            if j < woken.len() {
                assert(chan.lockable.woken.contains(woken[j]));
                let i = chan.lockable.woken.index_of(woken[j]);
                assert(waiting[k].signal.token != chan.lockable.woken[i].signal.token);
            }
        },
        _ => {},
    }
}

/// How an operation changes the line of those who wait to send: some leave it from the front (`-1`),
/// one joins it at the end (`-2`), one leaves that looked after its own send, or all stay.
proof fn lemma_send_line<T>(chan: ChannelView<T>, op: AnyOp<T>) -> (how: (int, int))
    requires
        chan.wf(),
        any_allowed(chan, op),
    ensures
        ({
            let (n, k) = how;
            let before = chan.lockable.send_waiting;
            let after = any_apply(chan, op).lockable.send_waiting;
            &&& 0 <= n <= before.len()
            &&& -3 <= k < before.len()
            &&& k == -1 ==> after == before.skip(n)
            &&& k == -2 ==> after.len() == before.len() + 1 && after.drop_last() == before
                && effects::unused(before, after.last().signal.token)
            &&& k == -3 ==> after.len() == before.len() && forall|i: int|
                0 <= i < before.len() ==> (#[trigger] after[i]).signal == before[i].signal
            &&& k >= 0 ==> after == before.remove(k)
            &&& k >= 0 ==> (op matches AnyOp::Handle(Op::ResumeSend(wait)) && wait.signal.token
                == before[k].signal.token)
        }),
{
    let line = chan.lockable.send_waiting;
    let after = any_apply(chan, op).lockable.send_waiting;
    assert(line.skip(0) =~= line);
    match op {
        AnyOp::Handle(Op::Send(msg, block)) => {
            if let Some(wait) = block {
                effects::law_registered(chan.lockable, wait.signal.token);
                if !chan.disconnected && chan.lockable.recv_waiting.len() == 0 && !effects::room(
                    chan.lockable,
                ) {
                    effects::law_send_that_has_to_wait(chan, msg, wait);
                }
            }
            if after == line {
                (0, -1)
            } else {
                assert(after.drop_last() =~= line);
                (0, -2)
            }
        },
        AnyOp::Handle(Op::ResumeSend(wait)) => {
            let k = model::position(line, wait.signal.token);
            model::lemma_first_index_found(line, model::bears(wait.signal.token));
            if k < line.len() {
                model::lemma_without_one(line, k);
            }
            if after.len() == line.len() {
                (0, -3)
            } else {
                (0, k)
            }
        },
        AnyOp::Handle(Op::ResumeRecv(_)) => (0, -1),
        _ => (line.len() - after.len(), -1),
    }
}

/// Those who wait to send keep their order, whatever is done to the channel: of two who still wait
/// afterwards, the one that was first is first.
pub proof fn law_senders_keep_their_order<T>(
    chan: ChannelView<T>,
    op: AnyOp<T>,
    i: int,
    j: int,
    p: int,
    q: int,
)
    requires
        chan.wf(),
        any_allowed(chan, op),
        0 <= i < j < chan.lockable.send_waiting.len(),
        0 <= p < any_apply(chan, op).lockable.send_waiting.len(),
        0 <= q < any_apply(chan, op).lockable.send_waiting.len(),
        any_apply(chan, op).lockable.send_waiting[p].signal.token
            == chan.lockable.send_waiting[i].signal.token,
        any_apply(chan, op).lockable.send_waiting[q].signal.token
            == chan.lockable.send_waiting[j].signal.token,
    ensures
        p < q,
{
    let line = chan.lockable.send_waiting;
    let after = any_apply(chan, op).lockable.send_waiting;
    let (n, k) = lemma_send_line(chan, op);
    if k == -1 {
        assert(after[p] == line[p + n]);
        assert(after[q] == line[q + n]);
    } else if k == -2 {
        assert(line[i].signal.token != after.last().signal.token);
        assert(line[j].signal.token != after.last().signal.token);
        assert(after[p] == after.drop_last()[p]);
        assert(after[q] == after.drop_last()[q]);
    } else if k == -3 {
        assert(after[p].signal == line[p].signal);
        assert(after[q].signal == line[q].signal);
    } else {
        assert(after[p] == line[if p < k { p } else { p + 1 }]);
        assert(after[q] == line[if q < k { q } else { q + 1 }]);
    }
}

/// How an operation changes the line of those who wait to receive: some leave it from the front
/// (`-1`), one joins it at the end (`-2`), or one leaves that looked after its own receive.
proof fn lemma_recv_line<T>(chan: ChannelView<T>, op: AnyOp<T>) -> (how: (int, int))
    requires
        chan.wf(),
        any_allowed(chan, op),
    ensures
        ({
            let (n, k) = how;
            let before = chan.lockable.recv_waiting;
            let after = any_apply(chan, op).lockable.recv_waiting;
            let woken = any_apply(chan, op).lockable.woken;
            &&& 0 <= n <= before.len()
            &&& -2 <= k < before.len()
            &&& k == -1 ==> after == before.skip(n)
            &&& k == -1 && n > 0 ==> (op matches AnyOp::Handle(other) && (other is Send
                || other is Wake))
            &&& k == -2 ==> after.len() == before.len() + 1 && after.drop_last() == before
                && effects::unused(before, after.last().signal.token)
            &&& k >= 0 ==> after == before.remove(k)
            &&& k >= 0 ==> (op matches AnyOp::Handle(Op::ResumeRecv(wait)) && wait.signal.token
                == before[k].signal.token)
            &&& op matches AnyOp::Handle(Op::Send(msg, _)) ==> forall|i: int|
                0 <= i < n && (#[trigger] before[i]).slot is Some ==> woken
                    == chan.lockable.woken.push(
                    Hook { slot: Some(Some(msg)), signal: before[i].signal },
                )
        }),
{
    let line = chan.lockable.recv_waiting;
    let after = any_apply(chan, op).lockable.recv_waiting;
    assert(line.skip(0) =~= line);
    match op {
        AnyOp::Handle(Op::Send(msg, block)) => {
            if chan.disconnected || line.len() == 0 {
                if let Some(wait) = block {
                    effects::law_registered(chan.lockable, wait.signal.token);
                    if !chan.disconnected && !effects::room(chan.lockable) {
                        effects::law_send_that_has_to_wait(chan, msg, wait);
                    }
                }
                (0, -1)
            } else {
                let k = model::first_index(line, model::takes()) as int;
                model::lemma_first_index_found(line, model::takes());
                let signal = match block {
                    Some(wait) => Some(wait.signal),
                    None => None,
                };
                effects::law_send_that_need_not_wait(chan, msg, block);
                effects::law_send_goes_to_waiting_receiver(chan, msg, signal, k);
                if k < line.len() {
                    (k + 1, -1)
                } else {
                    (k, -1)
                }
            }
        },
        AnyOp::Handle(Op::Recv(block)) => {
            if let Some(wait) = block {
                effects::law_registered(chan.lockable, wait.signal.token);
                if chan.contents().len() == 0 && !chan.disconnected {
                    effects::law_recv_that_has_to_wait(chan, wait);
                }
            }
            if after == line {
                (0, -1)
            } else {
                assert(after.drop_last() =~= line);
                (0, -2)
            }
        },
        AnyOp::RecvWith(hook) => {
            effects::law_registered(chan.lockable, hook.signal.token);
            if after == line {
                (0, -1)
            } else {
                assert(after.drop_last() =~= line);
                (0, -2)
            }
        },
        AnyOp::Handle(Op::ResumeRecv(wait)) => {
            let k = model::position(line, wait.signal.token);
            model::lemma_first_index_found(line, model::bears(wait.signal.token));
            if k < line.len() {
                model::lemma_without_one(line, k);
            } else {
                model::lemma_borne(line, wait.signal.token);
                model::lemma_unborne(line, wait.signal.token);
            }
            if after == line {
                (0, -1)
            } else {
                (0, k)
            }
        },
        AnyOp::Handle(Op::Wake) => {
            let k = model::first_index(line, model::streams()) as int;
            model::lemma_first_index_found(line, model::streams());
            effects::law_wake_down_to_stream(chan.lockable, k);
            if chan.lockable.queue.len() == 0 {
                (0, -1)
            } else if k < line.len() {
                (k + 1, -1)
            } else {
                (k, -1)
            }
        },
        _ => (0, -1),
    }
}

/// Those who wait to receive keep their order, whatever is done to the channel: of two who still wait
/// afterwards, the one that was first is first.
pub proof fn law_receivers_keep_their_order<T>(
    chan: ChannelView<T>,
    op: AnyOp<T>,
    i: int,
    j: int,
    p: int,
    q: int,
)
    requires
        chan.wf(),
        any_allowed(chan, op),
        0 <= i < j < chan.lockable.recv_waiting.len(),
        0 <= p < any_apply(chan, op).lockable.recv_waiting.len(),
        0 <= q < any_apply(chan, op).lockable.recv_waiting.len(),
        any_apply(chan, op).lockable.recv_waiting[p].signal.token
            == chan.lockable.recv_waiting[i].signal.token,
        any_apply(chan, op).lockable.recv_waiting[q].signal.token
            == chan.lockable.recv_waiting[j].signal.token,
    ensures
        p < q,
{
    let line = chan.lockable.recv_waiting;
    let after = any_apply(chan, op).lockable.recv_waiting;
    let (n, k) = lemma_recv_line(chan, op);
    if k == -1 {
        assert(after[p] == line[p + n]);
        assert(after[q] == line[q + n]);
    } else if k == -2 {
        assert(line[i].signal.token != after.last().signal.token);
        assert(line[j].signal.token != after.last().signal.token);
        assert(after[p] == after.drop_last()[p]);
        assert(after[q] == after.drop_last()[q]);
    } else {
        assert(after[p] == line[if p < k { p } else { p + 1 }]);
        assert(after[q] == line[if q < k { q } else { q + 1 }]);
    }
}

/// Whether a receive that waits with a slot, under this signal, stands in line or was handed a
/// message.
pub open spec fn waits_or_served<T>(chan: ChannelView<T>, signal: Signal) -> bool {
    ||| exists|i: int|
        0 <= i < chan.lockable.recv_waiting.len() && (
        #[trigger] chan.lockable.recv_waiting[i]).signal == signal
            && chan.lockable.recv_waiting[i].slot is Some
    ||| exists|i: int|
        0 <= i < chan.lockable.woken.len() && (#[trigger] chan.lockable.woken[i]).signal == signal
            && chan.lockable.woken[i].slot matches Some(Some(_))
}

/// Whether an operation looks after the receive that goes under `token`, or wakes receivers up with
/// nothing to hand over.
pub open spec fn ends_wait<T>(op: AnyOp<T>, token: u64) -> bool {
    match op {
        AnyOp::Handle(Op::ResumeRecv(wait)) => wait.signal.token == token,
        AnyOp::Handle(Op::Wake) => true,
        _ => false,
    }
}

/// A blocked receive stands in line until a send hands it a message, whatever others do to the
/// channel: nobody else drops out of the line, neither when a receive gets its message, nor when one
/// times out, nor when handles come and go.
pub proof fn law_blocked_receive_is_not_forgotten<T>(
    chan: ChannelView<T>,
    op: AnyOp<T>,
    signal: Signal,
)
    requires
        chan.wf(),
        any_allowed(chan, op),
        waits_or_served(chan, signal),
        !ends_wait(op, signal.token),
    ensures
        waits_or_served(any_apply(chan, op), signal),
{
    let line = chan.lockable.recv_waiting;
    let woken = chan.lockable.woken;
    let after = any_apply(chan, op).lockable.recv_waiting;
    let later = any_apply(chan, op).lockable.woken;
    if exists|i: int|
        0 <= i < line.len() && (#[trigger] line[i]).signal == signal && line[i].slot is Some {
        let i = choose|i: int|
            0 <= i < line.len() && (#[trigger] line[i]).signal == signal && line[i].slot is Some;
        let (n, k) = lemma_recv_line(chan, op);
        if k == -1 {
            if i < n {
                assert(line[i].slot is Some);
                assert(later[woken.len() as int].signal == signal);
            } else {
                assert(after[i - n] == line[i]);
            }
        } else if k == -2 {
            assert(after[i] == after.drop_last()[i]);
        } else {
            assert(after[if i < k { i } else { i - 1 }] == line[i]);
        }
    } else {
        let i = choose|i: int|
            0 <= i < woken.len() && (#[trigger] woken[i]).signal == signal
                && woken[i].slot matches Some(Some(_));
        match op {
            AnyOp::Handle(Op::ResumeRecv(wait)) => {
                let k = model::position(woken, wait.signal.token);
                model::lemma_first_index_found(woken, model::bears(wait.signal.token));
                if later == woken {
                    assert(later[i] == woken[i]);
                } else {
                    assert(later[if i < k { i } else { i - 1 }] == woken[i]);
                }
            },
            AnyOp::Handle(Op::Recv(Some(wait))) => {
                model::lemma_unborne(woken, wait.signal.token);
                assert(later[i] == woken[i]);
            },
            _ => {
                assert(later[i] == woken[i]);
            },
        }
    }
}

/// A blocked receive stands in line until a send hands it a message, over any series of operations
/// of others.
pub proof fn law_blocked_receive_is_not_forgotten_over_a_run<T>(
    chan: ChannelView<T>,
    ops: Seq<AnyOp<T>>,
    signal: Signal,
)
    requires
        chan.wf(),
        any_runnable(chan, ops),
        waits_or_served(chan, signal),
        forall|i: int| 0 <= i < ops.len() ==> !ends_wait(#[trigger] ops[i], signal.token),
    ensures
        waits_or_served(any_run(chan, ops), signal),
        any_run(chan, ops).wf(),
    decreases ops.len(),
{
    if ops.len() > 0 {
        let front = ops.drop_last();
        assert forall|i: int| 0 <= i < front.len() implies !ends_wait(
            #[trigger] front[i],
            signal.token,
        ) by {
            assert(front[i] == ops[i]);
        }
        law_blocked_receive_is_not_forgotten_over_a_run(chan, front, signal);
        law_blocked_receive_is_not_forgotten(any_run(chan, front), ops.last(), signal);
        law_any_operation_keeps_working_order(any_run(chan, front), ops.last());
    }
}

// ---- Disconnection ----

/// The last sender to go does not prevent receivers receiving messages that have already been sent.
/// Once there are none left, they learn that the channel is disconnected.
pub proof fn law_sent_messages_outlive_senders<T>(chan: ChannelView<T>, should_block: bool)
    requires
        chan.wf(),
        chan.send_count == 1,
        chan.recv_count > 0,
    ensures
        chan.drop_sender().contents() == chan.contents(),
        chan.drop_sender().wf(),
        chan.drop_sender().recv_result(should_block) == Some(
            if chan.contents().len() > 0 {
                Ok(chan.contents()[0])
            } else {
                Err(TryRecvTimeoutError::Disconnected)
            },
        ),
{
    chan.lockable.lemma_pull(false);
}

/// Once the last receiver has gone, every send fails.
pub proof fn law_no_send_without_receivers<T>(chan: ChannelView<T>, msg: T, should_block: bool)
    requires
        chan.wf(),
        chan.recv_count == 1,
    ensures
        chan.drop_receiver().wf(),
        chan.drop_receiver().send_result(msg, should_block) == Some(
            Err::<(), TrySendTimeoutError<T>>(TrySendTimeoutError::Disconnected(msg)),
        ),
{
    chan.lockable.lemma_pull(false);
}

/// Everybody who still waits when the channel is cut off is woken up.
pub proof fn law_cut_off_wakes_everybody<T>(chan: ChannelView<T>, hook: Hook<T>)
    requires
        chan.wf(),
        chan.lockable.send_waiting.contains(hook) || chan.lockable.recv_waiting.contains(hook),
    ensures
        chan.cut_off().lockable.fired.contains(hook.signal),
{
    let n = chan.lockable.pulled(false);
    let pulled = chan.lockable.pull(false);
    let fired = chan.cut_off().lockable.fired;
    if chan.lockable.send_waiting.contains(hook) {
        let i = chan.lockable.send_waiting.index_of(hook);
        assert(fired[chan.lockable.fired.len() + i] == hook.signal);
    } else {
        let i = chan.lockable.recv_waiting.index_of(hook);
        assert(fired[pulled.fired.len() + pulled.send_waiting.len() + i] == hook.signal);
    }
}

/// Whoever is left waiting when the channel is cut off need not wait any longer.
pub proof fn law_nobody_waits_on_disconnected<T>(chan: ChannelView<T>, wait: Blocking)
    requires
        chan.disconnected,
    ensures
        chan.resume_send_result(wait) is Done,
        chan.resume_recv_result(wait) is Done,
        forall|msg: T, block: Option<Blocking>| #[trigger]
            chan.send_sync_result(msg, block) is Done,
        forall|block: Option<Blocking>| #[trigger] chan.recv_sync_result(block) is Done,
{
}

/// A channel that is disconnected stays so, whatever is done to it, and takes no message any more.
pub proof fn law_disconnected_for_good<T>(chan: ChannelView<T>, op: Op<T>)
    requires
        chan.wf(),
        chan.disconnected,
        allowed(chan, op),
    ensures
        apply(chan, op).disconnected,
        op is Send ==> apply(chan, op) == chan,
{
}

// ---- Capacity ----

/// What holds of a channel on which all receivers that block have slots: as long as it is connected
/// nobody waits for a message while there is one; and the queue of a bounded channel never holds
/// more than its capacity.
pub open spec fn orderly<T>(chan: ChannelView<T>) -> bool {
    &&& forall|i: int|
        0 <= i < chan.lockable.recv_waiting.len() ==> (
        #[trigger] chan.lockable.recv_waiting[i]).slot is Some
    &&& !chan.disconnected && chan.lockable.recv_waiting.len() > 0 ==> chan.contents().len() == 0
    &&& chan.lockable.cap matches Some(cap) ==> chan.lockable.queue.len() <= cap
}

proof fn lemma_send_keeps_order<T>(chan: ChannelView<T>, msg: T, block: Option<Blocking>)
    requires
        chan.wf(),
        block matches Some(wait) ==> !chan.lockable.registered(wait.signal.token),
    ensures
        chan.after_send_sync(msg, block).wf(),
        orderly(chan) ==> orderly(chan.after_send_sync(msg, block)),
{
    let receivers = chan.lockable.recv_waiting;
    let after = chan.after_send_sync(msg, block);
    if !chan.disconnected && receivers.len() > 0 {
        model::lemma_first_index_found(receivers, model::takes());
        if orderly(chan) {
            model::lemma_first_index(receivers, model::takes(), 0);
            assert(chan.lockable.hand_over(msg).contents() =~= chan.contents());
        }
    } else if let Some(wait) = block {
        let hook = Hook::with_slot(Some(msg), wait.signal);
        model::lemma_join(chan.lockable.send_waiting, hook);
        assert(chan.after_send(msg, Some(wait.signal)).wf());
        if chan.send_result(msg, true) is None {
            assert(after == chan || after == chan.after_send(msg, Some(wait.signal)));
        }
    }
}

proof fn lemma_resume_send_keeps_order<T>(chan: ChannelView<T>, wait: Blocking)
    requires
        chan.wf(),
        chan.send_count > 0,
    ensures
        chan.after_resume_send(wait).wf(),
        orderly(chan) ==> orderly(chan.after_resume_send(wait)),
{
    let waiting = chan.lockable.send_waiting;
    let token = wait.signal.token;
    model::lemma_first_index_found(waiting, model::bears(token));
    model::lemma_without(waiting, token);
    waiting.lemma_filter_len(model::lacks(token));
}

proof fn lemma_recv_keeps_order<T>(chan: ChannelView<T>, block: Option<Blocking>)
    requires
        chan.wf(),
        chan.recv_count > 0,
        block matches Some(wait) ==> !chan.lockable.registered(wait.signal.token),
    ensures
        chan.after_recv_sync(block).wf(),
        orderly(chan) ==> orderly(chan.after_recv_sync(block)),
{
    chan.lockable.lemma_pull(true);
    if let Some(wait) = block {
        let hook = Hook::<T>::with_slot(None, wait.signal);
        model::lemma_join(chan.lockable.recv_waiting, hook);
        model::lemma_unborne(chan.lockable.woken, wait.signal.token);
    }
}

proof fn lemma_resume_recv_keeps_order<T>(chan: ChannelView<T>, wait: Blocking)
    requires
        chan.wf(),
        chan.recv_count > 0,
    ensures
        chan.after_resume_recv(wait).wf(),
        orderly(chan) ==> orderly(chan.after_resume_recv(wait)),
{
    let receivers = chan.lockable.recv_waiting;
    let token = wait.signal.token;
    model::lemma_first_index_found(chan.lockable.woken, model::bears(token));
    model::lemma_without(receivers, token);
    receivers.lemma_filter_len(model::lacks(token));
}

proof fn lemma_wake_keeps_order<T>(chan: ChannelView<T>)
    requires
        chan.wf(),
    ensures
        chan.wake().wf(),
        orderly(chan) ==> orderly(chan.wake()),
{
    model::lemma_first_index_found(chan.lockable.recv_waiting, model::streams());
}

/// Whatever is done to a channel leaves it in working order. Its id and its capacity stay what they
/// are, and it stays orderly.
pub proof fn law_every_operation_keeps_order<T>(chan: ChannelView<T>, op: Op<T>)
    requires
        chan.wf(),
        allowed(chan, op),
    ensures
        apply(chan, op).wf(),
        apply(chan, op).id == chan.id,
        apply(chan, op).lockable.cap == chan.lockable.cap,
        orderly(chan) ==> orderly(apply(chan, op)),
{
    match op {
        Op::Send(msg, block) => lemma_send_keeps_order(chan, msg, block),
        Op::ResumeSend(wait) => lemma_resume_send_keeps_order(chan, wait),
        Op::Recv(block) => lemma_recv_keeps_order(chan, block),
        Op::ResumeRecv(wait) => lemma_resume_recv_keeps_order(chan, wait),
        Op::Wake => lemma_wake_keeps_order(chan),
        _ => chan.lockable.lemma_pull(false),
    }
}

/// At every moment of its life a channel is in working order and orderly: the queue of a bounded
/// channel never holds more messages than its capacity, and the channel is disconnected if and only
/// if all senders or all receivers are gone.
pub proof fn law_every_channel_is_orderly<T>(id: u64, cap: Option<usize>, ops: Seq<Op<T>>)
    requires
        runnable(ChannelView::fresh(id, cap), ops),
    ensures
        ({
            let chan = run(ChannelView::fresh(id, cap), ops);
            &&& chan.wf()
            &&& orderly(chan)
            &&& chan.id == id
            &&& chan.lockable.cap == cap
            &&& cap matches Some(cap) ==> chan.lockable.queue.len() <= cap
            &&& chan.disconnected <==> chan.send_count == 0 || chan.recv_count == 0
        }),
    decreases ops.len(),
{
    let fresh = ChannelView::<T>::fresh(id, cap);
    if ops.len() > 0 {
        law_every_channel_is_orderly(id, cap, ops.drop_last());
        law_every_operation_keeps_order(run(fresh, ops.drop_last()), ops.last());
    }
}

/// The length is the number of messages that are in the channel, cut down to the capacity.
pub proof fn law_len_is_bounded_count<T>(chan: ChannelView<T>)
    requires
        chan.wf(),
        orderly(chan),
        chan.recv_count > 0,
    ensures
        match chan.lockable.cap {
            Some(cap) => chan.settle().lockable.queue.len() == if chan.contents().len() <= cap {
                chan.contents().len()
            } else {
                cap as nat
            },
            None => chan.settle().lockable.queue.len() == chan.contents().len(),
        },
        chan.settle().contents() == chan.contents(),
{
    chan.lockable.lemma_pull(false);
}

// ---- Handles ----

/// Giving up a sender that was just made is as if it had never been made.
pub proof fn law_drop_undoes_clone<T>(chan: ChannelView<T>)
    ensures
        0 < chan.send_count < usize::MAX ==> chan.add_sender().drop_sender() == chan,
        0 < chan.recv_count < usize::MAX ==> chan.add_receiver().drop_receiver() == chan,
{
}

/// How many senders an operation adds.
pub open spec fn senders_added<T>(op: AnyOp<T>) -> int {
    match op {
        AnyOp::Handle(Op::AddSender) => 1,
        AnyOp::Handle(Op::DropSender) => -1,
        _ => 0,
    }
}

/// How many receivers an operation adds.
pub open spec fn receivers_added<T>(op: AnyOp<T>) -> int {
    match op {
        AnyOp::Handle(Op::AddReceiver) => 1,
        AnyOp::Handle(Op::DropReceiver) => -1,
        _ => 0,
    }
}

/// How many senders a series of operations adds.
pub open spec fn all_senders_added<T>(ops: Seq<AnyOp<T>>) -> int
    decreases ops.len(),
{
    if ops.len() == 0 {
        0
    } else {
        all_senders_added(ops.drop_last()) + senders_added(ops.last())
    }
}

/// How many receivers a series of operations adds.
pub open spec fn all_receivers_added<T>(ops: Seq<AnyOp<T>>) -> int
    decreases ops.len(),
{
    if ops.len() == 0 {
        0
    } else {
        all_receivers_added(ops.drop_last()) + receivers_added(ops.last())
    }
}

/// The counts change when a handle is made or given up, and by nothing else that is done to a
/// channel. A channel keeps its id and its capacity, and is disconnected by nothing but a count that
/// drops to zero.
pub proof fn law_only_handles_change_counts<T>(chan: ChannelView<T>, op: AnyOp<T>)
    requires
        any_allowed(chan, op),
    ensures
        any_apply(chan, op).send_count == chan.send_count + senders_added(op),
        any_apply(chan, op).recv_count == chan.recv_count + receivers_added(op),
        any_apply(chan, op).id == chan.id,
        any_apply(chan, op).lockable.cap == chan.lockable.cap,
        any_apply(chan, op).disconnected <==> chan.disconnected || (senders_added(op) < 0
            && chan.send_count == 1) || (receivers_added(op) < 0 && chan.recv_count == 1),
{
}

/// Whatever is done to a channel, its counts tell how many senders and receivers there are: the one
/// of each that it was made with, and those made, without those given up. It is disconnected once all
/// senders or all receivers were given up, and only then.
pub proof fn law_counts_tell_handles<T>(id: u64, cap: Option<usize>, ops: Seq<AnyOp<T>>)
    requires
        any_runnable(ChannelView::<T>::fresh(id, cap), ops),
    ensures
        ({
            let chan = any_run(ChannelView::<T>::fresh(id, cap), ops);
            &&& chan.send_count == 1 + all_senders_added(ops)
            &&& chan.recv_count == 1 + all_receivers_added(ops)
            &&& chan.disconnected <==> all_senders_added(ops) == -1 || all_receivers_added(ops)
                == -1
            &&& chan.id == id
            &&& chan.lockable.cap == cap
        }),
    decreases ops.len(),
{
    if ops.len() > 0 {
        let front = ops.drop_last();
        let before = any_run(ChannelView::<T>::fresh(id, cap), front);
        law_counts_tell_handles(id, cap, front);
        law_only_handles_change_counts(before, ops.last());
    }
}

} // verus!
