use flume::{
    bounded, unbounded, Blocking, Hook, Lockable, RecvError, RecvTimeoutError, SendError,
    SendTimeoutError, Shared, Signal, Step, TryRecvError, TryRecvTimeoutError, TrySendError,
    TrySendTimeoutError,
};

fn party(token: u64) -> Signal {
    Signal { token, stream: false }
}

fn stream(token: u64) -> Signal {
    Signal { token, stream: true }
}

#[test]
fn errors_give_the_message_back() {
    assert_eq!(SendError(1).into_inner(), 1);
    assert_eq!(TrySendError::Full(2).into_inner(), 2);
    assert_eq!(TrySendError::Disconnected(3).into_inner(), 3);
    assert_eq!(SendTimeoutError::Timeout(4).into_inner(), 4);
    assert_eq!(SendTimeoutError::Disconnected(5).into_inner(), 5);
}

#[test]
fn errors_convert() {
    assert!(TrySendError::from(SendError(1)) == TrySendError::Disconnected(1));
    assert!(SendTimeoutError::from(SendError(1)) == SendTimeoutError::Disconnected(1));
    assert_eq!(TryRecvError::from(RecvError::Disconnected), TryRecvError::Disconnected);
    assert_eq!(RecvTimeoutError::from(RecvError::Disconnected), RecvTimeoutError::Disconnected);
}

#[test]
fn errors_read_well() {
    assert_eq!(SendError(1).to_string(), "sending on a closed channel");
    assert_eq!(TrySendError::Full(1).to_string(), "sending on a full channel");
    assert_eq!(TrySendError::Disconnected(1).to_string(), "sending on a closed channel");
    assert_eq!(SendTimeoutError::Timeout(1).to_string(), "timed out sending on a full channel");
    assert_eq!(SendTimeoutError::Disconnected(1).to_string(), "sending on a closed channel");
    assert_eq!(RecvError::Disconnected.to_string(), "receiving on a closed channel");
    assert_eq!(TryRecvError::Empty.to_string(), "receiving on an empty channel");
    assert_eq!(TryRecvError::Disconnected.to_string(), "channel is empty and closed");
    assert_eq!(RecvTimeoutError::Timeout.to_string(), "timed out waiting on a channel");
    assert_eq!(RecvTimeoutError::Disconnected.to_string(), "channel is empty and closed");
    assert_eq!(SendError(1).debug_string(), "\"SendError(..)\"");
    assert_eq!(TrySendError::Full(1).debug_string(), "\"Full(..)\"");
    assert_eq!(TrySendError::Disconnected(1).debug_string(), "\"Disconnected(..)\"");
    assert_eq!(SendTimeoutError::Timeout(1).debug_string(), "\"SendTimeoutError(..)\"");
}

#[test]
fn hook_slot_is_filled_and_emptied() {
    let mut hook = Hook::new_slot(None, party(1));
    assert!(hook.is_empty());
    assert_eq!(hook.slot(), Some(&None));
    assert_eq!(hook.fire_send('m'), (None, party(1)));
    assert!(!hook.is_empty());
    assert_eq!(hook.take(), Some('m'));
    assert_eq!(hook.take(), None);
    assert_eq!(*hook.signal(), party(1));
}

#[test]
fn trigger_gives_the_message_back() {
    let mut hook = Hook::new_trigger(stream(1));
    assert!(hook.is_empty());
    assert_eq!(hook.slot(), None);
    assert_eq!(hook.fire_send('m'), (Some('m'), stream(1)));
    let mut fired = vec![party(9)];
    assert!(hook.fire(&mut fired));
    assert_eq!(fired, vec![party(9), stream(1)]);
}

#[test]
fn hook_waits_for_a_message() {
    let mut hook = Hook::new_slot(None, party(1));
    assert!(hook.wait_recv(false) == Step::Wait(None));
    assert!(hook.wait_recv(true) == Step::Done(None));
    assert!(hook.wait_deadline_recv(false, 5, 3) == Step::Wait(Some(2)));
    assert!(hook.wait_deadline_recv(false, 5, 6) == Step::Done(Err(true)));
    assert!(hook.wait_deadline_recv(true, 5, 6) == Step::Done(Err(false)));
    hook.fire_send('m');
    assert!(hook.wait_recv(true) == Step::Done(Some('m')));
    hook.fire_send('n');
    assert!(hook.wait_deadline_recv(true, 5, 6) == Step::Done(Ok('n')));
}

#[test]
fn hook_waits_for_its_message_to_go() {
    let mut hook = Hook::new_slot(Some('m'), party(1));
    assert!(hook.wait_send(false) == Step::Wait(None));
    assert!(hook.wait_send(true) == Step::Done(()));
    assert!(hook.wait_deadline_send(false, 5, 5) == Step::Wait(Some(0)));
    assert!(hook.wait_deadline_send(false, 5, 6) == Step::Done(Err(true)));
    assert!(hook.wait_deadline_send(true, 5, 6) == Step::Done(Err(false)));
    hook.take();
    assert!(hook.wait_send(false) == Step::Done(()));
    assert!(hook.wait_deadline_send(true, 5, 6) == Step::Done(Ok(())));
}

#[test]
fn streams_pass_the_message_on() {
    let mut chan = Shared::new(1, Some(0));
    assert!(chan.recv(Some(Hook::new_trigger(stream(1)))) == None);
    assert!(chan.recv(Some(Hook::new_trigger(stream(2)))) == None);
    assert!(chan.recv(Some(Hook::new_slot(None, party(3)))) == None);
    assert!(chan.recv(Some(Hook::new_trigger(party(4)))) == None);
    assert!(chan.send('m', None) == Some(Ok(())));
    assert_eq!(chan.take_fired(), vec![stream(1), stream(2), party(3)]);
    let wait = Blocking { signal: party(3), deadline: None, now: 0 };
    assert!(chan.resume_recv(wait) == Step::Done(Ok('m')));
    assert!(chan.send('n', None) == Some(Ok(())));
    assert_eq!(chan.take_fired(), vec![party(4)]);
    assert_eq!(chan.len(), 1);
    assert!(chan.recv(None) == Some(Ok('n')));
}

#[test]
fn message_that_only_streams_wait_for_stays_in_the_queue() {
    let mut chan = Shared::new(1, None);
    assert!(chan.recv(Some(Hook::new_trigger(stream(1)))) == None);
    assert!(chan.send('m', None) == Some(Ok(())));
    assert_eq!(chan.take_fired(), vec![stream(1)]);
    assert!(chan.recv(None) == Some(Ok('m')));
    assert!(chan.recv(None) == Some(Err(TryRecvTimeoutError::Empty)));
}

#[test]
fn shared_tells_every_error_apart() {
    let mut chan = Shared::new(1, Some(1));
    let late = Blocking { signal: party(1), deadline: Some(1), now: 2 };
    assert!(chan.send_sync('a', None) == Step::Done(Ok(())));
    assert!(chan.send_sync('b', None) == Step::Done(Err(TrySendTimeoutError::Full('b'))));
    assert!(chan.send_sync('c', Some(late)) == Step::Done(Err(TrySendTimeoutError::Timeout('c'))));
    assert!(chan.recv_sync(None) == Step::Done(Ok('a')));
    assert!(chan.recv_sync(None) == Step::Done(Err(TryRecvTimeoutError::Empty)));
    assert!(chan.recv_sync(Some(late)) == Step::Done(Err(TryRecvTimeoutError::Timeout)));
    chan.add_sender();
    chan.remove_sender();
    chan.remove_sender();
    assert!(chan.recv_sync(Some(late)) == Step::Done(Err(TryRecvTimeoutError::Disconnected)));
    let mut chan = Shared::new(1, Some(1));
    chan.remove_receiver();
    assert!(chan.send_sync('d', None) == Step::Done(Err(TrySendTimeoutError::Disconnected('d'))));
}

#[test]
fn empty_lists_have_nobody_to_wake() {
    let mut lists: Lockable<u8> = Lockable::new(Some(1));
    lists.pull_pending(true);
    lists.try_wake_receiver_if_pending();
}

#[test]
fn pending_messages_wake_receivers_down_to_a_stream() {
    let mut chan = Shared::new(1, None);
    assert!(chan.recv(Some(Hook::new_trigger(party(1)))) == None);
    assert!(chan.recv(Some(Hook::new_slot(None, party(2)))) == None);
    assert!(chan.recv(Some(Hook::new_trigger(stream(3)))) == None);
    assert!(chan.recv(Some(Hook::new_trigger(stream(4)))) == None);
    chan.try_wake_receiver_if_pending();
    assert!(chan.take_fired().is_empty());
    assert!(chan.send('m', None) == Some(Ok(())));
    assert_eq!(chan.take_fired(), vec![party(1)]);
    chan.try_wake_receiver_if_pending();
    assert_eq!(chan.take_fired(), vec![party(2), stream(3)]);
    chan.try_wake_receiver_if_pending();
    assert_eq!(chan.take_fired(), vec![stream(4)]);
    assert_eq!(chan.len(), 1);
}

#[test]
fn weak_sender_needs_a_live_one() {
    let (mut chan, tx, rx) = unbounded(1);
    let weak = tx.downgrade();
    let tx2 = weak.upgrade(&mut chan).unwrap();
    assert_eq!(rx.sender_count(&chan), 2);
    assert!(tx2.same_channel(&tx));
    assert!(tx2.try_send(&mut chan, 1) == Ok(()));
    tx.drop(&mut chan);
    let weak2 = weak.clone();
    assert!(weak2.upgrade(&mut chan).is_some());
    assert_eq!(rx.sender_count(&chan), 2);
    chan.remove_sender();
    tx2.drop(&mut chan);
    assert!(weak2.upgrade(&mut chan).is_none());
    assert_eq!(rx.sender_count(&chan), 0);
    assert_eq!(rx.try_recv(&mut chan), Ok(1));
    assert_eq!(rx.try_recv(&mut chan), Err(TryRecvError::Disconnected));
}

#[test]
fn channels_are_told_apart() {
    let (mut chan, tx, rx) = bounded::<u8>(1, 1);
    let (_other, tx2, rx2) = bounded::<u8>(2, 1);
    let tx3 = tx.clone(&mut chan);
    let rx3 = rx.clone(&mut chan);
    assert!(tx.same_channel(&tx3));
    assert!(!tx.same_channel(&tx2));
    assert!(rx.same_channel(&rx3));
    assert!(!rx.same_channel(&rx2));
    assert_eq!(chan.id(), 1);
    assert_eq!(tx.sender_count(&chan), 2);
    assert_eq!(rx.receiver_count(&chan), 2);
}

#[test]
fn iterators_run_through_the_messages() {
    let (mut chan, tx, rx) = unbounded(1);
    for i in 0..5 {
        assert!(tx.try_send(&mut chan, i) == Ok(()));
    }
    let mut iter = rx.iter();
    assert!(iter.next(&mut chan, party(1)) == Step::Done(Some(0)));
    let mut try_iter = rx.try_iter();
    assert_eq!(try_iter.next(&mut chan), Some(1));
    assert_eq!(try_iter.next(&mut chan), Some(2));
    assert!(iter.next(&mut chan, party(1)) == Step::Done(Some(3)));
    let mut iter = rx.into_iter();
    assert!(iter.next(&mut chan, party(1)) == Step::Done(Some(4)));
    assert!(iter.next(&mut chan, party(1)) == Step::Wait(None));
    assert!(tx.try_send(&mut chan, 5) == Ok(()));
    assert!(iter.resume_next(&mut chan, party(1)) == Step::Done(Some(5)));
    assert!(iter.next(&mut chan, party(2)) == Step::Wait(None));
    tx.drop(&mut chan);
    assert!(iter.resume_next(&mut chan, party(2)) == Step::Done(None));
    assert!(iter.next(&mut chan, party(3)) == Step::Done(None));
    let rx = iter.into_receiver();
    assert_eq!(rx.try_iter().next(&mut chan), None);
    rx.drop(&mut chan);
}

#[test]
fn iterator_wakes_with_what_is_sent() {
    let (mut chan, tx, rx) = bounded(1, 1);
    let mut iter = rx.iter();
    assert!(iter.next(&mut chan, party(1)) == Step::Wait(None));
    assert!(iter.resume_next(&mut chan, party(1)) == Step::Wait(None));
    assert!(tx.try_send(&mut chan, 'm') == Ok(()));
    assert_eq!(chan.take_fired(), vec![party(1)]);
    assert!(iter.resume_next(&mut chan, party(1)) == Step::Done(Some('m')));
}

#[test]
fn tokens_are_taken_while_somebody_waits_under_them() {
    let mut chan = Shared::new(1, Some(0));
    assert!(!chan.is_registered(1));
    assert!(chan.send('m', Some(party(1))) == None);
    assert!(chan.is_registered(1));
    assert!(!chan.is_registered(2));
    assert!(chan.recv(None) == Some(Ok('m')));
    assert!(!chan.is_registered(1));
    assert!(chan.recv(Some(Hook::new_slot(None, party(2)))) == None);
    assert!(chan.is_registered(2));
    assert!(chan.send('n', None) == Some(Ok(())));
    assert!(chan.is_registered(2));
    let wait = Blocking { signal: party(2), deadline: None, now: 0 };
    assert!(chan.resume_recv(wait) == Step::Done(Ok('n')));
    assert!(!chan.is_registered(2));
}

#[test]
fn signals_fired_by_disconnecting_can_be_collected() {
    let mut chan: Shared<u8> = Shared::new(1, Some(1));
    assert!(chan.recv(Some(Hook::new_slot(None, party(1)))) == None);
    chan.disconnect_all();
    assert!(chan.is_disconnected());
    assert_eq!(chan.take_fired(), vec![party(1)]);
    assert!(chan.take_fired().is_empty());
}

#[test]
fn messages_are_accounted_for_when_triggers_wait() {
    let mut chan = Shared::new(1, Some(1));
    assert!(chan.recv(Some(Hook::new_trigger(stream(1)))) == None);
    assert!(chan.recv(Some(Hook::new_trigger(party(2)))) == None);
    assert!(chan.recv(Some(Hook::new_slot(None, party(3)))) == None);
    assert!(chan.send('a', None) == Some(Ok(())));
    assert!(chan.send('b', None) == Some(Ok(())));
    assert!(chan.send('c', None) == Some(Err(TrySendTimeoutError::Full('c'))));
    assert_eq!(chan.take_fired(), vec![stream(1), party(2), party(3)]);
    let wait = Blocking { signal: party(3), deadline: None, now: 0 };
    assert!(chan.resume_recv(wait) == Step::Done(Ok('b')));
    assert!(chan.recv(Some(Hook::new_trigger(stream(4)))) == Some(Ok('a')));
    assert!(chan.recv(Some(Hook::new_trigger(stream(4)))) == None);
}
