use flume::{
    bounded, unbounded, RecvError, RecvTimeoutError, SendError, SendTimeoutError, Signal, Step,
    TryRecvError, TrySendError,
};

fn party(token: u64) -> Signal {
    Signal { token, stream: false }
}

#[test]
fn unbounded_is_first_in_first_out() {
    let (mut chan, tx, rx) = unbounded(1);
    for i in 0..100 {
        assert!(tx.try_send(&mut chan, i) == Ok(()));
    }
    assert_eq!(rx.len(&mut chan), 100);
    for i in 0..100 {
        assert_eq!(rx.try_recv(&mut chan), Ok(i));
    }
    assert_eq!(rx.try_recv(&mut chan), Err(TryRecvError::Empty));
}

#[test]
fn bounded_is_full_at_its_capacity() {
    let (mut chan, tx, rx) = bounded(1, 2);
    assert_eq!(tx.capacity(&chan), Some(2));
    assert_eq!(rx.capacity(&chan), Some(2));
    assert!(tx.is_empty(&mut chan));
    assert!(!tx.is_full(&mut chan));
    assert!(tx.try_send(&mut chan, 'a') == Ok(()));
    assert!(tx.try_send(&mut chan, 'b') == Ok(()));
    assert!(tx.is_full(&mut chan));
    assert!(rx.is_full(&mut chan));
    assert!(!rx.is_empty(&mut chan));
    assert!(tx.try_send(&mut chan, 'c') == Err(TrySendError::Full('c')));
    assert_eq!(rx.try_recv(&mut chan), Ok('a'));
    assert!(!tx.is_full(&mut chan));
    assert!(tx.try_send(&mut chan, 'c') == Ok(()));
    assert_eq!(rx.try_recv(&mut chan), Ok('b'));
    assert_eq!(rx.try_recv(&mut chan), Ok('c'));
}

#[test]
fn unbounded_is_never_full() {
    let (mut chan, tx, rx) = unbounded(1);
    assert_eq!(tx.capacity(&chan), None);
    assert!(tx.try_send(&mut chan, 0u8) == Ok(()));
    assert!(!tx.is_full(&mut chan));
    assert!(!rx.is_full(&mut chan));
    assert_eq!(tx.len(&mut chan), 1);
}

#[test]
fn blocked_send_is_over_once_received() {
    let (mut chan, tx, rx) = bounded(1, 1);
    assert!(tx.send(&mut chan, 1, party(10)) == Step::Done(Ok(())));
    assert!(tx.send(&mut chan, 2, party(11)) == Step::Wait(None));
    assert!(tx.send(&mut chan, 3, party(12)) == Step::Wait(None));
    assert!(tx.resume_send(&mut chan, party(11)) == Step::Wait(None));
    assert_eq!(rx.len(&mut chan), 1);
    assert_eq!(rx.try_recv(&mut chan), Ok(1));
    assert_eq!(chan.take_fired(), vec![party(11)]);
    assert!(tx.resume_send(&mut chan, party(11)) == Step::Done(Ok(())));
    assert!(tx.resume_send(&mut chan, party(12)) == Step::Wait(None));
    assert_eq!(rx.try_recv(&mut chan), Ok(2));
    assert_eq!(chan.take_fired(), vec![party(12)]);
    assert!(tx.resume_send(&mut chan, party(12)) == Step::Done(Ok(())));
    assert_eq!(rx.try_recv(&mut chan), Ok(3));
    assert_eq!(rx.try_recv(&mut chan), Err(TryRecvError::Empty));
}

#[test]
fn rendezvous_send_meets_receive() {
    let (mut chan, tx, rx) = bounded(1, 0);
    assert!(tx.try_send(&mut chan, 7) == Err(TrySendError::Full(7)));
    assert!(tx.is_full(&mut chan));
    assert!(tx.send(&mut chan, 8, party(1)) == Step::Wait(None));
    assert_eq!(tx.len(&mut chan), 0);
    assert_eq!(rx.try_recv(&mut chan), Ok(8));
    assert!(tx.resume_send(&mut chan, party(1)) == Step::Done(Ok(())));
    assert!(rx.recv(&mut chan, party(2)) == Step::Wait(None));
    assert!(tx.try_send(&mut chan, 9) == Ok(()));
    assert_eq!(chan.take_fired(), vec![party(1), party(2)]);
    assert!(rx.resume_recv(&mut chan, party(2)) == Step::Done(Ok(9)));
}

#[test]
fn waiting_receivers_are_served_in_turn() {
    let (mut chan, tx, rx) = unbounded(1);
    assert!(rx.recv(&mut chan, party(1)) == Step::Wait(None));
    assert!(rx.recv(&mut chan, party(2)) == Step::Wait(None));
    assert!(rx.resume_recv(&mut chan, party(2)) == Step::Wait(None));
    assert!(tx.try_send(&mut chan, 'x') == Ok(()));
    assert!(tx.try_send(&mut chan, 'y') == Ok(()));
    assert!(tx.try_send(&mut chan, 'z') == Ok(()));
    assert_eq!(chan.take_fired(), vec![party(1), party(2)]);
    assert_eq!(rx.len(&mut chan), 1);
    assert!(rx.resume_recv(&mut chan, party(2)) == Step::Done(Ok('y')));
    assert!(rx.resume_recv(&mut chan, party(1)) == Step::Done(Ok('x')));
    assert_eq!(rx.try_recv(&mut chan), Ok('z'));
}

#[test]
fn send_times_out_and_leaves_no_trace() {
    let (mut chan, tx, rx) = bounded(1, 1);
    assert!(tx.send_deadline(&mut chan, 1, 100, 0, party(1)) == Step::Done(Ok(())));
    assert!(tx.send_deadline(&mut chan, 2, 100, 30, party(1)) == Step::Wait(Some(70)));
    assert!(tx.resume_send_deadline(&mut chan, 100, 100, party(1)) == Step::Wait(Some(0)));
    assert!(
        tx.resume_send_deadline(&mut chan, 100, 101, party(1))
            == Step::Done(Err(SendTimeoutError::Timeout(2)))
    );
    assert!(
        tx.send_deadline(&mut chan, 3, 100, 101, party(1))
            == Step::Done(Err(SendTimeoutError::Timeout(3)))
    );
    assert_eq!(rx.try_recv(&mut chan), Ok(1));
    assert_eq!(rx.try_recv(&mut chan), Err(TryRecvError::Empty));
    assert!(chan.take_fired().is_empty());
}

#[test]
fn send_timeout_counts_from_now() {
    let (mut chan, tx, rx) = bounded(1, 1);
    assert!(tx.send_timeout(&mut chan, 1, 5, 1000, party(1)) == Step::Done(Ok(())));
    assert!(tx.send_timeout(&mut chan, 2, 5, 1000, party(1)) == Step::Wait(Some(5)));
    assert_eq!(rx.try_recv(&mut chan), Ok(1));
    assert!(tx.resume_send_deadline(&mut chan, 1005, 2000, party(1)) == Step::Done(Ok(())));
    assert!(tx.send_timeout(&mut chan, 3, 5, 1000, party(2)) == Step::Wait(Some(5)));
    rx.drop(&mut chan);
    assert!(
        tx.resume_send_deadline(&mut chan, 1005, 1001, party(2))
            == Step::Done(Err(SendTimeoutError::Disconnected(3)))
    );
    assert!(
        tx.send_timeout(&mut chan, 4, 5, 1000, party(3))
            == Step::Done(Err(SendTimeoutError::Disconnected(4)))
    );
}

#[test]
fn recv_times_out_and_leaves_no_trace() {
    let (mut chan, tx, rx) = bounded(1, 1);
    assert!(rx.recv_deadline(&mut chan, 50, 20, party(1)) == Step::Wait(Some(30)));
    assert!(rx.resume_recv_deadline(&mut chan, 50, 50, party(1)) == Step::Wait(Some(0)));
    assert!(
        rx.resume_recv_deadline(&mut chan, 50, 51, party(1))
            == Step::Done(Err(RecvTimeoutError::Timeout))
    );
    assert!(
        rx.recv_deadline(&mut chan, 50, 51, party(1))
            == Step::Done(Err(RecvTimeoutError::Timeout))
    );
    assert!(tx.try_send(&mut chan, 'm') == Ok(()));
    assert!(chan.take_fired().is_empty());
    assert!(rx.recv_deadline(&mut chan, 50, 51, party(1)) == Step::Done(Ok('m')));
}

#[test]
fn recv_timeout_gets_message_handed_over_in_time() {
    let (mut chan, tx, rx) = bounded(1, 1);
    assert!(rx.recv_timeout(&mut chan, 9, 1, party(1)) == Step::Wait(Some(9)));
    assert!(tx.try_send(&mut chan, 'm') == Ok(()));
    assert!(rx.resume_recv_deadline(&mut chan, 10, 99, party(1)) == Step::Done(Ok('m')));
    assert!(rx.recv_timeout(&mut chan, 9, 1, party(1)) == Step::Wait(Some(9)));
    tx.drop(&mut chan);
    assert_eq!(chan.take_fired(), vec![party(1), party(1)]);
    assert!(
        rx.resume_recv_deadline(&mut chan, 10, 2, party(1))
            == Step::Done(Err(RecvTimeoutError::Disconnected))
    );
    assert!(
        rx.recv_timeout(&mut chan, 9, 1, party(2))
            == Step::Done(Err(RecvTimeoutError::Disconnected))
    );
}

#[test]
fn messages_outlive_senders() {
    let (mut chan, tx, rx) = bounded(1, 3);
    let tx2 = tx.clone(&mut chan);
    assert_eq!(rx.sender_count(&chan), 2);
    assert!(tx.try_send(&mut chan, 1) == Ok(()));
    assert!(tx2.try_send(&mut chan, 2) == Ok(()));
    tx.drop(&mut chan);
    assert!(!rx.is_disconnected(&chan));
    tx2.drop(&mut chan);
    assert!(rx.is_disconnected(&chan));
    assert_eq!(rx.sender_count(&chan), 0);
    assert_eq!(rx.try_recv(&mut chan), Ok(1));
    assert!(rx.recv(&mut chan, party(1)) == Step::Done(Ok(2)));
    assert!(rx.recv(&mut chan, party(1)) == Step::Done(Err(RecvError::Disconnected)));
    assert_eq!(rx.try_recv(&mut chan), Err(TryRecvError::Disconnected));
}

#[test]
fn sends_fail_without_receivers() {
    let (mut chan, tx, rx) = bounded(1, 1);
    let rx2 = rx.clone(&mut chan);
    assert_eq!(tx.receiver_count(&chan), 2);
    assert!(tx.try_send(&mut chan, 1) == Ok(()));
    assert!(tx.send(&mut chan, 2, party(1)) == Step::Wait(None));
    rx.drop(&mut chan);
    assert!(!tx.is_disconnected(&chan));
    rx2.drop(&mut chan);
    assert!(tx.is_disconnected(&chan));
    assert_eq!(tx.receiver_count(&chan), 0);
    assert_eq!(chan.take_fired(), vec![party(1)]);
    assert!(tx.resume_send(&mut chan, party(1)) == Step::Done(Err(SendError(2))));
    assert!(tx.try_send(&mut chan, 3) == Err(TrySendError::Disconnected(3)));
    assert!(tx.send(&mut chan, 4, party(2)) == Step::Done(Err(SendError(4))));
    assert_eq!(tx.len(&mut chan), 1);
    tx.drop(&mut chan);
    assert_eq!(chan.take_fired(), vec![party(1)]);
}

#[test]
fn last_sender_wakes_waiting_receivers() {
    let (mut chan, tx, rx) = unbounded::<u8>(1);
    assert!(rx.recv(&mut chan, party(5)) == Step::Wait(None));
    assert!(rx.recv(&mut chan, party(6)) == Step::Wait(None));
    tx.drop(&mut chan);
    assert_eq!(chan.take_fired(), vec![party(5), party(6)]);
    assert!(
        rx.resume_recv(&mut chan, party(5)) == Step::Done(Err(RecvError::Disconnected))
    );
}

#[test]
fn drain_takes_the_queue_and_leaves_those_who_wait() {
    let (mut chan, tx, rx) = bounded(1, 2);
    assert!(tx.try_send(&mut chan, 1) == Ok(()));
    assert!(tx.try_send(&mut chan, 2) == Ok(()));
    assert!(tx.send(&mut chan, 3, party(1)) == Step::Wait(None));
    let mut drain = rx.drain(&mut chan);
    assert_eq!(drain.len(), 2);
    assert_eq!(drain.next(), Some(1));
    assert_eq!(drain.len(), 1);
    assert_eq!(drain.next(), Some(2));
    assert_eq!(drain.next(), None);
    assert!(tx.resume_send(&mut chan, party(1)) == Step::Wait(None));
    assert_eq!(rx.len(&mut chan), 1);
    assert!(tx.resume_send(&mut chan, party(1)) == Step::Done(Ok(())));
    assert_eq!(rx.try_recv(&mut chan), Ok(3));
}

#[test]
fn send_after_drain_overtakes_those_who_wait() {
    let (mut chan, tx, rx) = bounded(1, 1);
    assert!(tx.try_send(&mut chan, 'a') == Ok(()));
    assert!(tx.send(&mut chan, 'b', party(1)) == Step::Wait(None));
    assert_eq!(rx.drain(&mut chan).next(), Some('a'));
    assert!(tx.try_send(&mut chan, 'c') == Ok(()));
    assert_eq!(rx.try_recv(&mut chan), Ok('c'));
    assert_eq!(rx.try_recv(&mut chan), Ok('b'));
}

#[test]
fn disconnected_is_for_good() {
    let (mut chan, tx, rx) = bounded(1, 2);
    let weak = tx.downgrade();
    assert!(tx.try_send(&mut chan, 1) == Ok(()));
    tx.drop(&mut chan);
    assert!(rx.is_disconnected(&chan));
    assert!(weak.upgrade(&mut chan).is_none());
    let rx2 = rx.clone(&mut chan);
    assert!(rx2.is_disconnected(&chan));
    assert_eq!(rx.len(&mut chan), 1);
    assert_eq!(rx.drain(&mut chan).next(), Some(1));
    assert!(rx.recv(&mut chan, party(1)) == Step::Done(Err(RecvError::Disconnected)));
    rx2.drop(&mut chan);
    assert!(rx.is_disconnected(&chan));
}

#[test]
fn drop_undoes_clone() {
    let (mut chan, tx, rx) = unbounded::<u8>(1);
    tx.clone(&mut chan).drop(&mut chan);
    rx.clone(&mut chan).drop(&mut chan);
    assert_eq!(tx.sender_count(&chan), 1);
    assert_eq!(tx.receiver_count(&chan), 1);
    assert!(!tx.is_disconnected(&chan));
    assert!(chan.take_fired().is_empty());
}

#[test]
fn every_message_is_received_once_and_the_queue_stays_bounded() {
    let (mut chan, tx, rx) = bounded(1, 3);
    let mut got = Vec::new();
    for i in 0..60u64 {
        let waited = tx.send(&mut chan, i, party(i)) != Step::Done(Ok(()));
        assert_eq!(waited, tx.resume_send(&mut chan, party(i)) == Step::Wait(None));
        assert!(tx.len(&mut chan) <= 3);
        if i % 3 != 0 {
            got.push(rx.try_recv(&mut chan).unwrap());
        }
        assert!(tx.len(&mut chan) <= 3);
    }
    while let Ok(msg) = rx.try_recv(&mut chan) {
        got.push(msg);
    }
    assert_eq!(got, (0..60).collect::<Vec<u64>>());
    for i in 0..60 {
        assert!(tx.resume_send(&mut chan, party(i)) == Step::Done(Ok(())));
    }
}

#[test]
fn blocked_receiver_gets_what_is_left_when_senders_go() {
    let (mut chan, tx, rx) = unbounded(1);
    assert!(rx.recv(&mut chan, party(1)) == Step::Wait(None));
    chan.try_wake_receiver_if_pending();
    assert!(tx.try_send(&mut chan, 'a') == Ok(()));
    assert!(tx.try_send(&mut chan, 'b') == Ok(()));
    tx.drop(&mut chan);
    assert!(rx.resume_recv(&mut chan, party(1)) == Step::Done(Ok('a')));
    assert!(rx.recv(&mut chan, party(2)) == Step::Done(Ok('b')));
}

#[test]
fn late_receiver_whose_wait_was_cut_short_is_served_from_the_queue() {
    let (mut chan, tx, rx) = unbounded(1);
    assert!(tx.try_send(&mut chan, 'a') == Ok(()));
    assert!(rx.try_recv(&mut chan) == Ok('a'));
    assert!(rx.recv_deadline(&mut chan, 5, 1, party(1)) == Step::Wait(Some(4)));
    assert!(rx.recv_deadline(&mut chan, 5, 1, party(2)) == Step::Wait(Some(4)));
    assert!(tx.try_send(&mut chan, 'b') == Ok(()));
    assert!(
        rx.resume_recv_deadline(&mut chan, 5, 6, party(2))
            == Step::Done(Err(RecvTimeoutError::Timeout))
    );
    assert!(rx.resume_recv_deadline(&mut chan, 5, 6, party(1)) == Step::Done(Ok('b')));
}

#[test]
fn widest_bounded_channel_works() {
    let (mut chan, tx, rx) = bounded(1, usize::MAX);
    assert!(tx.try_send(&mut chan, 1) == Ok(()));
    assert_eq!(rx.try_recv(&mut chan), Ok(1));
    assert_eq!(rx.try_recv(&mut chan), Err(TryRecvError::Empty));
}

#[test]
fn messages_are_accounted_for_after_receivers_go() {
    let (mut chan, tx, rx) = bounded(1, 1);
    assert!(tx.send(&mut chan, 'a', party(1)) == Step::Done(Ok(())));
    assert!(tx.send(&mut chan, 'b', party(2)) == Step::Wait(None));
    assert!(tx.send(&mut chan, 'c', party(3)) == Step::Wait(None));
    rx.drop(&mut chan);
    assert!(tx.resume_send(&mut chan, party(3)) == Step::Done(Err(SendError('c'))));
    assert!(tx.resume_send(&mut chan, party(3)) == Step::Done(Ok(())));
    assert_eq!(tx.len(&mut chan), 1);
    assert!(tx.resume_send(&mut chan, party(2)) == Step::Done(Err(SendError('b'))));
    assert_eq!(tx.len(&mut chan), 1);
}

#[test]
fn waiting_senders_are_served_in_turn() {
    let (mut chan, tx, rx) = bounded(1, 2);
    assert!(tx.try_send(&mut chan, 'a') == Ok(()));
    assert!(tx.try_send(&mut chan, 'b') == Ok(()));
    assert!(tx.send(&mut chan, 'c', party(1)) == Step::Wait(None));
    assert!(tx.send(&mut chan, 'd', party(2)) == Step::Wait(None));
    assert!(tx.send(&mut chan, 'e', party(3)) == Step::Wait(None));
    assert_eq!(rx.try_recv(&mut chan), Ok('a'));
    assert!(tx.resume_send(&mut chan, party(3)) == Step::Wait(None));
    assert_eq!(rx.try_recv(&mut chan), Ok('b'));
    assert!(tx.resume_send(&mut chan, party(3)) == Step::Wait(None));
    assert_eq!(rx.try_recv(&mut chan), Ok('c'));
    assert!(tx.resume_send(&mut chan, party(3)) == Step::Done(Ok(())));
    assert_eq!(chan.take_fired(), vec![party(1), party(2), party(3)]);
    assert_eq!(rx.try_recv(&mut chan), Ok('d'));
    assert_eq!(rx.try_recv(&mut chan), Ok('e'));
}

#[test]
fn sender_whose_turn_did_not_come_gets_its_message_back() {
    let (mut chan, tx, rx) = bounded(1, 1);
    assert!(tx.try_send(&mut chan, 'a') == Ok(()));
    assert!(tx.send(&mut chan, 'b', party(1)) == Step::Wait(None));
    assert!(tx.send(&mut chan, 'c', party(2)) == Step::Wait(None));
    assert_eq!(rx.try_recv(&mut chan), Ok('a'));
    assert!(tx.send(&mut chan, 'd', party(3)) == Step::Wait(None));
    rx.drop(&mut chan);
    assert!(tx.resume_send(&mut chan, party(1)) == Step::Done(Ok(())));
    assert!(tx.resume_send(&mut chan, party(2)) == Step::Done(Err(SendError('c'))));
    assert!(tx.resume_send(&mut chan, party(3)) == Step::Done(Err(SendError('d'))));
}

#[test]
fn handed_message_stays_until_its_party_comes() {
    let (mut chan, tx, rx) = bounded(1, 1);
    assert!(rx.recv(&mut chan, party(1)) == Step::Wait(None));
    assert!(rx.recv(&mut chan, party(2)) == Step::Wait(None));
    assert!(tx.try_send(&mut chan, 'a') == Ok(()));
    assert!(tx.try_send(&mut chan, 'b') == Ok(()));
    assert!(tx.try_send(&mut chan, 'c') == Ok(()));
    assert_eq!(rx.try_recv(&mut chan), Ok('c'));
    assert!(rx.resume_recv(&mut chan, party(1)) == Step::Done(Ok('a')));
    assert!(rx.drain(&mut chan).next().is_none());
    tx.drop(&mut chan);
    assert!(rx.resume_recv(&mut chan, party(2)) == Step::Done(Ok('b')));
    assert_eq!(rx.try_recv(&mut chan), Err(TryRecvError::Disconnected));
}

#[test]
fn order_holds_however_sends_and_receives_alternate() {
    let (mut chan, tx, rx) = bounded(1, 2);
    let mut sent = Vec::new();
    let mut received = Vec::new();
    for i in 0..40u64 {
        if tx.try_send(&mut chan, i) == Ok(()) {
            sent.push(i);
        }
        if i % 5 < 2 {
            assert!(tx.send(&mut chan, 100 + i, party(i)) != Step::Done(Err(SendError(100 + i))));
            sent.push(100 + i);
        }
        rx.len(&mut chan);
        if i % 4 != 1 {
            if let Ok(msg) = rx.try_recv(&mut chan) {
                received.push(msg);
            }
        }
    }
    assert!(received.len() < sent.len());
    while let Ok(msg) = rx.try_recv(&mut chan) {
        received.push(msg);
    }
    assert_eq!(received, sent);
}

#[test]
fn order_holds_when_receivers_wait() {
    let (mut chan, tx, rx) = bounded(1, 1);
    assert!(rx.recv(&mut chan, party(1)) == Step::Wait(None));
    assert!(tx.try_send(&mut chan, 'a') == Ok(()));
    assert!(tx.try_send(&mut chan, 'b') == Ok(()));
    assert!(tx.send(&mut chan, 'c', party(2)) == Step::Wait(None));
    assert!(rx.recv(&mut chan, party(3)) == Step::Done(Ok('b')));
    assert!(rx.resume_recv(&mut chan, party(1)) == Step::Done(Ok('a')));
    assert!(rx.recv(&mut chan, party(4)) == Step::Done(Ok('c')));
    assert!(rx.recv(&mut chan, party(5)) == Step::Wait(None));
}
