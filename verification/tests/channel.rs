use conc::mpmc::channel;

/// Ten values through a capacity-2 channel arrive complete and in order,
/// the producer backing off whenever the buffer is full.
#[test]
fn test_mpmc() {
    let (mut send, recv) = channel::<i32, u8>(2);
    let mut next_to_send: i32 = 0;
    let mut expected: i32 = 0;
    while expected < 10 {
        while next_to_send < 10 {
            let (sent, woken) = send.try_send(next_to_send);
            assert!(woken.is_none());
            if sent {
                next_to_send += 1;
            } else {
                break;
            }
        }
        let (got, woken) = recv.recv_or_add_to_waitlist(None);
        assert!(woken.is_none());
        assert_eq!(got, Some(expected));
        expected += 1;
    }
}

/// Two sends of 1 and 2 from one producer on a capacity-2 channel are
/// received as 1 then 2.
#[test]
fn capacity_two_fifo() {
    let (mut send, recv) = channel::<i32, u8>(2);
    assert!(send.try_send(1).0);
    assert!(send.try_send(2).0);
    let (first, _) = recv.recv_or_add_to_waitlist(None);
    let (second, _) = recv.recv_or_add_to_waitlist(None);
    assert_eq!(first, Some(1));
    assert_eq!(second, Some(2));
}

/// A full buffer refuses a non-suspending send and keeps its contents
/// intact: no overflow, nothing lost.
#[test]
fn try_send_full_refused() {
    let (mut send, recv) = channel::<i32, u8>(2);
    assert!(send.try_send(10).0);
    assert!(send.try_send(20).0);
    assert!(!send.try_send(30).0);
    assert!(!send.try_send(30).0);
    assert_eq!(recv.recv_or_add_to_waitlist(None).0, Some(10));
    assert_eq!(recv.recv_or_add_to_waitlist(None).0, Some(20));
    assert_eq!(recv.recv_or_add_to_waitlist(None).0, None);
}

/// A receive on a truly empty channel yields nothing; with a hook supplied
/// it parks the receiver, and the next send hands that hook back to be
/// invoked.
#[test]
fn empty_recv_parks_receiver() {
    let (mut send, recv) = channel::<i32, u8>(1);
    let (got, woken) = recv.recv_or_add_to_waitlist(Some(7));
    assert_eq!(got, None);
    assert!(woken.is_none());
    let (sent, to_wake) = send.try_send(42);
    assert!(sent);
    assert_eq!(to_wake, Some(7));
    assert_eq!(recv.recv_or_add_to_waitlist(None).0, Some(42));
}

/// A send finding the buffer full parks the value with its hook; a
/// receiver that finds the buffer empty drains the parked sender directly
/// and hands back the sender's hook.
#[test]
fn full_send_parks_sender() {
    let (send, recv) = channel::<i32, u8>(1);
    let (sent, _) = send.send_or_add_to_waitlist(None, 1);
    assert!(sent);
    let (sent, woken) = send.send_or_add_to_waitlist(Some(9), 2);
    assert!(!sent);
    assert!(woken.is_none());
    assert_eq!(recv.recv_or_add_to_waitlist(None).0, Some(1));
    let (got, sender_hook) = recv.recv_or_add_to_waitlist(None);
    assert_eq!(got, Some(2));
    assert_eq!(sender_hook, Some(9));
}

/// Clones of both sides operate on the one shared channel.
#[test]
fn clones_share_the_buffer() {
    let (send, recv) = channel::<i32, u8>(4);
    let mut send2 = send.clone();
    let recv2 = recv.clone();
    let mut send = send;
    assert!(send.try_send(1).0);
    assert!(send2.try_send(2).0);
    assert_eq!(recv2.recv_or_add_to_waitlist(None).0, Some(1));
    assert_eq!(recv.recv_or_add_to_waitlist(None).0, Some(2));
}

/// Closing fails later sends fast, lets buffered values drain, hands the
/// parked parties back, and never parks anyone again.
#[test]
fn close_fails_fast_and_drains() {
    let (mut send, recv) = channel::<i32, u8>(1);
    assert!(send.try_send(1).0);
    let (sent, _) = send.send_or_add_to_waitlist(Some(3), 2);
    assert!(!sent);
    let (parked_receivers, parked_senders) = recv.close();
    assert!(parked_receivers.is_empty());
    assert_eq!(parked_senders, vec![(2, 3)]);
    assert!(send.is_closed());
    // Sends fail fast now.
    assert!(!send.try_send(9).0);
    assert!(!send.send_or_add_to_waitlist(Some(5), 9).0);
    // The buffered value still drains; after that, receives come back
    // empty without parking.
    assert_eq!(recv.recv_or_add_to_waitlist(None).0, Some(1));
    let (got, woken) = recv.recv_or_add_to_waitlist(Some(6));
    assert_eq!(got, None);
    assert!(woken.is_none());
    assert!(recv.is_closed());
}

/// Nothing is lost and nothing is duplicated: over an uneven interleaving
/// of producers and consumers, every value sent is received exactly once.
#[test]
fn conservation_over_interleavings() {
    let (send, recv) = channel::<u32, u8>(4);
    let mut send2 = send.clone();
    let mut send = send;
    let mut sent: Vec<u32> = Vec::new();
    let mut received: Vec<u32> = Vec::new();
    let mut next: u32 = 0;
    // Bursts of sends from two handles, drains of varying depth.
    for round in 0..7 {
        for _ in 0..(round % 4) {
            let from_second = next % 2 == 0;
            let (ok, _) = if from_second {
                send2.try_send(next)
            } else {
                send.try_send(next)
            };
            if ok {
                sent.push(next);
            }
            next += 1;
        }
        for _ in 0..(round % 3) {
            if let (Some(v), _) = recv.recv_or_add_to_waitlist(None) {
                received.push(v);
            }
        }
    }
    loop {
        match recv.recv_or_add_to_waitlist(None) {
            (Some(v), _) => received.push(v),
            (None, _) => break,
        }
    }
    assert_eq!(sent.len(), received.len());
    let mut sent_sorted = sent.clone();
    sent_sorted.sort();
    let mut received_sorted = received.clone();
    received_sorted.sort();
    assert_eq!(sent_sorted, received_sorted);
}
