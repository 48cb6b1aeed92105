use sse_broadcast::broadcast::{Broadcaster, Received, CAPACITY};

fn message(r: Received) -> Vec<u8> {
    match r {
        Received::Message { bytes } => bytes,
        Received::Empty => panic!("expected a message, the queue was empty"),
        Received::Gone => panic!("expected a message, the channel was gone"),
    }
}

fn is_empty(r: Received) -> bool {
    match r {
        Received::Empty => true,
        _ => false,
    }
}

fn is_gone(r: Received) -> bool {
    match r {
        Received::Gone => true,
        _ => false,
    }
}

#[test]
fn subscribe_yields_connected_first() {
    let mut b = Broadcaster::create();
    let id = b.subscribe().unwrap();
    assert_eq!(id, 0);
    assert_eq!(message(b.poll_next(id)), b"data: connected\n\n".to_vec());
    assert!(is_empty(b.poll_next(id)));
}

#[test]
fn publish_reaches_every_subscriber() {
    let mut b = Broadcaster::create();
    let first = b.subscribe().unwrap();
    let second = b.subscribe().unwrap();
    b.send(&b"hello".to_vec());
    assert_eq!(message(b.poll_next(first)), b"data: connected\n\n".to_vec());
    assert_eq!(message(b.poll_next(first)), b"data: hello\n\n".to_vec());
    assert_eq!(message(b.poll_next(second)), b"data: connected\n\n".to_vec());
    assert_eq!(message(b.poll_next(second)), b"data: hello\n\n".to_vec());
    assert!(is_empty(b.poll_next(first)));
    assert!(is_empty(b.poll_next(second)));
}

#[test]
fn identifiers_are_distinct_and_increasing() {
    let mut b = Broadcaster::create();
    assert_eq!(b.subscribe().unwrap(), 0);
    assert_eq!(b.subscribe().unwrap(), 1);
    assert_eq!(b.subscribe().unwrap(), 2);
    assert_eq!(b.client_count(), 3);
    assert_eq!(b.client_ids(), vec![0, 1, 2]);
}

#[test]
fn full_queue_drops_only_the_overflowing_message() {
    let mut b = Broadcaster::create();
    let slow = b.subscribe().unwrap();
    // The connected greeting plus 99 published messages fill the queue.
    for n in 0..(CAPACITY - 1) {
        b.send(&format!("m{}", n).into_bytes());
    }
    let fresh = b.subscribe().unwrap();
    b.send(&b"late".to_vec());
    // The full queue missed `late` but kept everything before it.
    assert_eq!(message(b.poll_next(slow)), b"data: connected\n\n".to_vec());
    for n in 0..(CAPACITY - 1) {
        let expected = format!("data: m{}\n\n", n).into_bytes();
        assert_eq!(message(b.poll_next(slow)), expected);
    }
    assert!(is_empty(b.poll_next(slow)));
    // The other subscriber was unaffected.
    assert_eq!(message(b.poll_next(fresh)), b"data: connected\n\n".to_vec());
    assert_eq!(message(b.poll_next(fresh)), b"data: late\n\n".to_vec());
    assert!(is_empty(b.poll_next(fresh)));
}

#[test]
fn sweep_on_empty_collection_is_a_noop() {
    let mut b = Broadcaster::create();
    assert_eq!(b.client_count(), 0);
    b.remove_stale_clients();
    assert_eq!(b.client_count(), 0);
    assert_eq!(b.client_ids(), Vec::<u64>::new());
}

#[test]
fn dropped_reader_is_evicted_by_the_next_sweep() {
    let mut b = Broadcaster::create();
    let id = b.subscribe().unwrap();
    b.close_client(id);
    assert_eq!(b.client_count(), 1);
    b.remove_stale_clients();
    assert_eq!(b.client_count(), 0);
    assert!(is_gone(b.poll_next(id)));
    b.send(&b"world".to_vec());
    assert_eq!(b.client_count(), 0);
}

#[test]
fn sweep_delivers_the_ping_probe() {
    let mut b = Broadcaster::create();
    let id = b.subscribe().unwrap();
    assert_eq!(message(b.poll_next(id)), b"data: connected\n\n".to_vec());
    b.remove_stale_clients();
    assert_eq!(message(b.poll_next(id)), b"data: ping\n\n".to_vec());
    assert!(is_empty(b.poll_next(id)));
}

#[test]
fn consecutive_sweeps_agree_on_the_survivors() {
    let mut b = Broadcaster::create();
    let first = b.subscribe().unwrap();
    let second = b.subscribe().unwrap();
    let stuffed = b.subscribe().unwrap();
    for n in 0..(CAPACITY - 1) {
        b.send(&format!("m{}", n).into_bytes());
    }
    // Drain the two live readers; the third sits on a full queue.
    for _ in 0..CAPACITY {
        message(b.poll_next(first));
        message(b.poll_next(second));
    }
    b.remove_stale_clients();
    assert_eq!(b.client_ids(), vec![first, second]);
    b.remove_stale_clients();
    assert_eq!(b.client_ids(), vec![first, second]);
    assert!(is_gone(b.poll_next(stuffed)));
}

#[test]
fn closed_channel_is_skipped_by_publish() {
    let mut b = Broadcaster::create();
    let id = b.subscribe().unwrap();
    assert_eq!(message(b.poll_next(id)), b"data: connected\n\n".to_vec());
    b.close_client(id);
    b.send(&b"missed".to_vec());
    assert!(is_empty(b.poll_next(id)));
}

#[test]
fn poll_with_unknown_identifier_is_gone() {
    let mut b = Broadcaster::create();
    assert!(is_gone(b.poll_next(7)));
}

#[test]
fn subscribe_publish_drop_sweep_end_to_end() {
    let mut b = Broadcaster::create();
    let first = b.subscribe().unwrap();
    assert_eq!(message(b.poll_next(first)), b"data: connected\n\n".to_vec());
    b.send(&b"hello".to_vec());
    assert_eq!(message(b.poll_next(first)), b"data: hello\n\n".to_vec());
    b.close_client(first);
    b.remove_stale_clients();
    assert_eq!(b.client_count(), 0);
    let second = b.subscribe().unwrap();
    b.send(&b"world".to_vec());
    assert_eq!(b.client_count(), 1);
    assert!(is_gone(b.poll_next(first)));
    assert_eq!(message(b.poll_next(second)), b"data: connected\n\n".to_vec());
    assert_eq!(message(b.poll_next(second)), b"data: world\n\n".to_vec());
}
