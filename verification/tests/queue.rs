use room_relay::queue::{bump, OutboundQueue};

fn drain(queue: &mut OutboundQueue) -> Vec<Vec<u8>> {
    let mut out = Vec::new();
    while let Some(message) = queue.pop() {
        out.push(message);
    }
    out
}

#[test]
fn a_queue_needs_room_for_one_message() {
    assert!(OutboundQueue::new(0).is_none());
    assert!(OutboundQueue::new(1).is_some());
}

#[test]
fn a_new_queue_is_empty() {
    let queue = OutboundQueue::new(3).unwrap();
    assert_eq!(queue.len(), 0);
    assert!(queue.is_empty());
    assert_eq!(queue.capacity(), 3);
    assert_eq!(queue.dropped(), 0);
    assert_eq!(queue.streak(), 0);
}

#[test]
fn messages_come_out_in_the_order_they_went_in() {
    let mut queue = OutboundQueue::new(4).unwrap();
    assert!(!queue.push(b"one".to_vec()));
    assert!(!queue.push(b"two".to_vec()));
    assert!(!queue.push(b"three".to_vec()));
    assert_eq!(queue.len(), 3);
    assert_eq!(queue.pop(), Some(b"one".to_vec()));
    assert_eq!(queue.pop(), Some(b"two".to_vec()));
    assert_eq!(queue.pop(), Some(b"three".to_vec()));
    assert_eq!(queue.pop(), None);
    assert_eq!(queue.dropped(), 0);
}

#[test]
fn a_full_queue_drops_its_oldest_message() {
    let mut queue = OutboundQueue::new(2).unwrap();
    assert!(!queue.push(b"one".to_vec()));
    assert!(!queue.push(b"two".to_vec()));
    assert!(queue.push(b"three".to_vec()));
    assert_eq!(queue.len(), 2);
    assert_eq!(queue.dropped(), 1);
    assert_eq!(queue.streak(), 1);
    assert_eq!(drain(&mut queue), vec![b"two".to_vec(), b"three".to_vec()]);
}

#[test]
fn a_queue_keeps_the_latest_messages() {
    let mut queue = OutboundQueue::new(3).unwrap();
    for n in 0u8..10 {
        queue.push(vec![n]);
    }
    assert_eq!(queue.dropped(), 7);
    assert_eq!(queue.streak(), 7);
    assert_eq!(drain(&mut queue), vec![vec![7u8], vec![8u8], vec![9u8]]);
}

#[test]
fn a_put_that_drops_nothing_ends_the_streak() {
    let mut queue = OutboundQueue::new(1).unwrap();
    queue.push(b"a".to_vec());
    assert!(queue.push(b"b".to_vec()));
    assert!(queue.push(b"c".to_vec()));
    assert_eq!(queue.streak(), 2);
    assert_eq!(queue.pop(), Some(b"c".to_vec()));
    assert_eq!(queue.streak(), 2);
    assert!(!queue.push(b"d".to_vec()));
    assert_eq!(queue.streak(), 0);
    assert_eq!(queue.dropped(), 2);
}

#[test]
fn discard_empties_the_queue_and_keeps_the_counters() {
    let mut queue = OutboundQueue::new(1).unwrap();
    queue.push(b"a".to_vec());
    queue.push(b"b".to_vec());
    queue.discard();
    assert!(queue.is_empty());
    assert_eq!(queue.pop(), None);
    assert_eq!(queue.dropped(), 1);
    assert_eq!(queue.streak(), 1);
    assert_eq!(queue.capacity(), 1);
}

#[test]
fn pop_on_an_empty_queue_changes_nothing() {
    let mut queue = OutboundQueue::new(2).unwrap();
    assert_eq!(queue.pop(), None);
    assert_eq!(queue.len(), 0);
    assert_eq!(queue.dropped(), 0);
}

#[test]
fn bump_stops_at_the_top() {
    assert_eq!(bump(0), 1);
    assert_eq!(bump(41), 42);
    assert_eq!(bump(u64::MAX - 1), u64::MAX);
    assert_eq!(bump(u64::MAX), u64::MAX);
}
