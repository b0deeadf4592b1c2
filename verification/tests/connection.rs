use room_relay::connection::ConnTable;
use room_relay::lifecycle::ConnState;
use room_relay::queue::OutboundQueue;

fn queue(capacity: usize) -> OutboundQueue {
    OutboundQueue::new(capacity).unwrap()
}

#[test]
fn a_new_table_is_empty() {
    let table = ConnTable::new();
    assert_eq!(table.len(), 0);
    assert_eq!(table.state_of(0), None);
    assert_eq!(table.queued(0), 0);
    assert_eq!(table.dropped(0), None);
    assert_eq!(table.streak(0), None);
}

#[test]
fn a_connection_starts_connecting() {
    let mut table = ConnTable::new();
    assert!(table.insert(3, queue(2)));
    assert_eq!(table.len(), 1);
    assert_eq!(table.state_of(3), Some(ConnState::Connecting));
    assert_eq!(table.queued(3), 0);
    assert_eq!(table.dropped(3), Some(0));
    assert_eq!(table.streak(3), Some(0));
}

#[test]
fn an_identity_is_not_taken_twice() {
    let mut table = ConnTable::new();
    assert!(table.insert(3, queue(2)));
    table.push(3, b"kept".to_vec());
    assert!(!table.insert(3, queue(5)));
    assert_eq!(table.len(), 1);
    assert_eq!(table.queued(3), 1);
    assert_eq!(table.pop(3), Some(b"kept".to_vec()));
}

#[test]
fn the_state_of_one_connection_is_set() {
    let mut table = ConnTable::new();
    table.insert(1, queue(2));
    table.insert(2, queue(2));
    assert!(table.set_state(2, ConnState::Active));
    assert_eq!(table.state_of(1), Some(ConnState::Connecting));
    assert_eq!(table.state_of(2), Some(ConnState::Active));
    assert!(!table.set_state(9, ConnState::Active));
    assert_eq!(table.state_of(9), None);
    assert_eq!(table.len(), 2);
}

#[test]
fn each_connection_has_its_own_queue() {
    let mut table = ConnTable::new();
    table.insert(1, queue(1));
    table.insert(2, queue(2));
    assert!(!table.push(1, b"a".to_vec()));
    assert!(table.push(1, b"b".to_vec()));
    assert!(!table.push(2, b"c".to_vec()));
    assert!(!table.push(7, b"lost".to_vec()));
    assert_eq!(table.queued(1), 1);
    assert_eq!(table.queued(2), 1);
    assert_eq!(table.dropped(1), Some(1));
    assert_eq!(table.streak(1), Some(1));
    assert_eq!(table.dropped(2), Some(0));
    assert_eq!(table.pop(1), Some(b"b".to_vec()));
    assert_eq!(table.pop(1), None);
    assert_eq!(table.pop(2), Some(b"c".to_vec()));
    assert_eq!(table.pop(7), None);
}

#[test]
fn discarding_empties_one_queue() {
    let mut table = ConnTable::new();
    table.insert(1, queue(1));
    table.insert(2, queue(1));
    table.push(1, b"a".to_vec());
    table.push(1, b"b".to_vec());
    table.push(2, b"c".to_vec());
    table.discard(1);
    table.discard(5);
    assert_eq!(table.queued(1), 0);
    assert_eq!(table.dropped(1), Some(1));
    assert_eq!(table.queued(2), 1);
}

#[test]
fn a_removed_connection_is_gone() {
    let mut table = ConnTable::new();
    for id in [1, 2, 3] {
        table.insert(id, queue(2));
    }
    table.set_state(3, ConnState::Active);
    table.remove(2);
    table.remove(8);
    assert_eq!(table.len(), 2);
    assert_eq!(table.state_of(2), None);
    assert_eq!(table.state_of(1), Some(ConnState::Connecting));
    assert_eq!(table.state_of(3), Some(ConnState::Active));
    table.remove(1);
    table.remove(3);
    assert_eq!(table.len(), 0);
}
