use room_relay::frame::RoomName;
use room_relay::registry::Registry;

fn room(name: &str) -> RoomName {
    RoomName::new(name.as_bytes()).unwrap()
}

fn name_of(room: Option<RoomName>) -> Option<Vec<u8>> {
    room.map(|r| r.as_bytes().to_vec())
}

#[test]
fn a_new_registry_has_no_rooms() {
    let registry = Registry::new();
    assert_eq!(registry.room_count(), 0);
    assert!(registry.members_of(&room("lobby"), None).is_empty());
    assert_eq!(name_of(registry.room_of(1)), None);
    assert!(!registry.is_member(&room("lobby"), 1));
}

#[test]
fn joining_makes_the_room() {
    let mut registry = Registry::new();
    registry.join(7, &room("lobby"));
    assert_eq!(registry.room_count(), 1);
    assert_eq!(registry.members_of(&room("lobby"), None), vec![7]);
    assert!(registry.is_member(&room("lobby"), 7));
    assert_eq!(name_of(registry.room_of(7)), Some(b"lobby".to_vec()));
}

#[test]
fn members_come_in_the_order_they_joined() {
    let mut registry = Registry::new();
    for id in [5, 3, 9, 1] {
        registry.join(id, &room("lobby"));
    }
    assert_eq!(registry.members_of(&room("lobby"), None), vec![5, 3, 9, 1]);
}

#[test]
fn joining_the_same_room_again_changes_nothing() {
    let mut registry = Registry::new();
    registry.join(1, &room("lobby"));
    registry.join(2, &room("lobby"));
    registry.join(1, &room("lobby"));
    assert_eq!(registry.members_of(&room("lobby"), None), vec![1, 2]);
    assert_eq!(registry.room_count(), 1);
}

#[test]
fn joining_another_room_leaves_the_first() {
    let mut registry = Registry::new();
    registry.join(1, &room("lobby"));
    registry.join(2, &room("lobby"));
    registry.join(1, &room("arena"));
    assert!(registry.is_member(&room("arena"), 1));
    assert!(!registry.is_member(&room("lobby"), 1));
    assert_eq!(registry.members_of(&room("lobby"), None), vec![2]);
    assert_eq!(registry.members_of(&room("arena"), None), vec![1]);
    assert_eq!(name_of(registry.room_of(1)), Some(b"arena".to_vec()));
    assert_eq!(registry.room_count(), 2);
}

#[test]
fn a_room_goes_with_its_last_member() {
    let mut registry = Registry::new();
    registry.join(1, &room("lobby"));
    registry.join(1, &room("arena"));
    assert_eq!(registry.room_count(), 1);
    assert!(registry.members_of(&room("lobby"), None).is_empty());
    registry.leave(1);
    assert_eq!(registry.room_count(), 0);
    assert!(registry.members_of(&room("arena"), None).is_empty());
    assert_eq!(name_of(registry.room_of(1)), None);
}

#[test]
fn leaving_takes_one_member_out() {
    let mut registry = Registry::new();
    for id in [1, 2, 3] {
        registry.join(id, &room("lobby"));
    }
    registry.leave(2);
    assert_eq!(registry.members_of(&room("lobby"), None), vec![1, 3]);
    assert_eq!(name_of(registry.room_of(2)), None);
    assert_eq!(registry.room_count(), 1);
}

#[test]
fn leaving_twice_is_leaving_once() {
    let mut registry = Registry::new();
    registry.join(1, &room("lobby"));
    registry.join(2, &room("lobby"));
    registry.leave(1);
    let once = registry.members_of(&room("lobby"), None);
    registry.leave(1);
    assert_eq!(registry.members_of(&room("lobby"), None), once);
    assert_eq!(once, vec![2]);
    assert_eq!(registry.room_count(), 1);
}

#[test]
fn leaving_without_a_room_changes_nothing() {
    let mut registry = Registry::new();
    registry.join(1, &room("lobby"));
    registry.leave(99);
    assert_eq!(registry.members_of(&room("lobby"), None), vec![1]);
    assert_eq!(registry.room_count(), 1);
}

#[test]
fn a_snapshot_can_leave_one_member_out() {
    let mut registry = Registry::new();
    for id in [1, 2, 3] {
        registry.join(id, &room("lobby"));
    }
    assert_eq!(registry.members_of(&room("lobby"), Some(2)), vec![1, 3]);
    assert_eq!(registry.members_of(&room("lobby"), Some(1)), vec![2, 3]);
    assert_eq!(registry.members_of(&room("lobby"), Some(3)), vec![1, 2]);
    assert_eq!(registry.members_of(&room("lobby"), Some(4)), vec![1, 2, 3]);
    assert_eq!(registry.members_of(&room("lobby"), None), vec![1, 2, 3]);
    assert!(registry.members_of(&room("arena"), Some(1)).is_empty());
}

#[test]
fn a_snapshot_does_not_follow_later_changes() {
    let mut registry = Registry::new();
    registry.join(1, &room("lobby"));
    registry.join(2, &room("lobby"));
    let snapshot = registry.members_of(&room("lobby"), None);
    registry.leave(1);
    registry.join(3, &room("lobby"));
    assert_eq!(snapshot, vec![1, 2]);
    assert_eq!(registry.members_of(&room("lobby"), None), vec![2, 3]);
}

#[test]
fn rooms_do_not_share_members() {
    let mut registry = Registry::new();
    registry.join(1, &room("lobby"));
    registry.join(2, &room("arena"));
    registry.join(3, &room("lobby"));
    registry.join(2, &room("lobby"));
    registry.join(1, &room("arena"));
    assert_eq!(registry.members_of(&room("lobby"), None), vec![3, 2]);
    assert_eq!(registry.members_of(&room("arena"), None), vec![1]);
    for id in [1, 2, 3] {
        let in_lobby = registry.is_member(&room("lobby"), id);
        let in_arena = registry.is_member(&room("arena"), id);
        assert!(in_lobby != in_arena);
    }
}

#[test]
fn a_thousand_joins_make_a_thousand_members() {
    let mut registry = Registry::new();
    let lobby = room("lobby");
    let mut order: Vec<u64> = (0..1000).collect();
    // A fixed shuffle: the joins take effect in no particular order.
    for i in 0..order.len() {
        let j = (i * 7919 + 13) % order.len();
        order.swap(i, j);
    }
    for id in &order {
        registry.join(*id, &lobby);
    }
    let members = registry.members_of(&lobby, None);
    assert_eq!(members.len(), 1000);
    assert_eq!(members, order);
    let mut sorted = members.clone();
    sorted.sort();
    sorted.dedup();
    assert_eq!(sorted, (0..1000).collect::<Vec<u64>>());
    assert_eq!(registry.room_count(), 1);
}
