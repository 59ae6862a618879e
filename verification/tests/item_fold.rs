use offline_sync::event_core::{order_key, sort_events, EventDescriptor, EventSourcedEntity, EntityEvent};
use offline_sync::item::{Item, ItemEvent, ItemId};

fn descriptor(
    entity: &ItemId,
    payload: ItemEvent,
    replica: &str,
    time_ms: i64,
    offset: u64,
) -> EventDescriptor<ItemEvent, ItemId> {
    EventDescriptor {
        replica_event_id: uuid::Uuid::new_v4().as_u128(),
        replica_write_offset: offset,
        replica_time_ms: time_ms,
        replica_id: replica.to_string(),
        server_offset: None,
        server_time_ms: None,
        entity_id: *entity,
        payload,
    }
}

fn fresh_id() -> ItemId {
    ItemId(uuid::Uuid::new_v4().as_u128())
}

#[test]
fn folds_history_into_current_state() {
    let id = fresh_id();
    let mut events = vec![
        descriptor(&id, ItemEvent::Created { name: "Wrench".into(), quantity: 10 }, "phone", 100, 0),
        descriptor(&id, ItemEvent::QuantityChanged { quantity: 8 }, "phone", 200, 0),
        descriptor(&id, ItemEvent::NoteChanged { note: Some("left bin".into()) }, "phone", 300, 0),
    ];
    sort_events(&mut events);
    let item = Item::build_from_history(events);

    assert_eq!(item.name, "Wrench");
    assert_eq!(item.quantity, 8);
    assert_eq!(item.note.as_deref(), Some("left bin"));
    assert!(!item.deleted);
}

#[test]
fn two_replicas_converge_regardless_of_arrival_order() {
    let id = fresh_id();
    let created = descriptor(&id, ItemEvent::Created { name: "Bolt".into(), quantity: 5 }, "server", 100, 0);
    // Two devices edit quantity while offline; phone_b's clock is later.
    let edit_a = descriptor(&id, ItemEvent::QuantityChanged { quantity: 7 }, "phone_a", 200, 0);
    let edit_b = descriptor(&id, ItemEvent::QuantityChanged { quantity: 9 }, "phone_b", 250, 0);

    let mut order1 = vec![created.clone(), edit_a.clone(), edit_b.clone()];
    let mut order2 = vec![edit_b, created, edit_a];

    sort_events(&mut order1);
    sort_events(&mut order2);
    let item1 = Item::build_from_history(order1);
    let item2 = Item::build_from_history(order2);

    // Both converge, and last-writer-by-clock (phone_b @250) wins.
    assert_eq!(item1, item2);
    assert_eq!(item1.quantity, 9);
}

#[test]
fn deletion_wins_over_a_later_edit() {
    let id = fresh_id();
    let mut events = vec![
        descriptor(&id, ItemEvent::Created { name: "Nut".into(), quantity: 3 }, "phone_a", 100, 0),
        descriptor(&id, ItemEvent::Deleted, "phone_a", 200, 0),
        // Another device edited it *after* (by clock) not knowing it was deleted.
        descriptor(&id, ItemEvent::QuantityChanged { quantity: 99 }, "phone_b", 300, 0),
    ];
    sort_events(&mut events);
    let item = Item::build_from_history(events);

    assert!(item.deleted);
    assert_eq!(item.quantity, 3); // the post-delete edit was dropped
}

#[test]
fn order_key_is_time_then_offset_then_id() {
    let id = ItemId(7);
    let mut d = descriptor(&id, ItemEvent::Deleted, "r", 42, 3);
    d.replica_event_id = 99;
    assert_eq!(order_key(&d), (42, 3, 99));
}

#[test]
fn sort_orders_by_time_then_write_offset_then_event_id() {
    let id = ItemId(1);
    let mut a = descriptor(&id, ItemEvent::QuantityChanged { quantity: 1 }, "r", 200, 2);
    a.replica_event_id = 5;
    let mut b = descriptor(&id, ItemEvent::QuantityChanged { quantity: 2 }, "r", 200, 1);
    b.replica_event_id = 9;
    let mut c = descriptor(&id, ItemEvent::QuantityChanged { quantity: 3 }, "r", 200, 1);
    c.replica_event_id = 4;
    let mut d = descriptor(&id, ItemEvent::QuantityChanged { quantity: 4 }, "r", -5, 100);
    d.replica_event_id = 1;
    let mut events = vec![a, b, c, d];
    sort_events(&mut events);
    let ids: Vec<u128> = events.iter().map(|e| e.replica_event_id).collect();
    assert_eq!(ids, vec![1, 4, 9, 5]);
}

#[test]
fn sort_keeps_arrival_order_for_equal_keys() {
    let id = ItemId(1);
    let mut first = descriptor(&id, ItemEvent::QuantityChanged { quantity: 1 }, "r", 10, 1);
    first.replica_event_id = 3;
    let mut second = descriptor(&id, ItemEvent::QuantityChanged { quantity: 2 }, "r", 10, 1);
    second.replica_event_id = 3;
    let mut early = descriptor(&id, ItemEvent::QuantityChanged { quantity: 0 }, "r", 5, 0);
    early.replica_event_id = 8;
    let mut events = vec![first, early, second];
    sort_events(&mut events);
    assert_eq!(events[0].payload, ItemEvent::QuantityChanged { quantity: 0 });
    assert_eq!(events[1].payload, ItemEvent::QuantityChanged { quantity: 1 });
    assert_eq!(events[2].payload, ItemEvent::QuantityChanged { quantity: 2 });
}

#[test]
fn sort_of_empty_and_single_batches() {
    let mut none: Vec<EventDescriptor<ItemEvent, ItemId>> = Vec::new();
    sort_events(&mut none);
    assert!(none.is_empty());
    let mut one = vec![descriptor(&ItemId(1), ItemEvent::Deleted, "r", 1, 1)];
    sort_events(&mut one);
    assert_eq!(one.len(), 1);
}

#[test]
fn every_permutation_folds_to_the_same_item() {
    let id = ItemId(42);
    let base = vec![
        descriptor(&id, ItemEvent::Created { name: "Gear".into(), quantity: 1 }, "a", 10, 1),
        descriptor(&id, ItemEvent::Renamed { name: "Cog".into() }, "b", 20, 1),
        descriptor(&id, ItemEvent::QuantityChanged { quantity: 4 }, "a", 20, 2),
        descriptor(&id, ItemEvent::NoteChanged { note: None }, "c", 15, 1),
    ];
    let orders: Vec<Vec<usize>> = vec![vec![0, 1, 2, 3], vec![3, 2, 1, 0], vec![1, 3, 0, 2], vec![2, 0, 3, 1]];
    let mut results = Vec::new();
    for order in orders {
        let mut events: Vec<_> = order.iter().map(|&i| base[i].clone()).collect();
        sort_events(&mut events);
        results.push(Item::build_from_history(events));
    }
    for r in &results {
        assert_eq!(r, &results[0]);
    }
    assert_eq!(results[0].name, "Cog");
    assert_eq!(results[0].quantity, 4);
    assert_eq!(results[0].last_modified_ms, 20);
    assert_eq!(results[0].id, id);
}

#[test]
fn empty_history_builds_a_blank_item() {
    let item = Item::build_from_history(Vec::new());
    assert_eq!(item, Item::default());
    assert_eq!(item.id, ItemId(0));
    assert_eq!(item.name, "");
}

#[test]
fn domain_operations_apply_at_once_and_stay_uncommitted() {
    let id = ItemId(5);
    let mut item = Item::create(id, "Saw".to_string(), 2, 1000);
    assert_eq!(item.name, "Saw");
    assert_eq!(item.quantity, 2);
    assert_eq!(item.last_modified_ms, 1000);
    item.set_quantity(7, 1100);
    item.rename("Big saw".to_string(), 1200);
    item.set_note(Some("shelf 3".to_string()), 1300);
    assert_eq!(item.quantity, 7);
    assert_eq!(item.name, "Big saw");
    assert_eq!(item.note.as_deref(), Some("shelf 3"));
    assert_eq!(item.last_modified_ms, 1300);
    assert_eq!(item.uncommitted_events().len(), 4);
    assert_eq!(item.uncommitted_events()[1], EntityEvent { event: ItemEvent::QuantityChanged { quantity: 7 }, modified_at_ms: 1100 });
    item.delete(1400);
    assert!(item.deleted);
    // deleted is terminal: a later edit is recorded but changes nothing
    item.set_quantity(100, 1500);
    assert_eq!(item.quantity, 7);
    assert_eq!(item.last_modified_ms, 1400);
    assert_eq!(item.uncommitted_events().len(), 6);
}

#[test]
fn apply_event_after_deletion_is_ignored() {
    let mut item = Item::default();
    item.apply_event(ItemEvent::Created { name: "X".into(), quantity: 1 }, 10);
    item.apply_event(ItemEvent::Deleted, 20);
    item.apply_event(ItemEvent::Renamed { name: "Y".into() }, 30);
    assert_eq!(item.name, "X");
    assert!(item.deleted);
    assert_eq!(item.last_modified_ms, 20);
    assert!(item.uncommitted_events().is_empty());
}

#[test]
fn rebuilt_item_takes_the_id_of_the_first_event() {
    let id = ItemId(77);
    let events = vec![descriptor(&id, ItemEvent::Created { name: "A".into(), quantity: 1 }, "r", 1, 1)];
    let item = Item::build_from_history(events);
    assert_eq!(*item.id(), ItemId(77));
}
