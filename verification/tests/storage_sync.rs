use offline_sync::backend::{append_events, events_page, DEFAULT_PAGE_LIMIT};
use offline_sync::device_log::DeviceEventLog;
use offline_sync::event_core::{EventSourcedEntity, ServerOffset};
use offline_sync::event_log::{AppendEvent, EntityEventLog};
use offline_sync::item::{Item, ItemEvent, ItemId};
use offline_sync::item_service::SdkItemService;
use offline_sync::item_storage::{ItemFilter, ItemStorage};
use offline_sync::records::{id_text, parse_id, ItemView};
use offline_sync::replica::ReplicaIdProvider;
use offline_sync::server_log::ServerEventLog;
use offline_sync::sync::{notify_if_changed, ServerReply, SyncError, SyncListener, SyncRound, SyncState, SyncStep};
use std::cell::Cell;

fn device_storage(replica: &str) -> ItemStorage<DeviceEventLog> {
    ItemStorage::new(DeviceEventLog::new(), ReplicaIdProvider::new(replica.to_string()))
}

#[test]
fn replica_provider_hands_out_its_id() {
    let p = ReplicaIdProvider::new("phone-1".to_string());
    assert_eq!(p.get(), "phone-1");
    assert_eq!(p.clone().get(), "phone-1");
}

#[test]
fn filters_build_their_name_condition() {
    assert_eq!(ItemFilter::empty().name, None);
    assert_eq!(ItemFilter::with_name("Bolt".to_string()).name.as_deref(), Some("Bolt"));
}

#[test]
fn store_then_find_by_id_reads_the_stored_item() {
    let mut storage = device_storage("phone");
    let id = ItemId(1234);
    let mut item = Item::create(id, "Wrench".to_string(), 10, 100);
    storage.store(&mut item);
    assert!(item.uncommitted_events().is_empty());
    let row = storage.find_by_id(&id).expect("stored item has a row");
    assert_eq!(row.name, "Wrench");
    assert_eq!(row.quantity, 10);
    assert_eq!(row.last_modified_ms, 100);
    let history = storage.log().events_of_entity(&id);
    assert_eq!(history.len(), 1);
    assert_eq!(history[0].replica_id, "phone");
    assert_eq!(history[0].replica_write_offset, 1);
    assert_eq!(history[0].server_offset, None);
    assert_eq!(history[0].replica_time_ms, 100);

    let mut loaded = storage.find_by_id(&id).unwrap();
    loaded.set_quantity(3, 200);
    storage.store(&mut loaded);
    assert_eq!(storage.find_by_id(&id).unwrap().quantity, 3);
    assert_eq!(storage.log().events_of_entity(&id).len(), 2);
}

#[test]
fn deleting_an_item_removes_its_row() {
    let mut storage = device_storage("phone");
    let id = ItemId(1);
    let mut item = Item::create(id, "Nut".to_string(), 3, 100);
    storage.store(&mut item);
    let mut loaded = storage.find_by_id(&id).unwrap();
    loaded.delete(200);
    storage.store(&mut loaded);
    assert!(storage.find_by_id(&id).is_none());
    assert!(storage.find_all().is_empty());
    assert_eq!(storage.log().events_of_entity(&id).len(), 2);
}

#[test]
fn find_filters_by_name_ignoring_ascii_case_and_sorts_by_name() {
    let mut storage = device_storage("phone");
    for (i, name) in ["bolt", "Anchor", "BOLT", "clamp", "Bolt"].iter().enumerate() {
        let mut item = Item::create(ItemId(i as u128 + 1), name.to_string(), i as i64, 10);
        storage.store(&mut item);
    }
    let all = storage.find_all();
    let names: Vec<&str> = all.iter().map(|it| it.name.as_str()).collect();
    assert_eq!(names.len(), 5);
    // byte order: uppercase letters come before lowercase ones
    assert_eq!(names[0], "Anchor");
    assert_eq!(names[1], "BOLT");
    assert_eq!(names[2], "Bolt");
    assert_eq!(names[3], "bolt");
    assert_eq!(names[4], "clamp");
    let bolts = storage.find(&ItemFilter::with_name("bOlT".to_string()));
    assert_eq!(bolts.len(), 3);
    assert!(bolts.iter().all(|it| it.name.eq_ignore_ascii_case("bolt")));
    assert!(storage.find(&ItemFilter::with_name("bolts".to_string())).is_empty());
}

#[test]
fn build_projection_of_an_unknown_entity_leaves_no_row() {
    let mut storage = device_storage("phone");
    storage.build_projection(&ItemId(99));
    assert!(storage.find_by_id(&ItemId(99)).is_none());
    assert!(!storage.build_projections(&[]));
    assert!(storage.build_projections(&[ItemId(99), ItemId(99)]));
}

#[test]
fn projection_follows_events_appended_to_the_log() {
    let mut storage = device_storage("phone");
    let incoming = AppendEvent {
        replica_event_id: 5,
        entity_id: ItemId(8),
        payload: ItemEvent::Created { name: "Gear".to_string(), quantity: 2 },
        replica_id: "server".to_string(),
        replica_time_ms: 50,
        replica_write_offset: Some(1),
        server_offset: Some(ServerOffset(1)),
        server_time_ms: Some(60),
    };
    storage.log_mut().append(vec![incoming]);
    assert!(storage.find_by_id(&ItemId(8)).is_none()); // reads never touch the log
    storage.build_projections(&[ItemId(8)]);
    assert_eq!(storage.find_by_id(&ItemId(8)).unwrap().name, "Gear");
}

#[test]
fn item_service_works_offline() {
    let mut svc = SdkItemService::new(device_storage("phone"));
    let id = svc.create_item("Hammer".to_string(), 1);
    let created = svc.items();
    assert_eq!(created.len(), 1);
    assert!(created[0].last_modified_ms > 1_600_000_000_000); // stamped by the wall clock
    let fixed = svc.create_item_with(ItemId(7), "Axe".to_string(), 2, 500);
    assert_eq!(fixed, ItemId(7));
    // explicit, increasing times: edits within one millisecond have no fixed order
    let later = 4_000_000_000_000;
    svc.set_quantity_at(&id, 5, later);
    svc.rename_at(&id, "Sledge".to_string(), later + 1);
    svc.set_note_at(&id, Some("heavy".to_string()), later + 2);
    svc.set_quantity_at(&fixed, 9, 600);
    let items = svc.items();
    assert_eq!(items.len(), 2);
    assert_eq!(items[0].name, "Axe");
    assert_eq!(items[0].quantity, 9);
    assert_eq!(items[0].last_modified_ms, 600);
    assert_eq!(items[1].name, "Sledge");
    assert_eq!(items[1].quantity, 5);
    assert_eq!(items[1].note.as_deref(), Some("heavy"));
    assert_eq!(items[1].last_modified_ms, later + 2);
    svc.delete_at(&id, later + 3);
    assert_eq!(svc.items().len(), 1);
    // an unknown item is left alone
    svc.rename_at(&ItemId(404), "x".to_string(), 1);
    svc.delete_at(&ItemId(404), 1);
    svc.set_note_at(&ItemId(404), None, 1);
    assert_eq!(svc.items().len(), 1);
    svc.delete_at(&fixed, 700);
    assert!(svc.items().is_empty());
    assert_eq!(svc.storage().log().events_of_entity(&fixed).len(), 3);
}

#[test]
fn item_service_wall_clock_operations_record_events() {
    let mut svc = SdkItemService::new(device_storage("phone"));
    let id = svc.create_item("Drill".to_string(), 1);
    svc.set_quantity(&id, 2);
    svc.rename(&id, "Drill 2".to_string());
    svc.set_note(&id, None);
    assert_eq!(svc.storage().log().events_of_entity(&id).len(), 4);
    assert_eq!(svc.items().len(), 1);
    svc.delete(&id);
    assert_eq!(svc.storage().log().events_of_entity(&id).len(), 5);
    // the deletion is stamped no earlier than the creation, so it wins
    assert!(svc.items().is_empty());
}

#[test]
fn fresh_ids_differ() {
    let mut svc = SdkItemService::new(device_storage("phone"));
    let a = svc.create_item("A".to_string(), 1);
    let b = svc.create_item("B".to_string(), 1);
    assert_ne!(a, b);
}

#[test]
fn item_view_and_id_text_round_trip() {
    let item = Item::create(ItemId(0xa1a2a3a4b1b2c1c2d1d2d3d4d5d6d7d8), "Bolt".to_string(), 4, 1);
    let view = ItemView::from_item(item);
    assert_eq!(view.id, "a1a2a3a4-b1b2-c1c2-d1d2-d3d4d5d6d7d8");
    assert_eq!(view.name, "Bolt");
    assert_eq!(view.quantity, 4);
    assert_eq!(view.note, None);
    assert_eq!(parse_id(&view.id), Some(ItemId(0xa1a2a3a4b1b2c1c2d1d2d3d4d5d6d7d8)));
    assert_eq!(parse_id("not an id"), None);
    assert_eq!(parse_id("A1A2A3A4B1B2C1C2D1D2D3D4D5D6D7D8"), Some(ItemId(0xa1a2a3a4b1b2c1c2d1d2d3d4d5d6d7d8)));
    assert_eq!(id_text(&ItemId(1)), "00000000-0000-0000-0000-000000000001");
    assert_eq!(parse_id(&id_text(&ItemId(77))), Some(ItemId(77)));
}

#[test]
fn sync_error_reads_as_its_message() {
    let e = SyncError::Transport { message: "offline (simulated)".to_string() };
    assert_eq!(e.to_string(), "offline (simulated)");
}

#[test]
fn sync_state_starts_with_no_cursor() {
    let s = SyncState::new("phone".to_string());
    assert_eq!(s.pulled(), None);
    assert_eq!(s.replica_id(), "phone");
}

struct Counter(Cell<u32>);

impl SyncListener for Counter {
    fn on_items_changed(&self) {
        self.0.set(self.0.get() + 1);
    }
}

#[test]
fn listener_hears_only_about_changes() {
    let c = Counter(Cell::new(0));
    notify_if_changed(false, Some(&c));
    assert_eq!(c.0.get(), 0);
    notify_if_changed(true, Some(&c));
    assert_eq!(c.0.get(), 1);
    notify_if_changed::<Counter>(true, None);
    assert_eq!(c.0.get(), 1);
}

/// Run one sync round of a device against an in-process server.
fn sync_round(
    device: &mut ItemStorage<DeviceEventLog>,
    state: &mut SyncState,
    server: &mut ItemStorage<ServerEventLog>,
    batch: usize,
) -> Vec<ItemId> {
    let mut round = SyncRound::new(batch, device.log(), state);
    let mut reply = None;
    loop {
        match round.step(device.log_mut(), state, reply) {
            SyncStep::Push(events) => {
                assert!(!events.is_empty());
                reply = Some(ServerReply::Acknowledged(append_events(server, events)));
            }
            SyncStep::Pull { after, limit } => {
                let page = server.log().events_after(after, limit);
                reply = Some(ServerReply::Page(page));
            }
            SyncStep::Done(touched) => {
                device.build_projections(&touched);
                return touched;
            }
        }
    }
}

#[test]
fn two_devices_converge_through_the_server() {
    let mut server = ItemStorage::new(ServerEventLog::new(), ReplicaIdProvider::new("server".to_string()));
    let mut phone_a = device_storage("phone_a");
    let mut phone_b = device_storage("phone_b");
    let mut state_a = SyncState::new("phone_a".to_string());
    let mut state_b = SyncState::new("phone_b".to_string());

    let id = ItemId(55);
    let mut item = Item::create(id, "Bolt".to_string(), 5, 100);
    phone_a.store(&mut item);
    let touched = sync_round(&mut phone_a, &mut state_a, &mut server, 2);
    assert_eq!(touched, vec![id]); // its own event comes back in the pull
    assert_eq!(state_a.pulled(), Some(ServerOffset(1)));
    assert!(phone_a.log().get_unsynced("phone_a", 10).is_empty());
    assert_eq!(server.find_by_id(&id).unwrap().name, "Bolt");

    sync_round(&mut phone_b, &mut state_b, &mut server, 2);
    assert_eq!(phone_b.find_by_id(&id).unwrap().quantity, 5);

    // both edit offline; b's clock is later
    let mut a_item = phone_a.find_by_id(&id).unwrap();
    a_item.set_quantity(7, 200);
    phone_a.store(&mut a_item);
    let mut b_item = phone_b.find_by_id(&id).unwrap();
    b_item.set_quantity(9, 250);
    phone_b.store(&mut b_item);

    sync_round(&mut phone_a, &mut state_a, &mut server, 1);
    sync_round(&mut phone_b, &mut state_b, &mut server, 1);
    sync_round(&mut phone_a, &mut state_a, &mut server, 1);

    let a = phone_a.find_by_id(&id).unwrap();
    let b = phone_b.find_by_id(&id).unwrap();
    assert_eq!(a, b);
    assert_eq!(a.quantity, 9);
    assert_eq!(server.find_by_id(&id).unwrap().quantity, 9);
    assert_eq!(server.log().all_events().len(), 3);

    // deletion on one side wins over a later edit on the other
    let mut a_item = phone_a.find_by_id(&id).unwrap();
    a_item.delete(300);
    phone_a.store(&mut a_item);
    let mut b_item = phone_b.find_by_id(&id).unwrap();
    b_item.set_quantity(1, 400);
    phone_b.store(&mut b_item);
    sync_round(&mut phone_a, &mut state_a, &mut server, 5);
    sync_round(&mut phone_b, &mut state_b, &mut server, 5);
    sync_round(&mut phone_a, &mut state_a, &mut server, 5);
    assert!(phone_a.find_by_id(&id).is_none());
    assert!(phone_b.find_by_id(&id).is_none());
    assert!(server.find_by_id(&id).is_none());
}

#[test]
fn a_lost_acknowledgement_is_retried_without_duplicates() {
    let mut server = ItemStorage::new(ServerEventLog::new(), ReplicaIdProvider::new("server".to_string()));
    let mut phone = device_storage("phone");
    let mut state = SyncState::new("phone".to_string());
    let mut item = Item::create(ItemId(3), "Cog".to_string(), 1, 10);
    phone.store(&mut item);

    let mut round = SyncRound::new(10, phone.log(), &state);
    let events = match round.step(phone.log_mut(), &mut state, None) {
        SyncStep::Push(events) => events,
        other => panic!("expected a push, got {:?}", other),
    };
    // the server stores them, but the acknowledgement is lost
    let _lost = append_events(&mut server, events);
    let touched = sync_round(&mut phone, &mut state, &mut server, 10);
    assert_eq!(touched, vec![ItemId(3)]);
    assert_eq!(server.log().all_events().len(), 1);
    assert_eq!(phone.log().events_of_entity(&ItemId(3)).len(), 1);
    assert_eq!(phone.log().events_of_entity(&ItemId(3))[0].server_offset, Some(ServerOffset(1)));
}

#[test]
fn a_round_with_nothing_to_do_ends_at_once() {
    let server = ItemStorage::new(ServerEventLog::new(), ReplicaIdProvider::new("server".to_string()));
    let mut phone = device_storage("phone");
    let mut state = SyncState::new("phone".to_string());
    let mut round = SyncRound::new(3, phone.log(), &state);
    match round.step(phone.log_mut(), &mut state, None) {
        SyncStep::Pull { after, limit } => {
            assert_eq!(after, None);
            assert_eq!(limit, 3);
            let page = server.log().events_after(after, limit);
            match round.step(phone.log_mut(), &mut state, Some(ServerReply::Page(page))) {
                SyncStep::Done(touched) => assert!(touched.is_empty()),
                other => panic!("expected the end, got {:?}", other),
            }
        }
        other => panic!("expected a pull, got {:?}", other),
    }
}

#[test]
fn server_pages_default_to_five_hundred() {
    let mut server = ItemStorage::new(ServerEventLog::new(), ReplicaIdProvider::new("server".to_string()));
    let mut events = Vec::new();
    for i in 0..600u128 {
        events.push(AppendEvent {
            replica_event_id: i + 1,
            entity_id: ItemId(i % 50 + 1),
            payload: ItemEvent::QuantityChanged { quantity: i as i64 },
            replica_id: "p".to_string(),
            replica_time_ms: i as i64,
            replica_write_offset: Some(1),
            server_offset: None,
            server_time_ms: None,
        });
    }
    let stored = append_events(&mut server, events);
    assert_eq!(stored.len(), 600);
    assert_eq!(DEFAULT_PAGE_LIMIT, 500);
    let page = events_page(server.log(), None, None);
    assert_eq!(page.events.len(), 500);
    assert_eq!(page.next_offset, Some(ServerOffset(500)));
    let rest = events_page(server.log(), Some(500), Some(1000));
    assert_eq!(rest.events.len(), 100);
    assert_eq!(server.find_by_id(&ItemId(1)).unwrap().quantity, 550);
}

#[test]
fn server_authored_items_get_server_provenance() {
    let mut server = ItemStorage::new(ServerEventLog::new(), ReplicaIdProvider::new("server".to_string()));
    let mut item = Item::create(ItemId(9), "Admin".to_string(), 1, 5);
    item.rename("Admin item".to_string(), 6);
    server.store(&mut item);
    let all = server.log().all_events();
    assert_eq!(all.len(), 2);
    assert_eq!(all[0].replica_id, "server");
    assert_eq!(all[0].replica_write_offset, 1);
    assert_eq!(all[1].replica_write_offset, 2);
    assert_eq!(all[1].server_offset, Some(ServerOffset(2)));
    assert_eq!(server.find_by_id(&ItemId(9)).unwrap().name, "Admin item");
}

#[test]
fn store_with_ids_stamps_the_given_ids_in_order() {
    let mut storage = device_storage("phone");
    let id = ItemId(7);
    let mut item = Item::create(id, "Washer".to_string(), 5, 100);
    item.set_quantity(6, 110);
    item.delete(120);
    storage.store_with_ids(&mut item, &vec![11, 12, 13]);
    assert_eq!(item.uncommitted_len(), 0);
    let history = storage.log().events_of_entity(&id);
    let ids: Vec<u128> = history.iter().map(|d| d.replica_event_id).collect();
    assert_eq!(ids, vec![11, 12, 13]);
    let offsets: Vec<u64> = history.iter().map(|d| d.replica_write_offset).collect();
    assert_eq!(offsets, vec![1, 2, 3]);
    assert!(storage.find_by_id(&id).is_none());
}

#[test]
fn store_gives_each_change_its_own_id() {
    let mut storage = device_storage("phone");
    let id = ItemId(8);
    let mut item = Item::create(id, "Gear".to_string(), 1, 100);
    item.rename("Cog".to_string(), 110);
    storage.store(&mut item);
    let history = storage.log().events_of_entity(&id);
    assert_eq!(history.len(), 2);
    assert_ne!(history[0].replica_event_id, history[1].replica_event_id);
    assert_eq!(storage.find_by_id(&id).unwrap().name, "Cog");
}

#[test]
fn server_append_needs_offsets_only_for_new_ids() {
    let mut log = ServerEventLog::new();
    let ev = AppendEvent {
        replica_event_id: 42,
        entity_id: ItemId(1),
        payload: ItemEvent::Deleted,
        replica_id: "phone".to_string(),
        replica_time_ms: 5,
        replica_write_offset: Some(1),
        server_offset: None,
        server_time_ms: None,
    };
    let first = log.append(vec![ev.clone(), ev.clone()]);
    assert_eq!(first.len(), 2);
    assert_eq!(first[0].server_offset, Some(ServerOffset(1)));
    assert_eq!(first[1].server_offset, Some(ServerOffset(1)));
    assert_eq!(log.next_server_offset(), 2);
}

#[test]
fn an_abandoned_round_leaves_the_log_and_cursor_untouched() {
    let mut server = ItemStorage::new(ServerEventLog::new(), ReplicaIdProvider::new("server".to_string()));
    let mut other = ItemStorage::new(ServerEventLog::new(), ReplicaIdProvider::new("x".to_string()));
    let mut remote = Item::create(ItemId(4), "Remote".to_string(), 2, 5);
    other.store(&mut remote);
    append_events(&mut server, other.log().all_events().iter().map(AppendEvent::from).collect());

    let mut phone = device_storage("phone");
    let mut state = SyncState::new("phone".to_string());
    let mut item = Item::create(ItemId(3), "Cog".to_string(), 1, 10);
    phone.store(&mut item);

    let mut round = SyncRound::new(10, phone.log(), &state);
    let events = match round.step(phone.log_mut(), &mut state, None) {
        SyncStep::Push(events) => events,
        other => panic!("expected a push, got {:?}", other),
    };
    let acks = append_events(&mut server, events);
    let pull = round.step(phone.log_mut(), &mut state, Some(ServerReply::Acknowledged(acks)));
    let (after, limit) = match pull {
        SyncStep::Pull { after, limit } => (after, limit),
        other => panic!("expected a pull, got {:?}", other),
    };
    let page = server.log().events_after(after, limit);
    assert_eq!(page.events.len(), 2);
    match round.step(phone.log_mut(), &mut state, Some(ServerReply::Page(page))) {
        SyncStep::Pull { .. } => {}
        other => panic!("expected another pull, got {:?}", other),
    }
    // the next pull fails: the round is dropped
    drop(round);
    assert_eq!(phone.log().get_unsynced("phone", 10).len(), 1);
    assert_eq!(phone.log().events_of_entity(&ItemId(4)).len(), 0);
    assert_eq!(state.pulled(), None);

    // a later round retries and completes
    let touched = sync_round(&mut phone, &mut state, &mut server, 10);
    assert_eq!(touched.len(), 2);
    assert!(phone.log().get_unsynced("phone", 10).is_empty());
    assert_eq!(phone.find_by_id(&ItemId(4)).unwrap().name, "Remote");
    assert_eq!(state.pulled(), Some(ServerOffset(2)));
}
