use offline_sync::device_log::{max_server_offset, DeviceEventLog};
use offline_sync::event_core::{EventDescriptor, ServerOffset};
use offline_sync::event_log::{AppendEvent, EntityEventLog};
use offline_sync::item::{ItemEvent, ItemId};
use offline_sync::server_log::ServerEventLog;

fn local_event(id: u128, entity: u128, time: i64) -> AppendEvent<ItemEvent, ItemId> {
    AppendEvent {
        replica_event_id: id,
        entity_id: ItemId(entity),
        payload: ItemEvent::QuantityChanged { quantity: time },
        replica_id: "phone".to_string(),
        replica_time_ms: time,
        replica_write_offset: None,
        server_offset: None,
        server_time_ms: None,
    }
}

fn stored(id: u128, entity: u128, time: i64, server: Option<u64>) -> EventDescriptor<ItemEvent, ItemId> {
    EventDescriptor {
        replica_event_id: id,
        replica_write_offset: 1,
        replica_time_ms: time,
        replica_id: "other".to_string(),
        server_offset: server.map(ServerOffset),
        server_time_ms: server.map(|s| s as i64 * 10),
        entity_id: ItemId(entity),
        payload: ItemEvent::Deleted,
    }
}

#[test]
fn device_local_append_assigns_batch_offsets_and_leaves_events_unsynced() {
    let mut log = DeviceEventLog::new();
    let stored = log.append_local(vec![local_event(1, 9, 100), local_event(2, 9, 100)]);
    assert_eq!(stored.len(), 2);
    assert_eq!(stored[0].replica_write_offset, 1);
    assert_eq!(stored[1].replica_write_offset, 2);
    assert_eq!(stored[0].server_offset, None);
    assert_eq!(stored[0].server_time_ms, None);
    // a later batch starts counting again, and keeps an offset it is given
    let mut with_offset = local_event(3, 9, 50);
    with_offset.replica_write_offset = Some(17);
    let again = log.append_local(vec![local_event(1, 9, 100), with_offset, local_event(4, 8, 1)]);
    assert_eq!(again.len(), 3);
    assert_eq!(again[0].replica_write_offset, 1); // already stored: returned as stored
    assert_eq!(again[1].replica_write_offset, 17);
    assert_eq!(again[2].replica_write_offset, 2);
    let history = log.events_of_entity(&ItemId(9));
    let ids: Vec<u128> = history.iter().map(|d| d.replica_event_id).collect();
    assert_eq!(ids, vec![3, 1, 2]); // fold order: time 50 first, then offsets 1, 2
}

#[test]
fn device_replicated_append_is_idempotent_and_keeps_provenance() {
    let mut log = DeviceEventLog::new();
    let mut ev = AppendEvent::from(&stored(5, 1, 10, Some(7)));
    ev.replica_write_offset = None;
    let batch = vec![ev.clone(), AppendEvent::from(&stored(6, 1, 20, Some(8)))];
    log.append(batch.clone());
    log.append(batch);
    let history = log.events_of_entity(&ItemId(1));
    assert_eq!(history.len(), 2);
    assert_eq!(history[0].replica_write_offset, 0);
    assert_eq!(history[0].server_offset, Some(ServerOffset(7)));
    assert_eq!(history[0].server_time_ms, Some(70));
    assert_eq!(history[1].replica_id, "other");
    assert_eq!(history[1].replica_write_offset, 1);
}

#[test]
fn device_unsynced_are_own_events_without_offset_up_to_limit() {
    let mut log = DeviceEventLog::new();
    log.append_local(vec![local_event(1, 1, 1), local_event(2, 1, 2), local_event(3, 1, 3)]);
    log.append(vec![AppendEvent::from(&stored(9, 1, 4, None))]);
    let all = log.get_unsynced("phone", 10);
    assert_eq!(all.iter().map(|d| d.replica_event_id).collect::<Vec<_>>(), vec![1, 2, 3]);
    let two = log.get_unsynced("phone", 2);
    assert_eq!(two.iter().map(|d| d.replica_event_id).collect::<Vec<_>>(), vec![1, 2]);
    assert!(log.get_unsynced("phone", 0).is_empty());
    assert!(log.get_unsynced("tablet", 10).is_empty());
    // marking synced removes them from the unsynced set
    let mut ack = all[0].clone();
    ack.server_offset = Some(ServerOffset(41));
    ack.server_time_ms = Some(4100);
    let stranger = stored(77, 1, 1, Some(3));
    log.mark_synced(&[ack, stranger]);
    assert_eq!(log.get_unsynced("phone", 10).iter().map(|d| d.replica_event_id).collect::<Vec<_>>(), vec![2, 3]);
    let history = log.events_of_entity(&ItemId(1));
    assert_eq!(history[0].server_offset, Some(ServerOffset(41)));
    assert_eq!(history[0].server_time_ms, Some(4100));
    assert_eq!(history.len(), 4);
}

#[test]
fn max_server_offset_picks_the_largest_assigned_offset() {
    assert_eq!(max_server_offset(&[]), None);
    assert_eq!(max_server_offset(&[stored(1, 1, 1, None)]), None);
    let events = vec![stored(1, 1, 1, Some(4)), stored(2, 1, 1, None), stored(3, 1, 1, Some(9)), stored(4, 1, 1, Some(2))];
    assert_eq!(max_server_offset(&events), Some(ServerOffset(9)));
}

#[test]
fn server_append_assigns_increasing_offsets_and_times() {
    let mut log = ServerEventLog::new();
    assert_eq!(log.next_server_offset(), 1);
    let mut pushed = local_event(1, 3, 100);
    pushed.replica_write_offset = Some(4);
    let stored = log.append(vec![pushed, local_event(2, 3, 200)]);
    assert_eq!(stored[0].server_offset, Some(ServerOffset(1)));
    assert_eq!(stored[1].server_offset, Some(ServerOffset(2)));
    assert!(stored[0].server_time_ms.is_some());
    assert_eq!(stored[0].replica_write_offset, 4);
    assert_eq!(stored[1].replica_write_offset, 0);
    assert_eq!(log.next_server_offset(), 3);
}

#[test]
fn server_retried_push_returns_the_same_offsets_and_stores_nothing() {
    let mut log = ServerEventLog::new();
    let batch = vec![local_event(1, 3, 100), local_event(2, 3, 200)];
    let first = log.append(batch.clone());
    let retry = log.append(batch);
    assert_eq!(retry.len(), 2);
    assert_eq!(retry[0].server_offset, first[0].server_offset);
    assert_eq!(retry[1].server_offset, first[1].server_offset);
    assert_eq!(retry[1].server_time_ms, first[1].server_time_ms);
    assert_eq!(log.all_events().len(), 2);
    assert_eq!(log.next_server_offset(), 3);
}

#[test]
fn server_local_append_counts_batch_offsets() {
    let mut log = ServerEventLog::new();
    let stored = log.append_local(vec![local_event(1, 3, 100), local_event(2, 3, 100), local_event(1, 3, 100)]);
    assert_eq!(stored.len(), 3);
    assert_eq!(stored[0].replica_write_offset, 1);
    assert_eq!(stored[1].replica_write_offset, 2);
    assert_eq!(stored[2].server_offset, stored[0].server_offset);
    assert_eq!(log.all_events().len(), 2);
}

#[test]
fn server_pages_follow_the_cursor() {
    let mut log = ServerEventLog::new();
    log.append(vec![local_event(1, 1, 1), local_event(2, 2, 2), local_event(3, 1, 3)]);
    let page = log.events_after(None, 2);
    assert_eq!(page.events.iter().map(|d| d.replica_event_id).collect::<Vec<_>>(), vec![1, 2]);
    assert_eq!(page.next_offset, Some(ServerOffset(2)));
    let rest = log.events_after(page.next_offset, 2);
    assert_eq!(rest.events.iter().map(|d| d.replica_event_id).collect::<Vec<_>>(), vec![3]);
    assert_eq!(rest.next_offset, Some(ServerOffset(3)));
    let end = log.events_after(rest.next_offset, 2);
    assert!(end.events.is_empty());
    assert_eq!(end.next_offset, None);
    assert!(log.events_after(None, 0).events.is_empty());
    let all = log.all_events();
    assert_eq!(all.iter().map(|d| d.server_offset.unwrap().0).collect::<Vec<_>>(), vec![1, 2, 3]);
}

#[test]
fn server_history_of_an_entity_is_in_fold_order() {
    let mut log = ServerEventLog::new();
    log.append(vec![local_event(1, 1, 30), local_event(2, 2, 20), local_event(3, 1, 10)]);
    let history = log.events_of_entity(&ItemId(1));
    assert_eq!(history.iter().map(|d| d.replica_event_id).collect::<Vec<_>>(), vec![3, 1]);
}

#[test]
fn default_server_log_starts_at_offset_zero() {
    let mut log = ServerEventLog::default();
    assert_eq!(log.next_server_offset(), 0);
    let stored = log.append(vec![local_event(1, 1, 1)]);
    assert_eq!(stored[0].server_offset, Some(ServerOffset(0)));
    // offset 0 is not "after" the start cursor
    assert!(log.events_after(None, 10).events.is_empty());
}

#[test]
fn from_descriptor_keeps_provenance() {
    let d = stored(11, 2, 99, Some(5));
    let a = AppendEvent::from(&d);
    assert_eq!(a.replica_event_id, 11);
    assert_eq!(a.replica_write_offset, Some(1));
    assert_eq!(a.server_offset, Some(ServerOffset(5)));
    assert_eq!(a.server_time_ms, Some(50));
    assert_eq!(a.replica_id, "other");
    assert_eq!(a.entity_id, ItemId(2));
    assert_eq!(a.payload, ItemEvent::Deleted);
}

#[test]
fn paging_until_empty_reads_every_event_once() {
    let mut log = ServerEventLog::new();
    log.append((1..=5).map(|i| local_event(i, i, i as i64)).collect());
    let mut cursor = None;
    let mut got = Vec::new();
    let mut calls = 0;
    loop {
        let page = log.events_after(cursor, 2);
        calls += 1;
        if page.events.is_empty() {
            break;
        }
        got.extend(page.events.iter().map(|d| d.replica_event_id));
        cursor = page.next_offset;
    }
    assert_eq!(got, vec![1, 2, 3, 4, 5]);
    assert_eq!(calls, 4);
}
