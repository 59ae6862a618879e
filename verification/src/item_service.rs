//! `SdkItemService`: local item operations on the device, fully offline. Every
//! mutation loads the item's row, calls the domain method (which records an
//! event with its time), and stores the item (which appends to the log and
//! rebuilds the row). Syncing is a separate concern.

use vstd::prelude::*;
use crate::clock::now_ms;
use crate::device_log::{DeviceEventLog, device_local_append, fresh_local_descriptors, has_event_id, lemma_fresh_local_append};
use crate::event_core::{EventDescriptor, EventSourcedEntity, fold_order, in_fold_order, key_lt, key_of, lemma_fold_order_covers, lemma_fold_order_exists, lemma_fold_order_members, lemma_fold_order_of_later_events};
use crate::event_log::{AppendEvent, EntityEventLog, entity_history, of_entity};
use crate::item::{ItemEvent, ItemModel, apply_model, lemma_event_changes_only_its_fields, lemma_fold_keeps_identity, lemma_deletion_wins, fold_history, lemma_fold_history_concat, lemma_fold_is_replay, replay_pending, without_pending};
use crate::item_storage::{batch_has_ids, stored_with_ids, is_store_batch, ordered_history, projected_row, row_at, with_row};
use crate::ids::new_uuid;
use crate::server_log::{ServerEventLog, lemma_server_fresh_local_append, server_append, server_descriptor};
use crate::item::{Item, ItemEventModel, ItemId, blank_item, opt_view, record_model};
use crate::item_storage::{ItemFilter, ItemStorage, stored_as};
use crate::text::text_lt;

verus! {

/// The item service of a device.
pub struct SdkItemService {
    storage: ItemStorage<DeviceEventLog>,
}

/// `after` is `before` with one change recorded on item `id` at `now` and stored,
/// or unchanged when the item has no row.
pub open spec fn changed_item(before: ItemStorage<DeviceEventLog>, after: ItemStorage<DeviceEventLog>, id: ItemId, e: ItemEventModel, now: i64) -> bool {
    if before.rows().contains_key(id.0) {
        stored_as(before, after, record_model(before.rows()[id.0], e, now))
    } else {
        after == before
    }
}

impl SdkItemService {
    /// The storage the service works on.
    pub closed spec fn storage_state(&self) -> ItemStorage<DeviceEventLog> {
        self.storage
    }

    pub open spec fn wf(&self) -> bool {
        self.storage_state().wf()
    }

    pub fn new(storage: ItemStorage<DeviceEventLog>) -> (r: Self)
        requires
            storage.wf(),
        ensures
            r.wf(),
            r.storage_state() == storage,
    {
        SdkItemService { storage }
    }

    pub fn storage(&self) -> (r: &ItemStorage<DeviceEventLog>)
        ensures
            *r == self.storage_state(),
    {
        &self.storage
    }

    /// The storage, for the sync side.
    pub fn storage_mut(&mut self) -> (r: &mut ItemStorage<DeviceEventLog>)
        ensures
            *r == old(self).storage_state(),
            final(self).storage_state() == *final(r),
    {
        &mut self.storage
    }

    /// Create an item with the given id, name and quantity at time `now_ms`.
    pub fn create_item_with(&mut self, id: ItemId, name: String, quantity: i64, now_ms: i64) -> (r: ItemId)
        requires
            old(self).wf(),
        ensures
            final(self).wf(),
            r == id,
            stored_as(
                old(self).storage_state(),
                final(self).storage_state(),
                record_model(blank_item(id.0), ItemEventModel::Created { name: name@, quantity }, now_ms),
            ),
    {
        let mut item = Item::create(id, name, quantity, now_ms);
        self.storage.store(&mut item);
        *item.id()
    }

    /// Create an item locally (offline), with a fresh random id and the current
    /// time. Returns its id.
    pub fn create_item(&mut self, name: String, quantity: i64) -> (r: ItemId)
        requires
            old(self).wf(),
        ensures
            final(self).wf(),
            exists|now: i64|
                #![trigger record_model(blank_item(r.0), ItemEventModel::Created { name: name@, quantity }, now)]
                stored_as(
                    old(self).storage_state(),
                    final(self).storage_state(),
                    record_model(blank_item(r.0), ItemEventModel::Created { name: name@, quantity }, now),
                ),
    {
        let id = ItemId(new_uuid());
        let now = now_ms();
        self.create_item_with(id, name, quantity, now)
    }

    /// Set an item's quantity at time `now_ms`; an item with no row is left alone.
    pub fn set_quantity_at(&mut self, id: &ItemId, quantity: i64, now_ms: i64)
        requires
            old(self).wf(),
        ensures
            final(self).wf(),
            changed_item(old(self).storage_state(), final(self).storage_state(), *id, ItemEventModel::QuantityChanged { quantity }, now_ms),
    {
        match self.storage.find_by_id(id) {
            Some(mut item) => {
                item.set_quantity(quantity, now_ms);
                self.storage.store(&mut item);
            },
            None => {},
        }
    }

    /// Rename an item at time `now_ms`; an item with no row is left alone.
    pub fn rename_at(&mut self, id: &ItemId, name: String, now_ms: i64)
        requires
            old(self).wf(),
        ensures
            final(self).wf(),
            changed_item(old(self).storage_state(), final(self).storage_state(), *id, ItemEventModel::Renamed { name: name@ }, now_ms),
    {
        match self.storage.find_by_id(id) {
            Some(mut item) => {
                item.rename(name, now_ms);
                self.storage.store(&mut item);
            },
            None => {},
        }
    }

    /// Set an item's note at time `now_ms`; an item with no row is left alone.
    pub fn set_note_at(&mut self, id: &ItemId, note: Option<String>, now_ms: i64)
        requires
            old(self).wf(),
        ensures
            final(self).wf(),
            changed_item(old(self).storage_state(), final(self).storage_state(), *id, ItemEventModel::NoteChanged { note: opt_view(note) }, now_ms),
    {
        match self.storage.find_by_id(id) {
            Some(mut item) => {
                item.set_note(note, now_ms);
                self.storage.store(&mut item);
            },
            None => {},
        }
    }

    /// Delete an item at time `now_ms`; an item with no row is left alone.
    pub fn delete_at(&mut self, id: &ItemId, now_ms: i64)
        requires
            old(self).wf(),
        ensures
            final(self).wf(),
            changed_item(old(self).storage_state(), final(self).storage_state(), *id, ItemEventModel::Deleted, now_ms),
    {
        match self.storage.find_by_id(id) {
            Some(mut item) => {
                item.delete(now_ms);
                self.storage.store(&mut item);
            },
            None => {},
        }
    }

    /// Set an item's quantity now.
    pub fn set_quantity(&mut self, id: &ItemId, quantity: i64)
        requires
            old(self).wf(),
        ensures
            final(self).wf(),
            exists|now: i64|
                #[trigger] changed_item(old(self).storage_state(), final(self).storage_state(), *id, ItemEventModel::QuantityChanged { quantity }, now),
    {
        let now = now_ms();
        self.set_quantity_at(id, quantity, now);
    }

    /// Rename an item now.
    pub fn rename(&mut self, id: &ItemId, name: String)
        requires
            old(self).wf(),
        ensures
            final(self).wf(),
            exists|now: i64|
                #[trigger] changed_item(old(self).storage_state(), final(self).storage_state(), *id, ItemEventModel::Renamed { name: name@ }, now),
    {
        let now = now_ms();
        self.rename_at(id, name, now);
    }

    /// Set an item's note now.
    pub fn set_note(&mut self, id: &ItemId, note: Option<String>)
        requires
            old(self).wf(),
        ensures
            final(self).wf(),
            exists|now: i64|
                #[trigger] changed_item(old(self).storage_state(), final(self).storage_state(), *id, ItemEventModel::NoteChanged { note: opt_view(note) }, now),
    {
        let now = now_ms();
        self.set_note_at(id, note, now);
    }

    /// Delete an item now.
    pub fn delete(&mut self, id: &ItemId)
        requires
            old(self).wf(),
        ensures
            final(self).wf(),
            exists|now: i64|
                #[trigger] changed_item(old(self).storage_state(), final(self).storage_state(), *id, ItemEventModel::Deleted, now),
    {
        let now = now_ms();
        self.delete_at(id, now);
    }

    /// Current items, from the projection table, sorted by name.
    pub fn items(&self) -> (out: Vec<Item>)
        requires
            self.wf(),
        ensures
            forall|i: int| 0 <= i < out@.len() ==> {
                &&& self.storage_state().rows().contains_key((#[trigger] out@[i])@.id)
                &&& self.storage_state().rows()[out@[i]@.id] == out@[i]@
            },
            forall|k: u128| #[trigger] self.storage_state().rows().contains_key(k)
                ==> exists|i: int| 0 <= i < out@.len() && (#[trigger] out@[i])@.id == k,
            forall|i: int, j: int| 0 <= i < j < out@.len() ==> (#[trigger] out@[i])@.id != (#[trigger] out@[j])@.id,
            forall|i: int| 0 <= i < out@.len() - 1 ==> !text_lt((#[trigger] out@[i + 1])@.name, out@[i]@.name),
    {
        self.storage.find_all()
    }
}

/// A filter that every element passes keeps the whole sequence.
proof fn lemma_filter_keeps_all(s: Seq<EventDescriptor<ItemEvent, ItemId>>, id: ItemId)
    requires
        forall|i: int| 0 <= i < s.len() ==> (#[trigger] s[i]).entity_id == id,
    ensures
        entity_history(s, id) == s,
    decreases s.len(),
{
    if s.len() > 0 {
        let t = s.drop_last();
        assert forall|i: int| 0 <= i < t.len() implies (#[trigger] t[i]).entity_id == id by {
            assert(t[i] == s[i]);
        }
        lemma_filter_keeps_all(t, id);
        assert(t.push(s.last()) =~= s);
        t.lemma_filter_push(s.last(), of_entity(id));
    }
}

/// A change made through the service to an item that has a row sends exactly
/// one event to the log: that change, at the given time, for that item, from
/// this replica.
pub proof fn lemma_change_sends_one_event(
    before: ItemStorage<DeviceEventLog>,
    after: ItemStorage<DeviceEventLog>,
    id: ItemId,
    e: ItemEventModel,
    now: i64,
)
    requires
        before.wf(),
        before.rows().contains_key(id.0),
        changed_item(before, after, id, e, now),
    ensures
        exists|batch: Seq<AppendEvent<ItemEvent, ItemId>>, stored: Seq<EventDescriptor<ItemEvent, ItemId>>|
            #[trigger] before.log_state().appended_local(batch, after.log_state(), stored) && {
                &&& batch.len() == 1
                &&& batch[0].entity_id == id
                &&& batch[0].payload@ == e
                &&& batch[0].replica_time_ms == now
                &&& batch[0].replica_id@ == before.replica_id()
            },
{
    before.lemma_wf_rows();
    let m = record_model(before.rows()[id.0], e, now);
    assert(m.uncommitted =~= seq![(e, now)]);
    let (batch, stored) = choose|batch: Seq<AppendEvent<ItemEvent, ItemId>>, stored: Seq<EventDescriptor<ItemEvent, ItemId>>|
        is_store_batch(batch, m, before.replica_id()) && #[trigger] before.log_state().appended_local(batch, after.log_state(), stored);
    assert(batch[0].entity_id == ItemId(m.id));
}

/// Deletion wins at once: storing an item whose changes include a deletion,
/// under event ids new to the log and to each other, leaves the item no row,
/// whatever the times of its events.
pub proof fn lemma_stored_deletion_removes_row(
    before: ItemStorage<DeviceEventLog>,
    after: ItemStorage<DeviceEventLog>,
    m: ItemModel,
    ids: Seq<u128>,
    k: int,
)
    requires
        before.wf(),
        stored_with_ids(before, after, m, ids),
        0 <= k < m.uncommitted.len(),
        m.uncommitted[k].0 is Deleted,
        forall|i: int| 0 <= i < ids.len() ==> !has_event_id(before.log_state().entries(), #[trigger] ids[i]),
        forall|i: int, j: int| 0 <= i < j < ids.len() ==> #[trigger] ids[i] != #[trigger] ids[j],
    ensures
        !after.rows().contains_key(m.id),
{
    let id = ItemId(m.id);
    let e = before.log_state().entries();
    before.lemma_wf_log();
    let (batch, stored) = choose|batch: Seq<AppendEvent<ItemEvent, ItemId>>, stored: Seq<EventDescriptor<ItemEvent, ItemId>>|
        is_store_batch(batch, m, before.replica_id()) && batch_has_ids(batch, ids)
            && #[trigger] before.log_state().appended_local(batch, after.log_state(), stored);
    assert forall|i: int| 0 <= i < batch.len() implies !has_event_id(e, (#[trigger] batch[i]).replica_event_id) by {
        assert(batch[i].replica_event_id == ids[i]);
    }
    assert forall|i: int, j: int| 0 <= i < j < batch.len() implies (#[trigger] batch[i]).replica_event_id != (#[trigger] batch[j]).replica_event_id by {
        assert(batch[i].replica_event_id == ids[i] && batch[j].replica_event_id == ids[j]);
    }
    assert forall|i: int| 0 <= i < batch.len() implies (#[trigger] batch[i]).replica_write_offset is None by {}
    lemma_fresh_local_append(before.log_state(), batch);
    let d = fresh_local_descriptors(batch);
    assert(after.log_state().entries() == e + d);
    assert forall|i: int| 0 <= i < d.len() implies (#[trigger] d[i]).entity_id == id by {
        assert(d[i].entity_id == batch[i].entity_id);
    }
    lemma_filter_keeps_all(d, id);
    Seq::filter_distributes_over_add(e, d, of_entity(id));
    let h = entity_history(e, id);
    let full = entity_history(e + d, id);
    assert(full == h + d);
    assert(full[h.len() + k] == d[k]);
    assert(d[k].payload@ is Deleted) by {
        assert(d[k].payload == batch[k].payload);
    }
    lemma_fold_order_exists(full);
    let out = fold_order(full);
    lemma_fold_order_covers(out, full, h.len() + k);
    let j = choose|j: int| 0 <= j < out.len() && out[j] == full[h.len() + k];
    assert(ordered_history(after.log_state(), id) == out);
    lemma_deletion_wins(blank_item(out[0].entity_id.0), out, j);
    assert(projected_row(out) is None);
}

/// The core of reading one's own writes, for any log: when storing an item
/// added, after the stored events, one event per change (in order, for the
/// item, with batch write offsets 1, 2, ...), its row becomes the in-memory item.
proof fn lemma_added_changes_read_back<L: EntityEventLog<ItemEvent, ItemId>>(
    before: ItemStorage<L>,
    after: ItemStorage<L>,
    m: ItemModel,
    base: ItemModel,
    d: Seq<EventDescriptor<ItemEvent, ItemId>>,
)
    requires
        0 < m.uncommitted.len(),
        d.len() == m.uncommitted.len(),
        after.log_state().entries() == before.log_state().entries() + d,
        forall|i: int| 0 <= i < d.len() ==> {
            &&& (#[trigger] d[i]).entity_id == ItemId(m.id)
            &&& d[i].payload@ == m.uncommitted[i].0
            &&& d[i].replica_time_ms == m.uncommitted[i].1
            &&& d[i].replica_write_offset == i + 1
        },
        after.rows() == with_row(before.rows(), m.id, projected_row(ordered_history(after.log_state(), ItemId(m.id)))),
        base == fold_history(blank_item(m.id), ordered_history(before.log_state(), ItemId(m.id))),
        without_pending(m) == replay_pending(base, m.uncommitted),
        forall|j: int| 0 <= j < before.log_state().entries().len() && (#[trigger] before.log_state().entries()[j]).entity_id == ItemId(m.id)
            ==> before.log_state().entries()[j].replica_time_ms < m.uncommitted[0].1,
        forall|i: int, j: int| 0 <= i < j < m.uncommitted.len() ==> (#[trigger] m.uncommitted[i]).1 <= (#[trigger] m.uncommitted[j]).1,
    ensures
        row_at(after.rows(), m.id) == if without_pending(m).deleted {
            None
        } else {
            Some(without_pending(m))
        },
{
    let id = ItemId(m.id);
    let e = before.log_state().entries();
    lemma_filter_keeps_all(d, id);
    Seq::filter_distributes_over_add(e, d, of_entity(id));
    let h = entity_history(e, id);
    assert(entity_history(e + d, id) == h + d);
    // they come in order, and after every stored event of the item
    assert(in_fold_order(d)) by {
        assert forall|i: int, j: int| 0 <= i < j < d.len() implies crate::event_core::key_le(key_of(#[trigger] d[i]), key_of(#[trigger] d[j])) by {
            assert(d[i].replica_write_offset == i + 1);
            assert(d[j].replica_write_offset == j + 1);
        }
    }
    assert forall|x: int, y: int| 0 <= x < h.len() && 0 <= y < d.len() implies key_lt(key_of(#[trigger] h[x]), key_of(#[trigger] d[y])) by {
        assert(h.contains(h[x]));
        e.lemma_filter_contains_rev(of_entity(id), h[x]);
        e.lemma_filter_pred(of_entity(id), x);
        let w = choose|w: int| 0 <= w < e.len() && e[w] == h[x];
        assert(e[w].replica_time_ms < m.uncommitted[0].1);
        assert(d[y].replica_time_ms == m.uncommitted[y].1);
        if y > 0 {
            assert(m.uncommitted[0].1 <= m.uncommitted[y].1);
        }
    }
    lemma_fold_order_of_later_events(h, d);
    let fh = fold_order(h);
    let full = fh + d;
    assert(ordered_history(after.log_state(), id) == full);
    assert(ordered_history(before.log_state(), id) == fh);
    // the rebuilt item starts from a blank item with this id
    lemma_fold_order_exists(h);
    if fh.len() > 0 {
        lemma_fold_order_members(fh, h, 0);
        let w = choose|w: int| 0 <= w < h.len() && h[w] == fh[0];
        e.lemma_filter_pred(of_entity(id), w);
        assert(full[0] == fh[0]);
    } else {
        assert(full[0] == d[0]);
    }
    lemma_fold_history_concat(blank_item(m.id), fh, d);
    lemma_fold_is_replay(base, d, m.uncommitted);
}


/// Read your own writes: storing an item whose changes were recorded, in time
/// order, on the state its row's history folds to (a blank item when there is
/// no history) leaves exactly the in-memory item in its row (no row once it is
/// deleted), provided its changes come later by the clock than every stored
/// event of the item and the new events got fresh ids.
pub proof fn lemma_store_reads_back(
    before: ItemStorage<DeviceEventLog>,
    after: ItemStorage<DeviceEventLog>,
    m: ItemModel,
    base: ItemModel,
    batch: Seq<AppendEvent<ItemEvent, ItemId>>,
    stored: Seq<EventDescriptor<ItemEvent, ItemId>>,
)
    requires
        before.wf(),
        0 < m.uncommitted.len() <= u64::MAX,
        is_store_batch(batch, m, before.replica_id()),
        before.log_state().appended_local(batch, after.log_state(), stored),
        after.rows() == with_row(before.rows(), m.id, projected_row(ordered_history(after.log_state(), ItemId(m.id)))),
        forall|i: int| 0 <= i < batch.len() ==> !has_event_id(before.log_state().entries(), (#[trigger] batch[i]).replica_event_id),
        forall|i: int, j: int| 0 <= i < j < batch.len() ==> (#[trigger] batch[i]).replica_event_id != (#[trigger] batch[j]).replica_event_id,
        base == fold_history(blank_item(m.id), ordered_history(before.log_state(), ItemId(m.id))),
        without_pending(m) == replay_pending(base, m.uncommitted),
        forall|j: int| 0 <= j < before.log_state().entries().len() && (#[trigger] before.log_state().entries()[j]).entity_id == ItemId(m.id)
            ==> before.log_state().entries()[j].replica_time_ms < m.uncommitted[0].1,
        forall|i: int, j: int| 0 <= i < j < m.uncommitted.len() ==> (#[trigger] m.uncommitted[i]).1 <= (#[trigger] m.uncommitted[j]).1,
    ensures
        row_at(after.rows(), m.id) == if without_pending(m).deleted {
            None
        } else {
            Some(without_pending(m))
        },
{
    before.lemma_wf_log();
    assert forall|i: int| 0 <= i < batch.len() implies (#[trigger] batch[i]).replica_write_offset is None by {}
    lemma_fresh_local_append(before.log_state(), batch);
    let d = fresh_local_descriptors(batch);
    assert forall|i: int| 0 <= i < d.len() implies {
        &&& (#[trigger] d[i]).entity_id == ItemId(m.id)
        &&& d[i].payload@ == m.uncommitted[i].0
        &&& d[i].replica_time_ms == m.uncommitted[i].1
        &&& d[i].replica_write_offset == i + 1
    } by {
        assert(d[i].payload == batch[i].payload);
    }
    lemma_added_changes_read_back(before, after, m, base, d);
}

/// Read your own writes on the server: the same law for a storage over the
/// server's log, whose appends also stamp server offsets and times.
pub proof fn lemma_server_store_reads_back(
    before: ItemStorage<ServerEventLog>,
    after: ItemStorage<ServerEventLog>,
    m: ItemModel,
    base: ItemModel,
    batch: Seq<AppendEvent<ItemEvent, ItemId>>,
    stored: Seq<EventDescriptor<ItemEvent, ItemId>>,
)
    requires
        before.wf(),
        0 < m.uncommitted.len() <= u64::MAX,
        is_store_batch(batch, m, before.replica_id()),
        before.log_state().appended_local(batch, after.log_state(), stored),
        after.rows() == with_row(before.rows(), m.id, projected_row(ordered_history(after.log_state(), ItemId(m.id)))),
        forall|i: int| 0 <= i < batch.len() ==> !has_event_id(before.log_state().entries(), (#[trigger] batch[i]).replica_event_id),
        forall|i: int, j: int| 0 <= i < j < batch.len() ==> (#[trigger] batch[i]).replica_event_id != (#[trigger] batch[j]).replica_event_id,
        base == fold_history(blank_item(m.id), ordered_history(before.log_state(), ItemId(m.id))),
        without_pending(m) == replay_pending(base, m.uncommitted),
        forall|j: int| 0 <= j < before.log_state().entries().len() && (#[trigger] before.log_state().entries()[j]).entity_id == ItemId(m.id)
            ==> before.log_state().entries()[j].replica_time_ms < m.uncommitted[0].1,
        forall|i: int, j: int| 0 <= i < j < m.uncommitted.len() ==> (#[trigger] m.uncommitted[i]).1 <= (#[trigger] m.uncommitted[j]).1,
    ensures
        row_at(after.rows(), m.id) == if without_pending(m).deleted {
            None
        } else {
            Some(without_pending(m))
        },
{
    let e = before.log_state().entries();
    let next = before.log_state().next_offset();
    let times = choose|times: Seq<i64>|
        #![trigger server_append(e, next, batch, times, true)]
        times.len() == batch.len() && {
            let r = server_append(e, next, batch, times, true);
            after.log_state().entries() == r.0 && stored == r.1 && after.log_state().next_offset() == r.2
        };
    assert forall|i: int| 0 <= i < batch.len() implies (#[trigger] batch[i]).replica_write_offset is None by {}
    lemma_server_fresh_local_append(e, next, batch, times);
    let d = Seq::new(batch.len(), |i: int| server_descriptor(batch[i], (i + 1) as u64, (next + i) as u64, times[i]));
    assert forall|i: int| 0 <= i < d.len() implies {
        &&& (#[trigger] d[i]).entity_id == ItemId(m.id)
        &&& d[i].payload@ == m.uncommitted[i].0
        &&& d[i].replica_time_ms == m.uncommitted[i].1
        &&& d[i].replica_write_offset == i + 1
    } by {
        assert(d[i].payload == batch[i].payload);
    }
    lemma_added_changes_read_back(before, after, m, base, d);
}

/// Read your own writes through the service: a change made to an item whose
/// row is the projection of its history, stamped later than every event of the
/// item in the log, and stored (the log grew, so its event id was new to the
/// log), leaves the row showing the change at once: for a quantity change the new quantity, for a
/// rename the new name, for a note change the new note (with the other fields
/// as they were), and no row after a deletion.
pub proof fn lemma_change_reads_back(
    before: ItemStorage<DeviceEventLog>,
    after: ItemStorage<DeviceEventLog>,
    id: ItemId,
    e: ItemEventModel,
    now: i64,
)
    requires
        before.wf(),
        before.rows().contains_key(id.0),
        before.rows()[id.0] == without_pending(fold_history(blank_item(id.0), ordered_history(before.log_state(), id))),
        changed_item(before, after, id, e, now),
        forall|j: int| 0 <= j < before.log_state().entries().len() && (#[trigger] before.log_state().entries()[j]).entity_id == id
            ==> before.log_state().entries()[j].replica_time_ms < now,
        after.log_state().entries().len() > before.log_state().entries().len(),
    ensures
        ({
            let row = before.rows()[id.0];
            match e {
                ItemEventModel::Deleted => !after.rows().contains_key(id.0),
                _ => {
                    &&& after.rows().contains_key(id.0)
                    &&& after.rows()[id.0].id == id.0
                    &&& after.rows()[id.0].last_modified_ms == now
                    &&& after.rows()[id.0].name == match e {
                        ItemEventModel::Created { name, .. } => name,
                        ItemEventModel::Renamed { name } => name,
                        _ => row.name,
                    }
                    &&& after.rows()[id.0].quantity == match e {
                        ItemEventModel::Created { quantity, .. } => quantity,
                        ItemEventModel::QuantityChanged { quantity } => quantity,
                        _ => row.quantity,
                    }
                    &&& after.rows()[id.0].note == match e {
                        ItemEventModel::NoteChanged { note } => note,
                        _ => row.note,
                    }
                },
            }
        }),
{
    before.lemma_wf_rows();
    let row = before.rows()[id.0];
    let m = record_model(row, e, now);
    assert(m.uncommitted =~= seq![(e, now)]);
    let (batch, stored) = choose|batch: Seq<AppendEvent<ItemEvent, ItemId>>, stored: Seq<EventDescriptor<ItemEvent, ItemId>>|
        is_store_batch(batch, m, before.replica_id()) && #[trigger] before.log_state().appended_local(batch, after.log_state(), stored);
    assert(batch.len() == 1);
    assert(!has_event_id(before.log_state().entries(), batch[0].replica_event_id)) by {
        let e0 = before.log_state().entries();
        assert(batch.drop_last() =~= Seq::<AppendEvent<ItemEvent, ItemId>>::empty());
        assert(device_local_append(e0, batch.drop_last()) == (e0, Seq::<EventDescriptor<ItemEvent, ItemId>>::empty(), 0nat));
        assert(batch.last() == batch[0]);
    }
    let base = fold_history(blank_item(m.id), ordered_history(before.log_state(), id));
    assert(m.id == id.0);
    lemma_fold_keeps_identity(blank_item(m.id), ordered_history(before.log_state(), id));
    assert(base == row);
    assert(replay_pending(base, m.uncommitted) == apply_model(base, e, now)) by {
        assert(m.uncommitted.drop_last() =~= Seq::<(ItemEventModel, i64)>::empty());
        assert(replay_pending(base, m.uncommitted.drop_last()) == base);
        assert(m.uncommitted.last() == (e, now));
    }
    assert(without_pending(m) == without_pending(apply_model(base, e, now)));
    lemma_store_reads_back(before, after, m, base, batch, stored);
    lemma_event_changes_only_its_fields(row, e, now);
}

} // verus!
