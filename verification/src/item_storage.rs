//! `ItemStorage`: the event log (source of truth) plus the `items` projection
//! table. The write path appends an entity's uncommitted events to the log and
//! rebuilds its row; the read path queries the table and never the log.

use vstd::prelude::*;
use vstd::std_specs::iter::IteratorSpec;
use std::collections::HashMap;
use crate::event_core::{EntityEvent, EventDescriptor, EventSourcedEntity, fold_order, is_fold_order_of, lemma_fold_order_exists, lemma_fold_order_members};
use crate::event_log::{AppendEvent, EntityEventLog, entity_history, of_entity};
use crate::ids::new_uuid;
use crate::item::{
    Item, ItemEvent, ItemId, ItemModel, blank_item, lemma_fold_keeps_identity, opt_view, pending_model, rebuilt_item,
};
use crate::replica::ReplicaIdProvider;
use crate::text::{eq_ignore_ascii_case, lemma_text_lt_asymmetric, same_ignoring_ascii_case, text_less, text_lt};

verus! {

broadcast use vstd::std_specs::hash::group_hash_axioms;

/// Query filter for the projection table.
#[derive(Debug)]
pub struct ItemFilter {
    pub name: Option<String>,
}

impl Default for ItemFilter {
    fn default() -> (r: Self)
        ensures
            r.name is None,
    {
        ItemFilter { name: None }
    }
}

impl ItemFilter {
    /// Matches every item.
    pub fn empty() -> (r: Self)
        ensures
            r.name is None,
    {
        Self::default()
    }

    /// Matches the items with this name, ignoring ASCII case.
    pub fn with_name(name: String) -> (r: Self)
        ensures
            r.name == Some(name),
    {
        ItemFilter { name: Some(name) }
    }
}

/// Whether a name passes a filter's name condition.
pub open spec fn name_accepted(filter_name: Option<Seq<char>>, name: Seq<char>) -> bool {
    match filter_name {
        Some(n) => same_ignoring_ascii_case(name, n),
        None => true,
    }
}

/// An entity's events in a log, in fold order.
pub open spec fn ordered_history<L: EntityEventLog<ItemEvent, ItemId>>(log: L, id: ItemId) -> Seq<EventDescriptor<ItemEvent, ItemId>> {
    fold_order(entity_history(log.entries(), id))
}

/// The projection row a history gives: none for an empty history or a deleted
/// item (deletion removes the row), else the rebuilt item.
pub open spec fn projected_row(history: Seq<EventDescriptor<ItemEvent, ItemId>>) -> Option<ItemModel> {
    if history.len() == 0 || rebuilt_item(history).deleted {
        None
    } else {
        Some(rebuilt_item(history))
    }
}

/// The table with the row of `k` set to `row` (removed when `row` is `None`).
pub open spec fn with_row(rows: Map<u128, ItemModel>, k: u128, row: Option<ItemModel>) -> Map<u128, ItemModel> {
    match row {
        Some(m) => rows.insert(k, m),
        None => rows.remove(k),
    }
}

/// The row of `k`, if the table has one.
pub open spec fn row_at(rows: Map<u128, ItemModel>, k: u128) -> Option<ItemModel> {
    if rows.contains_key(k) {
        Some(rows[k])
    } else {
        None
    }
}

/// `batch` is what storing an item with model `m` hands the log: one local event
/// per uncommitted change, in order, stamped with the entity id, the replica id
/// and the change's time, with no write offset and no server provenance.
pub open spec fn is_store_batch(batch: Seq<AppendEvent<ItemEvent, ItemId>>, m: ItemModel, replica_id: Seq<char>) -> bool {
    &&& batch.len() == m.uncommitted.len()
    &&& forall|i: int| 0 <= i < batch.len() ==> {
        &&& (#[trigger] batch[i]).entity_id == ItemId(m.id)
        &&& batch[i].payload@ == m.uncommitted[i].0
        &&& batch[i].replica_time_ms == m.uncommitted[i].1
        &&& batch[i].replica_id@ == replica_id
        &&& batch[i].replica_write_offset is None
        &&& batch[i].server_offset is None
        &&& batch[i].server_time_ms is None
    }
}

/// The events of `batch` carry the ids `ids`, in order.
pub open spec fn batch_has_ids(batch: Seq<AppendEvent<ItemEvent, ItemId>>, ids: Seq<u128>) -> bool {
    &&& batch.len() == ids.len()
    &&& forall|i: int| 0 <= i < batch.len() ==> (#[trigger] batch[i]).replica_event_id == ids[i]
}

/// `after` is `before` once an item with model `m` was stored with the event
/// ids `ids`: its uncommitted changes went to the log as one local append of
/// events carrying those ids, and its row was rebuilt from the log.
pub open spec fn stored_with_ids<L: EntityEventLog<ItemEvent, ItemId>>(
    before: ItemStorage<L>,
    after: ItemStorage<L>,
    m: ItemModel,
    ids: Seq<u128>,
) -> bool {
    &&& after.replica_id() == before.replica_id()
    &&& exists|batch: Seq<AppendEvent<ItemEvent, ItemId>>, stored: Seq<EventDescriptor<ItemEvent, ItemId>>|
        is_store_batch(batch, m, before.replica_id()) && batch_has_ids(batch, ids)
            && #[trigger] before.log_state().appended_local(batch, after.log_state(), stored)
    &&& after.rows() == with_row(before.rows(), m.id, projected_row(ordered_history(after.log_state(), ItemId(m.id))))
}

/// `after` is `before` once an item with model `m` was stored: its uncommitted
/// changes went to the log as one local append, and its row was rebuilt from
/// the log.
pub open spec fn stored_as<L: EntityEventLog<ItemEvent, ItemId>>(before: ItemStorage<L>, after: ItemStorage<L>, m: ItemModel) -> bool {
    &&& after.replica_id() == before.replica_id()
    &&& exists|batch: Seq<AppendEvent<ItemEvent, ItemId>>, stored: Seq<EventDescriptor<ItemEvent, ItemId>>|
        is_store_batch(batch, m, before.replica_id()) && #[trigger] before.log_state().appended_local(batch, after.log_state(), stored)
    &&& after.rows() == with_row(before.rows(), m.id, projected_row(ordered_history(after.log_state(), ItemId(m.id))))
}

/// The item storage: an event log and the projection table built from it.
pub struct ItemStorage<L> {
    log: L,
    replica_id_provider: ReplicaIdProvider,
    items: HashMap<u128, Item>,
}

impl<L: EntityEventLog<ItemEvent, ItemId>> ItemStorage<L> {
    /// The event log.
    pub closed spec fn log_state(&self) -> L {
        self.log
    }

    /// The projection table: item id to item.
    pub closed spec fn rows(&self) -> Map<u128, ItemModel> {
        self.items@.map_values(|it: Item| it@)
    }

    /// The replica id stamped on locally authored events.
    pub closed spec fn replica_id(&self) -> Seq<char> {
        self.replica_id_provider@
    }

    /// Well-formedness: the log is well formed, and each row is stored under its
    /// own id, is not deleted and has no uncommitted changes.
    pub closed spec fn wf(&self) -> bool {
        &&& self.log.inv()
        &&& forall|k: u128| #[trigger] self.items@.contains_key(k) ==> {
            &&& self.items@[k]@.id == k
            &&& !self.items@[k]@.deleted
            &&& self.items@[k]@.uncommitted.len() == 0
        }
    }

    /// A well-formed storage holds a well-formed log.
    pub proof fn lemma_wf_log(&self)
        requires
            self.wf(),
        ensures
            self.log_state().inv(),
    {
    }

    /// In a well-formed storage each row is stored under its own id, is not
    /// deleted and has no uncommitted changes.
    pub proof fn lemma_wf_rows(&self)
        requires
            self.wf(),
        ensures
            forall|k: u128| #[trigger] self.rows().contains_key(k) ==> {
                &&& self.rows()[k].id == k
                &&& !self.rows()[k].deleted
                &&& self.rows()[k].uncommitted.len() == 0
            },
    {
    }

    pub fn new(log: L, replica_id_provider: ReplicaIdProvider) -> (r: Self)
        requires
            log.inv(),
        ensures
            r.wf(),
            r.log_state() == log,
            r.replica_id() == replica_id_provider@,
            r.rows() == Map::<u128, ItemModel>::empty(),
    {
        let r = ItemStorage { log, replica_id_provider, items: HashMap::new() };
        assert(r.rows() =~= Map::<u128, ItemModel>::empty());
        r
    }

    /// The event log, for reading.
    pub fn log(&self) -> (r: &L)
        ensures
            *r == self.log_state(),
            self.wf() ==> r.inv(),
    {
        &self.log
    }

    /// The event log, for the sync side to append to. The projection is not
    /// touched; rebuild the rows of changed entities with `build_projection`.
    pub fn log_mut(&mut self) -> (r: &mut L)
        ensures
            *r == old(self).log_state(),
            old(self).wf() ==> r.inv(),
            final(self).log_state() == *final(r),
            final(self).rows() == old(self).rows(),
            final(self).replica_id() == old(self).replica_id(),
            old(self).wf() && final(r).inv() ==> final(self).wf(),
    {
        &mut self.log
    }

    /// Re-fold one entity from its event history into the projection table. An
    /// empty history or a deletion removes the row.
    pub fn build_projection(&mut self, id: &ItemId)
        requires
            old(self).wf(),
        ensures
            final(self).wf(),
            final(self).log_state() == old(self).log_state(),
            final(self).replica_id() == old(self).replica_id(),
            final(self).rows() == with_row(old(self).rows(), id.0, projected_row(ordered_history(old(self).log_state(), *id))),
    {
        let events = self.log.events_of_entity(id);
        let ghost h = events@;
        if events.len() == 0 {
            self.items.remove(&id.0);
            assert(self.rows() =~= old(self).rows().remove(id.0));
            return;
        }
        proof {
            let inp = entity_history(self.log.entries(), *id);
            lemma_fold_order_exists(inp);
            lemma_fold_order_members(h, inp, 0);
            let j = choose|j: int| 0 <= j < inp.len() && inp[j] == h[0];
            self.log.entries().lemma_filter_pred(of_entity(*id), j);
            lemma_fold_keeps_identity(blank_item(h[0].entity_id.0), h);
        }
        let item = Item::build_from_history(events);
        if item.is_deleted() {
            self.items.remove(&id.0);
            assert(self.rows() =~= old(self).rows().remove(id.0));
        } else {
            self.items.insert(id.0, item);
            assert(self.rows() =~= old(self).rows().insert(id.0, rebuilt_item(h)));
        }
    }

    /// Persist an entity with the given event ids, one per uncommitted change
    /// in order: drain its uncommitted events into the event log (the replica
    /// id comes from the provider, the log assigns write offsets), then rebuild
    /// its projection row from the log.
    pub fn store_with_ids(&mut self, item: &mut Item, event_ids: &Vec<u128>)
        requires
            old(self).wf(),
            old(self).log_state().room_for(old(item)@.uncommitted.len()),
            event_ids@.len() == old(item)@.uncommitted.len(),
        ensures
            final(self).wf(),
            final(item)@ == (ItemModel { uncommitted: Seq::empty(), ..old(item)@ }),
            stored_with_ids(*old(self), *final(self), old(item)@, event_ids@),
    {
        let entity_id = *item.id();
        let replica_id = self.replica_id_provider.get();
        let mut pending: Vec<EntityEvent<ItemEvent>> = Vec::new();
        {
            let slot = item.uncommitted_events();
            std::mem::swap(slot, &mut pending);
        }
        assert(pending_model(Seq::<EntityEvent<ItemEvent>>::empty()) =~= Seq::<(crate::item::ItemEventModel, i64)>::empty());
        let mut batch: Vec<AppendEvent<ItemEvent, ItemId>> = Vec::new();
        let mut i: usize = 0;
        while i < pending.len()
            invariant
                i <= pending@.len(),
                batch@.len() == i,
                event_ids@.len() == pending@.len(),
                entity_id.0 == old(item)@.id,
                replica_id@ == old(self).replica_id(),
                pending_model(pending@) == old(item)@.uncommitted,
                forall|j: int| 0 <= j < i ==> {
                    &&& (#[trigger] batch@[j]).entity_id == entity_id
                    &&& batch@[j].replica_event_id == event_ids@[j]
                    &&& batch@[j].payload@ == pending@[j].event@
                    &&& batch@[j].replica_time_ms == pending@[j].modified_at_ms
                    &&& batch@[j].replica_id@ == replica_id@
                    &&& batch@[j].replica_write_offset is None
                    &&& batch@[j].server_offset is None
                    &&& batch@[j].server_time_ms is None
                },
            decreases pending.len() - i,
        {
            let e = &pending[i];
            batch.push(
                AppendEvent {
                    replica_event_id: event_ids[i],
                    entity_id,
                    payload: e.event.clone(),
                    replica_id: replica_id.clone(),
                    replica_time_ms: e.modified_at_ms,
                    replica_write_offset: None,
                    server_offset: None,
                    server_time_ms: None,
                },
            );
            i = i + 1;
        }
        let ghost batch_view = batch@;
        assert(is_store_batch(batch_view, old(item)@, old(self).replica_id()));
        assert(batch_has_ids(batch_view, event_ids@));
        let stored = self.log.append_local(batch);
        assert(old(self).log_state().appended_local(batch_view, self.log_state(), stored@));
        self.build_projection(&entity_id);
    }

    /// Persist an entity: each uncommitted change gets a fresh random event id,
    /// then it is stored as `store_with_ids` does.
    pub fn store(&mut self, item: &mut Item)
        requires
            old(self).wf(),
            old(self).log_state().room_for(old(item)@.uncommitted.len()),
        ensures
            final(self).wf(),
            final(item)@ == (ItemModel { uncommitted: Seq::empty(), ..old(item)@ }),
            stored_as(*old(self), *final(self), old(item)@),
    {
        let n = item.uncommitted_len();
        let mut event_ids: Vec<u128> = Vec::new();
        let mut i: usize = 0;
        while i < n
            invariant
                i <= n,
                event_ids@.len() == i,
            decreases n - i,
        {
            event_ids.push(new_uuid());
            i = i + 1;
        }
        self.store_with_ids(item, &event_ids);
        proof {
            let (batch, stored) = choose|batch: Seq<AppendEvent<ItemEvent, ItemId>>, stored: Seq<EventDescriptor<ItemEvent, ItemId>>|
                is_store_batch(batch, old(item)@, old(self).replica_id()) && batch_has_ids(batch, event_ids@)
                    && #[trigger] old(self).log_state().appended_local(batch, self.log_state(), stored);
            assert(is_store_batch(batch, old(item)@, old(self).replica_id()) && old(self).log_state().appended_local(batch, self.log_state(), stored));
        }
    }

    /// The one query: the rows the filter accepts, sorted by name. Reads the
    /// projection table, never the log.
    pub fn find(&self, filter: &ItemFilter) -> (out: Vec<Item>)
        requires
            self.wf(),
        ensures
            forall|i: int| 0 <= i < out@.len() ==> {
                &&& self.rows().contains_key((#[trigger] out@[i])@.id)
                &&& self.rows()[out@[i]@.id] == out@[i]@
                &&& name_accepted(opt_view(filter.name), out@[i]@.name)
            },
            forall|k: u128| #[trigger] self.rows().contains_key(k) && name_accepted(opt_view(filter.name), self.rows()[k].name)
                ==> exists|i: int| 0 <= i < out@.len() && (#[trigger] out@[i])@.id == k,
            forall|i: int, j: int| 0 <= i < j < out@.len() ==> (#[trigger] out@[i])@.id != (#[trigger] out@[j])@.id,
            forall|i: int| 0 <= i < out@.len() - 1 ==> !text_lt((#[trigger] out@[i + 1])@.name, out@[i]@.name),
            forall|i: int| 0 <= i < out@.len() ==> match filter.name {
                Some(n) => same_ignoring_ascii_case((#[trigger] out@[i])@.name, n@),
                None => true,
            },
            forall|k: u128| #[trigger] self.rows().contains_key(k) && match filter.name {
                Some(n) => same_ignoring_ascii_case(self.rows()[k].name, n@),
                None => true,
            } ==> exists|i: int| 0 <= i < out@.len() && (#[trigger] out@[i])@.id == k,
    {
        let ghost pairs = vstd::std_specs::hash::spec_hash_map_iter(&self.items).remaining();
        let ghost fname = opt_view(filter.name);
        let ghost rows = self.rows();
        let ghost mut src: Seq<int> = Seq::empty();
        let mut out: Vec<Item> = Vec::new();
        let ghost mut processed: int = 0;
        for (k, v) in it: self.items.iter()
            invariant
                it.seq() == pairs,
                processed == it.index(),
                processed <= pairs.len(),
                self.wf(),
                rows == self.rows(),
                fname == opt_view(filter.name),
                pairs.no_duplicates(),
                forall|a: int| 0 <= a < pairs.len() ==> self.items@.contains_key(*(#[trigger] pairs[a]).0) && self.items@[*pairs[a].0] == *pairs[a].1,
                forall|kk: u128| self.items@.contains_key(kk) ==> pairs.contains((&kk, &self.items@[kk])),
                src.len() == out@.len(),
                forall|i: int| 0 <= i < out@.len() ==> {
                    &&& 0 <= #[trigger] src[i] < processed
                    &&& out@[i]@.id == *pairs[src[i]].0
                    &&& out@[i]@ == rows[*pairs[src[i]].0]
                    &&& name_accepted(fname, out@[i]@.name)
                },
                forall|a: int, b: int| 0 <= a < b < out@.len() ==> #[trigger] src[a] != #[trigger] src[b],
                forall|j: int| 0 <= j < processed && name_accepted(fname, rows[*(#[trigger] pairs[j]).0].name)
                    ==> exists|i: int| 0 <= i < out@.len() && #[trigger] src[i] == j,
                forall|i: int| 0 <= i < out@.len() - 1 ==> !text_lt((#[trigger] out@[i + 1])@.name, out@[i]@.name),
        {
            let ghost idx = processed;
            assert(pairs[idx] == (k, v));
            let keep = match &filter.name {
                Some(n) => eq_ignore_ascii_case(v.name().as_str(), n.as_str()),
                None => true,
            };
            if keep {
                let x = v.clone();
                let ghost xv = x@;
                let mut j: usize = out.len();
                while j > 0 && text_less(x.name().as_str(), out[j - 1].name().as_str())
                    invariant
                        j <= out@.len(),
                        xv == x@,
                        forall|m: int| j <= m < out@.len() ==> text_lt(xv.name, (#[trigger] out@[m])@.name),
                    decreases j,
                {
                    j = j - 1;
                }
                let ghost before = out@;
                let ghost src_before = src;
                assert(j > 0 ==> !text_lt(xv.name, before[j - 1]@.name));
                out.insert(j, x);
                assert(out@[j as int]@ == xv);
                proof {
                    src = src_before.take(j as int) + seq![idx] + src_before.skip(j as int);
                    assert forall|i: int| 0 <= i < out@.len() implies {
                        &&& 0 <= #[trigger] src[i] < idx + 1
                        &&& out@[i]@.id == *pairs[src[i]].0
                        &&& out@[i]@ == rows[*pairs[src[i]].0]
                        &&& name_accepted(fname, out@[i]@.name)
                    } by {
                        if i < j {
                            assert(out@[i] == before[i] && src[i] == src_before[i]);
                        } else if i > j {
                            assert(out@[i] == before[i - 1] && src[i] == src_before[i - 1]);
                        }
                    }
                    assert forall|a: int, b: int| 0 <= a < b < out@.len() implies #[trigger] src[a] != #[trigger] src[b] by {
                        let sa = if a < j { src_before[a] } else if a == j { idx } else { src_before[a - 1] };
                        let sb = if b < j { src_before[b] } else if b == j { idx } else { src_before[b - 1] };
                        assert(src[a] == sa && src[b] == sb);
                        if a != j && b != j {
                            let oa = if a < j { a } else { a - 1 };
                            let ob = if b < j { b } else { b - 1 };
                            assert(src_before[oa] != src_before[ob]);
                        }
                    }
                    assert forall|i: int| 0 <= i < out@.len() - 1 implies !text_lt((#[trigger] out@[i + 1])@.name, out@[i]@.name) by {
                        if i + 1 < j {
                            assert(out@[i] == before[i] && out@[i + 1] == before[i + 1]);
                        } else if i + 1 == j {
                            assert(out@[i] == before[i]);
                            assert(out@[i + 1]@ == xv);
                        } else if i == j {
                            assert(out@[i + 1] == before[i]);
                            assert(out@[i]@ == xv);
                            assert(text_lt(xv.name, before[i]@.name));
                            lemma_text_lt_asymmetric(xv.name, before[i]@.name);
                        } else {
                            assert(out@[i] == before[i - 1] && out@[i + 1] == before[i]);
                            let p = i - 1;
                            assert(!text_lt(before[p + 1]@.name, before[p]@.name));
                        }
                    }
                    assert forall|jj: int| 0 <= jj < idx + 1 && name_accepted(fname, rows[*(#[trigger] pairs[jj]).0].name)
                        implies exists|i: int| 0 <= i < out@.len() && #[trigger] src[i] == jj by {
                        if jj == idx {
                            assert(src[j as int] == idx);
                        } else {
                            let i0 = choose|i: int| 0 <= i < before.len() && #[trigger] src_before[i] == jj;
                            if i0 < j {
                                assert(src[i0] == jj);
                            } else {
                                assert(src[i0 + 1] == jj);
                            }
                        }
                    }
                }
            } else {
                proof {
                    assert(!name_accepted(fname, rows[*pairs[idx].0].name));
                }
            }
            proof {
                processed = processed + 1;
            }
        }
        proof {
            assert forall|kk: u128| #[trigger] rows.contains_key(kk) && name_accepted(fname, rows[kk].name)
                implies exists|i: int| 0 <= i < out@.len() && (#[trigger] out@[i])@.id == kk by {
                assert(pairs.contains((&kk, &self.items@[kk])));
                let jj = choose|jj: int| 0 <= jj < pairs.len() && pairs[jj] == (&kk, &self.items@[kk]);
                assert(*pairs[jj].0 == kk);
                let i0 = choose|i: int| 0 <= i < out@.len() && #[trigger] src[i] == jj;
                assert(out@[i0]@.id == kk);
            }
            assert(processed == pairs.len());
            assert forall|i: int| 0 <= i < out@.len() implies {
                &&& self.rows().contains_key((#[trigger] out@[i])@.id)
                &&& self.rows()[out@[i]@.id] == out@[i]@
                &&& name_accepted(opt_view(filter.name), out@[i]@.name)
            } by {
                let a = src[i];
                assert(self.items@.contains_key(*pairs[a].0));
            }
            assert forall|a: int, b: int| 0 <= a < b < out@.len() implies (#[trigger] out@[a])@.id != (#[trigger] out@[b])@.id by {
                assert(src[a] != src[b]);
                if *pairs[src[a]].0 == *pairs[src[b]].0 {
                    assert(self.items@[*pairs[src[a]].0] == *pairs[src[a]].1);
                    assert(self.items@[*pairs[src[b]].0] == *pairs[src[b]].1);
                    assert(pairs[src[a]] == pairs[src[b]]);
                }
            }
        }
        out
    }

    /// Re-fold every listed entity into the projection table (entities listed
    /// twice are rebuilt twice, to the same row). Returns whether any was listed.
    pub fn build_projections(&mut self, ids: &[ItemId]) -> (changed: bool)
        requires
            old(self).wf(),
        ensures
            final(self).wf(),
            final(self).log_state() == old(self).log_state(),
            final(self).replica_id() == old(self).replica_id(),
            changed == (ids@.len() > 0),
            forall|k: u128| #[trigger] row_at(final(self).rows(), k) == if ids@.contains(ItemId(k)) {
                projected_row(ordered_history(old(self).log_state(), ItemId(k)))
            } else {
                row_at(old(self).rows(), k)
            },
    {
        let mut i: usize = 0;
        while i < ids.len()
            invariant
                i <= ids@.len(),
                self.wf(),
                self.log_state() == old(self).log_state(),
                self.replica_id() == old(self).replica_id(),
                forall|k: u128| #[trigger] row_at(self.rows(), k) == if ids@.take(i as int).contains(ItemId(k)) {
                    projected_row(ordered_history(old(self).log_state(), ItemId(k)))
                } else {
                    row_at(old(self).rows(), k)
                },
            decreases ids@.len() - i,
        {
            let ghost before = self.rows();
            let id = ids[i];
            self.build_projection(&id);
            proof {
                assert(ids@.take(i as int + 1) =~= ids@.take(i as int).push(id));
                assert forall|k: u128| #[trigger] row_at(self.rows(), k) == if ids@.take(i as int + 1).contains(ItemId(k)) {
                    projected_row(ordered_history(old(self).log_state(), ItemId(k)))
                } else {
                    row_at(old(self).rows(), k)
                } by {
                    assert(row_at(before, k) == if ids@.take(i as int).contains(ItemId(k)) {
                        projected_row(ordered_history(old(self).log_state(), ItemId(k)))
                    } else {
                        row_at(old(self).rows(), k)
                    });
                    if k == id.0 {
                        assert(ids@.take(i as int + 1)[i as int] == id);
                    } else {
                        if ids@.take(i as int + 1).contains(ItemId(k)) {
                            let w = choose|w: int| 0 <= w < i + 1 && #[trigger] ids@.take(i as int + 1)[w] == ItemId(k);
                            assert(w != i);
                            assert(ids@.take(i as int)[w] == ItemId(k));
                        }
                        if ids@.take(i as int).contains(ItemId(k)) {
                            let w = choose|w: int| 0 <= w < i && #[trigger] ids@.take(i as int)[w] == ItemId(k);
                            assert(ids@.take(i as int + 1)[w] == ItemId(k));
                        }
                    }
                }
            }
            i = i + 1;
        }
        assert(ids@.take(ids@.len() as int) =~= ids@);
        ids.len() > 0
    }

    /// The row of one item, if it has one.
    pub fn find_by_id(&self, id: &ItemId) -> (r: Option<Item>)
        requires
            self.wf(),
        ensures
            match r {
                Some(it) => self.rows().contains_key(id.0) && it@ == self.rows()[id.0],
                None => !self.rows().contains_key(id.0),
            },
    {
        match self.items.get(&id.0) {
            Some(it) => Some(it.clone()),
            None => None,
        }
    }

    /// Every row, sorted by name.
    pub fn find_all(&self) -> (out: Vec<Item>)
        requires
            self.wf(),
        ensures
            forall|i: int| 0 <= i < out@.len() ==> {
                &&& self.rows().contains_key((#[trigger] out@[i])@.id)
                &&& self.rows()[out@[i]@.id] == out@[i]@
            },
            forall|k: u128| #[trigger] self.rows().contains_key(k) ==> exists|i: int| 0 <= i < out@.len() && (#[trigger] out@[i])@.id == k,
            forall|i: int, j: int| 0 <= i < j < out@.len() ==> (#[trigger] out@[i])@.id != (#[trigger] out@[j])@.id,
            forall|i: int| 0 <= i < out@.len() - 1 ==> !text_lt((#[trigger] out@[i + 1])@.name, out@[i]@.name),
    {
        let filter = ItemFilter::empty();
        let out = self.find(&filter);
        assert forall|k: u128| #[trigger] self.rows().contains_key(k) implies exists|i: int| 0 <= i < out@.len() && (#[trigger] out@[i])@.id == k by {
            assert(name_accepted(opt_view(filter.name), self.rows()[k].name));
        }
        out
    }
}

} // verus!
