//! Wire types for event logs, and the contract an event log meets for the
//! item storage. The device log and the server log implement it.

use vstd::prelude::*;
use crate::event_core::{EntityId, Event, EventDescriptor, ServerOffset, fold_order};
use crate::item::{ItemEvent, ItemId};

verus! {

/// An event ready to be appended to a log.
///
/// For a local append `replica_write_offset` and the server fields are `None`:
/// the local log assigns the write offset, the server assigns `server_offset`
/// and `server_time_ms` when the event reaches it. For replicated appends
/// everything is `Some` and is preserved.
#[derive(Debug)]
pub struct AppendEvent<E, EntId> {
    pub replica_event_id: u128,
    pub entity_id: EntId,
    pub payload: E,
    pub replica_id: String,
    pub replica_time_ms: i64,
    pub replica_write_offset: Option<u64>,
    pub server_offset: Option<ServerOffset>,
    pub server_time_ms: Option<i64>,
}

/// A stored event turned back into an appendable one; provenance is kept.
pub open spec fn append_event_of<E, EntId>(d: EventDescriptor<E, EntId>) -> AppendEvent<E, EntId> {
    AppendEvent {
        replica_event_id: d.replica_event_id,
        entity_id: d.entity_id,
        payload: d.payload,
        replica_id: d.replica_id,
        replica_time_ms: d.replica_time_ms,
        replica_write_offset: Some(d.replica_write_offset),
        server_offset: d.server_offset,
        server_time_ms: d.server_time_ms,
    }
}

impl Clone for AppendEvent<ItemEvent, ItemId> {
    fn clone(&self) -> (r: Self)
        ensures
            r == *self,
    {
        AppendEvent {
            replica_event_id: self.replica_event_id,
            entity_id: self.entity_id,
            payload: self.payload.clone(),
            replica_id: self.replica_id.clone(),
            replica_time_ms: self.replica_time_ms,
            replica_write_offset: self.replica_write_offset,
            server_offset: self.server_offset,
            server_time_ms: self.server_time_ms,
        }
    }
}

/// Turn a stored event back into an appendable one (used when shipping events
/// during sync).
impl<'a> From<&'a EventDescriptor<ItemEvent, ItemId>> for AppendEvent<ItemEvent, ItemId> {
    fn from(d: &'a EventDescriptor<ItemEvent, ItemId>) -> (r: Self) {
        AppendEvent {
            replica_event_id: d.replica_event_id,
            entity_id: d.entity_id,
            payload: d.payload.clone(),
            replica_id: d.replica_id.clone(),
            replica_time_ms: d.replica_time_ms,
            replica_write_offset: Some(d.replica_write_offset),
            server_offset: d.server_offset,
            server_time_ms: d.server_time_ms,
        }
    }
}

impl<'a> vstd::std_specs::convert::FromSpecImpl<&'a EventDescriptor<ItemEvent, ItemId>> for AppendEvent<ItemEvent, ItemId> {
    open spec fn obeys_from_spec() -> bool {
        true
    }

    open spec fn from_spec(d: &'a EventDescriptor<ItemEvent, ItemId>) -> Self {
        append_event_of(*d)
    }
}

/// A page of events pulled from a log during sync, plus the cursor to resume from.
#[derive(Debug)]
pub struct EventsPage<E, EntId> {
    pub events: Vec<EventDescriptor<E, EntId>>,
    pub next_offset: Option<ServerOffset>,
}

/// The predicate "belongs to entity `id`".
pub open spec fn of_entity<E, EntId>(id: EntId) -> spec_fn(EventDescriptor<E, EntId>) -> bool {
    |d: EventDescriptor<E, EntId>| d.entity_id == id
}

/// The events of one entity, in log order.
pub open spec fn entity_history<E, EntId>(entries: Seq<EventDescriptor<E, EntId>>, id: EntId) -> Seq<EventDescriptor<E, EntId>> {
    entries.filter(of_entity(id))
}

/// The part of an event log that the item storage needs. Each log states what
/// a local append does to it through `appended_local`.
pub trait EntityEventLog<E: Event, EntId: EntityId>: Sized {
    /// Every stored event, in the order the log holds them.
    spec fn entries(&self) -> Seq<EventDescriptor<E, EntId>>;

    /// The log's well-formedness.
    spec fn inv(&self) -> bool;

    /// Whether `n` more events can be stored.
    spec fn room_for(&self, n: nat) -> bool;

    /// `after` and `stored` are what a local append of `events` to `self` gives.
    spec fn appended_local(
        &self,
        events: Seq<AppendEvent<E, EntId>>,
        after: Self,
        stored: Seq<EventDescriptor<E, EntId>>,
    ) -> bool;

    /// Append locally authored events, assigning local provenance.
    fn append_local(&mut self, events: Vec<AppendEvent<E, EntId>>) -> (stored: Vec<EventDescriptor<E, EntId>>)
        requires
            old(self).inv(),
            old(self).room_for(events@.len()),
        ensures
            final(self).inv(),
            old(self).appended_local(events@, *final(self), stored@),
    ;

    /// Every event of one entity, in fold order.
    fn events_of_entity(&self, entity_id: &EntId) -> (out: Vec<EventDescriptor<E, EntId>>)
        requires
            self.inv(),
        ensures
            out@ == fold_order(entity_history(self.entries(), *entity_id)),
    ;
}

/// Collect the events of one entity, in log order.
pub fn collect_entity_events(entries: &Vec<EventDescriptor<ItemEvent, ItemId>>, entity_id: &ItemId) -> (out: Vec<
    EventDescriptor<ItemEvent, ItemId>,
>)
    ensures
        out@ == entity_history(entries@, *entity_id),
{
    let mut out: Vec<EventDescriptor<ItemEvent, ItemId>> = Vec::new();
    let mut i: usize = 0;
    while i < entries.len()
        invariant
            i <= entries.len(),
            out@ == entity_history(entries@.take(i as int), *entity_id),
        decreases entries.len() - i,
    {
        proof {
            assert(entries@.take(i as int + 1) =~= entries@.take(i as int).push(entries@[i as int]));
            entries@.take(i as int).lemma_filter_push(entries@[i as int], of_entity(*entity_id));
        }
        if entries[i].entity_id == *entity_id {
            out.push(entries[i].clone());
        }
        i = i + 1;
    }
    proof {
        assert(entries@.take(entries@.len() as int) =~= entries@);
    }
    out
}

} // verus!
