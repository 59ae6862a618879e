//! The device-side event log. Two append paths: `append_local` for events this
//! device just authored (assigns `replica_write_offset`, leaves `server_offset`
//! unset, which marks the event unsynced), and `append` for events replicated
//! from the server (all provenance preserved).

use vstd::prelude::*;
use crate::event_core::{EventDescriptor, ServerOffset, fold_order, ids_unique, sort_events};
use crate::event_log::{AppendEvent, EntityEventLog, collect_entity_events, entity_history};
use crate::item::{ItemEvent, ItemId};

verus! {

broadcast use vstd::string::group_string_axioms;

/// Whether some event of `s` has id `id`.
pub open spec fn has_event_id(s: Seq<EventDescriptor<ItemEvent, ItemId>>, id: u128) -> bool {
    exists|i: int| 0 <= i < s.len() && (#[trigger] s[i]).replica_event_id == id
}

/// The event of `s` with id `id` (meaningful when there is exactly one).
pub open spec fn event_with_id(s: Seq<EventDescriptor<ItemEvent, ItemId>>, id: u128) -> EventDescriptor<ItemEvent, ItemId> {
    s[choose|i: int| 0 <= i < s.len() && (#[trigger] s[i]).replica_event_id == id]
}

/// `o.unwrap_or(d)`.
pub open spec fn or_default(o: Option<u64>, d: u64) -> u64 {
    match o {
        Some(v) => v,
        None => d,
    }
}

/// The descriptor a replicated append stores: all provenance preserved, a
/// missing write offset read as 0.
pub open spec fn replicated_descriptor(ev: AppendEvent<ItemEvent, ItemId>) -> EventDescriptor<ItemEvent, ItemId> {
    EventDescriptor {
        replica_event_id: ev.replica_event_id,
        replica_write_offset: or_default(ev.replica_write_offset, 0),
        replica_time_ms: ev.replica_time_ms,
        replica_id: ev.replica_id,
        server_offset: ev.server_offset,
        server_time_ms: ev.server_time_ms,
        entity_id: ev.entity_id,
        payload: ev.payload,
    }
}

/// The entries after a replicated append: each event whose id is not stored
/// yet is added, in order; the others are skipped.
pub open spec fn replicated_append(entries: Seq<EventDescriptor<ItemEvent, ItemId>>, events: Seq<AppendEvent<ItemEvent, ItemId>>) -> Seq<
    EventDescriptor<ItemEvent, ItemId>,
>
    decreases events.len(),
{
    if events.len() == 0 {
        entries
    } else {
        let e = replicated_append(entries, events.drop_last());
        if has_event_id(e, events.last().replica_event_id) {
            e
        } else {
            e.push(replicated_descriptor(events.last()))
        }
    }
}

/// The descriptor a local append stores: the write offset is the event's own if
/// it has one, else `batch_offset`; the event is unsynced.
pub open spec fn local_descriptor(ev: AppendEvent<ItemEvent, ItemId>, batch_offset: u64) -> EventDescriptor<ItemEvent, ItemId> {
    EventDescriptor {
        replica_event_id: ev.replica_event_id,
        replica_write_offset: or_default(ev.replica_write_offset, batch_offset),
        replica_time_ms: ev.replica_time_ms,
        replica_id: ev.replica_id,
        server_offset: None,
        server_time_ms: None,
        entity_id: ev.entity_id,
        payload: ev.payload,
    }
}

/// A local append on a device, event by event: an event already stored is
/// returned as stored; a new one gets the next batch write offset (1, 2, ...),
/// is stored and returned. Gives (entries, returned events, last batch offset).
pub open spec fn device_local_append(entries: Seq<EventDescriptor<ItemEvent, ItemId>>, events: Seq<AppendEvent<ItemEvent, ItemId>>) -> (
    Seq<EventDescriptor<ItemEvent, ItemId>>,
    Seq<EventDescriptor<ItemEvent, ItemId>>,
    nat,
)
    decreases events.len(),
{
    if events.len() == 0 {
        (entries, Seq::empty(), 0)
    } else {
        let prev = device_local_append(entries, events.drop_last());
        let ev = events.last();
        if has_event_id(prev.0, ev.replica_event_id) {
            (prev.0, prev.1.push(event_with_id(prev.0, ev.replica_event_id)), prev.2)
        } else {
            let d = local_descriptor(ev, (prev.2 + 1) as u64);
            (prev.0.push(d), prev.1.push(d), prev.2 + 1)
        }
    }
}

/// The predicate "authored by `replica_id` and not yet acknowledged by the server".
pub open spec fn unsynced_of(replica_id: Seq<char>) -> spec_fn(EventDescriptor<ItemEvent, ItemId>) -> bool {
    |d: EventDescriptor<ItemEvent, ItemId>| d.server_offset is None && d.replica_id@ == replica_id
}

/// The first `n` elements of `s` (all of them when `s` is shorter).
pub open spec fn first_n<A>(s: Seq<A>, n: nat) -> Seq<A> {
    if s.len() <= n {
        s
    } else {
        s.take(n as int)
    }
}

/// The acknowledgements for event id `id`.
pub open spec fn acks_for(acks: Seq<EventDescriptor<ItemEvent, ItemId>>, id: u128) -> Seq<EventDescriptor<ItemEvent, ItemId>> {
    acks.filter(|a: EventDescriptor<ItemEvent, ItemId>| a.replica_event_id == id)
}

/// An entry after recording acknowledgements: the server fields of the last
/// acknowledgement for its id, if there is one.
pub open spec fn synced_entry(e: EventDescriptor<ItemEvent, ItemId>, acks: Seq<EventDescriptor<ItemEvent, ItemId>>) -> EventDescriptor<
    ItemEvent,
    ItemId,
> {
    let mine = acks_for(acks, e.replica_event_id);
    if mine.len() > 0 {
        EventDescriptor { server_offset: mine.last().server_offset, server_time_ms: mine.last().server_time_ms, ..e }
    } else {
        e
    }
}

/// This device's item event log.
#[derive(Debug)]
pub struct DeviceEventLog {
    entries: Vec<EventDescriptor<ItemEvent, ItemId>>,
}

impl DeviceEventLog {
    /// A well-formed log holds each event id at most once.
    pub proof fn lemma_inv_ids_unique(&self)
        requires
            self.inv(),
        ensures
            ids_unique(self.entries()),
    {
    }

    pub fn new() -> (r: Self)
        ensures
            r.inv(),
            r.entries() == Seq::<EventDescriptor<ItemEvent, ItemId>>::empty(),
    {
        DeviceEventLog { entries: Vec::new() }
    }

    /// A copy of the log, to work on without touching the log itself.
    pub fn snapshot(&self) -> (r: Self)
        ensures
            r.entries() == self.entries(),
            self.inv() ==> r.inv(),
    {
        let mut copy: Vec<EventDescriptor<ItemEvent, ItemId>> = Vec::new();
        let mut i: usize = 0;
        while i < self.entries.len()
            invariant
                i <= self.entries@.len(),
                copy@ == self.entries@.take(i as int),
            decreases self.entries.len() - i,
        {
            copy.push(self.entries[i].clone());
            assert(copy@ =~= self.entries@.take(i as int + 1));
            i = i + 1;
        }
        assert(self.entries@.take(self.entries@.len() as int) =~= self.entries@);
        DeviceEventLog { entries: copy }
    }

    /// The position of the event with id `id`, if it is stored.
    fn find(&self, id: u128) -> (r: Option<usize>)
        ensures
            match r {
                Some(i) => i < self.entries@.len() && self.entries@[i as int].replica_event_id == id,
                None => !has_event_id(self.entries@, id),
            },
    {
        let mut i: usize = 0;
        while i < self.entries.len()
            invariant
                i <= self.entries@.len(),
                forall|m: int| 0 <= m < i ==> (#[trigger] self.entries@[m]).replica_event_id != id,
            decreases self.entries.len() - i,
        {
            if self.entries[i].replica_event_id == id {
                return Some(i);
            }
            i = i + 1;
        }
        None
    }

    /// Replicated append (pull side): preserve all provenance; idempotent.
    pub fn append(&mut self, events: Vec<AppendEvent<ItemEvent, ItemId>>)
        requires
            old(self).inv(),
        ensures
            final(self).inv(),
            final(self).entries() == replicated_append(old(self).entries(), events@),
    {
        let ghost start = self.entries@;
        let mut i: usize = 0;
        while i < events.len()
            invariant
                i <= events.len(),
                ids_unique(self.entries@),
                self.entries@ == replicated_append(start, events@.take(i as int)),
            decreases events.len() - i,
        {
            let ev = &events[i];
            assert(events@.take(i as int + 1).drop_last() =~= events@.take(i as int));
            match self.find(ev.replica_event_id) {
                Some(_) => {},
                None => {
                    let d = EventDescriptor {
                        replica_event_id: ev.replica_event_id,
                        replica_write_offset: match ev.replica_write_offset {
                            Some(o) => o,
                            None => 0,
                        },
                        replica_time_ms: ev.replica_time_ms,
                        replica_id: ev.replica_id.clone(),
                        server_offset: ev.server_offset,
                        server_time_ms: ev.server_time_ms,
                        entity_id: ev.entity_id,
                        payload: ev.payload.clone(),
                    };
                    self.entries.push(d);
                },
            }
            i = i + 1;
        }
        assert(events@.take(events@.len() as int) =~= events@);
    }

    /// Events authored by `replica_id` with no `server_offset` (not yet
    /// acknowledged by the server), oldest first, at most `limit` of them. This
    /// is what push sends.
    pub fn get_unsynced(&self, replica_id: &str, limit: usize) -> (out: Vec<EventDescriptor<ItemEvent, ItemId>>)
        ensures
            out@ == first_n(self.entries().filter(unsynced_of(replica_id@)), limit as nat),
    {
        let rid = replica_id.to_string();
        let mut out: Vec<EventDescriptor<ItemEvent, ItemId>> = Vec::new();
        let mut i: usize = 0;
        while i < self.entries.len() && out.len() < limit
            invariant
                i <= self.entries@.len(),
                rid@ == replica_id@,
                out@ == self.entries@.take(i as int).filter(unsynced_of(replica_id@)),
                out@.len() <= limit,
            decreases self.entries.len() - i,
        {
            proof {
                assert(self.entries@.take(i as int + 1) =~= self.entries@.take(i as int).push(self.entries@[i as int]));
                self.entries@.take(i as int).lemma_filter_push(self.entries@[i as int], unsynced_of(replica_id@));
            }
            if self.entries[i].server_offset.is_none() && self.entries[i].replica_id == rid {
                out.push(self.entries[i].clone());
            }
            i = i + 1;
        }
        proof {
            let all = self.entries@.filter(unsynced_of(replica_id@));
            let pre = self.entries@.take(i as int);
            assert(self.entries@ =~= pre + self.entries@.skip(i as int));
            Seq::filter_distributes_over_add(pre, self.entries@.skip(i as int), unsynced_of(replica_id@));
            if i == self.entries@.len() {
                assert(pre =~= self.entries@);
            } else {
                assert(out@.len() == limit);
                assert(all.take(limit as int) =~= out@);
            }
        }
        out
    }

    /// Record the server's acknowledgement: stamp the assigned `server_offset`
    /// and `server_time_ms` on the matching stored events, marking them synced.
    pub fn mark_synced(&mut self, acknowledged: &[EventDescriptor<ItemEvent, ItemId>])
        requires
            old(self).inv(),
        ensures
            final(self).inv(),
            final(self).entries() == old(self).entries().map_values(
                |e: EventDescriptor<ItemEvent, ItemId>| synced_entry(e, acknowledged@),
            ),
    {
        let ghost start = self.entries@;
        let mut i: usize = 0;
        while i < acknowledged.len()
            invariant
                i <= acknowledged@.len(),
                start.len() == self.entries@.len(),
                ids_unique(start),
                forall|m: int| 0 <= m < start.len() ==> #[trigger] self.entries@[m] == synced_entry(start[m], acknowledged@.take(i as int)),
            decreases acknowledged.len() - i,
        {
            let ack = &acknowledged[i];
            let ghost acks_before = acknowledged@.take(i as int);
            let ghost acks_after = acknowledged@.take(i as int + 1);
            assert(acks_after =~= acks_before.push(acknowledged@[i as int]));
            assert forall|id: u128| #[trigger] acks_for(acks_after, id) == if acknowledged@[i as int].replica_event_id == id {
                acks_for(acks_before, id).push(acknowledged@[i as int])
            } else {
                acks_for(acks_before, id)
            } by {
                acks_before.lemma_filter_push(
                    acknowledged@[i as int],
                    |a: EventDescriptor<ItemEvent, ItemId>| a.replica_event_id == id,
                );
            }
            match self.find(ack.replica_event_id) {
                Some(j) => {
                    let mut d = self.entries[j].clone();
                    d.server_offset = ack.server_offset;
                    d.server_time_ms = ack.server_time_ms;
                    self.entries.set(j, d);
                    assert forall|m: int| 0 <= m < start.len() implies #[trigger] self.entries@[m] == synced_entry(start[m], acks_after) by {
                        if m != j {
                            assert(start[m].replica_event_id != start[j as int].replica_event_id);
                        }
                    }
                },
                None => {
                    assert forall|m: int| 0 <= m < start.len() implies #[trigger] self.entries@[m] == synced_entry(start[m], acks_after) by {
                        assert(self.entries@[m].replica_event_id == start[m].replica_event_id);
                    }
                },
            }
            i = i + 1;
        }
        proof {
            assert(acknowledged@.take(acknowledged@.len() as int) =~= acknowledged@);
            assert(self.entries@ =~= start.map_values(|e: EventDescriptor<ItemEvent, ItemId>| synced_entry(e, acknowledged@)));
            assert forall|a: int, b: int| 0 <= a < b < self.entries@.len() implies (#[trigger] self.entries@[a]).replica_event_id != (#[trigger] self.entries@[b]).replica_event_id by {
                assert(self.entries@[a].replica_event_id == start[a].replica_event_id);
                assert(self.entries@[b].replica_event_id == start[b].replica_event_id);
            }
        }
    }
}

impl EntityEventLog<ItemEvent, ItemId> for DeviceEventLog {
    closed spec fn entries(&self) -> Seq<EventDescriptor<ItemEvent, ItemId>> {
        self.entries@
    }

    closed spec fn inv(&self) -> bool {
        ids_unique(self.entries@)
    }

    open spec fn room_for(&self, n: nat) -> bool {
        true
    }

    open spec fn appended_local(
        &self,
        events: Seq<AppendEvent<ItemEvent, ItemId>>,
        after: Self,
        stored: Seq<EventDescriptor<ItemEvent, ItemId>>,
    ) -> bool {
        let r = device_local_append(self.entries(), events);
        after.entries() == r.0 && stored == r.1
    }

    /// Local append: assign `replica_write_offset`; `server_offset` stays unset
    /// until the server acknowledges the event.
    fn append_local(&mut self, events: Vec<AppendEvent<ItemEvent, ItemId>>) -> (stored: Vec<
        EventDescriptor<ItemEvent, ItemId>,
    >) {
        let ghost start = self.entries@;
        let mut stored: Vec<EventDescriptor<ItemEvent, ItemId>> = Vec::new();
        let mut batch_write_offset: u64 = 0;
        let mut i: usize = 0;
        while i < events.len()
            invariant
                i <= events.len(),
                ids_unique(self.entries@),
                batch_write_offset <= i,
                (self.entries@, stored@, batch_write_offset as nat) == device_local_append(start, events@.take(i as int)),
            decreases events.len() - i,
        {
            let ev = &events[i];
            assert(events@.take(i as int + 1).drop_last() =~= events@.take(i as int));
            match self.find(ev.replica_event_id) {
                Some(j) => {
                    proof {
                        let w = choose|m: int| 0 <= m < self.entries@.len() && (#[trigger] self.entries@[m]).replica_event_id == ev.replica_event_id;
                        assert(w == j as int);
                    }
                    stored.push(self.entries[j].clone());
                },
                None => {
                    batch_write_offset = batch_write_offset + 1;
                    let d = EventDescriptor {
                        replica_event_id: ev.replica_event_id,
                        replica_write_offset: match ev.replica_write_offset {
                            Some(o) => o,
                            None => batch_write_offset,
                        },
                        replica_time_ms: ev.replica_time_ms,
                        replica_id: ev.replica_id.clone(),
                        server_offset: None,
                        server_time_ms: None,
                        entity_id: ev.entity_id,
                        payload: ev.payload.clone(),
                    };
                    self.entries.push(d.clone());
                    stored.push(d);
                },
            }
            i = i + 1;
        }
        assert(events@.take(events@.len() as int) =~= events@);
        stored
    }

    fn events_of_entity(&self, entity_id: &ItemId) -> (out: Vec<EventDescriptor<ItemEvent, ItemId>>) {
        let mut out = collect_entity_events(&self.entries, entity_id);
        sort_events(&mut out);
        out
    }
}

/// The highest `server_offset` among `events`, if any has one.
pub fn max_server_offset(events: &[EventDescriptor<ItemEvent, ItemId>]) -> (r: Option<ServerOffset>)
    ensures
        match r {
            None => forall|i: int| 0 <= i < events@.len() ==> (#[trigger] events@[i]).server_offset is None,
            Some(m) => {
                &&& exists|i: int| 0 <= i < events@.len() && (#[trigger] events@[i]).server_offset == Some(m)
                &&& forall|i: int| 0 <= i < events@.len() && (#[trigger] events@[i]).server_offset is Some
                    ==> events@[i].server_offset.unwrap().0 <= m.0
            },
        },
{
    let mut best: Option<ServerOffset> = None;
    let mut i: usize = 0;
    while i < events.len()
        invariant
            i <= events@.len(),
            match best {
                None => forall|m: int| 0 <= m < i ==> (#[trigger] events@[m]).server_offset is None,
                Some(b) => {
                    &&& exists|m: int| 0 <= m < i && (#[trigger] events@[m]).server_offset == Some(b)
                    &&& forall|m: int| 0 <= m < i && (#[trigger] events@[m]).server_offset is Some
                        ==> events@[m].server_offset.unwrap().0 <= b.0
                },
            },
        decreases events.len() - i,
    {
        match events[i].server_offset {
            Some(o) => {
                match best {
                    Some(b) => {
                        if o.0 > b.0 {
                            best = Some(o);
                        }
                    },
                    None => {
                        best = Some(o);
                    },
                }
            },
            None => {},
        }
        i = i + 1;
    }
    best
}


// ---------------------------------------------------------------------------
// Laws of the device log.
// ---------------------------------------------------------------------------

/// `a` is a prefix of `b`.
pub open spec fn extends(a: Seq<EventDescriptor<ItemEvent, ItemId>>, b: Seq<EventDescriptor<ItemEvent, ItemId>>) -> bool {
    &&& a.len() <= b.len()
    &&& forall|j: int| 0 <= j < a.len() ==> #[trigger] b[j] == a[j]
}

/// In a log without duplicate ids, the event with a given id found in a prefix
/// is the one found in the whole log.
pub proof fn lemma_event_with_id_stable(a: Seq<EventDescriptor<ItemEvent, ItemId>>, b: Seq<EventDescriptor<ItemEvent, ItemId>>, id: u128)
    requires
        extends(a, b),
        ids_unique(b),
        has_event_id(a, id),
    ensures
        has_event_id(b, id),
        event_with_id(a, id) == event_with_id(b, id),
{
    let ja = choose|i: int| 0 <= i < a.len() && (#[trigger] a[i]).replica_event_id == id;
    assert(b[ja] == a[ja]);
    let jb = choose|i: int| 0 <= i < b.len() && (#[trigger] b[i]).replica_event_id == id;
    if ja != jb {
        if ja < jb {
            assert(b[ja].replica_event_id != b[jb].replica_event_id);
        } else {
            assert(b[jb].replica_event_id != b[ja].replica_event_id);
        }
    }
}

/// Adding an event whose id is new keeps ids unique.
pub proof fn lemma_push_new_id(s: Seq<EventDescriptor<ItemEvent, ItemId>>, d: EventDescriptor<ItemEvent, ItemId>)
    requires
        ids_unique(s),
        !has_event_id(s, d.replica_event_id),
    ensures
        ids_unique(s.push(d)),
        extends(s, s.push(d)),
        has_event_id(s.push(d), d.replica_event_id),
        event_with_id(s.push(d), d.replica_event_id) == d,
{
    let t = s.push(d);
    assert forall|a: int, b: int| 0 <= a < b < t.len() implies (#[trigger] t[a]).replica_event_id != (#[trigger] t[b]).replica_event_id by {
        if b == t.len() - 1 {
            assert(t[a] == s[a]);
        } else {
            assert(t[a] == s[a] && t[b] == s[b]);
        }
    }
    assert(t[s.len() as int] == d);
    let j = choose|i: int| 0 <= i < t.len() && (#[trigger] t[i]).replica_event_id == d.replica_event_id;
    if j != s.len() {
        assert(t[j] == s[j]);
    }
}

/// A replicated append keeps ids unique, keeps what was stored, and afterwards
/// holds every appended id.
pub proof fn lemma_replicated_append_facts(entries: Seq<EventDescriptor<ItemEvent, ItemId>>, events: Seq<AppendEvent<ItemEvent, ItemId>>)
    requires
        ids_unique(entries),
    ensures
        ids_unique(replicated_append(entries, events)),
        extends(entries, replicated_append(entries, events)),
        forall|i: int| 0 <= i < events.len() ==> has_event_id(replicated_append(entries, events), (#[trigger] events[i]).replica_event_id),
    decreases events.len(),
{
    if events.len() > 0 {
        let prev = replicated_append(entries, events.drop_last());
        lemma_replicated_append_facts(entries, events.drop_last());
        let r = replicated_append(entries, events);
        if !has_event_id(prev, events.last().replica_event_id) {
            lemma_push_new_id(prev, replicated_descriptor(events.last()));
        }
        assert(extends(prev, r));
        assert forall|i: int| 0 <= i < events.len() implies has_event_id(r, (#[trigger] events[i]).replica_event_id) by {
            if i < events.len() - 1 {
                assert(events[i] == events.drop_last()[i]);
                assert(has_event_id(prev, events.drop_last()[i].replica_event_id));
                lemma_event_with_id_stable(prev, r, events[i].replica_event_id);
            }
        }
    }
}

/// A replicated append of events that are all stored already changes nothing.
pub proof fn lemma_replicated_append_of_stored(entries: Seq<EventDescriptor<ItemEvent, ItemId>>, events: Seq<AppendEvent<ItemEvent, ItemId>>)
    requires
        forall|i: int| 0 <= i < events.len() ==> has_event_id(entries, (#[trigger] events[i]).replica_event_id),
    ensures
        replicated_append(entries, events) == entries,
    decreases events.len(),
{
    if events.len() > 0 {
        assert forall|i: int| 0 <= i < events.drop_last().len() implies has_event_id(entries, (#[trigger] events.drop_last()[i]).replica_event_id) by {
            assert(events.drop_last()[i] == events[i]);
        }
        lemma_replicated_append_of_stored(entries, events.drop_last());
        assert(has_event_id(entries, events[events.len() - 1].replica_event_id));
    }
}

/// Receiving the same events twice is a no-op: a replicated append is idempotent.
pub proof fn lemma_replicated_append_idempotent(entries: Seq<EventDescriptor<ItemEvent, ItemId>>, events: Seq<AppendEvent<ItemEvent, ItemId>>)
    requires
        ids_unique(entries),
    ensures
        replicated_append(replicated_append(entries, events), events) == replicated_append(entries, events),
{
    lemma_replicated_append_facts(entries, events);
    lemma_replicated_append_of_stored(replicated_append(entries, events), events);
}

/// The descriptors a local append of events with no write offset of their own
/// stores when every event is new: batch write offsets 1, 2, ...
pub open spec fn fresh_local_descriptors(events: Seq<AppendEvent<ItemEvent, ItemId>>) -> Seq<EventDescriptor<ItemEvent, ItemId>> {
    Seq::new(events.len(), |i: int| local_descriptor(events[i], (i + 1) as u64))
}

/// A local append of events whose ids are new to the log and to each other
/// adds them all at the end, with batch write offsets 1, 2, ...
pub proof fn lemma_fresh_local_append(log: DeviceEventLog, events: Seq<AppendEvent<ItemEvent, ItemId>>)
    requires
        log.inv(),
        forall|i: int| 0 <= i < events.len() ==> !has_event_id(log.entries(), (#[trigger] events[i]).replica_event_id),
        forall|i: int, j: int| 0 <= i < j < events.len() ==> (#[trigger] events[i]).replica_event_id != (#[trigger] events[j]).replica_event_id,
        forall|i: int| 0 <= i < events.len() ==> (#[trigger] events[i]).replica_write_offset is None,
    ensures
        device_local_append(log.entries(), events).0 == log.entries() + fresh_local_descriptors(events),
        device_local_append(log.entries(), events).2 == events.len(),
    decreases events.len(),
{
    if events.len() > 0 {
        let t = events.drop_last();
        assert forall|i: int| 0 <= i < t.len() implies !has_event_id(log.entries(), (#[trigger] t[i]).replica_event_id) by {
            assert(t[i] == events[i]);
        }
        assert forall|i: int, j: int| 0 <= i < j < t.len() implies (#[trigger] t[i]).replica_event_id != (#[trigger] t[j]).replica_event_id by {
            assert(t[i] == events[i] && t[j] == events[j]);
        }
        assert forall|i: int| 0 <= i < t.len() implies (#[trigger] t[i]).replica_write_offset is None by {
            assert(t[i] == events[i]);
        }
        lemma_fresh_local_append(log, t);
        let prev = device_local_append(log.entries(), t);
        let ev = events.last();
        let n = events.len() - 1;
        assert(ev == events[n]);
        let fresh_t = fresh_local_descriptors(t);
        assert(!has_event_id(prev.0, ev.replica_event_id)) by {
            if has_event_id(prev.0, ev.replica_event_id) {
                let w = choose|w: int| 0 <= w < prev.0.len() && (#[trigger] prev.0[w]).replica_event_id == ev.replica_event_id;
                if w < log.entries().len() {
                    assert(prev.0[w] == log.entries()[w]);
                } else {
                    assert(prev.0[w] == fresh_t[w - log.entries().len()]);
                    assert(fresh_t[w - log.entries().len()].replica_event_id == t[w - log.entries().len()].replica_event_id);
                    assert(t[w - log.entries().len()] == events[w - log.entries().len()]);
                }
            }
        }
        assert(log.entries() + fresh_local_descriptors(events) =~= (log.entries() + fresh_t).push(local_descriptor(ev, (n + 1) as u64))) by {
            assert forall|i: int| 0 <= i < t.len() implies fresh_local_descriptors(events)[i] == fresh_t[i] by {
                assert(t[i] == events[i]);
            }
        }
    }
}

/// A local append only adds: what was stored stays, ids stay unique, and
/// afterwards every appended id is stored, with each returned event the stored
/// event with its id.
pub proof fn lemma_local_append_facts(entries: Seq<EventDescriptor<ItemEvent, ItemId>>, events: Seq<AppendEvent<ItemEvent, ItemId>>)
    requires
        ids_unique(entries),
    ensures
        ({
            let r = device_local_append(entries, events);
            &&& ids_unique(r.0)
            &&& extends(entries, r.0)
            &&& r.1.len() == events.len()
            &&& forall|i: int| 0 <= i < events.len() ==> {
                &&& has_event_id(r.0, (#[trigger] events[i]).replica_event_id)
                &&& r.1[i] == event_with_id(r.0, events[i].replica_event_id)
            }
        }),
    decreases events.len(),
{
    if events.len() > 0 {
        let prev = device_local_append(entries, events.drop_last());
        lemma_local_append_facts(entries, events.drop_last());
        let r = device_local_append(entries, events);
        let ev = events.last();
        if !has_event_id(prev.0, ev.replica_event_id) {
            lemma_push_new_id(prev.0, local_descriptor(ev, (prev.2 + 1) as u64));
        }
        assert(extends(prev.0, r.0));
        assert forall|i: int| 0 <= i < events.len() implies {
            &&& has_event_id(r.0, (#[trigger] events[i]).replica_event_id)
            &&& r.1[i] == event_with_id(r.0, events[i].replica_event_id)
        } by {
            if i < events.len() - 1 {
                assert(events[i] == events.drop_last()[i]);
                assert(has_event_id(prev.0, events.drop_last()[i].replica_event_id));
                lemma_event_with_id_stable(prev.0, r.0, events[i].replica_event_id);
                assert(r.1[i] == prev.1[i]);
            } else if has_event_id(prev.0, ev.replica_event_id) {
                assert(r.1[i] == event_with_id(prev.0, ev.replica_event_id));
            }
        }
    }
}

/// An acknowledged event is not pushed again: once the last acknowledgement
/// for an event carries a server offset, the event is no longer unsynced.
pub proof fn lemma_acknowledged_is_synced(e: EventDescriptor<ItemEvent, ItemId>, acks: Seq<EventDescriptor<ItemEvent, ItemId>>, replica: Seq<char>)
    requires
        acks_for(acks, e.replica_event_id).len() > 0,
        acks_for(acks, e.replica_event_id).last().server_offset is Some,
    ensures
        !(unsynced_of(replica))(synced_entry(e, acks)),
{
}

/// Acknowledged events are never pushed again: once a log has recorded
/// acknowledgements that all carry a server offset, no unsynced query, for any
/// replica and any limit, returns an event with an acknowledged id.
pub proof fn lemma_acknowledged_never_pushed_again(
    entries: Seq<EventDescriptor<ItemEvent, ItemId>>,
    acks: Seq<EventDescriptor<ItemEvent, ItemId>>,
    replica: Seq<char>,
    limit: nat,
)
    requires
        forall|a: int| 0 <= a < acks.len() ==> (#[trigger] acks[a]).server_offset is Some,
    ensures
        ({
            let out = first_n(
                entries.map_values(|e: EventDescriptor<ItemEvent, ItemId>| synced_entry(e, acks)).filter(unsynced_of(replica)),
                limit,
            );
            forall|i: int, a: int| 0 <= i < out.len() && 0 <= a < acks.len()
                ==> (#[trigger] out[i]).replica_event_id != (#[trigger] acks[a]).replica_event_id
        }),
{
    let marked = entries.map_values(|e: EventDescriptor<ItemEvent, ItemId>| synced_entry(e, acks));
    let pending = marked.filter(unsynced_of(replica));
    let out = first_n(pending, limit);
    assert forall|i: int, a: int| 0 <= i < out.len() && 0 <= a < acks.len()
        implies (#[trigger] out[i]).replica_event_id != (#[trigger] acks[a]).replica_event_id by {
        assert(out[i] == pending[i]);
        marked.lemma_filter_pred(unsynced_of(replica), i);
        assert(pending.contains(pending[i]));
        marked.lemma_filter_contains_rev(unsynced_of(replica), pending[i]);
        let w = choose|w: int| 0 <= w < marked.len() && marked[w] == pending[i];
        let e = entries[w];
        assert(marked[w] == synced_entry(e, acks));
        if out[i].replica_event_id == acks[a].replica_event_id {
            let p = |x: EventDescriptor<ItemEvent, ItemId>| x.replica_event_id == e.replica_event_id;
            assert(synced_entry(e, acks).replica_event_id == e.replica_event_id);
            acks.lemma_filter_contains(p, a);
            let mine = acks_for(acks, e.replica_event_id);
            assert(mine == acks.filter(p));
            assert(mine.len() > 0);
            let last = mine.last();
            assert(mine.contains(last));
            acks.lemma_filter_contains_rev(p, last);
            lemma_acknowledged_is_synced(e, acks, replica);
        }
    }
}

/// The part a local append adds after the log.
pub open spec fn added_part(entries: Seq<EventDescriptor<ItemEvent, ItemId>>, events: Seq<AppendEvent<ItemEvent, ItemId>>) -> Seq<
    EventDescriptor<ItemEvent, ItemId>,
> {
    device_local_append(entries, events).0.skip(entries.len() as int)
}

/// Each added descriptor is the one returned for an event whose id the log
/// did not hold.
pub open spec fn added_only_new(entries: Seq<EventDescriptor<ItemEvent, ItemId>>, events: Seq<AppendEvent<ItemEvent, ItemId>>) -> bool {
    let tail = added_part(entries, events);
    let ret = device_local_append(entries, events).1;
    forall|k: int| 0 <= k < tail.len() ==> exists|i: int|
        0 <= i < events.len() && #[trigger] tail[k] == ret[i] && !has_event_id(entries, events[i].replica_event_id)
}

/// The descriptor returned for each event whose id the log did not hold was
/// added.
pub open spec fn added_all_new(entries: Seq<EventDescriptor<ItemEvent, ItemId>>, events: Seq<AppendEvent<ItemEvent, ItemId>>) -> bool {
    let tail = added_part(entries, events);
    let ret = device_local_append(entries, events).1;
    forall|i: int| 0 <= i < events.len() && !has_event_id(entries, (#[trigger] events[i]).replica_event_id)
        ==> exists|k: int| 0 <= k < tail.len() && tail[k] == ret[i]
}

/// The added descriptors come in the order their ids first occur in the batch.
pub open spec fn added_in_batch_order(entries: Seq<EventDescriptor<ItemEvent, ItemId>>, events: Seq<AppendEvent<ItemEvent, ItemId>>) -> bool {
    let tail = added_part(entries, events);
    forall|k1: int, k2: int, i2: int| 0 <= k1 < k2 < tail.len() && 0 <= i2 < events.len()
        && (#[trigger] events[i2]).replica_event_id == (#[trigger] tail[k2]).replica_event_id
        ==> exists|i1: int| 0 <= i1 < i2 && events[i1].replica_event_id == (#[trigger] tail[k1]).replica_event_id
}

/// The event found by id carries that id.
proof fn lemma_event_with_id_has_id(s: Seq<EventDescriptor<ItemEvent, ItemId>>, id: u128)
    requires
        has_event_id(s, id),
    ensures
        event_with_id(s, id).replica_event_id == id,
{
}

/// How one more event changes a local append.
proof fn lemma_append_step(entries: Seq<EventDescriptor<ItemEvent, ItemId>>, events: Seq<AppendEvent<ItemEvent, ItemId>>)
    requires
        ids_unique(entries),
        events.len() > 0,
    ensures
        ({
            let t = events.drop_last();
            let n = events.len() - 1;
            let prev = device_local_append(entries, t);
            let r = device_local_append(entries, events);
            let ptail = added_part(entries, t);
            let tail = added_part(entries, events);
            &&& prev.0 == entries + ptail
            &&& r.0 == entries + tail
            &&& ids_unique(prev.0)
            &&& forall|i: int| 0 <= i < n ==> #[trigger] r.1[i] == prev.1[i] && events[i] == t[i]
            &&& forall|i: int| 0 <= i < n ==> has_event_id(prev.0, (#[trigger] t[i]).replica_event_id)
                && prev.1[i] == event_with_id(prev.0, t[i].replica_event_id)
                && prev.1[i].replica_event_id == t[i].replica_event_id
            &&& if has_event_id(prev.0, events[n].replica_event_id) {
                &&& tail == ptail
                &&& r.1[n] == event_with_id(prev.0, events[n].replica_event_id)
            } else {
                &&& tail == ptail.push(r.1[n])
                &&& r.1[n].replica_event_id == events[n].replica_event_id
            }
        }),
{
    let t = events.drop_last();
    let n = events.len() - 1;
    lemma_local_append_facts(entries, t);
    lemma_local_append_facts(entries, events);
    let prev = device_local_append(entries, t);
    let r = device_local_append(entries, events);
    assert(prev.0 =~= entries + added_part(entries, t));
    assert(r.0 =~= entries + added_part(entries, events));
    assert(events.last() == events[n]);
    assert forall|i: int| 0 <= i < n implies has_event_id(prev.0, (#[trigger] t[i]).replica_event_id)
        && prev.1[i] == event_with_id(prev.0, t[i].replica_event_id)
        && prev.1[i].replica_event_id == t[i].replica_event_id by {
        lemma_event_with_id_has_id(prev.0, t[i].replica_event_id);
    }
    assert forall|i: int| 0 <= i < n implies #[trigger] r.1[i] == prev.1[i] && events[i] == t[i] by {}
    if has_event_id(prev.0, events[n].replica_event_id) {
        assert(added_part(entries, events) =~= added_part(entries, t));
    } else {
        assert(added_part(entries, events) =~= added_part(entries, t).push(r.1[n]));
    }
}

proof fn lemma_added_only_new_step(entries: Seq<EventDescriptor<ItemEvent, ItemId>>, events: Seq<AppendEvent<ItemEvent, ItemId>>)
    requires
        ids_unique(entries),
        events.len() > 0,
        added_only_new(entries, events.drop_last()),
    ensures
        added_only_new(entries, events),
{
    lemma_append_step(entries, events);
    let t = events.drop_last();
    let n = events.len() - 1;
    let prev = device_local_append(entries, t);
    let r = device_local_append(entries, events);
    let ptail = added_part(entries, t);
    let tail = added_part(entries, events);
    assert forall|k: int| 0 <= k < tail.len() implies exists|i: int|
        0 <= i < events.len() && #[trigger] tail[k] == r.1[i] && !has_event_id(entries, events[i].replica_event_id) by {
        if k < ptail.len() {
            let i = choose|i: int| 0 <= i < t.len() && #[trigger] ptail[k] == prev.1[i] && !has_event_id(entries, t[i].replica_event_id);
            assert(r.1[i] == prev.1[i] && events[i] == t[i]);
            assert(tail[k] == ptail[k]);
        } else {
            assert(tail[k] == r.1[n]);
            assert(!has_event_id(entries, events[n].replica_event_id)) by {
                if has_event_id(entries, events[n].replica_event_id) {
                    let w = choose|w: int| 0 <= w < entries.len() && (#[trigger] entries[w]).replica_event_id == events[n].replica_event_id;
                    assert(prev.0[w] == entries[w]);
                }
            }
        }
    }
}

proof fn lemma_added_all_new_step(entries: Seq<EventDescriptor<ItemEvent, ItemId>>, events: Seq<AppendEvent<ItemEvent, ItemId>>)
    requires
        ids_unique(entries),
        events.len() > 0,
        added_all_new(entries, events.drop_last()),
    ensures
        added_all_new(entries, events),
{
    lemma_append_step(entries, events);
    let t = events.drop_last();
    let n = events.len() - 1;
    let prev = device_local_append(entries, t);
    let r = device_local_append(entries, events);
    let ptail = added_part(entries, t);
    let tail = added_part(entries, events);
    assert forall|i: int| 0 <= i < events.len() && !has_event_id(entries, (#[trigger] events[i]).replica_event_id)
        implies exists|k: int| 0 <= k < tail.len() && tail[k] == r.1[i] by {
        if i < n {
            assert(events[i] == t[i]);
            let k = choose|k: int| 0 <= k < ptail.len() && ptail[k] == prev.1[i];
            assert(tail[k] == ptail[k]);
        } else if has_event_id(prev.0, events[n].replica_event_id) {
            let id = events[n].replica_event_id;
            let w = choose|w: int| 0 <= w < prev.0.len() && (#[trigger] prev.0[w]).replica_event_id == id;
            let c = choose|c: int| 0 <= c < prev.0.len() && (#[trigger] prev.0[c]).replica_event_id == id;
            assert(c == w);
            if w < entries.len() {
                assert(prev.0[w] == entries[w]);
            }
            assert(tail[w - entries.len()] == prev.0[w]);
        } else {
            assert(tail[ptail.len() as int] == r.1[n]);
        }
    }
}

/// One instance of the batch-order clause after one more event.
proof fn lemma_order_point_earlier(
    entries: Seq<EventDescriptor<ItemEvent, ItemId>>,
    events: Seq<AppendEvent<ItemEvent, ItemId>>,
    k1: int,
    k2: int,
    i2: int,
)
    requires
        ids_unique(entries),
        events.len() > 0,
        added_only_new(entries, events.drop_last()),
        added_in_batch_order(entries, events.drop_last()),
        0 <= k1 < k2 < added_part(entries, events).len(),
        0 <= i2 < events.len(),
        k2 < added_part(entries, events.drop_last()).len(),
        events[i2].replica_event_id == added_part(entries, events)[k2].replica_event_id,
    ensures
        exists|i1: int| 0 <= i1 < i2 && events[i1].replica_event_id == #[trigger] added_part(entries, events)[k1].replica_event_id,
{
    lemma_append_step(entries, events);
    let t = events.drop_last();
    let n = events.len() - 1;
    let prev = device_local_append(entries, t);
    let r = device_local_append(entries, events);
    let ptail = added_part(entries, t);
    let tail = added_part(entries, events);
    assert(tail[k1] == ptail[k1]);
    let j1 = choose|i: int| 0 <= i < t.len() && #[trigger] ptail[k1] == prev.1[i] && !has_event_id(entries, t[i].replica_event_id);
    assert(events[j1] == t[j1]);
    assert(prev.1[j1].replica_event_id == t[j1].replica_event_id);
    assert(tail[k2] == ptail[k2]);
    if i2 < n {
        assert(events[i2] == t[i2]);
        assert(t[i2].replica_event_id == ptail[k2].replica_event_id);
        let i1 = choose|i1: int| 0 <= i1 < i2 && t[i1].replica_event_id == (#[trigger] ptail[k1]).replica_event_id;
        assert(events[i1] == t[i1]);
    } else {
        let j2 = choose|i: int| 0 <= i < t.len() && #[trigger] ptail[k2] == prev.1[i] && !has_event_id(entries, t[i].replica_event_id);
        assert(events[j2] == t[j2]);
        assert(prev.1[j2].replica_event_id == t[j2].replica_event_id);
        assert(t[j2].replica_event_id == ptail[k2].replica_event_id);
        let i1 = choose|i1: int| 0 <= i1 < j2 && t[i1].replica_event_id == (#[trigger] ptail[k1]).replica_event_id;
        assert(events[i1] == t[i1]);
    }
}

proof fn lemma_order_point_last(
    entries: Seq<EventDescriptor<ItemEvent, ItemId>>,
    events: Seq<AppendEvent<ItemEvent, ItemId>>,
    k1: int,
    k2: int,
    i2: int,
)
    requires
        ids_unique(entries),
        events.len() > 0,
        added_only_new(entries, events.drop_last()),
        added_in_batch_order(entries, events.drop_last()),
        0 <= k1 < k2 < added_part(entries, events).len(),
        0 <= i2 < events.len(),
        k2 >= added_part(entries, events.drop_last()).len(),
        events[i2].replica_event_id == added_part(entries, events)[k2].replica_event_id,
    ensures
        exists|i1: int| 0 <= i1 < i2 && events[i1].replica_event_id == #[trigger] added_part(entries, events)[k1].replica_event_id,
{
    lemma_append_step(entries, events);
    let t = events.drop_last();
    let n = events.len() - 1;
    let prev = device_local_append(entries, t);
    let r = device_local_append(entries, events);
    let ptail = added_part(entries, t);
    let tail = added_part(entries, events);
    assert(tail[k1] == ptail[k1]);
    let j1 = choose|i: int| 0 <= i < t.len() && #[trigger] ptail[k1] == prev.1[i] && !has_event_id(entries, t[i].replica_event_id);
    assert(events[j1] == t[j1]);
    assert(prev.1[j1].replica_event_id == t[j1].replica_event_id);
    assert(!has_event_id(prev.0, events[n].replica_event_id)) by {
        if has_event_id(prev.0, events[n].replica_event_id) {
            assert(tail == ptail);
        }
    }
    assert(tail[k2] == r.1[n]);
    if i2 < n {
        assert(events[i2] == t[i2]);
        assert(has_event_id(prev.0, t[i2].replica_event_id));
        assert(false);
    }
    assert(events[j1].replica_event_id == tail[k1].replica_event_id);
}

proof fn lemma_added_in_batch_order_step(entries: Seq<EventDescriptor<ItemEvent, ItemId>>, events: Seq<AppendEvent<ItemEvent, ItemId>>)
    requires
        ids_unique(entries),
        events.len() > 0,
        added_only_new(entries, events.drop_last()),
        added_in_batch_order(entries, events.drop_last()),
    ensures
        added_in_batch_order(entries, events),
{
    let tail = added_part(entries, events);
    assert forall|k1: int, k2: int, i2: int| 0 <= k1 < k2 < tail.len() && 0 <= i2 < events.len()
        && (#[trigger] events[i2]).replica_event_id == (#[trigger] tail[k2]).replica_event_id
        implies exists|i1: int| 0 <= i1 < i2 && events[i1].replica_event_id == (#[trigger] tail[k1]).replica_event_id by {
        if k2 < added_part(entries, events.drop_last()).len() {
            lemma_order_point_earlier(entries, events, k1, k2, i2);
        } else {
            lemma_order_point_last(entries, events, k1, k2, i2);
        }
    }
}

/// A local append only adds to the log, keeps ids unique, and what it adds is
/// exactly the descriptors it returns for the events whose ids the log did not
/// hold, each once, in the order their ids first occur in the batch.
pub proof fn lemma_local_append_adds_exactly_the_new(entries: Seq<EventDescriptor<ItemEvent, ItemId>>, events: Seq<AppendEvent<ItemEvent, ItemId>>)
    requires
        ids_unique(entries),
    ensures
        device_local_append(entries, events).0 == entries + added_part(entries, events),
        ids_unique(device_local_append(entries, events).0),
        added_only_new(entries, events),
        added_all_new(entries, events),
        added_in_batch_order(entries, events),
    decreases events.len(),
{
    lemma_local_append_facts(entries, events);
    assert(device_local_append(entries, events).0 =~= entries + added_part(entries, events));
    if events.len() > 0 {
        lemma_local_append_adds_exactly_the_new(entries, events.drop_last());
        lemma_added_only_new_step(entries, events);
        lemma_added_all_new_step(entries, events);
        lemma_added_in_batch_order_step(entries, events);
    } else {
        assert(added_part(entries, events).len() == 0);
    }
}

} // verus!
