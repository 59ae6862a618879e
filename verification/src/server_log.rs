//! The server-side event log. `append` receives events pushed by devices
//! (replica provenance already set, preserved) and assigns the server's own
//! provenance: a monotonic `server_offset` and `server_time_ms`. It is
//! idempotent: an event already present is not stored twice but is returned, so
//! a device retrying a push after a lost acknowledgement still learns the
//! assigned offset. `events_after` is the pull primitive.

use vstd::prelude::*;
use crate::clock::now_ms;
use crate::device_log::{event_with_id, extends, first_n, has_event_id, lemma_event_with_id_stable, lemma_push_new_id, or_default};
use crate::event_core::{EventDescriptor, ServerOffset, ids_unique, sort_events};
use crate::event_log::{AppendEvent, EntityEventLog, EventsPage, collect_entity_events};
use crate::item::{ItemEvent, ItemId};

verus! {

/// The descriptor the server stores for a new event.
pub open spec fn server_descriptor(ev: AppendEvent<ItemEvent, ItemId>, batch_offset: u64, offset: u64, time: i64) -> EventDescriptor<
    ItemEvent,
    ItemId,
> {
    EventDescriptor {
        replica_event_id: ev.replica_event_id,
        replica_write_offset: or_default(ev.replica_write_offset, batch_offset),
        replica_time_ms: ev.replica_time_ms,
        replica_id: ev.replica_id,
        server_offset: Some(ServerOffset(offset)),
        server_time_ms: Some(time),
        entity_id: ev.entity_id,
        payload: ev.payload,
    }
}

/// An append on the server, event by event, with `times[i]` the clock reading
/// taken for `events[i]`. An event whose id is stored already is returned as
/// stored. A new one is stored with the next server offset and its clock
/// reading; its missing write offset is read as 0 (`local == false`, pushed
/// events) or as the next batch offset 1, 2, ... (`local == true`, events the
/// server authors itself). Gives (entries, returned events, next server offset,
/// last batch offset).
pub open spec fn server_append(
    entries: Seq<EventDescriptor<ItemEvent, ItemId>>,
    next: nat,
    events: Seq<AppendEvent<ItemEvent, ItemId>>,
    times: Seq<i64>,
    local: bool,
) -> (Seq<EventDescriptor<ItemEvent, ItemId>>, Seq<EventDescriptor<ItemEvent, ItemId>>, nat, nat)
    decreases events.len(),
{
    if events.len() == 0 {
        (entries, Seq::empty(), next, 0)
    } else {
        let prev = server_append(entries, next, events.drop_last(), times.drop_last(), local);
        let ev = events.last();
        if has_event_id(prev.0, ev.replica_event_id) {
            (prev.0, prev.1.push(event_with_id(prev.0, ev.replica_event_id)), prev.2, prev.3)
        } else {
            let batch = if local { prev.3 + 1 } else { 0 };
            let d = server_descriptor(ev, batch as u64, prev.2 as u64, times.last());
            (prev.0.push(d), prev.1.push(d), prev.2 + 1, batch)
        }
    }
}

/// The predicate "stored at a server offset past `after`".
pub open spec fn stored_after(after: u64) -> spec_fn(EventDescriptor<ItemEvent, ItemId>) -> bool {
    |d: EventDescriptor<ItemEvent, ItemId>| d.server_offset is Some && d.server_offset.unwrap().0 > after
}

/// The pull cursor as a number: `None` means from the start.
pub open spec fn cursor_value(offset: Option<ServerOffset>) -> u64 {
    match offset {
        Some(o) => o.0,
        None => 0,
    }
}

/// Server offsets strictly increase along the sequence.
pub open spec fn offsets_increase(s: Seq<EventDescriptor<ItemEvent, ItemId>>) -> bool {
    &&& forall|i: int| 0 <= i < s.len() ==> (#[trigger] s[i]).server_offset is Some
    &&& forall|i: int, j: int| 0 <= i < j < s.len()
        ==> (#[trigger] s[i]).server_offset.unwrap().0 < (#[trigger] s[j]).server_offset.unwrap().0
}

/// Whether `x` is the id of one of the events of `events`.
pub open spec fn among_ids(events: Seq<AppendEvent<ItemEvent, ItemId>>, x: u128) -> bool {
    exists|k: int| 0 <= k < events.len() && (#[trigger] events[k]).replica_event_id == x
}

/// How many distinct event ids of `events` the stored `entries` do not hold
/// yet: the number of offsets a server append of `events` uses.
pub open spec fn new_id_count(entries: Seq<EventDescriptor<ItemEvent, ItemId>>, events: Seq<AppendEvent<ItemEvent, ItemId>>) -> nat
    decreases events.len(),
{
    if events.len() == 0 {
        0
    } else {
        let prev = events.drop_last();
        let x = events.last().replica_event_id;
        new_id_count(entries, prev) + if has_event_id(entries, x) || among_ids(prev, x) {
            0nat
        } else {
            1nat
        }
    }
}

/// A prefix of a batch has no more new ids than the batch, and a batch has no
/// more new ids than events.
pub proof fn lemma_new_id_count_bounds(entries: Seq<EventDescriptor<ItemEvent, ItemId>>, events: Seq<AppendEvent<ItemEvent, ItemId>>, a: int)
    requires
        0 <= a <= events.len(),
    ensures
        new_id_count(entries, events.take(a)) <= new_id_count(entries, events),
        new_id_count(entries, events) <= events.len(),
    decreases events.len(),
{
    if events.len() > 0 {
        let prev = events.drop_last();
        if a < events.len() {
            assert(prev.take(a) =~= events.take(a));
            lemma_new_id_count_bounds(entries, prev, a);
        } else {
            assert(events.take(a) =~= events);
            lemma_new_id_count_bounds(entries, prev, 0);
        }
    }
}

/// The server's item event log.
pub struct ServerEventLog {
    entries: Vec<EventDescriptor<ItemEvent, ItemId>>,
    next_server_offset: u64,
}

impl Default for ServerEventLog {
    fn default() -> (r: Self)
        ensures
            r.inv(),
            r.entries() == Seq::<EventDescriptor<ItemEvent, ItemId>>::empty(),
            r.next_offset() == 0,
    {
        ServerEventLog { entries: Vec::new(), next_server_offset: 0 }
    }
}

impl ServerEventLog {
    /// A well-formed log holds each event id at most once, and its events carry
    /// consecutive offsets that end just before the next one to assign.
    pub proof fn lemma_inv_facts(&self)
        requires
            self.inv(),
        ensures
            ids_unique(self.entries()),
            self.entries().len() <= self.next_offset(),
            forall|i: int| 0 <= i < self.entries().len() ==> (#[trigger] self.entries()[i]).server_offset == Some(
                ServerOffset((self.next_offset() - self.entries().len() + i) as u64),
            ),
    {
    }

    pub fn new() -> (r: Self)
        ensures
            r.inv(),
            r.entries() == Seq::<EventDescriptor<ItemEvent, ItemId>>::empty(),
            r.next_offset() == 1,
    {
        ServerEventLog { entries: Vec::new(), next_server_offset: 1 }
    }

    /// The offset the next stored event gets.
    pub closed spec fn next_offset(&self) -> nat {
        self.next_server_offset as nat
    }

    /// The offset the next stored event gets.
    pub fn next_server_offset(&self) -> (r: u64)
        ensures
            r == self.next_offset(),
    {
        self.next_server_offset
    }

    proof fn lemma_inv_offsets(&self)
        requires
            self.inv(),
        ensures
            offsets_increase(self.entries()),
    {
    }

    /// The position of the event with id `id`, if it is stored.
    fn find(&self, id: u128) -> (r: Option<usize>)
        ensures
            match r {
                Some(i) => i < self.entries@.len() && self.entries@[i as int].replica_event_id == id,
                None => !has_event_id(self.entries@, id),
            },
    {
        let mut i: usize = 0;
        while i < self.entries.len()
            invariant
                i <= self.entries@.len(),
                forall|m: int| 0 <= m < i ==> (#[trigger] self.entries@[m]).replica_event_id != id,
            decreases self.entries.len() - i,
        {
            if self.entries[i].replica_event_id == id {
                return Some(i);
            }
            i = i + 1;
        }
        None
    }

    /// Store a new event with the next server offset and the clock reading `now`.
    fn assign(&mut self, ev: &AppendEvent<ItemEvent, ItemId>, batch_write_offset: u64, now: i64) -> (d: EventDescriptor<
        ItemEvent,
        ItemId,
    >)
        requires
            old(self).inv(),
            !has_event_id(old(self).entries(), ev.replica_event_id),
            old(self).next_server_offset < u64::MAX,
        ensures
            final(self).inv(),
            d == server_descriptor(*ev, batch_write_offset, old(self).next_server_offset, now),
            final(self).entries() == old(self).entries().push(d),
            final(self).next_server_offset == old(self).next_server_offset + 1,
    {
        let server_offset = ServerOffset(self.next_server_offset);
        self.next_server_offset = self.next_server_offset + 1;
        let descriptor = EventDescriptor {
            replica_event_id: ev.replica_event_id,
            replica_write_offset: match ev.replica_write_offset {
                Some(o) => o,
                None => batch_write_offset,
            },
            replica_time_ms: ev.replica_time_ms,
            replica_id: ev.replica_id.clone(),
            server_offset: Some(server_offset),
            server_time_ms: Some(now),
            entity_id: ev.entity_id,
            payload: ev.payload.clone(),
        };
        self.entries.push(descriptor.clone());
        assert forall|a: int, b: int| 0 <= a < b < self.entries@.len() implies (#[trigger] self.entries@[a]).replica_event_id != (#[trigger] self.entries@[b]).replica_event_id by {
            if b == self.entries@.len() - 1 {
                assert(old(self).entries@[a].replica_event_id != ev.replica_event_id);
            }
        }
        descriptor
    }

    /// Store a batch event by event, `local` choosing the write-offset rule.
    fn append_batch(&mut self, events: &Vec<AppendEvent<ItemEvent, ItemId>>, local: bool) -> (stored: Vec<
        EventDescriptor<ItemEvent, ItemId>,
    >)
        requires
            old(self).inv(),
            old(self).next_server_offset + new_id_count(old(self).entries(), events@) <= u64::MAX,
        ensures
            final(self).inv(),
            exists|times: Seq<i64>|
                #![trigger server_append(old(self).entries(), old(self).next_offset(), events@, times, local)]
                times.len() == events@.len() && {
                    let r = server_append(old(self).entries(), old(self).next_offset(), events@, times, local);
                    final(self).entries() == r.0 && stored@ == r.1 && final(self).next_offset() == r.2
                },
    {
        let ghost start = self.entries@;
        let ghost next0 = self.next_server_offset as nat;
        let ghost mut times: Seq<i64> = Seq::empty();
        let mut stored: Vec<EventDescriptor<ItemEvent, ItemId>> = Vec::new();
        let mut batch_write_offset: u64 = 0;
        let mut i: usize = 0;
        while i < events.len()
            invariant
                i <= events.len(),
                times.len() == i,
                self.inv(),
                self.next_server_offset == next0 + new_id_count(start, events@.take(i as int)),
                next0 + new_id_count(start, events@) <= u64::MAX,
                forall|x: u128| #[trigger] has_event_id(self.entries@, x) <==> (has_event_id(start, x) || among_ids(events@.take(i as int), x)),
                batch_write_offset <= i,
                !local ==> batch_write_offset == 0,
                (self.entries@, stored@, self.next_server_offset as nat, batch_write_offset as nat)
                    == server_append(start, next0, events@.take(i as int), times, local),
            decreases events.len() - i,
        {
            let ev = &events[i];
            let ghost old_times = times;
            let ghost entries_before = self.entries@;
            proof {
                let pre = events@.take(i as int);
                let ext = events@.take(i as int + 1);
                assert(ext.drop_last() =~= pre);
                assert(ext.last() == events@[i as int]);
                lemma_new_id_count_bounds(start, events@, i + 1);
                assert forall|x: u128| among_ids(ext, x) <==> (among_ids(pre, x) || x == events@[i as int].replica_event_id) by {
                    if among_ids(ext, x) {
                        let k = choose|k: int| 0 <= k < ext.len() && (#[trigger] ext[k]).replica_event_id == x;
                        if k < i {
                            assert(pre[k] == ext[k]);
                        }
                    }
                    if among_ids(pre, x) {
                        let k = choose|k: int| 0 <= k < pre.len() && (#[trigger] pre[k]).replica_event_id == x;
                        assert(ext[k] == pre[k]);
                    }
                    if x == events@[i as int].replica_event_id {
                        assert(ext[i as int] == events@[i as int]);
                    }
                }
            }
            assert(events@.take(i as int + 1).drop_last() =~= events@.take(i as int));
            match self.find(ev.replica_event_id) {
                Some(j) => {
                    proof {
                        let w = choose|m: int| 0 <= m < self.entries@.len() && (#[trigger] self.entries@[m]).replica_event_id == ev.replica_event_id;
                        assert(w == j as int);
                        times = times.push(0);
                    }
                    stored.push(self.entries[j].clone());
                },
                None => {
                    if local {
                        batch_write_offset = batch_write_offset + 1;
                    }
                    let now = now_ms();
                    proof {
                        times = times.push(now);
                    }
                    let d = self.assign(ev, if local { batch_write_offset } else { 0 }, now);
                    proof {
                        assert forall|x: u128| #[trigger] has_event_id(self.entries@, x) <==> (has_event_id(entries_before, x) || x == ev.replica_event_id) by {
                            if has_event_id(self.entries@, x) {
                                let w = choose|w: int| 0 <= w < self.entries@.len() && (#[trigger] self.entries@[w]).replica_event_id == x;
                                if w < entries_before.len() {
                                    assert(self.entries@[w] == entries_before[w]);
                                }
                            }
                            if has_event_id(entries_before, x) {
                                let w = choose|w: int| 0 <= w < entries_before.len() && (#[trigger] entries_before[w]).replica_event_id == x;
                                assert(self.entries@[w] == entries_before[w]);
                            }
                            if x == ev.replica_event_id {
                                assert(self.entries@[entries_before.len() as int] == d);
                            }
                        }
                    }
                    stored.push(d);
                },
            }
            proof {
                assert(times.drop_last() =~= old_times);
                let prev = server_append(start, next0, events@.take(i as int), old_times, local);
                assert(events@.take(i as int + 1).last() == events@[i as int]);
                assert(server_append(start, next0, events@.take(i as int + 1), times, local) == (if has_event_id(prev.0, events@[i as int].replica_event_id) {
                    (prev.0, prev.1.push(event_with_id(prev.0, events@[i as int].replica_event_id)), prev.2, prev.3)
                } else {
                    let batch = if local { prev.3 + 1 } else { 0 };
                    let d = server_descriptor(events@[i as int], batch as u64, prev.2 as u64, times.last());
                    (prev.0.push(d), prev.1.push(d), prev.2 + 1, batch)
                }));
            }
            i = i + 1;
        }
        assert(events@.take(events@.len() as int) =~= events@);
        assert(times.len() == events@.len() && {
            let r = server_append(start, next0, events@, times, local);
            self.entries@ == r.0 && stored@ == r.1 && self.next_server_offset as nat == r.2
        });
        assert(start == old(self).entries());
        assert(next0 == old(self).next_offset());
        assert(self.entries@ == self.entries());
        assert(self.next_server_offset as nat == self.next_offset());
        stored
    }

    /// Store pushed events, preserving replica provenance and assigning
    /// `server_offset` and `server_time_ms`. Returns the events as stored.
    pub fn append(&mut self, events: Vec<AppendEvent<ItemEvent, ItemId>>) -> (stored: Vec<EventDescriptor<ItemEvent, ItemId>>)
        requires
            old(self).inv(),
            old(self).next_offset() + new_id_count(old(self).entries(), events@) <= u64::MAX,
        ensures
            final(self).inv(),
            exists|times: Seq<i64>|
                #![trigger server_append(old(self).entries(), old(self).next_offset(), events@, times, false)]
                times.len() == events@.len() && {
                    let r = server_append(old(self).entries(), old(self).next_offset(), events@, times, false);
                    final(self).entries() == r.0 && stored@ == r.1 && final(self).next_offset() == r.2
                },
    {
        self.append_batch(&events, false)
    }

    /// Every stored event, in `server_offset` order.
    pub fn all_events(&self) -> (out: Vec<EventDescriptor<ItemEvent, ItemId>>)
        requires
            self.inv(),
        ensures
            out@ == self.entries(),
            offsets_increase(out@),
    {
        let mut out: Vec<EventDescriptor<ItemEvent, ItemId>> = Vec::new();
        let mut i: usize = 0;
        while i < self.entries.len()
            invariant
                i <= self.entries@.len(),
                out@ == self.entries@.take(i as int),
            decreases self.entries.len() - i,
        {
            out.push(self.entries[i].clone());
            assert(out@ =~= self.entries@.take(i as int + 1));
            i = i + 1;
        }
        assert(out@ =~= self.entries@);
        out
    }

    /// The pull primitive: the events stored after `offset`, in `server_offset`
    /// order, at most `limit` of them, with the offset of the last one as the
    /// cursor to continue from.
    pub fn events_after(&self, offset: Option<ServerOffset>, limit: usize) -> (page: EventsPage<ItemEvent, ItemId>)
        requires
            self.inv(),
        ensures
            page.events@ == first_n(self.entries().filter(stored_after(cursor_value(offset))), limit as nat),
            offsets_increase(page.events@),
            page.next_offset == if page.events@.len() == 0 {
                None
            } else {
                page.events@.last().server_offset
            },
    {
        let after: u64 = match offset {
            Some(o) => o.0,
            None => 0,
        };
        let ghost pred = stored_after(after);
        let mut out: Vec<EventDescriptor<ItemEvent, ItemId>> = Vec::new();
        let mut i: usize = 0;
        while i < self.entries.len()
            invariant
                i <= self.entries@.len(),
                after == cursor_value(offset),
                pred == stored_after(after),
                out@ == self.entries@.take(i as int).filter(pred),
            decreases self.entries.len() - i,
        {
            proof {
                assert(self.entries@.take(i as int + 1) =~= self.entries@.take(i as int).push(self.entries@[i as int]));
                self.entries@.take(i as int).lemma_filter_push(self.entries@[i as int], pred);
            }
            match self.entries[i].server_offset {
                Some(o) => {
                    if o.0 > after {
                        out.push(self.entries[i].clone());
                    }
                },
                None => {},
            }
            i = i + 1;
        }
        proof {
            assert(self.entries@.take(self.entries@.len() as int) =~= self.entries@);
        }
        let ghost all = out@;
        if out.len() > limit {
            out.truncate(limit);
        }
        proof {
            assert(out@ == first_n(all, limit as nat));
            self.lemma_inv_offsets();
            assert forall|m: int| 0 <= m < out@.len() implies all.contains(#[trigger] out@[m]) by {
                assert(out@[m] == all[m]);
            }
            lemma_filter_keeps_increasing(self.entries@, pred);
            assert forall|a: int, b: int| 0 <= a < b < out@.len() implies (#[trigger] out@[a]).server_offset.unwrap().0 < (#[trigger] out@[b]).server_offset.unwrap().0 by {
                assert(out@[a] == all[a] && out@[b] == all[b]);
            }
            assert forall|a: int| 0 <= a < out@.len() implies (#[trigger] out@[a]).server_offset is Some by {
                assert(out@[a] == all[a]);
            }
        }
        let next_offset = if out.len() > 0 {
            out[out.len() - 1].server_offset
        } else {
            None
        };
        EventsPage { events: out, next_offset }
    }
}

/// A subsequence of a sequence with increasing server offsets has increasing offsets.
proof fn lemma_filter_keeps_increasing(s: Seq<EventDescriptor<ItemEvent, ItemId>>, pred: spec_fn(EventDescriptor<ItemEvent, ItemId>) -> bool)
    requires
        offsets_increase(s),
    ensures
        offsets_increase(s.filter(pred)),
    decreases s.len(),
{
    reveal(Seq::filter);
    if s.len() > 0 {
        let t = s.drop_last();
        assert(offsets_increase(t)) by {
            assert forall|a: int, b: int| 0 <= a < b < t.len() implies (#[trigger] t[a]).server_offset.unwrap().0 < (#[trigger] t[b]).server_offset.unwrap().0 by {
                assert(t[a] == s[a] && t[b] == s[b]);
            }
            assert forall|a: int| 0 <= a < t.len() implies (#[trigger] t[a]).server_offset is Some by {
                assert(t[a] == s[a]);
            }
        }
        lemma_filter_keeps_increasing(t, pred);
        let ft = t.filter(pred);
        if pred(s.last()) {
            let f = ft.push(s.last());
            assert forall|m: int| 0 <= m < ft.len() implies (#[trigger] ft[m]).server_offset.unwrap().0 < s.last().server_offset.unwrap().0 by {
                t.lemma_filter_contains_rev(pred, ft[m]);
                assert(ft.contains(ft[m]));
                let w = choose|w: int| 0 <= w < t.len() && t[w] == ft[m];
                assert(s[w] == t[w]);
            }
            assert forall|a: int, b: int| 0 <= a < b < f.len() implies (#[trigger] f[a]).server_offset.unwrap().0 < (#[trigger] f[b]).server_offset.unwrap().0 by {
                if b == f.len() - 1 {
                    assert(f[a] == ft[a]);
                } else {
                    assert(f[a] == ft[a] && f[b] == ft[b]);
                }
            }
            assert forall|a: int| 0 <= a < f.len() implies (#[trigger] f[a]).server_offset is Some by {
                if a < ft.len() {
                    assert(f[a] == ft[a]);
                }
            }
        }
    }
}

impl EntityEventLog<ItemEvent, ItemId> for ServerEventLog {
    closed spec fn entries(&self) -> Seq<EventDescriptor<ItemEvent, ItemId>> {
        self.entries@
    }

    closed spec fn inv(&self) -> bool {
        &&& ids_unique(self.entries@)
        &&& self.entries@.len() <= self.next_server_offset
        &&& forall|i: int| 0 <= i < self.entries@.len() ==> (#[trigger] self.entries@[i]).server_offset == Some(
            ServerOffset((self.next_server_offset - self.entries@.len() + i) as u64),
        )
    }

    open spec fn room_for(&self, n: nat) -> bool {
        self.next_offset() + n <= u64::MAX
    }

    open spec fn appended_local(
        &self,
        events: Seq<AppendEvent<ItemEvent, ItemId>>,
        after: Self,
        stored: Seq<EventDescriptor<ItemEvent, ItemId>>,
    ) -> bool {
        exists|times: Seq<i64>|
            #![trigger server_append(self.entries(), self.next_offset(), events, times, true)]
            times.len() == events.len() && {
                let r = server_append(self.entries(), self.next_offset(), events, times, true);
                after.entries() == r.0 && stored == r.1 && after.next_offset() == r.2
            }
    }

    /// Server-side authoring: assigns both replica and server provenance (the
    /// server is a replica too).
    fn append_local(&mut self, events: Vec<AppendEvent<ItemEvent, ItemId>>) -> (stored: Vec<
        EventDescriptor<ItemEvent, ItemId>,
    >) {
        proof {
            lemma_new_id_count_bounds(self.entries(), events@, 0);
        }
        self.append_batch(&events, true)
    }

    fn events_of_entity(&self, entity_id: &ItemId) -> (out: Vec<EventDescriptor<ItemEvent, ItemId>>) {
        let mut out = collect_entity_events(&self.entries, entity_id);
        sort_events(&mut out);
        out
    }
}


// ---------------------------------------------------------------------------
// Laws of the server log.
// ---------------------------------------------------------------------------

/// A server append keeps ids unique and what was stored, holds every appended
/// id afterwards, and returns for each event the stored event with its id.
pub proof fn lemma_server_append_facts(
    entries: Seq<EventDescriptor<ItemEvent, ItemId>>,
    next: nat,
    events: Seq<AppendEvent<ItemEvent, ItemId>>,
    times: Seq<i64>,
    local: bool,
)
    requires
        ids_unique(entries),
        times.len() == events.len(),
    ensures
        ({
            let r = server_append(entries, next, events, times, local);
            &&& ids_unique(r.0)
            &&& extends(entries, r.0)
            &&& r.1.len() == events.len()
            &&& r.2 >= next
            &&& forall|i: int| 0 <= i < events.len() ==> {
                &&& has_event_id(r.0, (#[trigger] events[i]).replica_event_id)
                &&& r.1[i] == event_with_id(r.0, events[i].replica_event_id)
            }
        }),
    decreases events.len(),
{
    if events.len() > 0 {
        let prev = server_append(entries, next, events.drop_last(), times.drop_last(), local);
        lemma_server_append_facts(entries, next, events.drop_last(), times.drop_last(), local);
        let r = server_append(entries, next, events, times, local);
        let ev = events.last();
        if has_event_id(prev.0, ev.replica_event_id) {
            assert(r.0 == prev.0);
        } else {
            let batch = if local { prev.3 + 1 } else { 0 };
            lemma_push_new_id(prev.0, server_descriptor(ev, batch as u64, prev.2 as u64, times.last()));
        }
        assert(extends(prev.0, r.0));
        assert forall|i: int| 0 <= i < events.len() implies {
            &&& has_event_id(r.0, (#[trigger] events[i]).replica_event_id)
            &&& r.1[i] == event_with_id(r.0, events[i].replica_event_id)
        } by {
            if i < events.len() - 1 {
                assert(events[i] == events.drop_last()[i]);
                assert(has_event_id(prev.0, events.drop_last()[i].replica_event_id));
                lemma_event_with_id_stable(prev.0, r.0, events[i].replica_event_id);
                assert(r.1[i] == prev.1[i]);
            } else if has_event_id(prev.0, ev.replica_event_id) {
                assert(r.1[i] == event_with_id(prev.0, ev.replica_event_id));
            }
        }
    }
}

/// Appending events that are all stored already stores nothing and returns the
/// stored events.
pub proof fn lemma_server_append_of_stored(
    entries: Seq<EventDescriptor<ItemEvent, ItemId>>,
    next: nat,
    events: Seq<AppendEvent<ItemEvent, ItemId>>,
    times: Seq<i64>,
    local: bool,
)
    requires
        times.len() == events.len(),
        forall|i: int| 0 <= i < events.len() ==> has_event_id(entries, (#[trigger] events[i]).replica_event_id),
    ensures
        ({
            let r = server_append(entries, next, events, times, local);
            &&& r.0 == entries
            &&& r.2 == next
            &&& r.1.len() == events.len()
            &&& forall|i: int| 0 <= i < events.len() ==> r.1[i] == event_with_id(entries, (#[trigger] events[i]).replica_event_id)
        }),
    decreases events.len(),
{
    if events.len() > 0 {
        assert forall|i: int| 0 <= i < events.drop_last().len() implies has_event_id(entries, (#[trigger] events.drop_last()[i]).replica_event_id) by {
            assert(events.drop_last()[i] == events[i]);
        }
        lemma_server_append_of_stored(entries, next, events.drop_last(), times.drop_last(), local);
        assert(has_event_id(entries, events[events.len() - 1].replica_event_id));
        let r = server_append(entries, next, events, times, local);
        assert forall|i: int| 0 <= i < events.len() implies r.1[i] == event_with_id(entries, (#[trigger] events[i]).replica_event_id) by {
            if i < events.len() - 1 {
                assert(events[i] == events.drop_last()[i]);
            }
        }
    }
}

/// A retried push is harmless: pushing the same events again, after they were
/// stored, stores nothing new and returns exactly what the first push returned
/// (with the offsets it assigned), whatever the clock reads the second time.
pub proof fn lemma_server_retry_is_idempotent(
    entries: Seq<EventDescriptor<ItemEvent, ItemId>>,
    next: nat,
    events: Seq<AppendEvent<ItemEvent, ItemId>>,
    first_times: Seq<i64>,
    retry_times: Seq<i64>,
)
    requires
        ids_unique(entries),
        first_times.len() == events.len(),
        retry_times.len() == events.len(),
    ensures
        ({
            let first = server_append(entries, next, events, first_times, false);
            let retry = server_append(first.0, first.2, events, retry_times, false);
            &&& retry.0 == first.0
            &&& retry.1 == first.1
            &&& retry.2 == first.2
        }),
{
    let first = server_append(entries, next, events, first_times, false);
    lemma_server_append_facts(entries, next, events, first_times, false);
    lemma_server_append_of_stored(first.0, first.2, events, retry_times, false);
    let retry = server_append(first.0, first.2, events, retry_times, false);
    assert forall|i: int| 0 <= i < events.len() implies retry.1[i] == first.1[i] by {
        assert(retry.1[i] == event_with_id(first.0, events[i].replica_event_id));
        assert(first.1[i] == event_with_id(first.0, events[i].replica_event_id));
    }
    assert(retry.1 =~= first.1);
}

/// Offsets assigned by an append are fresh and increasing: every new event gets
/// the next offset in turn, so the stream stays ordered by server offset.
pub proof fn lemma_server_append_offsets(
    entries: Seq<EventDescriptor<ItemEvent, ItemId>>,
    next: nat,
    events: Seq<AppendEvent<ItemEvent, ItemId>>,
    times: Seq<i64>,
    local: bool,
)
    requires
        times.len() == events.len(),
        entries.len() <= next,
        next + events.len() <= u64::MAX,
        forall|i: int| 0 <= i < entries.len() ==> (#[trigger] entries[i]).server_offset == Some(ServerOffset((next - entries.len() + i) as u64)),
    ensures
        ({
            let r = server_append(entries, next, events, times, local);
            &&& r.0.len() <= r.2
            &&& r.2 - r.0.len() == next - entries.len()
            &&& forall|i: int| 0 <= i < r.0.len() ==> (#[trigger] r.0[i]).server_offset == Some(ServerOffset((r.2 - r.0.len() + i) as u64))
        }),
    decreases events.len(),
{
    if events.len() > 0 {
        lemma_server_append_offsets(entries, next, events.drop_last(), times.drop_last(), local);
        let prev = server_append(entries, next, events.drop_last(), times.drop_last(), local);
        let r = server_append(entries, next, events, times, local);
        lemma_server_append_growth(entries, next, events.drop_last(), times.drop_last(), local);
        if !has_event_id(prev.0, events.last().replica_event_id) {
            assert forall|i: int| 0 <= i < r.0.len() implies (#[trigger] r.0[i]).server_offset == Some(ServerOffset((r.2 - r.0.len() + i) as u64)) by {
                if i < prev.0.len() {
                    assert(r.0[i] == prev.0[i]);
                }
            }
        }
    }
}

/// An append advances the offset counter by at most one per event.
proof fn lemma_server_append_growth(
    entries: Seq<EventDescriptor<ItemEvent, ItemId>>,
    next: nat,
    events: Seq<AppendEvent<ItemEvent, ItemId>>,
    times: Seq<i64>,
    local: bool,
)
    requires
        times.len() == events.len(),
    ensures
        server_append(entries, next, events, times, local).2 <= next + events.len(),
    decreases events.len(),
{
    if events.len() > 0 {
        lemma_server_append_growth(entries, next, events.drop_last(), times.drop_last(), local);
    }
}

/// The page a pull after cursor `c` gets, at most `limit` events.
pub open spec fn page_after(entries: Seq<EventDescriptor<ItemEvent, ItemId>>, c: Option<ServerOffset>, limit: nat) -> Seq<
    EventDescriptor<ItemEvent, ItemId>,
> {
    first_n(entries.filter(stored_after(cursor_value(c))), limit)
}

/// The cursor a page hands on: its last event's offset (none for an empty page).
pub open spec fn page_cursor(page: Seq<EventDescriptor<ItemEvent, ItemId>>) -> Option<ServerOffset> {
    if page.len() == 0 {
        None
    } else {
        page.last().server_offset
    }
}

/// A reader pulling from cursor `c` until a page comes back empty (at most
/// `fuel` non-empty pages): the events it gets, concatenated, and how many pulls
/// it makes.
pub open spec fn pull_until_empty(entries: Seq<EventDescriptor<ItemEvent, ItemId>>, c: Option<ServerOffset>, limit: nat, fuel: nat) -> (
    Seq<EventDescriptor<ItemEvent, ItemId>>,
    nat,
)
    decreases fuel,
{
    let p = page_after(entries, c, limit);
    if p.len() == 0 || fuel == 0 {
        (Seq::empty(), 1)
    } else {
        let rest = pull_until_empty(entries, page_cursor(p), limit, (fuel - 1) as nat);
        (p + rest.0, rest.1 + 1)
    }
}

/// How many full or partial pages of `limit` events `n` events make.
pub open spec fn pages_for(n: nat, limit: nat) -> nat
    decreases n,
{
    if n == 0 || limit == 0 {
        0
    } else if n <= limit {
        1
    } else {
        1 + pages_for((n - limit) as nat, limit)
    }
}

/// The cursor a reader holds after the first `j` events of the stream.
pub open spec fn cursor_at(entries: Seq<EventDescriptor<ItemEvent, ItemId>>, j: int) -> Option<ServerOffset> {
    if j == 0 {
        None
    } else {
        entries[j - 1].server_offset
    }
}

/// Filtering by a condition that holds exactly from position `j` on keeps the
/// suffix from `j`.
pub proof fn lemma_filter_suffix(s: Seq<EventDescriptor<ItemEvent, ItemId>>, p: spec_fn(EventDescriptor<ItemEvent, ItemId>) -> bool, j: int)
    requires
        0 <= j <= s.len(),
        forall|i: int| 0 <= i < s.len() ==> (p(#[trigger] s[i]) <==> i >= j),
    ensures
        s.filter(p) == s.skip(j),
    decreases s.len(),
{
    if s.len() > 0 {
        let t = s.drop_last();
        assert(t.push(s.last()) =~= s);
        t.lemma_filter_push(s.last(), p);
        if j < s.len() {
            assert forall|i: int| 0 <= i < t.len() implies (p(#[trigger] t[i]) <==> i >= j) by {
                assert(t[i] == s[i]);
            }
            lemma_filter_suffix(t, p, j);
            assert(p(s[s.len() - 1]));
            assert(t.skip(j).push(s.last()) =~= s.skip(j));
        } else {
            assert forall|i: int| 0 <= i < t.len() implies (p(#[trigger] t[i]) <==> i >= t.len()) by {
                assert(t[i] == s[i]);
            }
            lemma_filter_suffix(t, p, t.len() as int);
            assert(!p(s[s.len() - 1]));
            assert(t.skip(t.len() as int) =~= s.skip(j));
        }
    }
}

/// Pulling from a position of the stream: the page after the cursor held once
/// the first `j` events are pulled is the next `limit` events.
proof fn lemma_page_after_position(log: ServerEventLog, j: int, limit: nat)
    requires
        log.inv(),
        log.entries().len() < log.next_offset(),
        0 <= j <= log.entries().len(),
    ensures
        page_after(log.entries(), cursor_at(log.entries(), j), limit) == first_n(log.entries().skip(j), limit),
{
    let e = log.entries();
    log.lemma_inv_facts();
    let base = log.next_offset() - e.len();
    let cv = cursor_value(cursor_at(e, j));
    assert(cv == if j == 0 { 0 } else { base + j - 1 });
    assert forall|i: int| 0 <= i < e.len() implies ((stored_after(cv))(#[trigger] e[i]) <==> i >= j) by {
        assert(e[i].server_offset == Some(ServerOffset((base + i) as u64)));
    }
    lemma_filter_suffix(e, stored_after(cv), j);
}

/// Paging the whole stream: a reader that starts with no cursor and pulls,
/// handing on each page's cursor, until a page comes back empty gets every
/// stored event exactly once, in offset order, in one pull per page of
/// `limit` events plus the final empty one. (A log whose first offset is 0,
/// as the default one, loses that event: a pull with no cursor asks for the
/// events after offset 0.)
pub proof fn lemma_paging_reads_the_whole_stream(log: ServerEventLog, limit: nat, fuel: nat)
    requires
        log.inv(),
        log.entries().len() < log.next_offset(),
        limit >= 1,
        fuel >= log.entries().len(),
    ensures
        pull_until_empty(log.entries(), None, limit, fuel) == (log.entries(), pages_for(log.entries().len(), limit) + 1),
{
    lemma_paging_from(log, 0, limit, fuel);
    assert(log.entries().skip(0) =~= log.entries());
}

proof fn lemma_paging_from(log: ServerEventLog, j: int, limit: nat, fuel: nat)
    requires
        log.inv(),
        log.entries().len() < log.next_offset(),
        limit >= 1,
        0 <= j <= log.entries().len(),
        fuel >= log.entries().len() - j,
    ensures
        pull_until_empty(log.entries(), cursor_at(log.entries(), j), limit, fuel) == (
            log.entries().skip(j),
            pages_for((log.entries().len() - j) as nat, limit) + 1,
        ),
    decreases log.entries().len() - j,
{
    let e = log.entries();
    lemma_page_after_position(log, j, limit);
    let p = page_after(e, cursor_at(e, j), limit);
    if j == e.len() {
        assert(e.skip(j) =~= Seq::<EventDescriptor<ItemEvent, ItemId>>::empty());
    } else {
        let j2 = if j + limit <= e.len() { j + limit } else { e.len() as int };
        assert(p =~= e.subrange(j, j2));
        assert(page_cursor(p) == cursor_at(e, j2));
        lemma_paging_from(log, j2, limit, (fuel - 1) as nat);
        assert(p + e.skip(j2) =~= e.skip(j));
    }
}

/// A local append on the server of events whose ids are new to the log and to
/// each other adds them all at the end, with batch write offsets 1, 2, ...,
/// consecutive server offsets from `next`, and their clock readings.
pub proof fn lemma_server_fresh_local_append(
    entries: Seq<EventDescriptor<ItemEvent, ItemId>>,
    next: nat,
    events: Seq<AppendEvent<ItemEvent, ItemId>>,
    times: Seq<i64>,
)
    requires
        times.len() == events.len(),
        forall|i: int| 0 <= i < events.len() ==> !has_event_id(entries, (#[trigger] events[i]).replica_event_id),
        forall|i: int, j: int| 0 <= i < j < events.len() ==> (#[trigger] events[i]).replica_event_id != (#[trigger] events[j]).replica_event_id,
        forall|i: int| 0 <= i < events.len() ==> (#[trigger] events[i]).replica_write_offset is None,
    ensures
        server_append(entries, next, events, times, true).0 == entries + Seq::new(
            events.len(),
            |i: int| server_descriptor(events[i], (i + 1) as u64, (next + i) as u64, times[i]),
        ),
        server_append(entries, next, events, times, true).2 == next + events.len(),
        server_append(entries, next, events, times, true).3 == events.len(),
    decreases events.len(),
{
    if events.len() > 0 {
        let t = events.drop_last();
        let tt = times.drop_last();
        assert forall|i: int| 0 <= i < t.len() implies !has_event_id(entries, (#[trigger] t[i]).replica_event_id) by {
            assert(t[i] == events[i]);
        }
        assert forall|i: int, j: int| 0 <= i < j < t.len() implies (#[trigger] t[i]).replica_event_id != (#[trigger] t[j]).replica_event_id by {
            assert(t[i] == events[i] && t[j] == events[j]);
        }
        assert forall|i: int| 0 <= i < t.len() implies (#[trigger] t[i]).replica_write_offset is None by {
            assert(t[i] == events[i]);
        }
        lemma_server_fresh_local_append(entries, next, t, tt);
        let prev = server_append(entries, next, t, tt, true);
        let ev = events.last();
        let n = events.len() - 1;
        assert(ev == events[n]);
        let fresh_t = Seq::new(t.len(), |i: int| server_descriptor(t[i], (i + 1) as u64, (next + i) as u64, tt[i]));
        assert(!has_event_id(prev.0, ev.replica_event_id)) by {
            if has_event_id(prev.0, ev.replica_event_id) {
                let w = choose|w: int| 0 <= w < prev.0.len() && (#[trigger] prev.0[w]).replica_event_id == ev.replica_event_id;
                if w < entries.len() {
                    assert(prev.0[w] == entries[w]);
                } else {
                    assert(prev.0[w] == fresh_t[w - entries.len()]);
                    assert(t[w - entries.len()] == events[w - entries.len()]);
                }
            }
        }
        assert(times.last() == times[n]);
        let full = Seq::new(events.len(), |i: int| server_descriptor(events[i], (i + 1) as u64, (next + i) as u64, times[i]));
        assert(entries + full =~= (entries + fresh_t).push(server_descriptor(ev, (n + 1) as u64, (next + n) as u64, times.last()))) by {
            assert forall|i: int| 0 <= i < t.len() implies full[i] == fresh_t[i] by {
                assert(t[i] == events[i]);
                assert(tt[i] == times[i]);
            }
        }
    }
}

} // verus!
