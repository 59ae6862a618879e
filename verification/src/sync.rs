//! The device-side sync round, as a state machine. A round pushes the events
//! this device authored that the server has not acknowledged (`server_offset`
//! unset), records each acknowledgement, then pulls the server's events after
//! the last offset seen and folds them in. It works on a copy of the local log
//! and of the pull cursor and hands them back only when it completes, so a
//! round cut short by a failure leaves local state untouched. The transport is
//! the caller's: each step says what to send, and the caller hands back the
//! reply.

use vstd::prelude::*;
use crate::device_log::{
    DeviceEventLog, extends, first_n, has_event_id, lemma_acknowledged_never_pushed_again, lemma_replicated_append_facts,
    lemma_replicated_append_idempotent, acks_for, lemma_acknowledged_is_synced, replicated_append, replicated_descriptor, synced_entry, unsynced_of,
};
use crate::event_core::{EventDescriptor, ServerOffset, ids_unique};
use crate::event_log::{AppendEvent, EntityEventLog, EventsPage, append_event_of};
use crate::item::{ItemEvent, ItemId};
use crate::server_log::lemma_filter_suffix;

verus! {

/// The error surfaced when a sync fails (for instance, the backend is unreachable).
#[derive(Debug)]
pub enum SyncError {
    Transport { message: String },
}

impl SyncError {
    /// The error's message.
    pub fn to_string(&self) -> (r: String)
        ensures
            r@ == match self {
                SyncError::Transport { message } => message@,
            },
    {
        match self {
            SyncError::Transport { message } => message.clone(),
        }
    }
}

/// Per-device sync state: who this device is, and how far into the server's
/// stream it has pulled. The push side needs no cursor: "what still needs
/// pushing" is marked on the events themselves.
#[derive(Debug)]
pub struct SyncState {
    replica_id: String,
    pulled: Option<ServerOffset>,
}

impl SyncState {
    /// This device's replica id.
    pub closed spec fn replica(&self) -> Seq<char> {
        self.replica_id@
    }

    /// The highest server offset pulled so far.
    pub closed spec fn cursor(&self) -> Option<ServerOffset> {
        self.pulled
    }

    pub fn new(replica_id: String) -> (r: Self)
        ensures
            r.replica() == replica_id@,
            r.cursor() is None,
    {
        SyncState { replica_id, pulled: None }
    }

    pub fn pulled(&self) -> (r: Option<ServerOffset>)
        ensures
            r == self.cursor(),
    {
        self.pulled
    }

    pub fn replica_id(&self) -> (r: &String)
        ensures
            r@ == self.replica(),
    {
        &self.replica_id
    }
}

/// Implemented by the app; told when a sync changed local data.
pub trait SyncListener {
    fn on_items_changed(&self);
}

/// Tell the listener, if there is one, when a sync changed local data.
pub fn notify_if_changed<T: SyncListener>(changed: bool, listener: Option<&T>) {
    if changed {
        match listener {
            Some(l) => l.on_items_changed(),
            None => {},
        }
    }
}

/// What a sync round asks its caller to do next.
#[derive(Debug)]
pub enum SyncStep {
    /// Send these events to the server, and answer with `ServerReply::Acknowledged`.
    Push(Vec<AppendEvent<ItemEvent, ItemId>>),
    /// Ask the server for its events after `after`, at most `limit`, and answer
    /// with `ServerReply::Page`.
    Pull { after: Option<ServerOffset>, limit: usize },
    /// The round is over; these entities were touched by the pull.
    Done(Vec<ItemId>),
}

/// What the server answered.
#[derive(Debug)]
pub enum ServerReply {
    /// The pushed events as the server stored them.
    Acknowledged(Vec<EventDescriptor<ItemEvent, ItemId>>),
    /// A page of the server's stream.
    Page(EventsPage<ItemEvent, ItemId>),
}

/// The events of a log that a push sends: this replica's unacknowledged events,
/// oldest first, at most `batch`, turned back into appendable events.
pub open spec fn events_to_push(entries: Seq<EventDescriptor<ItemEvent, ItemId>>, replica: Seq<char>, batch: nat) -> Seq<
    AppendEvent<ItemEvent, ItemId>,
> {
    first_n(entries.filter(unsynced_of(replica)), batch).map_values(|d: EventDescriptor<ItemEvent, ItemId>| append_event_of(d))
}

/// The entities the events of a page belong to, in page order.
pub open spec fn page_entities(events: Seq<EventDescriptor<ItemEvent, ItemId>>) -> Seq<ItemId> {
    events.map_values(|d: EventDescriptor<ItemEvent, ItemId>| d.entity_id)
}

/// Turn stored events back into appendable ones.
pub fn appendable(events: &Vec<EventDescriptor<ItemEvent, ItemId>>) -> (r: Vec<AppendEvent<ItemEvent, ItemId>>)
    ensures
        r@ == events@.map_values(|d: EventDescriptor<ItemEvent, ItemId>| append_event_of(d)),
{
    let mut r: Vec<AppendEvent<ItemEvent, ItemId>> = Vec::new();
    let mut i: usize = 0;
    while i < events.len()
        invariant
            i <= events@.len(),
            r@ == events@.take(i as int).map_values(|d: EventDescriptor<ItemEvent, ItemId>| append_event_of(d)),
        decreases events.len() - i,
    {
        r.push(AppendEvent::from(&events[i]));
        assert(r@ =~= events@.take(i as int + 1).map_values(|d: EventDescriptor<ItemEvent, ItemId>| append_event_of(d)));
        i = i + 1;
    }
    assert(events@.take(events@.len() as int) =~= events@);
    r
}

/// One sync round in progress. The round works on a copy of the local log and
/// of the pull cursor, and hands both back only when it completes: a round that
/// is abandoned (the transport failed) leaves the log and the cursor as they
/// were, and a later round retries.
#[derive(Debug)]
pub struct SyncRound {
    batch: usize,
    touched: Vec<ItemId>,
    staged: DeviceEventLog,
    cursor: Option<ServerOffset>,
}

impl SyncRound {
    /// How many events one push or pull carries at most.
    pub closed spec fn batch_size(&self) -> nat {
        self.batch as nat
    }

    /// The entities the pull has touched so far.
    pub closed spec fn touched_so_far(&self) -> Seq<ItemId> {
        self.touched@
    }

    /// The round's working copy of the local log.
    pub closed spec fn staged_entries(&self) -> Seq<EventDescriptor<ItemEvent, ItemId>> {
        self.staged.entries()
    }

    /// The round's working pull cursor.
    pub closed spec fn staged_cursor(&self) -> Option<ServerOffset> {
        self.cursor
    }

    /// The working copy is a well-formed log.
    pub closed spec fn wf(&self) -> bool {
        self.staged.inv()
    }

    /// Start a round on a copy of the local log and of the pull cursor.
    pub fn new(batch: usize, local: &DeviceEventLog, state: &SyncState) -> (r: Self)
        requires
            local.inv(),
        ensures
            r.wf(),
            r.batch_size() == batch,
            r.touched_so_far() == Seq::<ItemId>::empty(),
            r.staged_entries() == local.entries(),
            r.staged_cursor() == state.cursor(),
    {
        SyncRound { batch, touched: Vec::new(), staged: local.snapshot(), cursor: state.pulled }
    }

    /// Take the next step of the round. Start with no reply; afterwards hand
    /// back the server's reply to the step before.
    ///
    /// - A page with events: fold them into the working log (an event held
    ///   already is skipped), move the working cursor to the page's cursor,
    ///   note the entities touched, and pull again.
    /// - An empty page: the round is done; the working log and cursor become
    ///   the local log and the pull cursor.
    /// - No reply, or an acknowledgement (recorded on the working log first):
    ///   push the next batch of unacknowledged events, or, when there is none,
    ///   start pulling from the working cursor.
    ///
    /// Until the round is done, the local log and the pull cursor stay as they
    /// were.
    pub fn step(&mut self, local: &mut DeviceEventLog, state: &mut SyncState, reply: Option<ServerReply>) -> (next: SyncStep)
        requires
            old(self).wf(),
            old(local).inv(),
        ensures
            final(self).wf(),
            final(local).inv(),
            final(self).batch_size() == old(self).batch_size(),
            final(state).replica() == old(state).replica(),
            match reply {
                Some(ServerReply::Page(page)) => if page.events@.len() == 0 {
                    &&& final(local).entries() == old(self).staged_entries()
                    &&& final(state).cursor() == old(self).staged_cursor()
                    &&& next matches SyncStep::Done(ids) && ids@ == old(self).touched_so_far()
                } else {
                    &&& final(local).entries() == old(local).entries()
                    &&& final(state).cursor() == old(state).cursor()
                    &&& final(self).staged_entries() == replicated_append(
                        old(self).staged_entries(),
                        page.events@.map_values(|d: EventDescriptor<ItemEvent, ItemId>| append_event_of(d)),
                    )
                    &&& final(self).staged_cursor() == page.next_offset
                    &&& final(self).touched_so_far() == old(self).touched_so_far() + page_entities(page.events@)
                    &&& next matches SyncStep::Pull { after, limit } && after == page.next_offset && limit == old(self).batch_size()
                },
                _ => {
                    let recorded = match reply {
                        Some(ServerReply::Acknowledged(acks)) => old(self).staged_entries().map_values(
                            |e: EventDescriptor<ItemEvent, ItemId>| synced_entry(e, acks@),
                        ),
                        _ => old(self).staged_entries(),
                    };
                    let to_push = events_to_push(recorded, old(state).replica(), old(self).batch_size());
                    &&& final(local).entries() == old(local).entries()
                    &&& final(state).cursor() == old(state).cursor()
                    &&& final(self).staged_entries() == recorded
                    &&& final(self).staged_cursor() == old(self).staged_cursor()
                    &&& final(self).touched_so_far() == old(self).touched_so_far()
                    &&& if to_push.len() > 0 {
                        next matches SyncStep::Push(events) && events@ == to_push
                    } else {
                        next matches SyncStep::Pull { after, limit } && after == old(self).staged_cursor() && limit == old(self).batch_size()
                    }
                },
            },
    {
        match reply {
            Some(ServerReply::Page(page)) => {
                if page.events.len() == 0 {
                    let mut ids: Vec<ItemId> = Vec::new();
                    std::mem::swap(&mut ids, &mut self.touched);
                    std::mem::swap(local, &mut self.staged);
                    state.pulled = self.cursor;
                    return SyncStep::Done(ids);
                }
                let ghost touched_before = self.touched@;
                let mut i: usize = 0;
                while i < page.events.len()
                    invariant
                        i <= page.events@.len(),
                        self.batch == old(self).batch,
                        self.staged == old(self).staged,
                        self.touched@ == touched_before + page_entities(page.events@.take(i as int)),
                    decreases page.events.len() - i,
                {
                    self.touched.push(page.events[i].entity_id);
                    assert(page_entities(page.events@.take(i as int + 1)) =~= page_entities(page.events@.take(i as int)).push(
                        page.events@[i as int].entity_id,
                    ));
                    i = i + 1;
                }
                assert(page.events@.take(page.events@.len() as int) =~= page.events@);
                let incoming = appendable(&page.events);
                self.staged.append(incoming);
                self.cursor = page.next_offset;
                return SyncStep::Pull { after: self.cursor, limit: self.batch };
            },
            Some(ServerReply::Acknowledged(acks)) => {
                self.staged.mark_synced(acks.as_slice());
            },
            None => {},
        }
        let unsynced = self.staged.get_unsynced(state.replica_id.as_str(), self.batch);
        if unsynced.len() == 0 {
            return SyncStep::Pull { after: self.cursor, limit: self.batch };
        }
        SyncStep::Push(appendable(&unsynced))
    }
}

/// A round keeps what it pulls: once a page of the server's stream is folded
/// into a log, the log holds every event of the page and every event it held
/// before, and a second delivery of the same page changes nothing.
pub proof fn lemma_pulled_page_is_held(entries: Seq<EventDescriptor<ItemEvent, ItemId>>, page: Seq<EventDescriptor<ItemEvent, ItemId>>)
    requires
        ids_unique(entries),
    ensures
        ({
            let incoming = page.map_values(|d: EventDescriptor<ItemEvent, ItemId>| append_event_of(d));
            let after = replicated_append(entries, incoming);
            &&& forall|i: int| 0 <= i < page.len() ==> has_event_id(after, (#[trigger] page[i]).replica_event_id)
            &&& extends(entries, after)
            &&& replicated_append(after, incoming) == after
        }),
{
    let incoming = page.map_values(|d: EventDescriptor<ItemEvent, ItemId>| append_event_of(d));
    lemma_replicated_append_facts(entries, incoming);
    lemma_replicated_append_idempotent(entries, incoming);
    assert forall|i: int| 0 <= i < page.len() implies has_event_id(replicated_append(entries, incoming), (#[trigger] page[i]).replica_event_id) by {
        assert(incoming[i].replica_event_id == page[i].replica_event_id);
    }
}

/// A round's push moves on: once the server's acknowledgements (each with an
/// offset) are recorded, the next batch a round pushes holds none of the
/// acknowledged events.
pub proof fn lemma_acknowledged_batch_moves_on(
    entries: Seq<EventDescriptor<ItemEvent, ItemId>>,
    acks: Seq<EventDescriptor<ItemEvent, ItemId>>,
    replica: Seq<char>,
    batch: nat,
)
    requires
        forall|a: int| 0 <= a < acks.len() ==> (#[trigger] acks[a]).server_offset is Some,
    ensures
        ({
            let recorded = entries.map_values(|e: EventDescriptor<ItemEvent, ItemId>| synced_entry(e, acks));
            let next = events_to_push(recorded, replica, batch);
            forall|i: int, a: int| 0 <= i < next.len() && 0 <= a < acks.len()
                ==> (#[trigger] next[i]).replica_event_id != (#[trigger] acks[a]).replica_event_id
        }),
{
    let recorded = entries.map_values(|e: EventDescriptor<ItemEvent, ItemId>| synced_entry(e, acks));
    let out = first_n(recorded.filter(unsynced_of(replica)), batch);
    lemma_acknowledged_never_pushed_again(entries, acks, replica, batch);
    let next = events_to_push(recorded, replica, batch);
    assert forall|i: int, a: int| 0 <= i < next.len() && 0 <= a < acks.len()
        implies (#[trigger] next[i]).replica_event_id != (#[trigger] acks[a]).replica_event_id by {
        assert(next[i] == append_event_of(out[i]));
        assert(out[i].replica_event_id != acks[a].replica_event_id);
    }
}

/// The working log after a round folds in the given pages, in order.
pub open spec fn after_pages(entries: Seq<EventDescriptor<ItemEvent, ItemId>>, pages: Seq<Seq<EventDescriptor<ItemEvent, ItemId>>>) -> Seq<
    EventDescriptor<ItemEvent, ItemId>,
>
    decreases pages.len(),
{
    if pages.len() == 0 {
        entries
    } else {
        replicated_append(
            after_pages(entries, pages.drop_last()),
            pages.last().map_values(|d: EventDescriptor<ItemEvent, ItemId>| append_event_of(d)),
        )
    }
}

/// Folding in events that all carry a server offset adds no unacknowledged
/// event.
proof fn lemma_replicated_adds_no_unsynced(
    entries: Seq<EventDescriptor<ItemEvent, ItemId>>,
    events: Seq<AppendEvent<ItemEvent, ItemId>>,
    replica: Seq<char>,
)
    requires
        entries.filter(unsynced_of(replica)).len() == 0,
        forall|i: int| 0 <= i < events.len() ==> (#[trigger] events[i]).server_offset is Some,
    ensures
        replicated_append(entries, events).filter(unsynced_of(replica)).len() == 0,
    decreases events.len(),
{
    if events.len() > 0 {
        let t = events.drop_last();
        assert forall|i: int| 0 <= i < t.len() implies (#[trigger] t[i]).server_offset is Some by {
            assert(t[i] == events[i]);
        }
        lemma_replicated_adds_no_unsynced(entries, t, replica);
        let e = replicated_append(entries, t);
        if !has_event_id(e, events.last().replica_event_id) {
            assert(events.last() == events[events.len() - 1]);
            e.lemma_filter_push(replicated_descriptor(events.last()), unsynced_of(replica));
        }
    }
}

/// What a completed round leaves: once the push phase ends (nothing of this
/// replica is left to push, with a batch of at least one) and the pages of the
/// server's stream, whose events all carry server offsets, are folded in, no
/// event of this replica is unacknowledged and every pulled event is held.
pub proof fn lemma_completed_round(
    recorded: Seq<EventDescriptor<ItemEvent, ItemId>>,
    replica: Seq<char>,
    batch: nat,
    pages: Seq<Seq<EventDescriptor<ItemEvent, ItemId>>>,
)
    requires
        ids_unique(recorded),
        batch >= 1,
        events_to_push(recorded, replica, batch).len() == 0,
        forall|p: int, i: int| 0 <= p < pages.len() && 0 <= i < pages[p].len() ==> (#[trigger] pages[p][i]).server_offset is Some,
    ensures
        after_pages(recorded, pages).filter(unsynced_of(replica)).len() == 0,
        ids_unique(after_pages(recorded, pages)),
        forall|p: int, i: int| 0 <= p < pages.len() && 0 <= i < pages[p].len()
            ==> has_event_id(after_pages(recorded, pages), (#[trigger] pages[p][i]).replica_event_id),
    decreases pages.len(),
{
    assert(recorded.filter(unsynced_of(replica)).len() == 0) by {
        let f = recorded.filter(unsynced_of(replica));
        if f.len() > 0 {
            assert(first_n(f, batch).len() > 0);
        }
    }
    if pages.len() > 0 {
        let rest = pages.drop_last();
        assert forall|p: int, i: int| 0 <= p < rest.len() && 0 <= i < rest[p].len() implies (#[trigger] rest[p][i]).server_offset is Some by {
            assert(rest[p] == pages[p]);
        }
        lemma_completed_round(recorded, replica, batch, rest);
        let before = after_pages(recorded, rest);
        let page = pages.last();
        let incoming = page.map_values(|d: EventDescriptor<ItemEvent, ItemId>| append_event_of(d));
        assert forall|i: int| 0 <= i < incoming.len() implies (#[trigger] incoming[i]).server_offset is Some by {
            assert(page == pages[pages.len() - 1]);
            assert(page[i].server_offset is Some);
        }
        lemma_replicated_adds_no_unsynced(before, incoming, replica);
        lemma_pulled_page_is_held(before, page);
        assert forall|p: int, i: int| 0 <= p < pages.len() && 0 <= i < pages[p].len()
            implies has_event_id(after_pages(recorded, pages), (#[trigger] pages[p][i]).replica_event_id) by {
            if p < rest.len() {
                assert(rest[p] == pages[p]);
                assert(has_event_id(before, rest[p][i].replica_event_id));
                let w = choose|w: int| 0 <= w < before.len() && (#[trigger] before[w]).replica_event_id == rest[p][i].replica_event_id;
                assert(after_pages(recorded, pages)[w] == before[w]);
            } else {
                assert(pages[p] == page);
            }
        }
        lemma_replicated_append_facts(before, incoming);
    }
}

/// Recording acknowledgements that all carry an offset leaves unacknowledged
/// exactly the unacknowledged events whose ids were not acknowledged.
proof fn lemma_recorded_unsynced(
    entries: Seq<EventDescriptor<ItemEvent, ItemId>>,
    acks: Seq<EventDescriptor<ItemEvent, ItemId>>,
    replica: Seq<char>,
)
    requires
        forall|a: int| 0 <= a < acks.len() ==> (#[trigger] acks[a]).server_offset is Some,
    ensures
        entries.map_values(|e: EventDescriptor<ItemEvent, ItemId>| synced_entry(e, acks)).filter(unsynced_of(replica))
            == entries.filter(unsynced_of(replica)).filter(|e: EventDescriptor<ItemEvent, ItemId>| acks_for(acks, e.replica_event_id).len() == 0),
    decreases entries.len(),
{
    let notacked = |e: EventDescriptor<ItemEvent, ItemId>| acks_for(acks, e.replica_event_id).len() == 0;
    if entries.len() > 0 {
        let t = entries.drop_last();
        let x = entries.last();
        lemma_recorded_unsynced(t, acks, replica);
        let f = |e: EventDescriptor<ItemEvent, ItemId>| synced_entry(e, acks);
        assert(entries.map_values(f) =~= t.map_values(f).push(synced_entry(x, acks)));
        assert(t.push(x) =~= entries);
        t.map_values(f).lemma_filter_push(synced_entry(x, acks), unsynced_of(replica));
        t.lemma_filter_push(x, unsynced_of(replica));
        t.filter(unsynced_of(replica)).lemma_filter_push(x, notacked);
        if acks_for(acks, x.replica_event_id).len() > 0 {
            let mine = acks_for(acks, x.replica_event_id);
            assert(mine.contains(mine.last()));
            acks.lemma_filter_contains_rev(|a: EventDescriptor<ItemEvent, ItemId>| a.replica_event_id == x.replica_event_id, mine.last());
            lemma_acknowledged_is_synced(x, acks, replica);
        }
    }
}

/// A push answered honestly moves on by exactly one batch: when the server
/// acknowledges (with offsets) exactly the pushed batch of this replica's
/// unacknowledged events, the events left unacknowledged are the ones after
/// that batch.
pub proof fn lemma_honest_ack_moves_one_batch(
    entries: Seq<EventDescriptor<ItemEvent, ItemId>>,
    acks: Seq<EventDescriptor<ItemEvent, ItemId>>,
    replica: Seq<char>,
    batch: nat,
)
    requires
        forall|a: int| 0 <= a < acks.len() ==> (#[trigger] acks[a]).server_offset is Some,
        forall|i: int| 0 <= i < entries.filter(unsynced_of(replica)).len() ==> (acks_for(
            acks,
            (#[trigger] entries.filter(unsynced_of(replica))[i]).replica_event_id,
        ).len() > 0 <==> i < first_n(entries.filter(unsynced_of(replica)), batch).len()),
    ensures
        entries.map_values(|e: EventDescriptor<ItemEvent, ItemId>| synced_entry(e, acks)).filter(unsynced_of(replica))
            == entries.filter(unsynced_of(replica)).skip(first_n(entries.filter(unsynced_of(replica)), batch).len() as int),
{
    let pending = entries.filter(unsynced_of(replica));
    let n = first_n(pending, batch).len() as int;
    let notacked = |e: EventDescriptor<ItemEvent, ItemId>| acks_for(acks, e.replica_event_id).len() == 0;
    lemma_recorded_unsynced(entries, acks, replica);
    assert forall|i: int| 0 <= i < pending.len() implies (notacked(#[trigger] pending[i]) <==> i >= n) by {}
    lemma_filter_suffix(pending, notacked, n);
}

} // verus!
