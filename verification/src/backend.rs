//! The server's request logic: store pushed events and rebuild the projections
//! they touch; serve pages of the stream.

use vstd::prelude::*;
use crate::device_log::first_n;
use crate::event_core::{EventDescriptor, ServerOffset};
use crate::event_log::{AppendEvent, EntityEventLog, EventsPage};
use crate::item::{ItemEvent, ItemId};
use crate::item_storage::{ItemStorage, ordered_history, projected_row, row_at};
use crate::server_log::{ServerEventLog, new_id_count, cursor_value, offsets_increase, server_append, stored_after};
use crate::sync::page_entities;

verus! {

/// How many events a pull returns when the request names no limit.
pub const DEFAULT_PAGE_LIMIT: usize = 500;

/// The entity of each event, in order.
pub fn entities_of(events: &Vec<EventDescriptor<ItemEvent, ItemId>>) -> (r: Vec<ItemId>)
    ensures
        r@ == page_entities(events@),
{
    let mut r: Vec<ItemId> = Vec::new();
    let mut i: usize = 0;
    while i < events.len()
        invariant
            i <= events@.len(),
            r@ == page_entities(events@.take(i as int)),
        decreases events.len() - i,
    {
        r.push(events[i].entity_id);
        assert(page_entities(events@.take(i as int + 1)) =~= page_entities(events@.take(i as int)).push(events@[i as int].entity_id));
        i = i + 1;
    }
    assert(events@.take(events@.len() as int) =~= events@);
    r
}

/// Push side: store the events (assigning server offsets), rebuild the
/// projections of every entity the stored events belong to, and return the
/// stored events; the device records the assigned offsets as its
/// acknowledgement.
pub fn append_events(storage: &mut ItemStorage<ServerEventLog>, events: Vec<AppendEvent<ItemEvent, ItemId>>) -> (stored: Vec<
    EventDescriptor<ItemEvent, ItemId>,
>)
    requires
        old(storage).wf(),
        old(storage).log_state().next_offset() + new_id_count(old(storage).log_state().entries(), events@) <= u64::MAX,
    ensures
        final(storage).wf(),
        final(storage).replica_id() == old(storage).replica_id(),
        exists|times: Seq<i64>|
            #![trigger server_append(old(storage).log_state().entries(), old(storage).log_state().next_offset(), events@, times, false)]
            times.len() == events@.len() && {
                let r = server_append(old(storage).log_state().entries(), old(storage).log_state().next_offset(), events@, times, false);
                &&& final(storage).log_state().entries() == r.0
                &&& stored@ == r.1
                &&& final(storage).log_state().next_offset() == r.2
            },
        forall|k: u128| #[trigger] row_at(final(storage).rows(), k) == if page_entities(stored@).contains(ItemId(k)) {
            projected_row(ordered_history(final(storage).log_state(), ItemId(k)))
        } else {
            row_at(old(storage).rows(), k)
        },
{
    let stored = storage.log_mut().append(events);
    let ids = entities_of(&stored);
    storage.build_projections(ids.as_slice());
    stored
}

/// Pull side: the events after `after`, at most `limit` (500 when unset).
pub fn events_page(log: &ServerEventLog, after: Option<u64>, limit: Option<usize>) -> (page: EventsPage<ItemEvent, ItemId>)
    requires
        log.inv(),
    ensures
        ({
            let cursor = match after {
                Some(a) => a,
                None => 0,
            };
            let lim = match limit {
                Some(l) => l,
                None => DEFAULT_PAGE_LIMIT,
            };
            page.events@ == first_n(log.entries().filter(stored_after(cursor)), lim as nat)
        }),
        offsets_increase(page.events@),
        page.next_offset == if page.events@.len() == 0 {
            None
        } else {
            page.events@.last().server_offset
        },
{
    let offset = match after {
        Some(a) => Some(ServerOffset(a)),
        None => None,
    };
    let lim = match limit {
        Some(l) => l,
        None => DEFAULT_PAGE_LIMIT,
    };
    log.events_after(offset, lim)
}

} // verus!
