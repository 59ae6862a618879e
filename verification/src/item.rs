//! The demo domain: an inventory `Item`, its events, and the fold that turns an
//! item's history into its current state.

use vstd::prelude::*;
use crate::event_core::{
    EntityEvent, EntityId, Event, EventDescriptor, EventSourcedEntity, ServerOffset,
    fold_order, ids_unique, lemma_fold_order_exists, lemma_fold_order_members, lemma_latest_time_folds_last,
    lemma_same_events_same_fold_order,
};

verus! {

/// Everything that can happen to an `Item`, as facts in the past tense.
#[derive(Debug, PartialEq, Eq)]
pub enum ItemEvent {
    Created { name: String, quantity: i64 },
    Renamed { name: String },
    QuantityChanged { quantity: i64 },
    NoteChanged { note: Option<String> },
    Deleted,
}

impl Event for ItemEvent {
    fn duplicate(&self) -> (r: Self)
        ensures
            r == *self,
    {
        self.clone()
    }
}

/// The mathematical content of an `ItemEvent`.
pub enum ItemEventModel {
    Created { name: Seq<char>, quantity: i64 },
    Renamed { name: Seq<char> },
    QuantityChanged { quantity: i64 },
    NoteChanged { note: Option<Seq<char>> },
    Deleted,
}

/// The view of an optional string.
pub open spec fn opt_view(o: Option<String>) -> Option<Seq<char>> {
    match o {
        Some(s) => Some(s@),
        None => None,
    }
}

impl View for ItemEvent {
    type V = ItemEventModel;

    open spec fn view(&self) -> ItemEventModel {
        match self {
            ItemEvent::Created { name, quantity } => ItemEventModel::Created { name: name@, quantity: *quantity },
            ItemEvent::Renamed { name } => ItemEventModel::Renamed { name: name@ },
            ItemEvent::QuantityChanged { quantity } => ItemEventModel::QuantityChanged { quantity: *quantity },
            ItemEvent::NoteChanged { note } => ItemEventModel::NoteChanged { note: opt_view(*note) },
            ItemEvent::Deleted => ItemEventModel::Deleted,
        }
    }
}

/// Copy an optional string.
pub fn copy_opt_string(o: &Option<String>) -> (r: Option<String>)
    ensures
        r == *o,
{
    match o {
        Some(s) => Some(s.clone()),
        None => None,
    }
}

impl Clone for ItemEvent {
    fn clone(&self) -> (r: Self)
        ensures
            r == *self,
    {
        match self {
            ItemEvent::Created { name, quantity } => ItemEvent::Created { name: name.clone(), quantity: *quantity },
            ItemEvent::Renamed { name } => ItemEvent::Renamed { name: name.clone() },
            ItemEvent::QuantityChanged { quantity } => ItemEvent::QuantityChanged { quantity: *quantity },
            ItemEvent::NoteChanged { note } => ItemEvent::NoteChanged { note: copy_opt_string(note) },
            ItemEvent::Deleted => ItemEvent::Deleted,
        }
    }
}

impl Clone for EntityEvent<ItemEvent> {
    fn clone(&self) -> (r: Self)
        ensures
            r == *self,
    {
        EntityEvent { event: self.event.clone(), modified_at_ms: self.modified_at_ms }
    }
}

impl Clone for EventDescriptor<ItemEvent, ItemId> {
    fn clone(&self) -> (r: Self)
        ensures
            r == *self,
    {
        EventDescriptor {
            replica_event_id: self.replica_event_id,
            replica_write_offset: self.replica_write_offset,
            replica_time_ms: self.replica_time_ms,
            replica_id: self.replica_id.clone(),
            server_offset: self.server_offset,
            server_time_ms: self.server_time_ms,
            entity_id: self.entity_id,
            payload: self.payload.clone(),
        }
    }
}

/// The identity of an item: the 128 bits of its UUID.
#[derive(Clone, Copy, Debug, PartialEq, Eq, Hash, Default, Structural)]
pub struct ItemId(pub u128);

impl EntityId for ItemId {
}

/// The current, folded state of an item. Derivative: always reconstructable
/// from its event history.
#[derive(Debug, PartialEq, Eq)]
pub struct Item {
    pub id: ItemId,
    pub name: String,
    pub quantity: i64,
    pub note: Option<String>,
    /// Soft delete. Deletion is terminal: once set, later events are ignored.
    pub deleted: bool,
    pub last_modified_ms: i64,
    /// The changes recorded since the item was last stored (the list that
    /// `uncommitted_events` hands out).
    pub uncommitted: Vec<EntityEvent<ItemEvent>>,
}

/// The mathematical content of an `Item`.
pub struct ItemModel {
    pub id: u128,
    pub name: Seq<char>,
    pub quantity: i64,
    pub note: Option<Seq<char>>,
    pub deleted: bool,
    pub last_modified_ms: i64,
    /// Recorded changes not yet stored: each event with when it happened.
    pub uncommitted: Seq<(ItemEventModel, i64)>,
}

/// The model of a list of recorded changes.
pub open spec fn pending_model(v: Seq<EntityEvent<ItemEvent>>) -> Seq<(ItemEventModel, i64)> {
    v.map_values(|e: EntityEvent<ItemEvent>| (e.event@, e.modified_at_ms))
}

impl View for Item {
    type V = ItemModel;

    open spec fn view(&self) -> ItemModel {
        ItemModel {
            id: self.id.0,
            name: self.name@,
            quantity: self.quantity,
            note: opt_view(self.note),
            deleted: self.deleted,
            last_modified_ms: self.last_modified_ms,
            uncommitted: pending_model(self.uncommitted@),
        }
    }
}

/// A fresh item with the given id and nothing happened to it yet.
pub open spec fn blank_item(id: u128) -> ItemModel {
    ItemModel {
        id,
        name: Seq::empty(),
        quantity: 0,
        note: None,
        deleted: false,
        last_modified_ms: 0,
        uncommitted: Seq::empty(),
    }
}

/// One step of the fold. Deletion is terminal: a deleted item ignores every
/// later event. Otherwise the event sets its field(s) and the modification time.
pub open spec fn apply_model(m: ItemModel, e: ItemEventModel, at: i64) -> ItemModel {
    if m.deleted {
        m
    } else {
        match e {
            ItemEventModel::Created { name, quantity } => ItemModel { name, quantity, last_modified_ms: at, ..m },
            ItemEventModel::Renamed { name } => ItemModel { name, last_modified_ms: at, ..m },
            ItemEventModel::QuantityChanged { quantity } => ItemModel { quantity, last_modified_ms: at, ..m },
            ItemEventModel::NoteChanged { note } => ItemModel { note, last_modified_ms: at, ..m },
            ItemEventModel::Deleted => ItemModel { deleted: true, last_modified_ms: at, ..m },
        }
    }
}

/// Fold a history, in the order given, onto a starting state.
pub open spec fn fold_history(m: ItemModel, events: Seq<EventDescriptor<ItemEvent, ItemId>>) -> ItemModel
    decreases events.len(),
{
    if events.len() == 0 {
        m
    } else {
        apply_model(fold_history(m, events.drop_last()), events.last().payload@, events.last().replica_time_ms)
    }
}

/// The item a history rebuilds: a blank item with the id of the first event,
/// folded over the whole history.
pub open spec fn rebuilt_item(events: Seq<EventDescriptor<ItemEvent, ItemId>>) -> ItemModel {
    fold_history(blank_item(if events.len() > 0 { events[0].entity_id.0 } else { 0 }), events)
}

/// Record a change on a model: remember it as uncommitted, then apply it.
pub open spec fn record_model(m: ItemModel, e: ItemEventModel, at: i64) -> ItemModel {
    apply_model(ItemModel { uncommitted: m.uncommitted.push((e, at)), ..m }, e, at)
}

/// Copy a list of recorded changes.
fn copy_pending(v: &Vec<EntityEvent<ItemEvent>>) -> (r: Vec<EntityEvent<ItemEvent>>)
    ensures
        r@ == v@,
{
    let mut r: Vec<EntityEvent<ItemEvent>> = Vec::new();
    let mut i: usize = 0;
    while i < v.len()
        invariant
            i <= v.len(),
            r@ == v@.take(i as int),
        decreases v.len() - i,
    {
        r.push(v[i].clone());
        assert(r@ =~= v@.take(i as int + 1));
        i = i + 1;
    }
    assert(r@ =~= v@);
    r
}

impl Clone for Item {
    fn clone(&self) -> (r: Self)
        ensures
            r@ == self@,
    {
        Item {
            id: self.id,
            name: self.name.clone(),
            quantity: self.quantity,
            note: copy_opt_string(&self.note),
            deleted: self.deleted,
            last_modified_ms: self.last_modified_ms,
            uncommitted: copy_pending(&self.uncommitted),
        }
    }
}

impl Default for Item {
    fn default() -> (r: Self)
        ensures
            r@ == blank_item(0),
    {
        let r = Item {
            id: ItemId(0),
            name: String::new(),
            quantity: 0,
            note: None,
            deleted: false,
            last_modified_ms: 0,
            uncommitted: Vec::new(),
        };
        assert(r@.uncommitted =~= Seq::<(ItemEventModel, i64)>::empty());
        r
    }
}

/// Read access to the folded fields.
impl Item {
    pub fn name(&self) -> (r: &String)
        ensures
            r@ == self@.name,
    {
        &self.name
    }

    pub fn is_deleted(&self) -> (r: bool)
        ensures
            r == self@.deleted,
    {
        self.deleted
    }

    /// How many changes were recorded since the item was last stored.
    pub fn uncommitted_len(&self) -> (r: usize)
        ensures
            r == self@.uncommitted.len(),
    {
        self.uncommitted.len()
    }

    /// Take the item apart into its id, name, quantity and note.
    pub fn into_fields(self) -> (r: (ItemId, String, i64, Option<String>))
        ensures
            r.0.0 == self@.id,
            r.1@ == self@.name,
            r.2 == self@.quantity,
            opt_view(r.3) == self@.note,
    {
        (self.id, self.name, self.quantity, self.note)
    }
}

/// Domain operations. Each records a domain event, which is applied at once and
/// kept as uncommitted until a storage persists it.
impl Item {
    pub fn create(id: ItemId, name: String, quantity: i64, now_ms: i64) -> (r: Self)
        ensures
            r@ == record_model(blank_item(id.0), ItemEventModel::Created { name: name@, quantity }, now_ms),
    {
        let mut item = Item::default();
        item.id = id;
        item.new_event(EntityEvent { event: ItemEvent::Created { name, quantity }, modified_at_ms: now_ms });
        item
    }

    pub fn set_quantity(&mut self, quantity: i64, now_ms: i64)
        ensures
            final(self)@ == record_model(old(self)@, ItemEventModel::QuantityChanged { quantity }, now_ms),
    {
        self.new_event(EntityEvent { event: ItemEvent::QuantityChanged { quantity }, modified_at_ms: now_ms });
    }

    pub fn rename(&mut self, name: String, now_ms: i64)
        ensures
            final(self)@ == record_model(old(self)@, ItemEventModel::Renamed { name: name@ }, now_ms),
    {
        self.new_event(EntityEvent { event: ItemEvent::Renamed { name }, modified_at_ms: now_ms });
    }

    pub fn set_note(&mut self, note: Option<String>, now_ms: i64)
        ensures
            final(self)@ == record_model(old(self)@, ItemEventModel::NoteChanged { note: opt_view(note) }, now_ms),
    {
        self.new_event(EntityEvent { event: ItemEvent::NoteChanged { note }, modified_at_ms: now_ms });
    }

    pub fn delete(&mut self, now_ms: i64)
        ensures
            final(self)@ == record_model(old(self)@, ItemEventModel::Deleted, now_ms),
    {
        self.new_event(EntityEvent { event: ItemEvent::Deleted, modified_at_ms: now_ms });
    }
}

impl EventSourcedEntity for Item {
    type Evt = ItemEvent;
    type EntId = ItemId;
    type State = ItemModel;

    /// The item's model with its uncommitted changes left out.
    open spec fn state(&self) -> ItemModel {
        ItemModel { uncommitted: Seq::empty(), ..self@ }
    }

    open spec fn pending(&self) -> Seq<EntityEvent<ItemEvent>> {
        self.uncommitted@
    }

    open spec fn applied(s: ItemModel, e: ItemEvent, at: i64) -> ItemModel {
        apply_model(s, e@, at)
    }

    open spec fn blank_state() -> ItemModel {
        blank_item(0)
    }

    proof fn lemma_default_is_blank(r: Self) {
        assert(pending_model(r.uncommitted@).len() == r.uncommitted@.len());
        assert(r.uncommitted@ =~= Seq::<EntityEvent<ItemEvent>>::empty());
    }

    fn uncommitted_events(&mut self) -> (r: &mut Vec<EntityEvent<ItemEvent>>)
        ensures
            pending_model(r@) == old(self)@.uncommitted,
            final(self)@ == (ItemModel { uncommitted: pending_model(final(r)@), ..old(self)@ }),
    {
        &mut self.uncommitted
    }

    fn apply_event(&mut self, event: ItemEvent, modified_at_ms: i64)
        ensures
            final(self)@ == apply_model(old(self)@, event@, modified_at_ms),
    {
        // Deletion is terminal: this one guard is the whole "deletion wins" rule.
        if self.deleted {
            return;
        }
        self.last_modified_ms = modified_at_ms;
        match event {
            ItemEvent::Created { name, quantity } => {
                self.name = name;
                self.quantity = quantity;
            },
            ItemEvent::Renamed { name } => self.name = name,
            ItemEvent::QuantityChanged { quantity } => self.quantity = quantity,
            ItemEvent::NoteChanged { note } => self.note = note,
            ItemEvent::Deleted => self.deleted = true,
        }
    }

    fn id(&self) -> (r: &ItemId)
        ensures
            r.0 == self@.id,
    {
        &self.id
    }

    fn build_from_history(events: Vec<EventDescriptor<ItemEvent, ItemId>>) -> (r: Self)
        ensures
            r@ == rebuilt_item(events@),
    {
        let mut entity = Item::default();
        if events.len() > 0 {
            entity.id = events[0].entity_id;
        }
        let ghost start = entity@;
        assert(start == blank_item(if events@.len() > 0 { events@[0].entity_id.0 } else { 0 }));
        let mut i: usize = 0;
        while i < events.len()
            invariant
                i <= events.len(),
                entity@ == fold_history(start, events@.take(i as int)),
            decreases events.len() - i,
        {
            let at = events[i].replica_time_ms;
            entity.apply_event(events[i].payload.clone(), at);
            assert(events@.take(i as int + 1).drop_last() =~= events@.take(i as int));
            i = i + 1;
        }
        assert(events@.take(events@.len() as int) =~= events@);
        entity
    }

    fn new_event(&mut self, event: EntityEvent<ItemEvent>)
        ensures
            final(self)@ == record_model(old(self)@, event.event@, event.modified_at_ms),
    {
        self.uncommitted.push(event.clone());
        assert(pending_model(self.uncommitted@) =~= old(self)@.uncommitted.push((event.event@, event.modified_at_ms)));
        self.apply_event(event.event, event.modified_at_ms);
    }
}

// ---------------------------------------------------------------------------
// Laws of the fold.
// ---------------------------------------------------------------------------

/// Folding a concatenated history is folding the first part, then the second.
pub proof fn lemma_fold_history_concat(m: ItemModel, a: Seq<EventDescriptor<ItemEvent, ItemId>>, b: Seq<EventDescriptor<ItemEvent, ItemId>>)
    ensures
        fold_history(m, a + b) == fold_history(fold_history(m, a), b),
    decreases b.len(),
{
    if b.len() == 0 {
        assert(a + b =~= a);
    } else {
        lemma_fold_history_concat(m, a, b.drop_last());
        assert((a + b).drop_last() =~= a + b.drop_last());
        assert((a + b).last() == b.last());
    }
}

/// Folding never changes an item's id or its uncommitted changes.
pub proof fn lemma_fold_keeps_identity(m: ItemModel, events: Seq<EventDescriptor<ItemEvent, ItemId>>)
    ensures
        fold_history(m, events).id == m.id,
        fold_history(m, events).uncommitted == m.uncommitted,
    decreases events.len(),
{
    if events.len() > 0 {
        lemma_fold_keeps_identity(m, events.drop_last());
    }
}

/// Deletion is terminal: once an item is deleted, no further event changes it.
pub proof fn lemma_deleted_is_terminal(m: ItemModel, events: Seq<EventDescriptor<ItemEvent, ItemId>>)
    requires
        m.deleted,
    ensures
        fold_history(m, events) == m,
    decreases events.len(),
{
    if events.len() > 0 {
        lemma_deleted_is_terminal(m, events.drop_last());
    }
}

/// Deletion wins: if a history holds a `Deleted` event, the folded item is
/// deleted, and every event after the deletion is ignored.
pub proof fn lemma_deletion_wins(m: ItemModel, events: Seq<EventDescriptor<ItemEvent, ItemId>>, i: int)
    requires
        0 <= i < events.len(),
        events[i].payload@ is Deleted,
    ensures
        fold_history(m, events).deleted,
        fold_history(m, events) == fold_history(m, events.take(i + 1)),
{
    let before = fold_history(m, events.take(i));
    assert(events.take(i + 1).drop_last() =~= events.take(i));
    let at_delete = fold_history(m, events.take(i + 1));
    assert(at_delete.deleted);
    assert(events =~= events.take(i + 1) + events.skip(i + 1));
    lemma_fold_history_concat(m, events.take(i + 1), events.skip(i + 1));
    lemma_deleted_is_terminal(at_delete, events.skip(i + 1));
}

/// Replicas converge: two replicas holding the same events (each log without
/// duplicate ids), whatever order the events arrived in, rebuild the same item
/// once the events are put in fold order.
pub proof fn lemma_replicas_converge(a: Seq<EventDescriptor<ItemEvent, ItemId>>, b: Seq<EventDescriptor<ItemEvent, ItemId>>)
    requires
        ids_unique(a),
        ids_unique(b),
        forall|d: EventDescriptor<ItemEvent, ItemId>| a.contains(d) <==> b.contains(d),
    ensures
        rebuilt_item(fold_order(a)) == rebuilt_item(fold_order(b)),
{
    lemma_same_events_same_fold_order(a, b);
}

/// A history with no deletion leaves the deleted flag as it was.
pub proof fn lemma_no_deletion_keeps_flag(m: ItemModel, events: Seq<EventDescriptor<ItemEvent, ItemId>>)
    requires
        forall|j: int| 0 <= j < events.len() ==> !((#[trigger] events[j]).payload@ is Deleted),
    ensures
        fold_history(m, events).deleted == m.deleted,
    decreases events.len(),
{
    if events.len() > 0 {
        assert forall|j: int| 0 <= j < events.drop_last().len() implies !((#[trigger] events.drop_last()[j]).payload@ is Deleted) by {
            assert(events.drop_last()[j] == events[j]);
        }
        lemma_no_deletion_keeps_flag(m, events.drop_last());
        assert(!(events[events.len() - 1].payload@ is Deleted));
    }
}

/// Last writer by clock wins: in a history without deletion, the quantity change
/// with the strictly latest device time decides the rebuilt quantity, whatever
/// order the events arrived in.
pub proof fn lemma_latest_clock_wins(events: Seq<EventDescriptor<ItemEvent, ItemId>>, i: int, quantity: i64)
    requires
        0 <= i < events.len(),
        events[i].payload@ == (ItemEventModel::QuantityChanged { quantity }),
        forall|j: int| 0 <= j < events.len() && j != i ==> (#[trigger] events[j]).replica_time_ms < events[i].replica_time_ms,
        forall|j: int| 0 <= j < events.len() ==> !((#[trigger] events[j]).payload@ is Deleted),
    ensures
        rebuilt_item(fold_order(events)).quantity == quantity,
{
    lemma_latest_time_folds_last(events, i);
    lemma_fold_order_exists(events);
    let out = fold_order(events);
    let start = blank_item(out[0].entity_id.0);
    assert forall|j: int| 0 <= j < out.drop_last().len() implies !((#[trigger] out.drop_last()[j]).payload@ is Deleted) by {
        lemma_fold_order_members(out, events, j);
        assert(out.drop_last()[j] == out[j]);
        let w = choose|w: int| 0 <= w < events.len() && events[w] == out[j];
        assert(!(events[w].payload@ is Deleted));
    }
    lemma_no_deletion_keeps_flag(start, out.drop_last());
}

/// A model with its uncommitted changes dropped.
pub open spec fn without_pending(m: ItemModel) -> ItemModel {
    ItemModel { uncommitted: Seq::empty(), ..m }
}

/// Apply recorded changes, in order, onto a starting state.
pub open spec fn replay_pending(base: ItemModel, pending: Seq<(ItemEventModel, i64)>) -> ItemModel
    decreases pending.len(),
{
    if pending.len() == 0 {
        base
    } else {
        apply_model(replay_pending(base, pending.drop_last()), pending.last().0, pending.last().1)
    }
}

/// Recording a change keeps an item equal to its starting state with its
/// uncommitted changes replayed on it: the in-memory item is what the changes
/// make of it.
pub proof fn lemma_record_keeps_replay(base: ItemModel, m: ItemModel, e: ItemEventModel, at: i64)
    requires
        without_pending(m) == replay_pending(base, m.uncommitted),
    ensures
        without_pending(record_model(m, e, at)) == replay_pending(base, record_model(m, e, at).uncommitted),
{
    let m2 = ItemModel { uncommitted: m.uncommitted.push((e, at)), ..m };
    assert(record_model(m, e, at).uncommitted == m.uncommitted.push((e, at)));
    assert(m.uncommitted.push((e, at)).drop_last() =~= m.uncommitted);
    assert(without_pending(m2) == without_pending(m));
}

/// Folding stored events whose payloads and times are those of recorded
/// changes is replaying the changes.
pub proof fn lemma_fold_is_replay(base: ItemModel, events: Seq<EventDescriptor<ItemEvent, ItemId>>, pending: Seq<(ItemEventModel, i64)>)
    requires
        events.len() == pending.len(),
        forall|i: int| 0 <= i < events.len() ==> (#[trigger] events[i]).payload@ == pending[i].0 && events[i].replica_time_ms == pending[i].1,
    ensures
        fold_history(base, events) == replay_pending(base, pending),
    decreases events.len(),
{
    if events.len() > 0 {
        assert forall|i: int| 0 <= i < events.drop_last().len() implies (#[trigger] events.drop_last()[i]).payload@ == pending.drop_last()[i].0
            && events.drop_last()[i].replica_time_ms == pending.drop_last()[i].1 by {
            assert(events.drop_last()[i] == events[i]);
        }
        lemma_fold_is_replay(base, events.drop_last(), pending.drop_last());
        assert(events[events.len() - 1] == events.last());
    }
}


/// Each event changes only the fields it is about. On a live item: creation
/// sets the name and the quantity; a rename sets only the name; a quantity
/// change only the quantity; a note change only the note; a deletion only the
/// deleted flag; and every event stamps its time. The id and the uncommitted
/// changes are never touched, and a deleted item is left as it is.
pub proof fn lemma_event_changes_only_its_fields(m: ItemModel, e: ItemEventModel, at: i64)
    ensures
        m.deleted ==> apply_model(m, e, at) == m,
        !m.deleted ==> {
            let r = apply_model(m, e, at);
            &&& r.id == m.id
            &&& r.uncommitted == m.uncommitted
            &&& r.last_modified_ms == at
            &&& r.name == match e {
                ItemEventModel::Created { name, .. } => name,
                ItemEventModel::Renamed { name } => name,
                _ => m.name,
            }
            &&& r.quantity == match e {
                ItemEventModel::Created { quantity, .. } => quantity,
                ItemEventModel::QuantityChanged { quantity } => quantity,
                _ => m.quantity,
            }
            &&& r.note == match e {
                ItemEventModel::NoteChanged { note } => note,
                _ => m.note,
            }
            &&& r.deleted == (e is Deleted)
        },
{
}

/// The note the last note change of a history sets, if it has one.
pub open spec fn last_note_set(h: Seq<EventDescriptor<ItemEvent, ItemId>>, otherwise: Option<Seq<char>>) -> Option<Seq<char>>
    decreases h.len(),
{
    if h.len() == 0 {
        otherwise
    } else {
        match h.last().payload@ {
            ItemEventModel::NoteChanged { note } => note,
            _ => last_note_set(h.drop_last(), otherwise),
        }
    }
}

/// The name the last creation or rename of a history sets, if it has one.
pub open spec fn last_name_set(h: Seq<EventDescriptor<ItemEvent, ItemId>>, otherwise: Seq<char>) -> Seq<char>
    decreases h.len(),
{
    if h.len() == 0 {
        otherwise
    } else {
        match h.last().payload@ {
            ItemEventModel::Created { name, .. } => name,
            ItemEventModel::Renamed { name } => name,
            _ => last_name_set(h.drop_last(), otherwise),
        }
    }
}

/// The quantity the last creation or quantity change of a history sets, if it
/// has one.
pub open spec fn last_quantity_set(h: Seq<EventDescriptor<ItemEvent, ItemId>>, otherwise: i64) -> i64
    decreases h.len(),
{
    if h.len() == 0 {
        otherwise
    } else {
        match h.last().payload@ {
            ItemEventModel::Created { quantity, .. } => quantity,
            ItemEventModel::QuantityChanged { quantity } => quantity,
            _ => last_quantity_set(h.drop_last(), otherwise),
        }
    }
}

/// Each field is the last writer's: folding a history without a deletion,
/// the note is the one the last note change set (renames, creations and
/// quantity changes leave it alone), the name the one the last creation or
/// rename set, and the quantity the one the last creation or quantity change
/// set; with no such event the field keeps its starting value.
pub proof fn lemma_each_field_is_its_last_writers(m: ItemModel, h: Seq<EventDescriptor<ItemEvent, ItemId>>)
    requires
        !m.deleted,
        forall|i: int| 0 <= i < h.len() ==> !((#[trigger] h[i]).payload@ is Deleted),
    ensures
        fold_history(m, h).note == last_note_set(h, m.note),
        fold_history(m, h).name == last_name_set(h, m.name),
        fold_history(m, h).quantity == last_quantity_set(h, m.quantity),
        !fold_history(m, h).deleted,
    decreases h.len(),
{
    if h.len() > 0 {
        let t = h.drop_last();
        assert forall|i: int| 0 <= i < t.len() implies !((#[trigger] t[i]).payload@ is Deleted) by {
            assert(t[i] == h[i]);
        }
        lemma_each_field_is_its_last_writers(m, t);
        assert(h.last() == h[h.len() - 1]);
        lemma_event_changes_only_its_fields(fold_history(m, t), h.last().payload@, h.last().replica_time_ms);
    }
}

} // verus!
