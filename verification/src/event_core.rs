//! The domain-agnostic event-sourcing core: events, their descriptors, and the
//! one total order in which every replica folds an entity's history.

use vstd::prelude::*;

verus! {

/// Anything that can be an event: it can be cloned, since it is both kept and
/// applied.
pub trait Event: Sized + Clone {
    /// An exact copy of the event.
    fn duplicate(&self) -> (r: Self)
        ensures
            r == *self,
    ;
}

/// Anything that can identify an entity.
pub trait EntityId: Sized {
}

/// A monotonic position in the server's event stream, assigned by the server
/// when it stores an event. On a device, an event whose `server_offset` is
/// `None` has not been synced yet.
#[derive(Clone, Copy, Debug, PartialEq, Eq, Structural)]
pub struct ServerOffset(pub u64);

/// A locally produced event that has not been persisted yet: the change and
/// when it happened.
#[derive(Debug, PartialEq, Eq)]
pub struct EntityEvent<E> {
    pub event: E,
    pub modified_at_ms: i64,
}

/// A persisted event: the unit that syncs between replicas.
#[derive(Debug)]
pub struct EventDescriptor<E, EntId> {
    /// Unique across all replicas (the 128 bits of a UUID).
    pub replica_event_id: u128,
    /// Per-replica tie-breaker for events sharing a timestamp.
    pub replica_write_offset: u64,
    /// The authoring replica's wall-clock at creation.
    pub replica_time_ms: i64,
    /// Which device or server produced the event.
    pub replica_id: String,
    /// Position in the server's stream; `None` on a device until synced.
    pub server_offset: Option<ServerOffset>,
    /// Server wall-clock when the server stored the event.
    pub server_time_ms: Option<i64>,
    pub entity_id: EntId,
    pub payload: E,
}

/// The one trait a domain entity implements: it defines how one event changes
/// its state (`apply_event`), and gets the rebuild from history and the
/// recording of new changes from that.
pub trait EventSourcedEntity: Sized + Default {
    type Evt: Event;
    type EntId: EntityId;
    /// The mathematical state of an entity, apart from its uncommitted changes.
    type State;

    /// The entity's state, apart from its uncommitted changes.
    spec fn state(&self) -> Self::State;

    /// The changes recorded since the entity was last stored.
    spec fn pending(&self) -> Seq<EntityEvent<Self::Evt>>;

    /// The state that one event, happening at time `at`, leads to from `s`.
    spec fn applied(s: Self::State, e: Self::Evt, at: i64) -> Self::State;

    /// The state of a blank entity, to which nothing happened yet.
    spec fn blank_state() -> Self::State;

    /// The entity's `Default` is the blank entity: the blank state, with no
    /// uncommitted changes.
    proof fn lemma_default_is_blank(r: Self)
        requires
            call_ensures(<Self as Default>::default, (), r),
        ensures
            r.state() == Self::blank_state(),
            r.pending() == Seq::<EntityEvent<Self::Evt>>::empty(),
    ;

    /// The changes recorded since the entity was last stored; whatever the
    /// caller leaves in the list is the entity's list afterwards.
    fn uncommitted_events(&mut self) -> (r: &mut Vec<EntityEvent<Self::Evt>>)
        ensures
            r@ == old(self).pending(),
            final(self).pending() == final(r)@,
            final(self).state() == old(self).state(),
    ;

    /// Given the current state, one event, and when it happened, produce the
    /// next state.
    fn apply_event(&mut self, event: Self::Evt, modified_at_ms: i64)
        ensures
            final(self).state() == Self::applied(old(self).state(), event, modified_at_ms),
            final(self).pending() == old(self).pending(),
    ;

    fn id(&self) -> &Self::EntId;

    /// Rebuild an entity by folding its full history, given in fold order:
    /// start from `Self::default()` and apply each event at its replica time.
    fn build_from_history(events: Vec<EventDescriptor<Self::Evt, Self::EntId>>) -> (r: Self)
        default_ensures
            r.state() == fold_with(|s: Self::State, e: Self::Evt, at: i64| Self::applied(s, e, at), Self::blank_state(), events@),
            r.pending() == Seq::<EntityEvent<Self::Evt>>::empty(),
    {
        let mut entity = Self::default();
        proof {
            Self::lemma_default_is_blank(entity);
        }
        let mut i: usize = 0;
        while i < events.len()
            invariant
                i <= events.len(),
                entity.state() == fold_with(|s: Self::State, e: Self::Evt, at: i64| Self::applied(s, e, at), Self::blank_state(), events@.take(i as int)),
                entity.pending() == Seq::<EntityEvent<Self::Evt>>::empty(),
            decreases events.len() - i,
        {
            let at = events[i].replica_time_ms;
            entity.apply_event(events[i].payload.duplicate(), at);
            assert(events@.take(i as int + 1).drop_last() =~= events@.take(i as int));
            i = i + 1;
        }
        assert(events@.take(events@.len() as int) =~= events@);
        entity
    }

    /// Record a new local change: remember it as uncommitted, and apply it now
    /// so the in-memory state reflects it at once.
    fn new_event(&mut self, event: EntityEvent<Self::Evt>)
        ensures
            final(self).pending() == old(self).pending().push(event),
            final(self).state() == Self::applied(old(self).state(), event.event, event.modified_at_ms),
    {
        let kept = EntityEvent { event: event.event.duplicate(), modified_at_ms: event.modified_at_ms };
        self.uncommitted_events().push(kept);
        self.apply_event(event.event, event.modified_at_ms);
    }
}

/// The state a history leads to from `s` when `f` gives the state one event,
/// at its replica time, leads to: each event applied in order.
pub open spec fn fold_with<S, E, K>(f: spec_fn(S, E, i64) -> S, s: S, events: Seq<EventDescriptor<E, K>>) -> S
    decreases events.len(),
{
    if events.len() == 0 {
        s
    } else {
        f(fold_with(f, s, events.drop_last()), events.last().payload, events.last().replica_time_ms)
    }
}

/// The fold-order key of a descriptor:
/// `replica_time_ms`, then `replica_write_offset`, then `replica_event_id`.
pub open spec fn key_of<E, EntId>(d: EventDescriptor<E, EntId>) -> (i64, u64, u128) {
    (d.replica_time_ms, d.replica_write_offset, d.replica_event_id)
}

/// Lexicographic "strictly before" on fold-order keys.
pub open spec fn key_lt(a: (i64, u64, u128), b: (i64, u64, u128)) -> bool {
    ||| a.0 < b.0
    ||| (a.0 == b.0 && a.1 < b.1)
    ||| (a.0 == b.0 && a.1 == b.1 && a.2 < b.2)
}

/// Lexicographic "not after" on fold-order keys.
pub open spec fn key_le(a: (i64, u64, u128), b: (i64, u64, u128)) -> bool {
    !key_lt(b, a)
}

/// Every event comes no later than the ones after it.
pub open spec fn in_fold_order<E, EntId>(s: Seq<EventDescriptor<E, EntId>>) -> bool {
    forall|i: int, j: int| 0 <= i < j < s.len() ==> key_le(key_of(#[trigger] s[i]), key_of(#[trigger] s[j]))
}

/// The predicate "has fold-order key `k`".
pub open spec fn has_key<E, EntId>(k: (i64, u64, u128)) -> spec_fn(EventDescriptor<E, EntId>) -> bool {
    |d: EventDescriptor<E, EntId>| key_of(d) == k
}

/// The events of `s` whose key is `k`, in the order they stand in `s`.
pub open spec fn events_with_key<E, EntId>(s: Seq<EventDescriptor<E, EntId>>, k: (i64, u64, u128)) -> Seq<EventDescriptor<E, EntId>> {
    s.filter(has_key(k))
}

/// `out` is `inp` put in fold order, with events of equal key kept in the order
/// they had in `inp` (a stable sort).
pub open spec fn is_fold_order_of<E, EntId>(out: Seq<EventDescriptor<E, EntId>>, inp: Seq<EventDescriptor<E, EntId>>) -> bool {
    &&& in_fold_order(out)
    &&& forall|k: (i64, u64, u128)| #[trigger] events_with_key(out, k) == events_with_key(inp, k)
}

/// The canonical fold order of a batch of events (there is exactly one such
/// sequence: see `lemma_fold_order_exists` and `lemma_fold_order_unique`).
pub open spec fn fold_order<E, EntId>(inp: Seq<EventDescriptor<E, EntId>>) -> Seq<EventDescriptor<E, EntId>> {
    choose|out: Seq<EventDescriptor<E, EntId>>| is_fold_order_of(out, inp)
}

/// No two events share a `replica_event_id`.
pub open spec fn ids_unique<E, EntId>(s: Seq<EventDescriptor<E, EntId>>) -> bool {
    forall|i: int, j: int| 0 <= i < j < s.len() ==> (#[trigger] s[i]).replica_event_id != (#[trigger] s[j]).replica_event_id
}

/// The fold-order key of a descriptor.
pub fn order_key<E, EntId>(d: &EventDescriptor<E, EntId>) -> (k: (i64, u64, u128))
    ensures
        k == key_of(*d),
{
    (d.replica_time_ms, d.replica_write_offset, d.replica_event_id)
}

/// Whether key `a` comes strictly before key `b`.
fn key_precedes(a: (i64, u64, u128), b: (i64, u64, u128)) -> (r: bool)
    ensures
        r == key_lt(a, b),
{
    if a.0 != b.0 {
        a.0 < b.0
    } else if a.1 != b.1 {
        a.1 < b.1
    } else {
        a.2 < b.2
    }
}

/// Sort a batch of events into the canonical fold order, in place. The sort is
/// stable: events with equal keys keep their relative order.
pub fn sort_events<E, EntId>(events: &mut Vec<EventDescriptor<E, EntId>>)
    ensures
        is_fold_order_of(final(events)@, old(events)@),
        final(events)@ == fold_order(old(events)@),
{
    let ghost orig = events@;
    let n = events.len();
    let mut i: usize = 0;
    while i < n
        invariant
            events@.len() == n,
            orig.len() == n,
            i <= n,
            is_fold_order_of(events@.take(i as int), orig.take(i as int)),
            events@.skip(i as int) == orig.skip(i as int),
        decreases n - i,
    {
        let ghost p = events@.take(i as int);
        let ghost rest = orig.skip(i as int + 1);
        assert(events@ =~= p + seq![orig[i as int]] + rest) by {
            assert(events@ =~= events@.take(i as int) + events@.skip(i as int));
            assert(orig.skip(i as int) =~= seq![orig[i as int]] + rest);
        }
        let x = events.remove(i);
        assert(events@ =~= p + rest);
        let kx = order_key(&x);
        let mut j: usize = i;
        while j > 0 && key_precedes(kx, order_key(&events[j - 1]))
            invariant
                j <= i,
                i < n,
                p.len() == i,
                events@ == p + rest,
                kx == key_of(x),
                forall|m: int| j <= m < i ==> key_lt(kx, key_of(#[trigger] p[m])),
            decreases j,
        {
            j = j - 1;
        }
        events.insert(j, x);
        proof {
            lemma_insert_in_fold_order(p, orig.take(i as int), x, j as int);
            assert(orig.take(i as int).push(x) =~= orig.take(i as int + 1));
            assert(events@.take(i as int + 1) =~= p.take(j as int) + seq![x] + p.skip(j as int));
            assert(events@.skip(i as int + 1) =~= orig.skip(i as int + 1));
        }
        i = i + 1;
    }
    proof {
        assert(events@.take(n as int) =~= events@);
        assert(orig.take(n as int) =~= orig);
        lemma_fold_order_exists(orig);
        lemma_fold_order_unique(events@, fold_order(orig), orig);
    }
}

/// Every event of a fold order comes from the batch it orders.
pub proof fn lemma_fold_order_members<E, EntId>(out: Seq<EventDescriptor<E, EntId>>, inp: Seq<EventDescriptor<E, EntId>>, i: int)
    requires
        is_fold_order_of(out, inp),
        0 <= i < out.len(),
    ensures
        inp.contains(out[i]),
{
    let k = key_of(out[i]);
    assert(out.contains(out[i]));
    lemma_run_membership(out, k, out[i]);
    lemma_run_membership(inp, k, out[i]);
    assert(events_with_key(out, k) == events_with_key(inp, k));
}

/// Every event of a batch stands in its fold order.
pub proof fn lemma_fold_order_covers<E, EntId>(out: Seq<EventDescriptor<E, EntId>>, inp: Seq<EventDescriptor<E, EntId>>, i: int)
    requires
        is_fold_order_of(out, inp),
        0 <= i < inp.len(),
    ensures
        out.contains(inp[i]),
{
    let k = key_of(inp[i]);
    assert(inp.contains(inp[i]));
    lemma_run_membership(inp, k, inp[i]);
    lemma_run_membership(out, k, inp[i]);
    assert(events_with_key(out, k) == events_with_key(inp, k));
}

/// The event with the strictly latest clock time of a batch comes last in its
/// fold order.
pub proof fn lemma_latest_time_folds_last<E, EntId>(inp: Seq<EventDescriptor<E, EntId>>, i: int)
    requires
        0 <= i < inp.len(),
        forall|j: int| 0 <= j < inp.len() && j != i ==> (#[trigger] inp[j]).replica_time_ms < inp[i].replica_time_ms,
    ensures
        fold_order(inp).len() > 0,
        fold_order(inp).last() == inp[i],
{
    lemma_fold_order_exists(inp);
    let out = fold_order(inp);
    lemma_fold_order_covers(out, inp, i);
    let w = choose|w: int| 0 <= w < out.len() && out[w] == inp[i];
    let last = out.len() - 1;
    lemma_fold_order_members(out, inp, last);
    let j = choose|j: int| 0 <= j < inp.len() && inp[j] == out[last];
    if w < last {
        assert(key_le(key_of(out[w]), key_of(out[last])));
        if j != i {
            assert(inp[j].replica_time_ms < inp[i].replica_time_ms);
        }
    }
}

/// Events that all come after every event of a batch, given in fold order,
/// fold after the batch: the fold order of the whole is the batch's fold order
/// followed by them.
pub proof fn lemma_fold_order_of_later_events<E, EntId>(h: Seq<EventDescriptor<E, EntId>>, d: Seq<EventDescriptor<E, EntId>>)
    requires
        in_fold_order(d),
        forall|x: int, y: int| 0 <= x < h.len() && 0 <= y < d.len() ==> key_lt(key_of(#[trigger] h[x]), key_of(#[trigger] d[y])),
    ensures
        fold_order(h + d) == fold_order(h) + d,
{
    lemma_fold_order_exists(h);
    let fh = fold_order(h);
    let out = fh + d;
    assert forall|i: int, j: int| 0 <= i < j < out.len() implies key_le(key_of(#[trigger] out[i]), key_of(#[trigger] out[j])) by {
        if j < fh.len() {
            assert(out[i] == fh[i] && out[j] == fh[j]);
        } else if i >= fh.len() {
            assert(out[i] == d[i - fh.len()] && out[j] == d[j - fh.len()]);
        } else {
            assert(out[i] == fh[i] && out[j] == d[j - fh.len()]);
            lemma_fold_order_members(fh, h, i);
            let x = choose|x: int| 0 <= x < h.len() && h[x] == fh[i];
            assert(key_lt(key_of(h[x]), key_of(d[j - fh.len()])));
        }
    }
    assert forall|k: (i64, u64, u128)| #[trigger] events_with_key(out, k) == events_with_key(h + d, k) by {
        lemma_runs_concat(fh, d, k);
        lemma_runs_concat(h, d, k);
        assert(events_with_key(fh, k) == events_with_key(h, k));
    }
    lemma_fold_order_exists(h + d);
    lemma_fold_order_unique(out, fold_order(h + d), h + d);
}

// ---------------------------------------------------------------------------
// Lemmas about runs of equal keys.
// ---------------------------------------------------------------------------

/// Appending one event adds it to its own run and leaves every other run as it was.
pub proof fn lemma_runs_push<E, EntId>(s: Seq<EventDescriptor<E, EntId>>, x: EventDescriptor<E, EntId>, k: (i64, u64, u128))
    ensures
        events_with_key(s.push(x), k) == if key_of(x) == k {
            events_with_key(s, k).push(x)
        } else {
            events_with_key(s, k)
        },
{
    s.lemma_filter_push(x, has_key(k));
}

/// Runs distribute over concatenation.
pub proof fn lemma_runs_concat<E, EntId>(a: Seq<EventDescriptor<E, EntId>>, b: Seq<EventDescriptor<E, EntId>>, k: (i64, u64, u128))
    ensures
        events_with_key(a + b, k) == events_with_key(a, k) + events_with_key(b, k),
{
    Seq::filter_distributes_over_add(a, b, has_key(k));
}

/// A run is empty when no event has its key.
pub proof fn lemma_run_empty<E, EntId>(s: Seq<EventDescriptor<E, EntId>>, k: (i64, u64, u128))
    requires
        forall|m: int| 0 <= m < s.len() ==> key_of(#[trigger] s[m]) != k,
    ensures
        events_with_key(s, k) == Seq::<EventDescriptor<E, EntId>>::empty(),
    decreases s.len(),
{
    if s.len() == 0 {
        reveal(Seq::filter);
        assert(events_with_key(s, k) =~= Seq::<EventDescriptor<E, EntId>>::empty());
    } else {
        let t = s.drop_last();
        lemma_run_empty(t, k);
        assert(t.push(s.last()) =~= s);
        lemma_runs_push(t, s.last(), k);
    }
}

/// An event is in the run of `k` exactly when it is in the sequence and has key `k`.
pub proof fn lemma_run_membership<E, EntId>(s: Seq<EventDescriptor<E, EntId>>, k: (i64, u64, u128), x: EventDescriptor<E, EntId>)
    ensures
        events_with_key(s, k).contains(x) <==> (s.contains(x) && key_of(x) == k),
{
    let r = events_with_key(s, k);
    if r.contains(x) {
        s.lemma_filter_contains_rev(has_key(k), x);
        let i = choose|i: int| 0 <= i < r.len() && r[i] == x;
        s.lemma_filter_pred(has_key(k), i);
    }
    if s.contains(x) && key_of(x) == k {
        let i = choose|i: int| 0 <= i < s.len() && s[i] == x;
        s.lemma_filter_contains(has_key(k), i);
    }
}

/// With unique event ids a run holds at most one event.
pub proof fn lemma_unique_ids_short_runs<E, EntId>(s: Seq<EventDescriptor<E, EntId>>, k: (i64, u64, u128))
    requires
        ids_unique(s),
    ensures
        events_with_key(s, k).len() <= 1,
    decreases s.len(),
{
    if s.len() == 0 {
        reveal(Seq::filter);
    } else {
        let t = s.drop_last();
        assert(t.push(s.last()) =~= s);
        lemma_runs_push(t, s.last(), k);
        if key_of(s.last()) == k {
            assert forall|m: int| 0 <= m < t.len() implies key_of(#[trigger] t[m]) != k by {
                assert(s[m].replica_event_id != s[s.len() - 1].replica_event_id);
            }
            lemma_run_empty(t, k);
        } else {
            lemma_unique_ids_short_runs(t, k);
        }
    }
}

// ---------------------------------------------------------------------------
// Lemmas about the canonical fold order.
// ---------------------------------------------------------------------------

/// Inserting an event into a fold-ordered sequence just after the last event
/// that does not come after it yields the fold order of the longer input.
pub proof fn lemma_insert_in_fold_order<E, EntId>(
    p: Seq<EventDescriptor<E, EntId>>,
    inp: Seq<EventDescriptor<E, EntId>>,
    x: EventDescriptor<E, EntId>,
    j: int,
)
    requires
        is_fold_order_of(p, inp),
        0 <= j <= p.len(),
        forall|m: int| j <= m < p.len() ==> key_lt(key_of(x), key_of(#[trigger] p[m])),
        j > 0 ==> !key_lt(key_of(x), key_of(p[j - 1])),
    ensures
        is_fold_order_of(p.take(j) + seq![x] + p.skip(j), inp.push(x)),
{
    let a = p.take(j);
    let b = p.skip(j);
    let out = a + seq![x] + b;
    assert(p =~= a + b);
    assert forall|i: int, l: int| 0 <= i < l < out.len() implies key_le(key_of(#[trigger] out[i]), key_of(#[trigger] out[l])) by {
        if l < j {
            assert(out[i] == p[i] && out[l] == p[l]);
        } else if l == j {
            assert(out[i] == p[i]);
            assert(key_le(key_of(p[i]), key_of(p[j - 1])));
        } else if i == j {
            assert(out[l] == p[l - 1]);
        } else if i < j {
            assert(out[i] == p[i] && out[l] == p[l - 1]);
        } else {
            assert(out[i] == p[i - 1] && out[l] == p[l - 1]);
        }
    }
    assert forall|k: (i64, u64, u128)| #[trigger] events_with_key(out, k) == events_with_key(inp.push(x), k) by {
        lemma_runs_concat(a + seq![x], b, k);
        lemma_runs_concat(a, seq![x], k);
        lemma_runs_concat(a, b, k);
        lemma_runs_push(inp, x, k);
        assert(seq![x] =~= Seq::<EventDescriptor<E, EntId>>::empty().push(x));
        lemma_runs_push(Seq::<EventDescriptor<E, EntId>>::empty(), x, k);
        lemma_run_empty(Seq::<EventDescriptor<E, EntId>>::empty(), k);
        assert(events_with_key(p, k) == events_with_key(inp, k));
        if key_of(x) == k {
            assert forall|m: int| 0 <= m < b.len() implies key_of(#[trigger] b[m]) != k by {
                assert(b[m] == p[j + m]);
            }
            lemma_run_empty(b, k);
            assert(events_with_key(out, k) =~= events_with_key(inp, k).push(x));
        } else {
            assert(events_with_key(out, k) =~= events_with_key(inp, k));
        }
    }
}

/// Where `x` goes in a fold-ordered sequence: after every event that does not
/// come after it.
pub open spec fn insert_position<E, EntId>(p: Seq<EventDescriptor<E, EntId>>, kx: (i64, u64, u128)) -> int
    decreases p.len(),
{
    if p.len() == 0 {
        0
    } else if key_lt(kx, key_of(p.last())) {
        insert_position(p.drop_last(), kx)
    } else {
        p.len() as int
    }
}

proof fn lemma_insert_position<E, EntId>(p: Seq<EventDescriptor<E, EntId>>, kx: (i64, u64, u128))
    ensures
        0 <= insert_position(p, kx) <= p.len(),
        forall|m: int| insert_position(p, kx) <= m < p.len() ==> key_lt(kx, key_of(#[trigger] p[m])),
        insert_position(p, kx) > 0 ==> !key_lt(kx, key_of(p[insert_position(p, kx) - 1])),
    decreases p.len(),
{
    if p.len() > 0 && key_lt(kx, key_of(p.last())) {
        let t = p.drop_last();
        lemma_insert_position(t, kx);
        assert forall|m: int| insert_position(p, kx) <= m < p.len() implies key_lt(kx, key_of(#[trigger] p[m])) by {
            if m < p.len() - 1 {
                assert(p[m] == t[m]);
            }
        }
        if insert_position(p, kx) > 0 {
            assert(p[insert_position(p, kx) - 1] == t[insert_position(p, kx) - 1]);
        }
    }
}

/// Every batch of events has a fold order.
pub proof fn lemma_fold_order_exists<E, EntId>(s: Seq<EventDescriptor<E, EntId>>)
    ensures
        is_fold_order_of(fold_order(s), s),
    decreases s.len(),
{
    if s.len() == 0 {
        assert(is_fold_order_of(s, s));
    } else {
        let t = s.drop_last();
        let x = s.last();
        lemma_fold_order_exists(t);
        let w = fold_order(t);
        let j = insert_position(w, key_of(x));
        lemma_insert_position(w, key_of(x));
        lemma_insert_in_fold_order(w, t, x, j);
        assert(t.push(x) =~= s);
        assert(is_fold_order_of(w.take(j) + seq![x] + w.skip(j), s));
    }
}

/// Two fold-ordered sequences with the same runs of equal keys are the same sequence.
pub proof fn lemma_same_runs_same_sequence<E, EntId>(s1: Seq<EventDescriptor<E, EntId>>, s2: Seq<EventDescriptor<E, EntId>>)
    requires
        in_fold_order(s1),
        in_fold_order(s2),
        forall|k: (i64, u64, u128)| #[trigger] events_with_key(s1, k) == events_with_key(s2, k),
    ensures
        s1 == s2,
    decreases s1.len() + s2.len(),
{
    if s1.len() == 0 && s2.len() == 0 {
        assert(s1 =~= s2);
    } else if s1.len() == 0 || s2.len() == 0 {
        // the longer one has a non-empty run that the empty one lacks
        let s = if s1.len() == 0 { s2 } else { s1 };
        let k = key_of(s.last());
        lemma_run_membership(s, k, s.last());
        lemma_run_membership(s1, k, s.last());
        lemma_run_membership(s2, k, s.last());
        assert(s.contains(s.last()));
        assert(events_with_key(s1, k) == events_with_key(s2, k));
        assert(false);
    } else {
        let a = s1.last();
        let b = s2.last();
        let ka = key_of(a);
        let kb = key_of(b);
        // a's key occurs in s2, so it does not come after s2's last key, and vice versa
        lemma_run_membership(s1, ka, a);
        lemma_run_membership(s2, ka, a);
        assert(s1.contains(a));
        assert(events_with_key(s1, ka) == events_with_key(s2, ka));
        assert(s2.contains(a));
        let ia = choose|i: int| 0 <= i < s2.len() && s2[i] == a;
        if ia < s2.len() - 1 {
            assert(key_le(key_of(s2[ia]), key_of(s2[s2.len() - 1])));
        }
        assert(key_le(ka, kb));
        lemma_run_membership(s2, kb, b);
        lemma_run_membership(s1, kb, b);
        assert(s2.contains(b));
        assert(events_with_key(s1, kb) == events_with_key(s2, kb));
        assert(s1.contains(b));
        let ib = choose|i: int| 0 <= i < s1.len() && s1[i] == b;
        if ib < s1.len() - 1 {
            assert(key_le(key_of(s1[ib]), key_of(s1[s1.len() - 1])));
        }
        assert(key_le(kb, ka));
        assert(ka == kb);
        let t1 = s1.drop_last();
        let t2 = s2.drop_last();
        assert(t1.push(a) =~= s1);
        assert(t2.push(b) =~= s2);
        lemma_runs_push(t1, a, ka);
        lemma_runs_push(t2, b, ka);
        assert(events_with_key(s1, ka) == events_with_key(s2, ka));
        assert(events_with_key(t1, ka).push(a) == events_with_key(t2, ka).push(b));
        assert(a == events_with_key(t1, ka).push(a).last());
        assert(a == b);
        assert(events_with_key(t1, ka) =~= events_with_key(t1, ka).push(a).drop_last());
        assert(events_with_key(t2, ka) =~= events_with_key(t2, ka).push(b).drop_last());
        assert forall|k: (i64, u64, u128)| #[trigger] events_with_key(t1, k) == events_with_key(t2, k) by {
            lemma_runs_push(t1, a, k);
            lemma_runs_push(t2, b, k);
            assert(events_with_key(s1, k) == events_with_key(s2, k));
        }
        assert(in_fold_order(t1)) by {
            assert forall|i: int, j: int| 0 <= i < j < t1.len() implies key_le(key_of(#[trigger] t1[i]), key_of(#[trigger] t1[j])) by {
                assert(t1[i] == s1[i] && t1[j] == s1[j]);
            }
        }
        assert(in_fold_order(t2)) by {
            assert forall|i: int, j: int| 0 <= i < j < t2.len() implies key_le(key_of(#[trigger] t2[i]), key_of(#[trigger] t2[j])) by {
                assert(t2[i] == s2[i] && t2[j] == s2[j]);
            }
        }
        lemma_same_runs_same_sequence(t1, t2);
    }
}

/// The fold order of a batch is unique: any stable sort of it gives the same sequence.
pub proof fn lemma_fold_order_unique<E, EntId>(
    out1: Seq<EventDescriptor<E, EntId>>,
    out2: Seq<EventDescriptor<E, EntId>>,
    inp: Seq<EventDescriptor<E, EntId>>,
)
    requires
        is_fold_order_of(out1, inp),
        is_fold_order_of(out2, inp),
    ensures
        out1 == out2,
{
    assert forall|k: (i64, u64, u128)| #[trigger] events_with_key(out1, k) == events_with_key(out2, k) by {
        assert(events_with_key(out1, k) == events_with_key(inp, k));
        assert(events_with_key(out2, k) == events_with_key(inp, k));
    }
    lemma_same_runs_same_sequence(out1, out2);
}

/// Replicas converge: two replicas that hold the same events (each without
/// duplicate ids), in whatever order they arrived, put them in the same fold order.
pub proof fn lemma_same_events_same_fold_order<E, EntId>(a: Seq<EventDescriptor<E, EntId>>, b: Seq<EventDescriptor<E, EntId>>)
    requires
        ids_unique(a),
        ids_unique(b),
        forall|d: EventDescriptor<E, EntId>| a.contains(d) <==> b.contains(d),
    ensures
        fold_order(a) == fold_order(b),
{
    assert forall|k: (i64, u64, u128)| #[trigger] events_with_key(a, k) == events_with_key(b, k) by {
        let ra = events_with_key(a, k);
        let rb = events_with_key(b, k);
        lemma_unique_ids_short_runs(a, k);
        lemma_unique_ids_short_runs(b, k);
        if ra.len() == 1 {
            lemma_run_membership(a, k, ra[0]);
            lemma_run_membership(b, k, ra[0]);
            assert(ra.contains(ra[0]));
            assert(rb.contains(ra[0]));
            assert(ra =~= rb);
        } else if rb.len() == 1 {
            lemma_run_membership(b, k, rb[0]);
            lemma_run_membership(a, k, rb[0]);
            assert(rb.contains(rb[0]));
            assert(ra.contains(rb[0]));
        } else {
            assert(ra =~= rb);
        }
    }
    lemma_fold_order_exists(a);
    lemma_fold_order_exists(b);
    assert forall|k: (i64, u64, u128)| #[trigger] events_with_key(fold_order(a), k) == events_with_key(fold_order(b), k) by {
        assert(events_with_key(fold_order(a), k) == events_with_key(a, k));
        assert(events_with_key(fold_order(b), k) == events_with_key(b, k));
        assert(events_with_key(a, k) == events_with_key(b, k));
    }
    lemma_same_runs_same_sequence(fold_order(a), fold_order(b));
}

} // verus!
