//! The decisions of the `tracing` layer: which callsites are recorded, how
//! spans are tracked, and which events reach the store.

use vstd::prelude::*;
use dashmap::DashMap;
use crate::record::{IndexRecorder, NamedRecorder, is_stable_sort, values_of, first_of_runs, zip_named, last_per_name, sort_by_index, strip_keys};
use crate::store::{Encode, Sink, Store, StoreError};
use crate::text::starts_with;
use crate::types::{Event, EventRef, Kind, Level, verbosity_of};

verus! {

#[verifier::external_type_specification]
#[verifier::external_body]
#[verifier::reject_recursive_types(K)]
#[verifier::reject_recursive_types(V)]
#[verifier::reject_recursive_types(S)]
pub struct ExDashMap<K, V, S>(DashMap<K, V, S>);

/// A map from callsite keys to the references of their `Callsite` events.
pub type CallsiteMap = DashMap<u64, EventRef>;

/// A map from span ids to span records: the reference of the span's `Span`
/// event, whether an entry into the span was recorded last, and whether the
/// span is entered now.
pub type SpanMap = DashMap<u64, (EventRef, bool, bool)>;

/// What a map from callsite keys to event references holds.
pub uninterp spec fn callsite_entries(map: CallsiteMap) -> Map<u64, EventRef>;

/// What a map from span ids to span records holds.
pub uninterp spec fn span_entries(map: SpanMap) -> Map<u64, (EventRef, bool, bool)>;

/// Calls `DashMap::new`, which makes an empty map.
#[verifier::external_body]
fn new_callsite_map() -> (fresh: CallsiteMap)
    ensures
        callsite_entries(fresh).dom() == Set::<u64>::empty(),
{
    DashMap::new()
}

/// Calls `DashMap::insert`, which maps `key` to `value`, replacing what it
/// mapped to. The method takes `&self`; it is called here through the
/// exclusive reference that the layer's owner holds, so the change shows in
/// the map's contents.
#[verifier::external_body]
fn callsite_insert(map: &mut CallsiteMap, key: u64, value: EventRef)
    ensures
        callsite_entries(*final(map)) == callsite_entries(*old(map)).insert(key, value),
{
    map.insert(key, value);
}

/// Calls `DashMap::get`, which finds what `key` maps to, and copies it out.
#[verifier::external_body]
fn callsite_get(map: &CallsiteMap, key: u64) -> (r: Option<EventRef>)
    ensures
        r == (if callsite_entries(*map).contains_key(key) {
            Some(callsite_entries(*map)[key])
        } else {
            None
        }),
{
    map.get(&key).map(|entry| *entry)
}


/// Calls `DashMap::new`, which makes an empty map.
#[verifier::external_body]
fn new_span_map() -> (fresh: SpanMap)
    ensures
        span_entries(fresh).dom() == Set::<u64>::empty(),
{
    DashMap::new()
}

/// Calls `DashMap::insert`, which maps `key` to `value`, replacing what it
/// mapped to; called through an exclusive reference, as `callsite_insert`.
#[verifier::external_body]
fn span_insert(map: &mut SpanMap, key: u64, value: (EventRef, bool, bool))
    ensures
        span_entries(*final(map)) == span_entries(*old(map)).insert(key, value),
{
    map.insert(key, value);
}

/// Calls `DashMap::get`, which finds what `key` maps to, and copies it out.
#[verifier::external_body]
fn span_get(map: &SpanMap, key: u64) -> (r: Option<(EventRef, bool, bool)>)
    ensures
        r == (if span_entries(*map).contains_key(key) {
            Some(span_entries(*map)[key])
        } else {
            None
        }),
{
    map.get(&key).map(|entry| *entry)
}

/// Calls `DashMap::remove`, which takes `key` out of the map and hands back
/// what it mapped to; called through an exclusive reference, as `callsite_insert`.
#[verifier::external_body]
fn span_remove(map: &mut SpanMap, key: u64) -> (r: Option<(EventRef, bool, bool)>)
    ensures
        r == (if span_entries(*old(map)).contains_key(key) {
            Some(span_entries(*old(map))[key])
        } else {
            None
        }),
        span_entries(*final(map)) == span_entries(*old(map)).remove(key),
{
    map.remove(&key).map(|entry| entry.1)
}

/// Where a new span or an event says its parent is.
#[derive(Debug, Clone, Copy, PartialEq, Eq, Structural)]
pub struct Parent {
    /// The id of the parent that was named explicitly, if one was.
    pub explicit: Option<u64>,
    /// Whether the parent is the span that is current where it happened.
    pub contextual: bool,
    /// The id of the span that is current, if any.
    pub current: Option<u64>,
    /// Whether it was explicitly made a root.
    pub root: bool,
}

/// The parent that `p` designates: `Some(parent)` where it can be told, the
/// parent being `None` for a root; `None` where it cannot.
pub open spec fn parent_of(p: Parent) -> Option<Option<u64>> {
    if p.explicit is Some {
        Some(p.explicit)
    } else if p.contextual {
        Some(p.current)
    } else if p.root {
        Some(None)
    } else {
        None
    }
}

/// The parent that `p` designates; see `parent_of`.
pub fn resolve_parent(p: &Parent) -> (r: Option<Option<u64>>)
    ensures
        r == parent_of(*p),
{
    if p.explicit.is_some() {
        Some(p.explicit)
    } else if p.contextual {
        Some(p.current)
    } else if p.root {
        Some(None)
    } else {
        None
    }
}

/// What a callsite tells about itself when it is registered.
#[derive(Debug)]
pub struct CallsiteMeta {
    pub name: String,
    pub target: String,
    pub level: Level,
    pub file: Option<String>,
    pub line: Option<u32>,
    pub module: Option<String>,
    /// The names of its fields, each with the field's index.
    pub fields: Vec<(usize, String)>,
    pub kind: Kind,
}

/// `values` are the values of `recorded` ordered by field index, values of the
/// same field in the order recorded.
pub open spec fn in_field_order<V>(recorded: Seq<(usize, V)>, values: Seq<V>) -> bool {
    exists|sorted: Seq<(usize, V)>| is_stable_sort(recorded, sorted) && values == values_of(sorted)
}

/// `pairs` are the names and values of `names` and `values` ordered by field
/// index, the first recorded of each field counting, and of fields that
/// share a name only the last.
pub open spec fn named_in_field_order<V>(
    names: Seq<(usize, String)>,
    values: Seq<(usize, V)>,
    pairs: Seq<(String, V)>,
) -> bool {
    exists|sn: Seq<(usize, String)>, sv: Seq<(usize, V)>|
        {
            &&& is_stable_sort(names, sn)
            &&& is_stable_sort(values, sv)
            &&& pairs == last_per_name(zip_named(first_of_runs(sn), first_of_runs(sv)))
        }
}

/// `ev` is the `Callsite` event that records `meta`, its field names in field order.
pub open spec fn is_callsite_event<V>(ev: Event<V>, meta: CallsiteMeta) -> bool {
    ev matches Event::Callsite { name, target, level, file, line, module, fields, kind }
        && name == meta.name && target == meta.target && level == meta.level && file == meta.file
        && line == meta.line && module == meta.module && kind == meta.kind
        && in_field_order(meta.fields@, fields@)
}

/// The marker that an event inside the span `rec` records first: an entry
/// when the span is entered and its entry is not yet recorded; none
/// otherwise.
pub open spec fn marker_of<V>(rec: (EventRef, bool, bool)) -> Option<Event<V>> {
    if !rec.1 && rec.2 {
        Some(Event::Enter { span: rec.0 })
    } else {
        None
    }
}

/// The marker that an event whose parent is `p` records first, given the
/// open spans `spans`.
pub open spec fn marker_for<V>(spans: Map<u64, (EventRef, bool, bool)>, p: Option<u64>) -> Option<Event<V>> {
    if p is Some && spans.contains_key(p->0) {
        marker_of(spans[p->0])
    } else {
        None
    }
}

/// The span record once its marker, if any, is recorded.
pub open spec fn synced(rec: (EventRef, bool, bool)) -> (EventRef, bool, bool) {
    if !rec.1 && rec.2 {
        (rec.0, true, true)
    } else {
        rec
    }
}

/// Whether `ev` names the span whose `Span` event is at `r`.
pub open spec fn names_span<V>(ev: Event<V>, r: EventRef) -> bool {
    match ev {
        Event::Record { span, .. } => span == r,
        Event::FollowsFrom { span, follows } => span == r || follows == r,
        Event::Enter { span } => span == r,
        Event::Exit { span } => span == r,
        Event::Close { span } => span == r,
        _ => false,
    }
}

/// Whether one of the first `i` events of `events` is a `Callsite` event
/// stored at `r`, `refs` holding the reference of each event.
pub open spec fn callsite_before<V>(events: Seq<Event<V>>, refs: Seq<EventRef>, i: int, r: EventRef) -> bool {
    exists|j: int| 0 <= j < i && #[trigger] refs[j] == r && events[j] is Callsite
}

/// Whether one of the first `i` events of `events` is a `Span` event stored
/// at `r`, `refs` holding the reference of each event.
pub open spec fn span_before<V>(events: Seq<Event<V>>, refs: Seq<EventRef>, i: int, r: EventRef) -> bool {
    exists|j: int| 0 <= j < i && #[trigger] refs[j] == r && events[j] is Span
}

/// Whether `ev` refers only to events among the first `i` of `events` of the
/// right kind: a span or event to its callsite's `Callsite` event, every
/// other record to its span's `Span` event.
pub open spec fn refers_back<V>(events: Seq<Event<V>>, refs: Seq<EventRef>, ev: Event<V>, i: int) -> bool {
    match ev {
        Event::Callsite { .. } => true,
        Event::Span { callsite, .. } => callsite_before(events, refs, i, callsite),
        Event::Event { callsite, .. } => callsite_before(events, refs, i, callsite),
        Event::Record { span, .. } => span_before(events, refs, i, span),
        Event::FollowsFrom { span, follows } => span_before(events, refs, i, span)
            && span_before(events, refs, i, follows),
        Event::Enter { span } => span_before(events, refs, i, span),
        Event::Exit { span } => span_before(events, refs, i, span),
        Event::Close { span } => span_before(events, refs, i, span),
    }
}

/// Whether the event at position `i` of `events` refers only to earlier
/// events of the right kind.
pub open spec fn points_back<V>(events: Seq<Event<V>>, refs: Seq<EventRef>, i: int) -> bool {
    refers_back(events, refs, events[i], i)
}

/// The span that `ev` closes, if it is a `Close` event.
pub open spec fn closed_ref<V>(ev: Event<V>) -> Option<EventRef> {
    match ev {
        Event::Close { span } => Some(span),
        _ => None,
    }
}

/// Every stored record refers to an earlier `Callsite` or `Span` event, by
/// the reference under which that event was stored, and nothing names a span
/// after its `Close` event.
pub open spec fn well_linked<V>(events: Seq<Event<V>>, refs: Seq<EventRef>) -> bool {
    &&& forall|i: int| 0 <= i < events.len() ==> #[trigger] points_back(events, refs, i)
    &&& forall|i: int, j: int|
        0 <= i < j < events.len() && closed_ref(#[trigger] events[i]) is Some
            ==> !names_span(#[trigger] events[j], closed_ref(events[i])->0)
}

/// Whether the last `Enter` or `Exit` event of `events` for the span whose
/// `Span` event is at `r` is an `Enter` event; false where there is none.
pub open spec fn last_marker_is_enter<V>(events: Seq<Event<V>>, r: EventRef) -> bool
    decreases events.len(),
{
    if events.len() == 0 {
        false
    } else if events.last() == (Event::<V>::Enter { span: r }) {
        true
    } else if events.last() == (Event::<V>::Exit { span: r }) {
        false
    } else {
        last_marker_is_enter(events.drop_last(), r)
    }
}

/// What is found among the first `i` events is found among the first `i2`
/// of a longer run.
proof fn lemma_before_extends<V>(
    events: Seq<Event<V>>,
    refs: Seq<EventRef>,
    x: Event<V>,
    at: EventRef,
    i: int,
    i2: int,
    r: EventRef,
)
    requires
        0 <= i <= events.len(),
        i <= i2,
        events.len() == refs.len(),
    ensures
        callsite_before(events, refs, i, r) ==> callsite_before(events.push(x), refs.push(at), i2, r),
        span_before(events, refs, i, r) ==> span_before(events.push(x), refs.push(at), i2, r),
{
    if callsite_before(events, refs, i, r) {
        let j = choose|j: int| 0 <= j < i && #[trigger] refs[j] == r && events[j] is Callsite;
        assert(refs.push(at)[j] == refs[j] && events.push(x)[j] == events[j]);
    }
    if span_before(events, refs, i, r) {
        let j = choose|j: int| 0 <= j < i && #[trigger] refs[j] == r && events[j] is Span;
        assert(refs.push(at)[j] == refs[j] && events.push(x)[j] == events[j]);
    }
}

/// An event that refers back within the first `i` events still does so in a
/// longer run.
proof fn lemma_refers_back_extends<V>(
    events: Seq<Event<V>>,
    refs: Seq<EventRef>,
    x: Event<V>,
    at: EventRef,
    ev: Event<V>,
    i: int,
    i2: int,
)
    requires
        0 <= i <= events.len(),
        i <= i2,
        events.len() == refs.len(),
        refers_back(events, refs, ev, i),
    ensures
        refers_back(events.push(x), refs.push(at), ev, i2),
{
    match ev {
        Event::Callsite { .. } => {},
        Event::Span { callsite, .. } => lemma_before_extends(events, refs, x, at, i, i2, callsite),
        Event::Event { callsite, .. } => lemma_before_extends(events, refs, x, at, i, i2, callsite),
        Event::Record { span, .. } => lemma_before_extends(events, refs, x, at, i, i2, span),
        Event::FollowsFrom { span, follows } => {
            lemma_before_extends(events, refs, x, at, i, i2, span);
            lemma_before_extends(events, refs, x, at, i, i2, follows);
        },
        Event::Enter { span } => lemma_before_extends(events, refs, x, at, i, i2, span),
        Event::Exit { span } => lemma_before_extends(events, refs, x, at, i, i2, span),
        Event::Close { span } => lemma_before_extends(events, refs, x, at, i, i2, span),
    }
}

/// Appending an event that refers only to earlier events of the right kind,
/// and names no span that was closed, keeps a run of events well linked.
proof fn lemma_append_keeps_links<V>(events: Seq<Event<V>>, refs: Seq<EventRef>, ev: Event<V>, at: EventRef)
    requires
        events.len() == refs.len(),
        well_linked(events, refs),
        refers_back(events, refs, ev, events.len() as int),
        forall|k: int| 0 <= k < events.len() && closed_ref(#[trigger] events[k]) is Some
            ==> !names_span(ev, closed_ref(events[k])->0),
    ensures
        well_linked(events.push(ev), refs.push(at)),
{
    let all = events.push(ev);
    let all_refs = refs.push(at);
    assert forall|i: int| 0 <= i < all.len() implies #[trigger] points_back(all, all_refs, i) by {
        if i < events.len() {
            assert(points_back(events, refs, i));
            assert(all[i] == events[i]);
            lemma_refers_back_extends(events, refs, ev, at, events[i], i, i);
        } else {
            lemma_refers_back_extends(events, refs, ev, at, ev, i, i);
        }
    }
    assert forall|i: int, j: int|
        0 <= i < j < all.len() && closed_ref(#[trigger] all[i]) is Some
            implies !names_span(#[trigger] all[j], closed_ref(all[i])->0) by {
        assert(all[i] == events[i]);
        if j < events.len() {
            assert(all[j] == events[j]);
        }
    }
}

/// A span that a well-linked event names, or closes, has its `Span` event
/// earlier in the run.
proof fn lemma_named_span_is_stored<V>(events: Seq<Event<V>>, refs: Seq<EventRef>, k: int, r: EventRef)
    requires
        0 <= k < events.len(),
        points_back(events, refs, k),
        names_span(events[k], r),
    ensures
        span_before(events, refs, k, r),
{
}

/// No stored event names the reference that the next event will get, and no
/// marker for it is stored.
proof fn lemma_next_ref_is_fresh<V, W: Sink>(st: Store<Event<V>, W>)
    requires
        st.wf(),
        well_linked(st.events(), st.refs()),
    ensures
        forall|k: int| 0 <= k < st.events().len() ==> !names_span(#[trigger] st.events()[k], st.written()),
        !span_before(st.events(), st.refs(), st.events().len() as int, st.written()),
        !callsite_before(st.events(), st.refs(), st.events().len() as int, st.written()),
        !last_marker_is_enter(st.events(), st.written()),
{
    let events = st.events();
    let refs = st.refs();
    assert forall|k: int| 0 <= k < events.len() implies !names_span(#[trigger] events[k], st.written()) by {
        if names_span(events[k], st.written()) {
            assert(points_back(events, refs, k));
            lemma_named_span_is_stored(events, refs, k, st.written());
            let j = choose|j: int| 0 <= j < k && #[trigger] refs[j] == st.written() && events[j] is Span;
            assert(refs[j] < st.written());
        }
    }
    if span_before(events, refs, events.len() as int, st.written()) {
        let j = choose|j: int| 0 <= j < events.len() && #[trigger] refs[j] == st.written() && events[j] is Span;
        assert(refs[j] < st.written());
    }
    if callsite_before(events, refs, events.len() as int, st.written()) {
        let j = choose|j: int| 0 <= j < events.len() && #[trigger] refs[j] == st.written() && events[j] is Callsite;
        assert(refs[j] < st.written());
    }
    lemma_unnamed_has_no_marker(events, st.written());
}

/// A run in which no event names the span at `r` holds no marker for it.
proof fn lemma_unnamed_has_no_marker<V>(events: Seq<Event<V>>, r: EventRef)
    requires
        forall|k: int| 0 <= k < events.len() ==> !names_span(#[trigger] events[k], r),
    ensures
        !last_marker_is_enter(events, r),
    decreases events.len(),
{
    if events.len() > 0 {
        let rest = events.drop_last();
        assert(!names_span(events[events.len() - 1], r));
        assert forall|k: int| 0 <= k < rest.len() implies !names_span(#[trigger] rest[k], r) by {
            assert(rest[k] == events[k]);
        }
        lemma_unnamed_has_no_marker(rest, r);
    }
}

/// The last marker after a push is the pushed event if it is a marker of the
/// span, and the last one before otherwise.
proof fn lemma_last_marker_push<V>(events: Seq<Event<V>>, ev: Event<V>, r: EventRef)
    ensures
        last_marker_is_enter(events.push(ev), r) == if ev == (Event::<V>::Enter { span: r }) {
            true
        } else if ev == (Event::<V>::Exit { span: r }) {
            false
        } else {
            last_marker_is_enter(events, r)
        },
{
    assert(events.push(ev).drop_last() =~= events);
}

/// How a store and the layer's maps hang together: the stored events are
/// well linked, every recorded callsite maps to the reference of a stored
/// `Callsite` event, every open span to that of a stored `Span` event, never
/// closed, and no two open spans share a `Span` event.
pub open spec fn linked_state<V, W: Sink>(
    store: Store<Event<V>, W>,
    callsites: Map<u64, EventRef>,
    spans: Map<u64, (EventRef, bool, bool)>,
) -> bool {
    let events = store.events();
    let refs = store.refs();
    let n = events.len() as int;
    &&& store.wf()
    &&& well_linked(events, refs)
    &&& forall|c: u64| #[trigger] callsites.contains_key(c) ==> callsite_before(events, refs, n, callsites[c])
    &&& forall|id: u64| #[trigger] spans.contains_key(id) ==> span_before(events, refs, n, spans[id].0)
    &&& forall|id: u64, k: int| spans.contains_key(id) && 0 <= k < n
        ==> closed_ref(#[trigger] events[k]) != Some(#[trigger] spans[id].0)
    &&& forall|a: u64, b: u64| spans.contains_key(a) && spans.contains_key(b) && a != b
        ==> #[trigger] spans[a].0 != #[trigger] spans[b].0
}

/// While no push of the store was refused, each open span notes that its
/// entry is recorded exactly when the last marker stored for it is an
/// `Enter` event.
pub open spec fn markers_match<V, W: Sink>(store: Store<Event<V>, W>, spans: Map<u64, (EventRef, bool, bool)>) -> bool {
    store.refused() == 0 ==> forall|id: u64| #[trigger] spans.contains_key(id)
        ==> spans[id].1 == last_marker_is_enter(store.events(), spans[id].0)
}

/// Pushing an event that refers only to earlier events of the right kind,
/// names no closed span and closes no open span keeps the state linked; a
/// push that succeeds puts the event at the end, under the next reference.
proof fn lemma_push_linked<V, W: Sink, C: Encode<Event<V>>>(
    st0: Store<Event<V>, W>,
    st1: Store<Event<V>, W>,
    ev: Event<V>,
    codec: &C,
    r: Result<EventRef, StoreError>,
    callsites: Map<u64, EventRef>,
    spans: Map<u64, (EventRef, bool, bool)>,
)
    requires
        linked_state(st0, callsites, spans),
        st1.wf(),
        Store::push_outcome(st0, st1, ev, codec, r),
        refers_back(st0.events(), st0.refs(), ev, st0.events().len() as int),
        forall|k: int| 0 <= k < st0.events().len() && closed_ref(#[trigger] st0.events()[k]) is Some
            ==> !names_span(ev, closed_ref(st0.events()[k])->0),
        forall|id: u64| #[trigger] spans.contains_key(id) ==> closed_ref(ev) != Some(spans[id].0),
    ensures
        linked_state(st1, callsites, spans),
        r is Ok ==> st1.events() == st0.events().push(ev) && st1.refs() == st0.refs().push(st0.written())
            && r->Ok_0 == st0.written(),
        r is Err ==> st1.events() == st0.events() && st1.refs() == st0.refs(),
{
    let events = st0.events();
    let refs = st0.refs();
    let n = events.len() as int;
    if r is Ok {
        let at = st0.written();
        lemma_append_keeps_links(events, refs, ev, at);
        let all = st1.events();
        let all_refs = st1.refs();
        assert(all == events.push(ev) && all_refs == refs.push(at));
        assert forall|id: u64, k: int| spans.contains_key(id) && 0 <= k < all.len()
            implies closed_ref(#[trigger] all[k]) != Some(#[trigger] spans[id].0) by {
            if k < n {
                assert(all[k] == events[k]);
            }
        }
        assert forall|c: u64| #[trigger] callsites.contains_key(c)
            implies callsite_before(all, all_refs, n + 1, callsites[c]) by {
            lemma_before_extends(events, refs, ev, at, n, n + 1, callsites[c]);
        }
        assert forall|id: u64| #[trigger] spans.contains_key(id)
            implies span_before(all, all_refs, n + 1, spans[id].0) by {
            lemma_before_extends(events, refs, ev, at, n, n + 1, spans[id].0);
        }
    }
}

/// A push of an event that is no marker of an open span keeps the marker
/// notes matching the store.
proof fn lemma_push_keeps_markers<V, W: Sink, C: Encode<Event<V>>>(
    st0: Store<Event<V>, W>,
    st1: Store<Event<V>, W>,
    ev: Event<V>,
    codec: &C,
    r: Result<EventRef, StoreError>,
    spans: Map<u64, (EventRef, bool, bool)>,
)
    requires
        markers_match(st0, spans),
        Store::push_outcome(st0, st1, ev, codec, r),
        forall|id: u64| #[trigger] spans.contains_key(id) ==> ev != (Event::<V>::Enter { span: spans[id].0 })
            && ev != (Event::<V>::Exit { span: spans[id].0 }),
    ensures
        markers_match(st1, spans),
{
    if r is Ok && st1.refused() == 0 {
        assert forall|id: u64| #[trigger] spans.contains_key(id)
            implies spans[id].1 == last_marker_is_enter(st1.events(), spans[id].0) by {
            lemma_last_marker_push(st0.events(), ev, spans[id].0);
        }
    }
}

/// Pushing a marker of the open span `id` and noting it in the span's record
/// keeps the marker notes matching the store.
proof fn lemma_push_marker<V, W: Sink, C: Encode<Event<V>>>(
    st0: Store<Event<V>, W>,
    st1: Store<Event<V>, W>,
    codec: &C,
    r: Result<EventRef, StoreError>,
    spans: Map<u64, (EventRef, bool, bool)>,
    id: u64,
    rec: (EventRef, bool, bool),
)
    requires
        markers_match(st0, spans),
        spans.contains_key(id),
        rec.0 == spans[id].0,
        forall|a: u64, b: u64| spans.contains_key(a) && spans.contains_key(b) && a != b
            ==> #[trigger] spans[a].0 != #[trigger] spans[b].0,
        Store::push_outcome(
            st0,
            st1,
            if rec.1 { Event::<V>::Enter { span: rec.0 } } else { Event::<V>::Exit { span: rec.0 } },
            codec,
            r,
        ),
    ensures
        markers_match(st1, spans.insert(id, rec)),
{
    let ev = if rec.1 { Event::<V>::Enter { span: rec.0 } } else { Event::<V>::Exit { span: rec.0 } };
    let sp = spans.insert(id, rec);
    if r is Ok && st1.refused() == 0 {
        assert forall|x: u64| #[trigger] sp.contains_key(x)
            implies sp[x].1 == last_marker_is_enter(st1.events(), sp[x].0) by {
            lemma_last_marker_push(st0.events(), ev, sp[x].0);
            if x != id {
                assert(sp[x] == spans[x]);
                assert(spans[x].0 != spans[id].0);
            }
        }
    }
}

/// Noting a record of a span that agrees with the markers stored keeps the
/// marker notes matching.
proof fn lemma_note_span<V, W: Sink>(
    st: Store<Event<V>, W>,
    spans: Map<u64, (EventRef, bool, bool)>,
    id: u64,
    rec: (EventRef, bool, bool),
)
    requires
        markers_match(st, spans),
        st.refused() == 0 ==> rec.1 == last_marker_is_enter(st.events(), rec.0),
    ensures
        markers_match(st, spans.insert(id, rec)),
        markers_match(st, spans.remove(id)),
{
}

/// Filing a callsite under the reference of a stored `Callsite` event keeps
/// the state linked.
proof fn lemma_insert_callsite<V, W: Sink>(
    st: Store<Event<V>, W>,
    callsites: Map<u64, EventRef>,
    spans: Map<u64, (EventRef, bool, bool)>,
    c: u64,
    at: EventRef,
)
    requires
        linked_state(st, callsites, spans),
        callsite_before(st.events(), st.refs(), st.events().len() as int, at),
    ensures
        linked_state(st, callsites.insert(c, at), spans),
{
}

/// Tracking a span under the reference of a stored, unclosed `Span` event
/// that no other open span uses keeps the state linked.
proof fn lemma_insert_span<V, W: Sink>(
    st: Store<Event<V>, W>,
    callsites: Map<u64, EventRef>,
    spans: Map<u64, (EventRef, bool, bool)>,
    id: u64,
    rec: (EventRef, bool, bool),
)
    requires
        linked_state(st, callsites, spans),
        span_before(st.events(), st.refs(), st.events().len() as int, rec.0),
        forall|k: int| 0 <= k < st.events().len() ==> closed_ref(#[trigger] st.events()[k]) != Some(rec.0),
        forall|other: u64| #[trigger] spans.contains_key(other) && other != id ==> spans[other].0 != rec.0,
    ensures
        linked_state(st, callsites, spans.insert(id, rec)),
{
    let sp = spans.insert(id, rec);
    assert forall|a: u64, b: u64| sp.contains_key(a) && sp.contains_key(b) && a != b
        implies #[trigger] sp[a].0 != #[trigger] sp[b].0 by {
        if a != id && b != id {
            assert(sp[a] == spans[a] && sp[b] == spans[b]);
        }
    }
    assert forall|x: u64, k: int| sp.contains_key(x) && 0 <= k < st.events().len()
        implies closed_ref(#[trigger] st.events()[k]) != Some(#[trigger] sp[x].0) by {
        if x != id {
            assert(sp[x] == spans[x]);
        }
    }
}

/// Tracking a span under the `Span` event just stored keeps the state linked
/// and the marker notes matching: no earlier event names or closes it, and
/// no open span uses it.
proof fn lemma_track_new_span<V, W: Sink>(
    st0: Store<Event<V>, W>,
    st1: Store<Event<V>, W>,
    callsites: Map<u64, EventRef>,
    spans: Map<u64, (EventRef, bool, bool)>,
    id: u64,
    ev: Event<V>,
)
    requires
        linked_state(st0, callsites, spans),
        linked_state(st1, callsites, spans),
        markers_match(st1, spans),
        st1.events() == st0.events().push(ev),
        st1.refs() == st0.refs().push(st0.written()),
        ev is Span,
    ensures
        linked_state(st1, callsites, spans.insert(id, (st0.written(), false, false))),
        markers_match(st1, spans.insert(id, (st0.written(), false, false))),
{
    let at = st0.written();
    let n = st0.events().len() as int;
    let events = st1.events();
    lemma_next_ref_is_fresh(st0);
    assert(st1.refs()[n] == at && events[n] is Span);
    assert forall|k: int| 0 <= k < events.len() implies closed_ref(#[trigger] events[k]) != Some(at) by {
        if k < n {
            assert(events[k] == st0.events()[k]);
            assert(!names_span(st0.events()[k], at));
        }
    }
    assert forall|other: u64| #[trigger] spans.contains_key(other) && other != id implies spans[other].0 != at by {
        assert(span_before(st0.events(), st0.refs(), n, spans[other].0));
    }
    lemma_insert_span(st1, callsites, spans, id, (at, false, false));
    lemma_last_marker_push(st0.events(), ev, at);
    lemma_note_span(st1, spans, id, (at, false, false));
}

/// Changing what is noted of an open span, its `Span` event kept, keeps the
/// state linked.
proof fn lemma_update_span<V, W: Sink>(
    st: Store<Event<V>, W>,
    callsites: Map<u64, EventRef>,
    spans: Map<u64, (EventRef, bool, bool)>,
    id: u64,
    rec: (EventRef, bool, bool),
)
    requires
        linked_state(st, callsites, spans),
        spans.contains_key(id),
        rec.0 == spans[id].0,
    ensures
        linked_state(st, callsites, spans.insert(id, rec)),
{
    assert forall|k: int| 0 <= k < st.events().len() implies closed_ref(#[trigger] st.events()[k]) != Some(rec.0) by {
        assert(spans.contains_key(id));
    }
    lemma_insert_span(st, callsites, spans, id, rec);
}

/// Forgetting a span keeps the state linked.
proof fn lemma_remove_span<V, W: Sink>(
    st: Store<Event<V>, W>,
    callsites: Map<u64, EventRef>,
    spans: Map<u64, (EventRef, bool, bool)>,
    id: u64,
)
    requires
        linked_state(st, callsites, spans),
    ensures
        linked_state(st, callsites, spans.remove(id)),
{
    let sp = spans.remove(id);
    assert forall|a: u64, b: u64| sp.contains_key(a) && sp.contains_key(b) && a != b
        implies #[trigger] sp[a].0 != #[trigger] sp[b].0 by {
        assert(sp[a] == spans[a] && sp[b] == spans[b]);
    }
    assert forall|x: u64, k: int| sp.contains_key(x) && 0 <= k < st.events().len()
        implies closed_ref(#[trigger] st.events()[k]) != Some(#[trigger] sp[x].0) by {
        assert(sp[x] == spans[x]);
    }
}

/// The state of the layer that records what `tracing` reports into a store
/// whose file, if it has one, is a `W`.
pub struct Seraphim<V, W> {
    store: Store<Event<V>, W>,
    callsites: CallsiteMap,
    disabled: CallsiteMap,
    spans: SpanMap,
    min_level: Level,
    package: String,
}

impl<V, W: Sink> Seraphim<V, W> {
    /// The store that receives the events.
    pub closed spec fn store_view(&self) -> Store<Event<V>, W> {
        self.store
    }

    /// The callsites whose spans and events are recorded, each with the
    /// reference of its `Callsite` event.
    pub closed spec fn callsites(&self) -> Map<u64, EventRef> {
        callsite_entries(self.callsites)
    }

    /// The callsites that were registered and are not recorded.
    pub closed spec fn disabled(&self) -> Map<u64, EventRef> {
        callsite_entries(self.disabled)
    }

    /// The open spans, each with its record.
    pub closed spec fn spans(&self) -> Map<u64, (EventRef, bool, bool)> {
        span_entries(self.spans)
    }

    /// The most verbose level that is recorded.
    pub closed spec fn min_level(&self) -> Level {
        self.min_level
    }

    /// The prefix that a callsite's target must have to be recorded.
    pub closed spec fn package(&self) -> Seq<char> {
        self.package@
    }

    /// The layer's invariant: its store's, and no open span notes a
    /// recorded entry without being entered.
    pub open spec fn wf(&self) -> bool {
        &&& self.store_view().wf()
        &&& forall|id: u64| #[trigger] self.spans().contains_key(id) ==> (self.spans()[id].1 ==> self.spans()[id].2)
    }

    /// The stored events are well linked, the layer's maps point at the
    /// right stored events (see `linked_state`), and, while no push was
    /// refused, each open span's note of a recorded entry matches the store
    /// (see `markers_match`).
    pub open spec fn consistent(&self) -> bool {
        &&& linked_state(self.store_view(), self.callsites(), self.spans())
        &&& markers_match(self.store_view(), self.spans())
    }

    /// Whether a callsite of `level` and `target` is recorded.
    pub open spec fn records(&self, level: Level, target: Seq<char>) -> bool {
        &&& verbosity_of(level) <= verbosity_of(self.min_level())
        &&& self.package().len() <= target.len()
        &&& target.subrange(0, self.package().len() as int) == self.package()
    }

    /// Whether `new` keeps the filter settings of `old`.
    pub open spec fn same_filter(old: Self, new: Self) -> bool {
        &&& new.min_level() == old.min_level()
        &&& new.package() == old.package()
    }

    /// A layer that records into `store`, up to the `Debug` level, from every target.
    pub fn new(store: Store<Event<V>, W>) -> (s: Seraphim<V, W>)
        requires
            store.wf(),
        ensures
            s.wf(),
            s.store_view() == store,
            s.callsites().dom() == Set::<u64>::empty(),
            s.disabled().dom() == Set::<u64>::empty(),
            s.spans().dom() == Set::<u64>::empty(),
            s.min_level() == Level::Debug,
            s.package() == Seq::<char>::empty(),
            store.events().len() == 0 ==> s.consistent(),
    {
        Seraphim {
            store,
            callsites: new_callsite_map(),
            disabled: new_callsite_map(),
            spans: new_span_map(),
            min_level: Level::Debug,
            package: String::new(),
        }
    }

    /// The store that receives the events.
    pub fn store(&self) -> (s: &Store<Event<V>, W>)
        ensures
            *s == self.store_view(),
    {
        &self.store
    }

    /// Notes that the open span `id` is entered now.
    pub fn on_enter(&mut self, id: u64)
        requires
            old(self).wf(),
        ensures
            final(self).wf(),
            old(self).consistent() ==> final(self).consistent(),
            Self::same_filter(*old(self), *final(self)),
            final(self).store_view() == old(self).store_view(),
            final(self).callsites() == old(self).callsites(),
            final(self).disabled() == old(self).disabled(),
            final(self).spans() == if old(self).spans().contains_key(id) {
                let rec = old(self).spans()[id];
                old(self).spans().insert(id, (rec.0, rec.1, true))
            } else {
                old(self).spans()
            },
    {
        if let Some(rec) = span_get(&self.spans, id) {
            proof {
                if old(self).consistent() {
                    lemma_update_span(self.store_view(), self.callsites(), self.spans(), id, (rec.0, rec.1, true));
                    lemma_note_span(self.store_view(), self.spans(), id, (rec.0, rec.1, true));
                }
            }
            span_insert(&mut self.spans, id, (rec.0, rec.1, true));
        }
    }

    /// Moves the record of the open span `old_id` to the id `new_id`.
    pub fn on_id_change(&mut self, old_id: u64, new_id: u64)
        requires
            old(self).wf(),
        ensures
            final(self).wf(),
            old(self).consistent() ==> final(self).consistent(),
            Self::same_filter(*old(self), *final(self)),
            final(self).store_view() == old(self).store_view(),
            final(self).callsites() == old(self).callsites(),
            final(self).disabled() == old(self).disabled(),
            final(self).spans() == if old(self).spans().contains_key(old_id) {
                old(self).spans().remove(old_id).insert(new_id, old(self).spans()[old_id])
            } else {
                old(self).spans()
            },
    {
        if let Some(rec) = span_remove(&mut self.spans, old_id) {
            proof {
                if old(self).consistent() {
                    lemma_remove_span(self.store_view(), self.callsites(), old(self).spans(), old_id);
                    lemma_note_span(self.store_view(), old(self).spans(), old_id, rec);
                    assert(old(self).spans().contains_key(old_id));
                    assert forall|k: int| 0 <= k < self.store_view().events().len()
                        implies closed_ref(#[trigger] self.store_view().events()[k]) != Some(rec.0) by {
                        assert(old(self).spans().contains_key(old_id));
                    }
                    assert forall|other: u64| #[trigger] self.spans().contains_key(other) && other != new_id
                        implies self.spans()[other].0 != rec.0 by {
                        assert(old(self).spans().contains_key(other) && other != old_id);
                    }
                    lemma_insert_span(self.store_view(), self.callsites(), self.spans(), new_id, rec);
                    lemma_note_span(self.store_view(), self.spans(), new_id, rec);
                }
            }
            span_insert(&mut self.spans, new_id, rec);
            assert forall|x: u64| #[trigger] self.spans().contains_key(x) && self.spans()[x].1
                implies self.spans()[x].2 by {
                assert(old(self).spans().contains_key(old_id));
                if x != new_id {
                    assert(old(self).spans().contains_key(x));
                }
            }
        } else {
            assert(self.spans() =~= old(self).spans());
        }
    }
}

impl<V, W: Sink> Seraphim<V, W> {
    /// Registers a callsite: records its `Callsite` event, then files the
    /// callsite as recorded or not, by its level and target. A callsite whose
    /// event the store refused is filed nowhere.
    pub fn register_callsite<C: Encode<Event<V>>>(&mut self, callsite: u64, meta: CallsiteMeta, codec: &C)
        requires
            old(self).wf(),
        ensures
            final(self).wf(),
            Self::same_filter(*old(self), *final(self)),
            final(self).spans() == old(self).spans(),
            !old(self).records(meta.level, meta.target@) ==> final(self).callsites() == old(self).callsites(),
            old(self).consistent() ==> final(self).consistent(),
            exists|ev: Event<V>, r|
                {
                    &&& is_callsite_event(ev, meta)
                    &&& Store::push_outcome(old(self).store_view(), final(self).store_view(), ev, codec, r)
                    &&& match r {
                        Ok(at) => if old(self).records(meta.level, meta.target@) {
                            &&& final(self).callsites() == old(self).callsites().insert(callsite, at)
                            &&& final(self).disabled() == old(self).disabled()
                        } else {
                            &&& final(self).callsites() == old(self).callsites()
                            &&& final(self).disabled() == old(self).disabled().insert(callsite, at)
                        },
                        Err(_) => {
                            &&& final(self).callsites() == old(self).callsites()
                            &&& final(self).disabled() == old(self).disabled()
                        },
                    }
                },
    {
        let ghost m = meta;
        let CallsiteMeta { name, target, level, file, line, module, fields, kind } = meta;
        let enabled = level.is_within(self.min_level) && starts_with(target.as_str(), self.package.as_str());
        let sorted = sort_by_index(fields);
        let ghost sv = sorted@;
        let fields = strip_keys(sorted);
        assert(in_field_order(m.fields@, fields@)) by {
            assert(is_stable_sort(m.fields@, sv) && fields@ == values_of(sv));
        }
        let event = Event::Callsite { name, target, level, file, line, module, fields, kind };
        let ghost ev = event;
        let ghost st0 = self.store_view();
        let r = self.store.push(event, codec);
        proof {
            if old(self).consistent() {
                lemma_push_linked(st0, self.store_view(), ev, codec, r, self.callsites(), self.spans());
                lemma_push_keeps_markers(st0, self.store_view(), ev, codec, r, self.spans());
            }
        }
        match r {
            Err(_) => {},
            Ok(at) => {
                if enabled {
                    proof {
                        if old(self).consistent() {
                            let n = st0.events().len() as int;
                            assert(self.store_view().refs()[n] == at && self.store_view().events()[n] == ev);
                            lemma_insert_callsite(self.store_view(), self.callsites(), self.spans(), callsite, at);
                        }
                    }
                    callsite_insert(&mut self.callsites, callsite, at);
                } else {
                    callsite_insert(&mut self.disabled, callsite, at);
                }
            },
        }
        assert(is_callsite_event(ev, m));
        assert(Store::push_outcome(old(self).store_view(), self.store_view(), ev, codec, r));
    }

    /// Records a new span of a recorded callsite whose parent can be told:
    /// its `Span` event, its attributes in field order; the span is then
    /// tracked under `id`, as not entered. Spans of other callsites, and spans
    /// whose parent cannot be told, are ignored.
    pub fn on_new_span<C: Encode<Event<V>>>(
        &mut self,
        id: u64,
        callsite: u64,
        parent: Parent,
        attributes: IndexRecorder<V>,
        codec: &C,
    )
        requires
            old(self).wf(),
        ensures
            final(self).wf(),
            Self::same_filter(*old(self), *final(self)),
            old(self).consistent() ==> final(self).consistent(),
            !old(self).callsites().contains_key(callsite) || parent_of(parent) is None ==> *final(self)
                == *old(self),
            old(self).callsites().contains_key(callsite) && parent_of(parent) is Some ==> {
                &&& final(self).callsites() == old(self).callsites()
                &&& final(self).disabled() == old(self).disabled()
                &&& exists|ev: Event<V>, r|
                    {
                        &&& ev matches Event::Span { parent: p, callsite: c, attributes: a }
                            && p == parent_of(parent)->0 && c == old(self).callsites()[callsite]
                            && in_field_order(attributes.recorded(), a@)
                        &&& Store::push_outcome(old(self).store_view(), final(self).store_view(), ev, codec, r)
                        &&& final(self).spans() == match r {
                            Ok(at) => old(self).spans().insert(id, (at, false, false)),
                            Err(_) => old(self).spans(),
                        }
                    }
            },
    {
        let cs = match callsite_get(&self.callsites, callsite) {
            Some(cs) => cs,
            None => return,
        };
        let parent = match resolve_parent(&parent) {
            Some(p) => p,
            None => return,
        };
        let attributes = attributes.into_values();
        let event = Event::Span { parent, callsite: cs, attributes };
        let ghost ev = event;
        let ghost st0 = self.store_view();
        let r = self.store.push(event, codec);
        proof {
            if old(self).consistent() {
                assert(cs == self.callsites()[callsite]);
                lemma_push_linked(st0, self.store_view(), ev, codec, r, self.callsites(), self.spans());
                lemma_push_keeps_markers(st0, self.store_view(), ev, codec, r, self.spans());
            }
        }
        match r {
            Ok(at) => {
                proof {
                    if old(self).consistent() {
                        lemma_track_new_span(st0, self.store_view(), self.callsites(), self.spans(), id, ev);
                    }
                }
                span_insert(&mut self.spans, id, (at, false, false));
            },
            Err(_) => {},
        }
        assert(Store::push_outcome(old(self).store_view(), self.store_view(), ev, codec, r));
    }

    /// Records values given to the open span `span`, paired with their field
    /// names in field order. Values of spans that are not open are ignored.
    pub fn on_record<C: Encode<Event<V>>>(&mut self, span: u64, values: NamedRecorder<V>, codec: &C)
        requires
            old(self).wf(),
        ensures
            final(self).wf(),
            Self::same_filter(*old(self), *final(self)),
            old(self).consistent() ==> final(self).consistent(),
            !old(self).spans().contains_key(span) ==> *final(self) == *old(self),
            old(self).spans().contains_key(span) ==> {
                &&& final(self).callsites() == old(self).callsites()
                &&& final(self).disabled() == old(self).disabled()
                &&& final(self).spans() == old(self).spans()
                &&& exists|ev: Event<V>, r|
                    {
                        &&& ev matches Event::Record { span: s, values: v }
                            && s == old(self).spans()[span].0
                            && named_in_field_order(values.names(), values.values(), v@)
                        &&& Store::push_outcome(old(self).store_view(), final(self).store_view(), ev, codec, r)
                    }
            },
    {
        let rec = match span_get(&self.spans, span) {
            Some(rec) => rec,
            None => return,
        };
        let pairs = values.into_values();
        let event = Event::Record { span: rec.0, values: pairs };
        let ghost ev = event;
        let ghost st0 = self.store_view();
        let r = self.store.push(event, codec);
        proof {
            if old(self).consistent() {
                lemma_push_linked(st0, self.store_view(), ev, codec, r, self.callsites(), self.spans());
                lemma_push_keeps_markers(st0, self.store_view(), ev, codec, r, self.spans());
            }
        }
        assert(Store::push_outcome(old(self).store_view(), self.store_view(), ev, codec, r));
    }

    /// Records that the open span `span` follows from the open span
    /// `follows`; ignored unless both are open.
    pub fn on_follows_from<C: Encode<Event<V>>>(&mut self, span: u64, follows: u64, codec: &C)
        requires
            old(self).wf(),
        ensures
            final(self).wf(),
            Self::same_filter(*old(self), *final(self)),
            old(self).consistent() ==> final(self).consistent(),
            !(old(self).spans().contains_key(span) && old(self).spans().contains_key(follows))
                ==> *final(self) == *old(self),
            old(self).spans().contains_key(span) && old(self).spans().contains_key(follows) ==> {
                &&& final(self).callsites() == old(self).callsites()
                &&& final(self).disabled() == old(self).disabled()
                &&& final(self).spans() == old(self).spans()
                &&& exists|r|
                    Store::push_outcome(
                        old(self).store_view(),
                        final(self).store_view(),
                        Event::FollowsFrom {
                            span: old(self).spans()[span].0,
                            follows: old(self).spans()[follows].0,
                        },
                        codec,
                        r,
                    )
            },
    {
        let a = match span_get(&self.spans, span) {
            Some(rec) => rec,
            None => return,
        };
        let b = match span_get(&self.spans, follows) {
            Some(rec) => rec,
            None => return,
        };
        let ghost st0 = self.store_view();
        let ghost ev = Event::<V>::FollowsFrom { span: a.0, follows: b.0 };
        let r = self.store.push(Event::FollowsFrom { span: a.0, follows: b.0 }, codec);
        proof {
            if old(self).consistent() {
                lemma_push_linked(st0, self.store_view(), ev, codec, r, self.callsites(), self.spans());
                lemma_push_keeps_markers(st0, self.store_view(), ev, codec, r, self.spans());
            }
        }
    }

    /// Records an event of a recorded callsite whose parent can be told.
    /// When its parent is an open span that is entered and whose entry is
    /// not yet recorded, an `Enter` marker is recorded first, and the span
    /// notes it even if the store refused the marker. Then the `Event` event
    /// follows, with its values in field order.
    pub fn on_event<C: Encode<Event<V>>>(
        &mut self,
        callsite: u64,
        parent: Parent,
        values: IndexRecorder<V>,
        codec: &C,
    )
        requires
            old(self).wf(),
        ensures
            final(self).wf(),
            Self::same_filter(*old(self), *final(self)),
            old(self).consistent() ==> final(self).consistent(),
            !old(self).callsites().contains_key(callsite) || parent_of(parent) is None ==> *final(self)
                == *old(self),
            old(self).callsites().contains_key(callsite) && parent_of(parent) is Some ==> {
                let p = parent_of(parent)->0;
                let has_span = p is Some && old(self).spans().contains_key(p->0);
                &&& final(self).callsites() == old(self).callsites()
                &&& final(self).disabled() == old(self).disabled()
                &&& final(self).spans() == if has_span {
                    old(self).spans().insert(p->0, synced(old(self).spans()[p->0]))
                } else {
                    old(self).spans()
                }
                &&& exists|mid: Store<Event<V>, W>, ev: Event<V>, r|
                    {
                        &&& marker_for::<V>(old(self).spans(), p) is Some ==> exists|r0|
                            Store::push_outcome(old(self).store_view(), mid, marker_for::<V>(old(self).spans(), p)->0, codec, r0)
                        &&& marker_for::<V>(old(self).spans(), p) is None ==> mid == old(self).store_view()
                        &&& ev matches Event::Event { parent: pp, callsite: c, values: v }
                            && pp == p && c == old(self).callsites()[callsite]
                            && in_field_order(values.recorded(), v@)
                        &&& Store::push_outcome(mid, final(self).store_view(), ev, codec, r)
                    }
            },
    {
        let cs = match callsite_get(&self.callsites, callsite) {
            Some(cs) => cs,
            None => return,
        };
        let parent = match resolve_parent(&parent) {
            Some(p) => p,
            None => return,
        };
        let ghost mut marker_result: Result<EventRef, StoreError> = Ok(0);
        if let Some(pid) = parent {
            if let Some(rec) = span_get(&self.spans, pid) {
                if !rec.1 && rec.2 {
                    let ghost st0 = self.store_view();
                    let ghost sp0 = self.spans();
                    let r0 = self.store.push(Event::Enter { span: rec.0 }, codec);
                    proof {
                        marker_result = r0;
                        if old(self).consistent() {
                            lemma_push_linked(st0, self.store_view(), Event::Enter { span: rec.0 }, codec, r0, self.callsites(), sp0);
                            lemma_update_span(self.store_view(), self.callsites(), sp0, pid, (rec.0, true, rec.2));
                            lemma_push_marker(st0, self.store_view(), codec, r0, sp0, pid, (rec.0, true, rec.2));
                        }
                    }
                    span_insert(&mut self.spans, pid, (rec.0, true, rec.2));
                } else {
                    assert(old(self).spans().insert(pid, synced(rec)) =~= old(self).spans());
                    assert(marker_of::<V>(rec) is None);
                }
            }
        }
        let ghost mid = self.store;
        let values = values.into_values();
        let event = Event::Event { parent, callsite: cs, values };
        let ghost ev = event;
        proof {
            if old(self).consistent() {
                assert(cs == self.callsites()[callsite]);
            }
        }
        let r = self.store.push(event, codec);
        assert(Store::push_outcome(mid, self.store_view(), ev, codec, r));
        proof {
            if old(self).consistent() {
                lemma_push_linked(mid, self.store_view(), ev, codec, r, self.callsites(), self.spans());
                lemma_push_keeps_markers(mid, self.store_view(), ev, codec, r, self.spans());
            }
        }
        proof {
            let p = parent;
            if marker_for::<V>(old(self).spans(), p) is Some {
                assert(Store::push_outcome(old(self).store_view(), mid, marker_for::<V>(old(self).spans(), p)->0, codec, marker_result));
            } else {
                assert(mid == old(self).store_view());
            }
        }
    }

    /// Records that the open span `id` was left: its `Exit` event is recorded,
    /// and the span notes that it is not entered and that no entry is
    /// recorded since, so that the next event inside it records a new entry.
    /// Spans that are not open are ignored.
    pub fn on_exit<C: Encode<Event<V>>>(&mut self, id: u64, codec: &C)
        requires
            old(self).wf(),
        ensures
            final(self).wf(),
            Self::same_filter(*old(self), *final(self)),
            old(self).consistent() ==> final(self).consistent(),
            !old(self).spans().contains_key(id) ==> *final(self) == *old(self),
            old(self).spans().contains_key(id) ==> {
                let rec = old(self).spans()[id];
                &&& final(self).callsites() == old(self).callsites()
                &&& final(self).disabled() == old(self).disabled()
                &&& final(self).spans() == old(self).spans().insert(id, (rec.0, false, false))
                &&& exists|r|
                    Store::push_outcome(
                        old(self).store_view(),
                        final(self).store_view(),
                        Event::Exit { span: rec.0 },
                        codec,
                        r,
                    )
            },
    {
        if let Some(rec) = span_get(&self.spans, id) {
            let ghost st0 = self.store_view();
            let ghost sp0 = self.spans();
            let r = self.store.push(Event::Exit { span: rec.0 }, codec);
            proof {
                if old(self).consistent() {
                    lemma_push_linked(st0, self.store_view(), Event::Exit { span: rec.0 }, codec, r, self.callsites(), sp0);
                    lemma_update_span(self.store_view(), self.callsites(), sp0, id, (rec.0, false, false));
                    lemma_push_marker(st0, self.store_view(), codec, r, sp0, id, (rec.0, false, false));
                }
            }
            span_insert(&mut self.spans, id, (rec.0, false, false));
            assert(Store::push_outcome(old(self).store_view(), self.store_view(), Event::<V>::Exit { span: rec.0 }, codec, r));
        }
    }

    /// Closes the open span `id`: it is no longer tracked, and its `Close`
    /// event is recorded. Spans that are not open are ignored.
    pub fn on_close<C: Encode<Event<V>>>(&mut self, id: u64, codec: &C)
        requires
            old(self).wf(),
        ensures
            final(self).wf(),
            Self::same_filter(*old(self), *final(self)),
            old(self).consistent() ==> final(self).consistent(),
            !old(self).spans().contains_key(id) ==> *final(self) == *old(self),
            old(self).spans().contains_key(id) ==> {
                &&& final(self).callsites() == old(self).callsites()
                &&& final(self).disabled() == old(self).disabled()
                &&& final(self).spans() == old(self).spans().remove(id)
                &&& exists|r|
                    Store::push_outcome(
                        old(self).store_view(),
                        final(self).store_view(),
                        Event::Close { span: old(self).spans()[id].0 },
                        codec,
                        r,
                    )
            },
    {
        if span_get(&self.spans, id).is_none() {
            return;
        }
        match span_remove(&mut self.spans, id) {
            Some(rec) => {
                let ghost st0 = self.store_view();
                proof {
                    if old(self).consistent() {
                        lemma_remove_span(st0, self.callsites(), old(self).spans(), id);
                        lemma_note_span(st0, old(self).spans(), id, rec);
                        assert(self.spans() == old(self).spans().remove(id));
                        assert forall|k: int| 0 <= k < st0.events().len() && closed_ref(#[trigger] st0.events()[k]) is Some
                            implies !names_span(Event::<V>::Close { span: rec.0 }, closed_ref(st0.events()[k])->0) by {
                            assert(old(self).spans().contains_key(id));
                        }
                        assert forall|x: u64| #[trigger] self.spans().contains_key(x)
                            implies closed_ref(Event::<V>::Close { span: rec.0 }) != Some(self.spans()[x].0) by {
                            assert(old(self).spans().contains_key(x) && x != id);
                        }
                        assert(old(self).spans().contains_key(id));
                    }
                }
                let r = self.store.push(Event::Close { span: rec.0 }, codec);
                proof {
                    if old(self).consistent() {
                        lemma_push_linked(st0, self.store_view(), Event::Close { span: rec.0 }, codec, r, self.callsites(), self.spans());
                        lemma_push_keeps_markers(st0, self.store_view(), Event::Close { span: rec.0 }, codec, r, self.spans());
                    }
                }
                assert(Store::push_outcome(old(self).store_view(), self.store_view(), Event::<V>::Close { span: rec.0 }, codec, r));
            },
            None => {},
        }
    }
}

/// Markers follow the span: an event inside a span that is entered records
/// an entry unless one is recorded since the span was last left, and once
/// recorded the entry is not recorded again until the span is left and
/// entered anew.
pub proof fn lemma_markers_follow_entries<V>(span: EventRef)
    ensures
        marker_of::<V>((span, false, true)) == Some(Event::<V>::Enter { span }),
        marker_of::<V>((span, true, true)) is None,
        marker_of::<V>((span, false, false)) is None,
        synced((span, false, true)) == (span, true, true),
        marker_of::<V>(synced((span, false, true))) is None,
{
}

/// While no push was refused, the entry that an event inside an open span
/// records follows the store: an `Enter` marker is recorded exactly when the
/// span is entered and the last marker stored for it is not an `Enter`
/// event; and a span that is not entered has no `Enter` event as its last
/// marker.
pub proof fn lemma_enter_follows_store<V, W: Sink>(s: Seraphim<V, W>, id: u64)
    requires
        s.wf(),
        s.consistent(),
        s.store_view().refused() == 0,
        s.spans().contains_key(id),
    ensures
        marker_of::<V>(s.spans()[id]) == if s.spans()[id].2 && !last_marker_is_enter(
            s.store_view().events(),
            s.spans()[id].0,
        ) {
            Some(Event::<V>::Enter { span: s.spans()[id].0 })
        } else {
            None
        },
        !s.spans()[id].2 ==> !last_marker_is_enter(s.store_view().events(), s.spans()[id].0),
{
}

/// Every callback keeps the layer consistent (see each callback's
/// `ensures`), and a consistent layer's store is well linked, in memory and
/// on file alike: every `Span` and `Event` record names the reference of an
/// earlier `Callsite` event, every other record names those of earlier
/// `Span` events, and nothing names a span after its `Close` event.
pub proof fn lemma_consistent_store_is_well_linked<V, W: Sink>(s: Seraphim<V, W>)
    requires
        s.consistent(),
    ensures
        well_linked(s.store_view().events(), s.store_view().refs()),
{
}

/// Over any run of callbacks from a consistent layer (a fresh one over an
/// empty store is), the store stays well linked throughout: each state of
/// `states` comes from the one before by a callback, whose `ensures` keep a
/// consistent layer consistent.
pub proof fn lemma_runs_stay_well_linked<V, W: Sink>(states: Seq<Seraphim<V, W>>)
    requires
        states.len() > 0,
        states[0].consistent(),
        forall|i: int| 0 <= i < states.len() - 1 && #[trigger] states[i].consistent()
            ==> states[i + 1].consistent(),
    ensures
        forall|i: int| 0 <= i < states.len() ==> #[trigger] states[i].consistent()
            && well_linked(states[i].store_view().events(), states[i].store_view().refs()),
    decreases states.len(),
{
    if states.len() > 1 {
        let first = states.drop_last();
        assert forall|i: int| 0 <= i < first.len() - 1 && #[trigger] first[i].consistent()
            implies first[i + 1].consistent() by {
            assert(first[i] == states[i] && first[i + 1] == states[i + 1]);
        }
        lemma_runs_stay_well_linked(first);
        let last = states.len() - 1;
        assert(first[last - 1] == states[last - 1]);
        assert(states[last - 1].consistent());
        assert(states[last].consistent());
        assert forall|i: int| 0 <= i < states.len() implies #[trigger] states[i].consistent()
            && well_linked(states[i].store_view().events(), states[i].store_view().refs()) by {
            if i < last {
                assert(first[i] == states[i]);
            }
        }
    }
}

/// In an in-memory store the reference of a stored event is its position,
/// so that a well-linked run of it names earlier positions.
pub proof fn lemma_memory_refs_are_positions<V, W: Sink>(s: Seraphim<V, W>, i: int)
    requires
        s.wf(),
        !s.store_view().is_persistent(),
        0 <= i < s.store_view().events().len(),
    ensures
        s.store_view().refs()[i] == i,
{
}

/// The registration of a callsite decides whether its spans and events are
/// recorded: a callsite not yet recorded is recorded after `register_callsite`
/// exactly when its `Callsite` event was stored and the layer records its
/// level and target, and its spans and events then name that event.
pub proof fn lemma_registration_decides<V, W: Sink>(
    s0: Seraphim<V, W>,
    s1: Seraphim<V, W>,
    callsite: u64,
    meta: CallsiteMeta,
    r: Result<EventRef, StoreError>,
)
    requires
        !s0.callsites().contains_key(callsite),
        r is Ok && s0.records(meta.level, meta.target@) ==> s1.callsites() == s0.callsites().insert(
            callsite,
            r->Ok_0,
        ),
        !(r is Ok && s0.records(meta.level, meta.target@)) ==> s1.callsites() == s0.callsites(),
    ensures
        s1.callsites().contains_key(callsite) <==> (r is Ok && s0.records(meta.level, meta.target@)),
        s1.callsites().contains_key(callsite) ==> s1.callsites()[callsite] == r->Ok_0,
{
}

/// The filter settings are those that `new` sets and no callback changes
/// them: a callsite is recorded exactly when its level is at most `Debug`,
/// whatever was registered or recorded before.
pub proof fn lemma_filter_is_fixed<V, W: Sink>(s0: Seraphim<V, W>, s1: Seraphim<V, W>, level: Level, target: Seq<char>)
    requires
        s0.min_level() == Level::Debug,
        s0.package() == Seq::<char>::empty(),
        Seraphim::same_filter(s0, s1),
    ensures
        s1.records(level, target) <==> verbosity_of(level) <= verbosity_of(Level::Debug),
{
    assert(target.subrange(0, 0) =~= Seq::<char>::empty());
}

/// Where a new span or an event says its parent is decides its parent: an
/// explicit parent first; else, for one in the current context, the current
/// span, there being one or not (outside every span it is a root); else a
/// root when it is marked as one; and nothing can be told otherwise.
pub proof fn lemma_parent_designation(p: Parent)
    ensures
        p.explicit is Some ==> parent_of(p) == Some(p.explicit),
        p.explicit is None && p.contextual ==> parent_of(p) == Some(p.current),
        p.explicit is None && p.contextual && p.current is None ==> parent_of(p) == Some(None::<u64>),
        p.explicit is None && !p.contextual && p.root ==> parent_of(p) == Some(None::<u64>),
        p.explicit is None && !p.contextual && !p.root ==> parent_of(p) is None,
        parent_of(p) is None <==> (p.explicit is None && !p.contextual && !p.root),
{
}

} // verus!
