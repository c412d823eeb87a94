use std::cell::{Cell, RefCell};
use std::rc::Rc;

use seraphim::address::{decode_address, encode_address, AddressError};
use seraphim::client::{Callsites, Step};
use seraphim::frame::{encode_frame, frame_status, header, read_header, take_frame, FrameStatus};
use seraphim::layer::{resolve_parent, CallsiteMeta, Parent, Seraphim};
use seraphim::net::{respond, update_response, Request, Response};
use seraphim::net_iroh::{AcceptProtocol, ClientProtocol, Updates};
use seraphim::journal::Journal;
use seraphim::record::{keep_last_per_name, sort_by_index, IndexRecorder, NamedRecorder};
use seraphim::store::{Database, Encode, Sink, Store, StoreError};
use seraphim::text::{message_field, position_of, same_text, starts_with};
use seraphim::types::{kind_of, level_from_name, Event, Kind, Level};

/// Serializes an event as the decimal digits of a tag; refuses `Close` events.
struct Digits;

impl Encode<Event<u32>> for Digits {
    fn encode(&self, event: &Event<u32>) -> Option<Vec<u8>> {
        match event {
            Event::Close { .. } => None,
            Event::Enter { span } => Some(format!("enter {span}").into_bytes()),
            _ => Some(vec![1, 2, 3]),
        }
    }
}

impl Encode<u32> for Digits {
    fn encode(&self, event: &u32) -> Option<Vec<u8>> {
        if *event == 0 {
            None
        } else {
            Some(event.to_string().into_bytes())
        }
    }
}

/// A file kept in memory, shared with the test that reads it back; it
/// refuses every write while `failing` is set.
#[derive(Clone, Default)]
struct Memo {
    bytes: Rc<RefCell<Vec<u8>>>,
    failing: Rc<Cell<bool>>,
}

impl Memo {
    fn contents(&self) -> Vec<u8> {
        self.bytes.borrow().clone()
    }
}

impl Sink for Memo {
    fn write_bytes(&mut self, bytes: &[u8]) -> bool {
        if self.failing.get() {
            return false;
        }
        self.bytes.borrow_mut().extend_from_slice(bytes);
        true
    }
}

fn meta(level: Level, target: &str) -> CallsiteMeta {
    CallsiteMeta {
        name: "event src/main.rs:1".to_string(),
        target: target.to_string(),
        level,
        file: Some("src/main.rs".to_string()),
        line: Some(1),
        module: Some("app".to_string()),
        fields: vec![(1, "answer".to_string()), (0, "message".to_string())],
        kind: Kind::Event,
    }
}

fn root() -> Parent {
    Parent { explicit: None, contextual: false, current: None, root: true }
}

fn child_of(id: u64) -> Parent {
    Parent { explicit: Some(id), contextual: false, current: None, root: false }
}

fn values(items: &[(usize, u32)]) -> IndexRecorder<u32> {
    let mut r = IndexRecorder::new();
    for (i, v) in items {
        r.record(*i, *v);
    }
    r
}

fn all_events(layer: &Seraphim<u32, Memo>) -> Vec<Event<u32>> {
    let n = layer.store().len();
    layer.store().read(0, n).unwrap()
}

#[test]
fn header_is_big_endian() {
    assert_eq!(header(0x0102_0304), vec![1, 2, 3, 4]);
    assert_eq!(header(5), vec![0, 0, 0, 5]);
    assert_eq!(read_header(&[0, 0, 1, 0]), 256);
    assert_eq!(read_header(&[0xff, 0xff, 0xff, 0xff, 7]), u32::MAX);
}

#[test]
fn frame_carries_length_then_payload() {
    assert_eq!(encode_frame(b"abc").unwrap(), vec![0, 0, 0, 3, 97, 98, 99]);
    assert_eq!(encode_frame(b"").unwrap(), vec![0, 0, 0, 0]);
}

#[test]
fn frame_status_tells_what_is_missing() {
    assert_eq!(frame_status(&[0, 0]), FrameStatus::Incomplete { missing: 2 });
    assert_eq!(frame_status(&[0, 0, 0, 5, 1]), FrameStatus::Incomplete { missing: 4 });
    assert_eq!(frame_status(&[0, 0, 0, 1, 9, 7]), FrameStatus::Complete { len: 1 });
    assert_eq!(frame_status(&[0, 0, 0, 0]), FrameStatus::Complete { len: 0 });
}

#[test]
fn take_frame_removes_one_frame() {
    let mut buf = vec![0, 0, 0, 2, 5, 6, 7];
    assert_eq!(take_frame(&mut buf), Some(vec![5, 6]));
    assert_eq!(buf, vec![7]);
    assert_eq!(take_frame(&mut buf), None);
    assert_eq!(buf, vec![7]);
}

#[test]
fn frame_roundtrip_with_trailing_bytes() {
    let mut buf = encode_frame(b"hello").unwrap();
    buf.extend_from_slice(&[0, 0]);
    assert_eq!(take_frame(&mut buf), Some(b"hello".to_vec()));
    assert_eq!(buf, vec![0, 0]);
}

#[test]
fn codecs_roundtrip() {
    let mut wire = Vec::new();
    ClientProtocol.encode(b"status", &mut wire).unwrap();
    ClientProtocol.encode(b"read", &mut wire).unwrap();
    assert_eq!(&wire[..4], &[0, 0, 0, 6]);
    let mut server = AcceptProtocol;
    assert_eq!(server.decode(&mut wire), Some(b"status".to_vec()));
    assert_eq!(server.decode(&mut wire), Some(b"read".to_vec()));
    assert_eq!(server.decode(&mut wire), None);
    assert!(wire.is_empty());

    let mut back = Vec::new();
    server.encode(b"ok", &mut back).unwrap();
    let mut partial = back[..5].to_vec();
    assert_eq!(ClientProtocol.decode(&mut partial), None);
    assert_eq!(partial, back[..5].to_vec());
    assert_eq!(ClientProtocol.decode(&mut back), Some(b"ok".to_vec()));
}

#[test]
fn memory_store_refs_are_positions() {
    let mut store: Store<u32, Memo> = Store::in_memory();
    assert_eq!(store.push(10, &Digits), Ok(0));
    assert_eq!(store.push(0, &Digits), Ok(1));
    assert_eq!(store.push(30, &Digits), Ok(2));
    assert_eq!(store.len(), 3);
    assert_eq!(store.read(1, 3), Ok(vec![0, 30]));
    assert_eq!(store.read(0, 0), Ok(vec![]));
}

#[test]
fn read_outside_the_store_is_refused() {
    let mut store: Store<u32, Memo> = Store::in_memory();
    store.push(1, &Digits).unwrap();
    assert_eq!(store.read(0, 2), Err(StoreError::OutOfRange));
    assert_eq!(store.read(1, 0), Err(StoreError::OutOfRange));
}

#[test]
fn file_store_refs_are_offsets() {
    let file = Memo::default();
    let mut store: Store<u32, Memo> = Store::open(10, file.clone());
    assert_eq!(store.push(7, &Digits), Ok(10));
    assert_eq!(store.push(42, &Digits), Ok(15));
    assert_eq!(store.len(), 2);
    assert_eq!(file.contents(), vec![0, 0, 0, 1, b'7', 0, 0, 0, 2, b'4', b'2']);
    assert_eq!(store.push(5, &Digits), Ok(21));
    assert_eq!(file.contents().len(), 16);
}

#[test]
fn file_store_refuses_what_it_cannot_encode() {
    let file = Memo::default();
    let mut store: Store<u32, Memo> = Store::open(0, file.clone());
    assert_eq!(store.push(0, &Digits), Err(StoreError::Encode));
    assert_eq!(store.len(), 0);
    assert_eq!(file.contents(), Vec::<u8>::new());
    assert_eq!(store.push(3, &Digits), Ok(0));
}

#[test]
fn failed_write_keeps_nothing() {
    let file = Memo::default();
    let mut store: Store<u32, Memo> = Store::open(10, file.clone());
    file.failing.set(true);
    assert_eq!(store.push(7, &Digits), Err(StoreError::Write));
    assert_eq!(store.len(), 0);
    assert_eq!(file.contents(), Vec::<u8>::new());
    file.failing.set(false);
    assert_eq!(store.push(8, &Digits), Ok(10));
    assert_eq!(store.read(0, 1), Ok(vec![8]));
    assert_eq!(file.contents(), vec![0, 0, 0, 1, b'8']);
}

#[test]
fn store_refuses_when_its_count_would_overflow() {
    let mut store: Store<u32, Memo> = Store::open(u64::MAX - 5, Memo::default());
    assert_eq!(store.push(123, &Digits), Err(StoreError::Exhausted));
    assert_eq!(store.push(1, &Digits), Ok(u64::MAX - 5));
    assert_eq!(store.len(), 1);
}

#[test]
fn database_frames_records() {
    let file = Memo::default();
    let mut db = Database::open(file.clone());
    assert_eq!(db.append(b"xy"), Ok(6));
    assert_eq!(db.push(&9u32, &Digits), Ok(5));
    assert_eq!(db.push(&0u32, &Digits), Err(StoreError::Encode));
    assert_eq!(file.contents(), vec![0, 0, 0, 2, b'x', b'y', 0, 0, 0, 1, b'9']);
    file.failing.set(true);
    assert_eq!(db.append(b"z"), Err(StoreError::Write));
    assert_eq!(db.push(&4u32, &Digits), Err(StoreError::Write));
    assert_eq!(file.contents().len(), 11);
}

#[test]
fn tracing_levels_map_to_levels() {
    assert_eq!(Level::from(tracing::Level::ERROR), Level::Error);
    assert_eq!(Level::from(tracing::Level::WARN), Level::Warn);
    assert_eq!(Level::from(tracing::Level::INFO), Level::Info);
    assert_eq!(Level::from(tracing::Level::DEBUG), Level::Debug);
    assert_eq!(Level::from(tracing::Level::TRACE), Level::Trace);
}

#[test]
fn levels_order_by_verbosity() {
    assert_eq!(Level::Error.verbosity(), 0);
    assert_eq!(Level::Trace.verbosity(), 4);
    assert!(Level::Info.is_within(Level::Debug));
    assert!(Level::Debug.is_within(Level::Debug));
    assert!(!Level::Trace.is_within(Level::Debug));
    assert_eq!(Level::Warn.label(), "WARN ");
    assert_eq!(Level::Error.label(), "ERROR");
    assert_eq!(Level::Info.label(), "INFO ");
}

#[test]
fn text_comparisons() {
    assert!(same_text("seraphim", "seraphim"));
    assert!(!same_text("seraphim", "seraph"));
    assert!(starts_with("seraphim::net", "seraphim"));
    assert!(starts_with("anything", ""));
    assert!(!starts_with("ser", "seraphim"));
    let fields = vec!["answer".to_string(), "message".to_string(), "message".to_string()];
    assert_eq!(position_of(&fields, "message"), Some(1));
    assert_eq!(position_of(&fields, "other"), None);
    assert_eq!(message_field(&fields, 2), Some(1));
    assert_eq!(message_field(&fields, 1), None);
}

#[test]
fn sort_keeps_order_of_equal_indices() {
    let sorted = sort_by_index(vec![(1, 'x'), (0, 'y'), (1, 'z'), (0, 'w')]);
    assert_eq!(sorted, vec![(0, 'y'), (0, 'w'), (1, 'x'), (1, 'z')]);
}

#[test]
fn index_recorder_orders_by_field() {
    let r = values(&[(2, 30), (0, 10), (1, 20)]);
    assert_eq!(r.into_values(), vec![10, 20, 30]);
}

#[test]
fn named_recorder_keeps_first_value_of_a_field() {
    let mut r = NamedRecorder::new();
    r.record(1, "b".to_string(), 20u32);
    r.record(0, "a".to_string(), 10u32);
    r.record(1, "b".to_string(), 30u32);
    assert_eq!(r.into_values(), vec![("a".to_string(), 10), ("b".to_string(), 20)]);
}

#[test]
fn named_recorder_keeps_the_last_field_of_a_name() {
    let mut r = NamedRecorder::new();
    r.record(2, "x".to_string(), 3u32);
    r.record(0, "x".to_string(), 1u32);
    r.record(1, "y".to_string(), 2u32);
    assert_eq!(r.into_values(), vec![("y".to_string(), 2), ("x".to_string(), 3)]);
}

#[test]
fn keep_last_per_name_drops_earlier_pairs_of_a_name() {
    let pairs = vec![("a".to_string(), 1u32), ("b".to_string(), 2), ("a".to_string(), 3), ("c".to_string(), 4)];
    assert_eq!(
        keep_last_per_name(pairs),
        vec![("b".to_string(), 2), ("a".to_string(), 3), ("c".to_string(), 4)]
    );
    assert_eq!(keep_last_per_name(Vec::<(String, u32)>::new()), vec![]);
}

#[test]
fn parents_are_resolved() {
    assert_eq!(resolve_parent(&child_of(4)), Some(Some(4)));
    assert_eq!(
        resolve_parent(&Parent { explicit: None, contextual: true, current: Some(9), root: false }),
        Some(Some(9))
    );
    assert_eq!(resolve_parent(&root()), Some(None));
    assert_eq!(
        resolve_parent(&Parent { explicit: None, contextual: false, current: Some(9), root: false }),
        None
    );
}

#[test]
fn enabled_callsite_records_its_events() {
    let mut layer: Seraphim<u32, Memo> = Seraphim::new(Store::in_memory());
    layer.register_callsite(7, meta(Level::Info, "app"), &Digits);
    layer.on_event(7, root(), values(&[(1, 42), (0, 1)]), &Digits);
    let events = all_events(&layer);
    assert_eq!(events.len(), 2);
    match &events[0] {
        Event::Callsite { fields, level, .. } => {
            assert_eq!(fields, &vec!["message".to_string(), "answer".to_string()]);
            assert_eq!(*level, Level::Info);
        }
        other => panic!("expected a callsite, got {other:?}"),
    }
    match &events[1] {
        Event::Event { parent, callsite, values } => {
            assert_eq!(*parent, None);
            assert_eq!(*callsite, 0);
            assert_eq!(values, &vec![1, 42]);
        }
        other => panic!("expected an event, got {other:?}"),
    }
}

#[test]
fn too_verbose_callsite_is_not_recorded() {
    let mut layer: Seraphim<u32, Memo> = Seraphim::new(Store::in_memory());
    layer.register_callsite(3, meta(Level::Trace, "app"), &Digits);
    layer.on_event(3, root(), values(&[(0, 1)]), &Digits);
    layer.on_new_span(1, 3, root(), values(&[]), &Digits);
    assert_eq!(layer.store().len(), 1);
}

#[test]
fn unknown_callsite_is_ignored() {
    let mut layer: Seraphim<u32, Memo> = Seraphim::new(Store::in_memory());
    layer.on_event(99, root(), values(&[(0, 1)]), &Digits);
    assert_eq!(layer.store().len(), 0);
}

#[test]
fn span_markers_follow_entries() {
    let mut layer: Seraphim<u32, Memo> = Seraphim::new(Store::in_memory());
    layer.register_callsite(1, meta(Level::Debug, "app"), &Digits);
    layer.on_new_span(100, 1, root(), values(&[(0, 5)]), &Digits);
    layer.on_enter(100);
    layer.on_event(1, child_of(100), values(&[]), &Digits);
    layer.on_event(1, child_of(100), values(&[]), &Digits);
    layer.on_exit(100, &Digits);
    layer.on_event(1, child_of(100), values(&[]), &Digits);
    let events = all_events(&layer);
    assert_eq!(events.len(), 7);
    assert!(matches!(events[1], Event::Span { parent: None, callsite: 0, .. }));
    assert!(matches!(events[2], Event::Enter { span: 1 }));
    assert!(matches!(events[3], Event::Event { parent: Some(100), .. }));
    assert!(matches!(events[4], Event::Event { parent: Some(100), .. }));
    assert!(matches!(events[5], Event::Exit { span: 1 }));
    assert!(matches!(events[6], Event::Event { parent: Some(100), .. }));
}

#[test]
fn exit_is_recorded_when_the_span_is_left() {
    let mut layer: Seraphim<u32, Memo> = Seraphim::new(Store::in_memory());
    layer.register_callsite(1, meta(Level::Debug, "app"), &Digits);
    layer.on_new_span(100, 1, root(), values(&[]), &Digits);
    layer.on_enter(100);
    layer.on_exit(100, &Digits);
    layer.on_event(1, child_of(100), values(&[]), &Digits);
    layer.on_exit(7, &Digits);
    let events = all_events(&layer);
    assert_eq!(events.len(), 4);
    assert!(matches!(events[2], Event::Exit { span: 1 }));
    assert!(matches!(events[3], Event::Event { parent: Some(100), .. }));
}

#[test]
fn closed_span_is_forgotten() {
    let mut layer: Seraphim<u32, Memo> = Seraphim::new(Store::in_memory());
    layer.register_callsite(1, meta(Level::Debug, "app"), &Digits);
    layer.on_new_span(5, 1, root(), values(&[]), &Digits);
    layer.on_new_span(6, 1, root(), values(&[]), &Digits);
    layer.on_follows_from(6, 5, &Digits);
    let mut named = NamedRecorder::new();
    named.record(0, "x".to_string(), 3u32);
    layer.on_record(5, named, &Digits);
    layer.on_close(5, &Digits);
    layer.on_record(5, NamedRecorder::new(), &Digits);
    layer.on_close(5, &Digits);
    let events = all_events(&layer);
    assert_eq!(events.len(), 6);
    assert!(matches!(events[3], Event::FollowsFrom { span: 2, follows: 1 }));
    match &events[4] {
        Event::Record { span, values } => {
            assert_eq!(*span, 1);
            assert_eq!(values, &vec![("x".to_string(), 3)]);
        }
        other => panic!("expected a record, got {other:?}"),
    }
    assert!(matches!(events[5], Event::Close { span: 1 }));
}

#[test]
fn renamed_span_keeps_its_record() {
    let mut layer: Seraphim<u32, Memo> = Seraphim::new(Store::in_memory());
    layer.register_callsite(1, meta(Level::Debug, "app"), &Digits);
    layer.on_new_span(5, 1, root(), values(&[]), &Digits);
    layer.on_id_change(5, 8);
    layer.on_close(5, &Digits);
    layer.on_close(8, &Digits);
    let events = all_events(&layer);
    assert_eq!(events.len(), 3);
    assert!(matches!(events[2], Event::Close { span: 1 }));
}

#[test]
fn file_backed_layer_frames_events() {
    let file = Memo::default();
    let mut layer: Seraphim<u32, Memo> = Seraphim::new(Store::open(0, file.clone()));
    layer.register_callsite(1, meta(Level::Debug, "app"), &Digits);
    layer.on_new_span(5, 1, root(), values(&[]), &Digits);
    layer.on_enter(5);
    layer.on_event(1, child_of(5), values(&[]), &Digits);
    let mut expected = vec![0, 0, 0, 3, 1, 2, 3, 0, 0, 0, 3, 1, 2, 3];
    expected.extend_from_slice(&[0, 0, 0, 7]);
    expected.extend_from_slice(b"enter 7");
    expected.extend_from_slice(&[0, 0, 0, 3, 1, 2, 3]);
    assert_eq!(file.contents(), expected);
    // closing is refused by the codec: the span is forgotten all the same
    layer.on_close(5, &Digits);
    assert_eq!(layer.store().len(), 4);
    layer.on_close(5, &Digits);
    assert_eq!(file.contents().len(), 32);
}

#[test]
fn refused_writes_are_not_recorded() {
    let file = Memo::default();
    let mut layer: Seraphim<u32, Memo> = Seraphim::new(Store::open(0, file.clone()));
    file.failing.set(true);
    layer.register_callsite(1, meta(Level::Debug, "app"), &Digits);
    file.failing.set(false);
    // the callsite's event was refused, so it is not recorded
    layer.on_event(1, root(), values(&[]), &Digits);
    assert_eq!(layer.store().len(), 0);
    layer.register_callsite(1, meta(Level::Debug, "app"), &Digits);
    layer.on_new_span(5, 1, root(), values(&[]), &Digits);
    layer.on_enter(5);
    file.failing.set(true);
    // the entry is refused, and the span notes it all the same
    layer.on_event(1, child_of(5), values(&[]), &Digits);
    file.failing.set(false);
    layer.on_event(1, child_of(5), values(&[]), &Digits);
    let events = all_events(&layer);
    assert_eq!(events.len(), 3);
    assert!(matches!(events[1], Event::Span { parent: None, callsite: 0, .. }));
    assert!(matches!(events[2], Event::Event { parent: Some(5), callsite: 0, .. }));
    assert_eq!(file.contents().len(), 21);
}

#[test]
fn server_answers_requests() {
    let mut store: Store<u32, Memo> = Store::in_memory();
    store.push(11, &Digits).unwrap();
    store.push(22, &Digits).unwrap();
    assert!(matches!(respond(&store, Request::Status), Ok(Response::Status { end: 2 })));
    match respond(&store, Request::Read { start: 1, stop: 2 }) {
        Ok(Response::Read { start, events }) => {
            assert_eq!(start, 1);
            assert_eq!(events, vec![22]);
        }
        other => panic!("unexpected {other:?}"),
    }
    assert!(matches!(
        respond(&store, Request::Read { start: 0, stop: 3 }),
        Err(StoreError::OutOfRange)
    ));
}

#[test]
fn updates_tell_where_events_stand() {
    assert!(update_response::<u32>(5, vec![]).is_none());
    match update_response(5, vec![1u32, 2]) {
        Some(Response::Update { start, events }) => {
            assert_eq!(start, 4);
            assert_eq!(events, vec![1, 2]);
        }
        other => panic!("unexpected {other:?}"),
    }
    match seraphim::net_iroh::update_response(5, vec![1u32]) {
        Some(Response::Update { start, .. }) => assert_eq!(start, 5),
        other => panic!("unexpected {other:?}"),
    }
    assert!(seraphim::net_iroh::update_response::<u32>(5, vec![]).is_none());
}

#[test]
fn address_text_is_z_base_32() {
    assert_eq!(encode_address(b"peter"), b"qb1ze3m1".to_vec());
    assert_eq!(decode_address(b"qb1ze3m1"), Ok(b"peter".to_vec()));
    assert_eq!(encode_address(b""), Vec::<u8>::new());
}

#[test]
fn short_texts_decode_to_their_whole_bytes() {
    assert_eq!(decode_address(b"y"), Ok(vec![0]));
    assert_eq!(decode_address(b"yy"), Ok(vec![0]));
    assert_eq!(decode_address(b"yyy"), Ok(vec![0, 0]));
    assert_eq!(decode_address(b"yyyyyy"), Ok(vec![0, 0, 0, 0]));
    assert_eq!(decode_address(b"yyyyyyyy"), Ok(vec![0, 0, 0, 0, 0]));
}

#[test]
fn address_roundtrip() {
    let data = "The quick brown fox jumps over the lazy dog. \u{1F440}".as_bytes();
    let text = encode_address(data);
    assert_eq!(
        String::from_utf8(text.clone()).unwrap(),
        "ktwgkedtqiwsg43ycj3g675qrbug66bypj4s4hdurbzzc3m1rb4go3jyptozw6jyctzsqmty6nx3dyy"
    );
    assert_eq!(decode_address(&text), Ok(data.to_vec()));
}

#[test]
fn invalid_address_character_is_reported() {
    assert_eq!(
        decode_address(b"qb!ze3m1"),
        Err(AddressError::InvalidCharacter { character: '!', index: 2 })
    );
}

#[test]
fn callsite_kinds_follow_the_metadata() {
    assert_eq!(kind_of(true, false), Kind::Event);
    assert_eq!(kind_of(true, true), Kind::Event);
    assert_eq!(kind_of(false, true), Kind::Span);
    assert_eq!(kind_of(false, false), Kind::Hint);
}

fn callsite_event() -> Event<u32> {
    Event::Callsite {
        name: "event".to_string(),
        target: "app".to_string(),
        level: Level::Info,
        file: None,
        line: None,
        module: None,
        fields: vec!["message".to_string()],
        kind: Kind::Event,
    }
}

#[test]
fn client_files_callsites_and_shows_their_events() {
    let mut filed = Callsites::new();
    let batch = vec![
        Event::Event { parent: None, callsite: 1, values: vec![1] },
        callsite_event(),
        Event::Event { parent: None, callsite: 1, values: vec![2] },
        Event::Enter { span: 1 },
        Event::Event { parent: Some(4), callsite: 3, values: vec![] },
    ];
    assert_eq!(
        filed.take_batch(&batch),
        vec![Step::Skip, Step::File(1), Step::Show(1), Step::Skip, Step::Skip]
    );
    assert_eq!(filed.len(), 1);
    let later = vec![Event::Event { parent: None, callsite: 1, values: vec![3] }, callsite_event()];
    assert_eq!(filed.take_batch(&later), vec![Step::Show(1), Step::File(1)]);
    assert_eq!(filed.len(), 1);
    assert_eq!(filed.take_batch(&vec![callsite_event(), Event::Close { span: 0 }]), vec![Step::File(0), Step::Skip]);
    assert_eq!(filed.len(), 2);
}

#[test]
fn filter_stays_as_set_by_new() {
    let mut layer: Seraphim<u32, Memo> = Seraphim::new(Store::in_memory());
    layer.register_callsite(1, meta(Level::Trace, "app"), &Digits);
    layer.register_callsite(2, meta(Level::Debug, "other"), &Digits);
    layer.on_event(1, root(), values(&[]), &Digits);
    layer.on_event(2, root(), values(&[]), &Digits);
    layer.register_callsite(3, meta(Level::Error, "app"), &Digits);
    layer.on_event(3, root(), values(&[]), &Digits);
    let events = all_events(&layer);
    assert_eq!(events.len(), 5);
    assert!(matches!(events[2], Event::Event { callsite: 1, .. }));
    assert!(matches!(events[4], Event::Event { callsite: 3, .. }));
}

#[test]
fn store_over_a_byte_buffer_holds_its_frames() {
    let mut store: Store<u32, Vec<u8>> = Store::open(2, vec![9, 9]);
    assert_eq!(store.push(7, &Digits), Ok(2));
    assert_eq!(store.push(0, &Digits), Err(StoreError::Encode));
    assert_eq!(store.push(42, &Digits), Ok(7));
    assert_eq!(store.file(), Some(&vec![9, 9, 0, 0, 0, 1, b'7', 0, 0, 0, 2, b'4', b'2']));
    let memory: Store<u32, Vec<u8>> = Store::in_memory();
    assert_eq!(memory.file(), None);
}

#[test]
fn updates_hand_out_what_was_received_in_order() {
    let mut updates: Updates<u32> = Updates::new();
    assert!(updates.flush(3).is_none());
    updates.receive(1);
    updates.receive(2);
    match updates.flush(5) {
        Some(Response::Update { start, events }) => {
            assert_eq!(start, 5);
            assert_eq!(events, vec![1, 2]);
        }
        other => panic!("unexpected {other:?}"),
    }
    assert!(updates.flush(5).is_none());
    updates.receive(3);
    match updates.flush(6) {
        Some(Response::Update { start, events }) => {
            assert_eq!(start, 6);
            assert_eq!(events, vec![3]);
        }
        other => panic!("unexpected {other:?}"),
    }
}

#[test]
fn journal_hands_bytes_to_its_sink() {
    let mut journal = Journal::new(vec![1u8]);
    assert!(journal.write(&[2, 3]));
    assert!(journal.write(&[]));
    assert_eq!(journal.sink(), &vec![1, 2, 3]);
    let failing = Memo::default();
    failing.failing.set(true);
    let mut journal = Journal::new(failing.clone());
    assert!(!journal.write(&[4]));
    assert_eq!(failing.contents(), Vec::<u8>::new());
}

#[test]
fn level_names_map_to_levels() {
    assert_eq!(level_from_name("ERROR"), Level::Error);
    assert_eq!(level_from_name("WARN"), Level::Warn);
    assert_eq!(level_from_name("INFO"), Level::Info);
    assert_eq!(level_from_name("DEBUG"), Level::Debug);
    assert_eq!(level_from_name("TRACE"), Level::Trace);
}
