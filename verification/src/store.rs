//! An append-only store of events, kept in memory and, for a file-backed
//! store, framed for the file that holds them.

use vstd::prelude::*;
use std::collections::VecDeque;
use crate::frame::{append_frame, concat_frames, framed, lemma_concat_frames_push};
use crate::journal::Journal;
use crate::types::EventRef;

verus! {

broadcast use vstd::std_specs::vecdeque::axiom_spec_len;

/// Turns an event into the bytes that a file-backed store keeps for it.
pub trait Encode<E> {
    /// The serialized form of `event`, or `None` where it cannot be serialized.
    fn encode(&self, event: &E) -> Option<Vec<u8>>;
}

/// Whether `codec` may hand back `out` when asked to serialize `event`.
pub open spec fn encodes<E, C: Encode<E>>(codec: &C, event: &E, out: Option<Vec<u8>>) -> bool {
    call_ensures(C::encode, (codec, event), out)
}

/// Where a file-backed database writes its frames: the file that holds them.
pub trait Sink {
    /// Writes all of `bytes`; `false` where that failed.
    fn write_bytes(&mut self, bytes: &[u8]) -> bool;
}

/// A sink in memory: it takes every write, appending it to its bytes.
impl Sink for Vec<u8> {
    fn write_bytes(&mut self, bytes: &[u8]) -> bool {
        let mut i: usize = 0;
        while i < bytes.len()
            decreases bytes@.len() - i,
        {
            self.push(bytes[i]);
            i = i + 1;
        }
        true
    }
}

/// Why a store refused an operation.
#[derive(Debug, Clone, Copy, PartialEq, Eq, Structural)]
pub enum StoreError {
    /// The event could not be serialized.
    Encode,
    /// The serialized event is longer than a frame can describe.
    TooLarge,
    /// The count of bytes or events written would no longer fit in 64 bits.
    Exhausted,
    /// The file did not take the event's frame.
    Write,
    /// The requested range does not lie within the stored events.
    OutOfRange,
}

/// The largest payload that one frame of the database may carry, so that the
/// payload and its four-byte header together stay within `u32::MAX` bytes.
pub const MAX_RECORD: u32 = 0xffff_fffb;

/// A file-backed event database. Events are serialized and appended to the
/// file as frames.
pub struct Database<W> {
    file: Journal<W>,
}

impl<W: Sink> Database<W> {
    /// The bytes handed to the file in the writes it reported as done, in
    /// order, since the database was opened.
    pub closed spec fn sent(&self) -> Seq<u8> {
        self.file.taken()
    }

    /// The frames of the writes that the file reported as failed, in order.
    pub closed spec fn refusals(&self) -> Seq<Seq<u8>> {
        self.file.refused()
    }

    /// The file that the database writes to.
    pub closed spec fn file_view(&self) -> W {
        self.file.sink_view()
    }

    /// A database over `file`, whose contents stay as they are.
    pub fn open(file: W) -> (db: Database<W>)
        ensures
            db.file_view() == file,
            db.sent() == Seq::<u8>::empty(),
            db.refusals() == Seq::<Seq<u8>>::empty(),
    {
        Database { file: Journal::new(file) }
    }

    /// The file that the database writes to.
    pub fn file(&self) -> (f: &W)
        ensures
            *f == self.file_view(),
    {
        self.file.sink()
    }

    /// Appends the frame of an already serialized event to the file: its
    /// length as four big-endian bytes, then the payload. Returns how many
    /// bytes that frame takes there. A payload too long for a frame is
    /// refused, and nothing is written; a frame that the file does not take
    /// is refused too.
    pub fn append(&mut self, bytes: &[u8]) -> (r: Result<u32, StoreError>)
        ensures
            bytes@.len() > MAX_RECORD ==> r == Err::<u32, StoreError>(StoreError::TooLarge),
            bytes@.len() <= MAX_RECORD ==> (r == Ok::<u32, StoreError>((bytes@.len() + 4) as u32)
                || r == Err::<u32, StoreError>(StoreError::Write)),
            r is Ok ==> final(self).sent() == old(self).sent() + framed(bytes@),
            r is Err ==> final(self).sent() == old(self).sent(),
            r == Err::<u32, StoreError>(StoreError::Write) ==> final(self).refusals() == old(self).refusals().push(framed(bytes@)),
            r != Err::<u32, StoreError>(StoreError::Write) ==> final(self).refusals() == old(self).refusals(),
    {
        if bytes.len() > MAX_RECORD as usize {
            return Err(StoreError::TooLarge);
        }
        let mut frame: Vec<u8> = Vec::new();
        append_frame(&mut frame, bytes);
        assert(frame@ =~= framed(bytes@));
        if !self.file.write(frame.as_slice()) {
            return Err(StoreError::Write);
        }
        Ok(bytes.len() as u32 + 4)
    }

    /// Serializes `event` with `codec` and appends its frame to the file;
    /// returns how many bytes that frame takes there.
    pub fn push<E, C: Encode<E>>(&mut self, event: &E, codec: &C) -> (r: Result<u32, StoreError>)
        ensures
            match r {
                Ok(n) => exists|v: Vec<u8>|
                    {
                        &&& encodes(codec, event, Some(v))
                        &&& v@.len() <= MAX_RECORD
                        &&& n == v@.len() + 4
                        &&& final(self).sent() == old(self).sent() + framed(v@)
                        &&& final(self).refusals() == old(self).refusals()
                    },
                Err(e) => {
                    &&& final(self).sent() == old(self).sent()
                    &&& e != StoreError::Write ==> final(self).refusals() == old(self).refusals()
                    &&& {
                        ||| e == StoreError::Encode && encodes(codec, event, None)
                        ||| e == StoreError::TooLarge && exists|v: Vec<u8>|
                            encodes(codec, event, Some(v)) && v@.len() > MAX_RECORD
                        ||| e == StoreError::Write && exists|v: Vec<u8>|
                            encodes(codec, event, Some(v)) && v@.len() <= MAX_RECORD
                                && final(self).refusals() == old(self).refusals().push(framed(v@))
                    }
                },
            },
    {
        let out = codec.encode(event);
        match out {
            None => Err(StoreError::Encode),
            Some(bytes) => {
                assert(encodes(codec, event, Some(bytes)));
                self.append(bytes.as_slice())
            },
        }
    }
}

/// An append-only store of events, either in memory only or backed by a file.
pub struct Store<E, W> {
    session: VecDeque<E>,
    db: Option<Database<W>>,
    written: u64,
    refs: Ghost<Seq<EventRef>>,
    refused: Ghost<nat>,
}

impl<E, W: Sink> Store<E, W> {
    /// The events pushed in this session, oldest first.
    pub closed spec fn events(&self) -> Seq<E> {
        self.session@
    }

    /// The number that identifies the next event: a count of events for an
    /// in-memory store, a count of bytes for a file-backed one.
    pub closed spec fn written(&self) -> u64 {
        self.written
    }

    /// Whether the store is backed by a file.
    pub closed spec fn is_persistent(&self) -> bool {
        self.db is Some
    }

    /// The bytes handed to the file in the writes it reported as done, in
    /// order, since the store was opened (none for an in-memory store).
    pub closed spec fn sent(&self) -> Seq<u8> {
        match self.db {
            Some(db) => db.sent(),
            None => Seq::empty(),
        }
    }

    /// The frames of the writes that the file reported as failed, in order
    /// (none for an in-memory store).
    pub closed spec fn refusals(&self) -> Seq<Seq<u8>> {
        match self.db {
            Some(db) => db.refusals(),
            None => Seq::empty(),
        }
    }

    /// The file that the store writes to, if it is backed by one.
    pub closed spec fn file_view(&self) -> Option<W> {
        match self.db {
            Some(db) => Some(db.file_view()),
            None => None,
        }
    }

    /// The reference handed out for each event of this session, in order.
    pub closed spec fn refs(&self) -> Seq<EventRef> {
        self.refs@
    }

    /// How many pushes of this session were refused.
    pub closed spec fn refused(&self) -> nat {
        self.refused@
    }

    /// The store's own invariant: one reference per event, growing and below
    /// the next; an in-memory store counts its events, so that each
    /// reference is the event's position.
    pub open spec fn wf(&self) -> bool {
        &&& self.refs().len() == self.events().len()
        &&& forall|i: int, j: int| 0 <= i < j < self.refs().len() ==> #[trigger] self.refs()[i] < #[trigger] self.refs()[j]
        &&& forall|i: int| 0 <= i < self.refs().len() ==> #[trigger] self.refs()[i] < self.written()
        &&& !self.is_persistent() ==> self.written() == self.events().len()
        &&& !self.is_persistent() ==> forall|i: int| 0 <= i < self.refs().len() ==> #[trigger] self.refs()[i] == i
    }

    /// Whether `new` is what pushing `event` onto `old` may leave, given the
    /// result `r` of the push, a file-backed store serializing with `codec`.
    pub open spec fn push_outcome<C: Encode<E>>(
        old: Self,
        new: Self,
        event: E,
        codec: &C,
        r: Result<EventRef, StoreError>,
    ) -> bool {
        &&& new.is_persistent() == old.is_persistent()
        &&& match r {
            Ok(at) => {
                &&& at == old.written()
                &&& new.events() == old.events().push(event)
                &&& new.refs() == old.refs().push(at)
                &&& new.refused() == old.refused()
                &&& new.refusals() == old.refusals()
                &&& if old.is_persistent() {
                    exists|v: Vec<u8>|
                        {
                            &&& encodes(codec, &event, Some(v))
                            &&& v@.len() <= MAX_RECORD
                            &&& new.sent() == old.sent() + framed(v@)
                            &&& new.written() == old.written() + v@.len() + 4
                        }
                } else {
                    &&& new.sent() == old.sent()
                    &&& new.written() == old.written() + 1
                }
            },
            Err(e) => {
                &&& new.events() == old.events()
                &&& new.written() == old.written()
                &&& new.refs() == old.refs()
                &&& new.refused() == old.refused() + 1
                &&& new.sent() == old.sent()
                &&& e != StoreError::Write ==> new.refusals() == old.refusals()
                &&& if old.is_persistent() {
                    ||| e == StoreError::Encode && encodes(codec, &event, None)
                    ||| e == StoreError::TooLarge && exists|v: Vec<u8>|
                        encodes(codec, &event, Some(v)) && v@.len() > MAX_RECORD
                    ||| e == StoreError::Exhausted && exists|v: Vec<u8>|
                        encodes(codec, &event, Some(v)) && v@.len() <= MAX_RECORD
                            && old.written() + v@.len() + 4 > u64::MAX
                    ||| e == StoreError::Write && exists|v: Vec<u8>|
                        encodes(codec, &event, Some(v)) && v@.len() <= MAX_RECORD
                            && old.written() + v@.len() + 4 <= u64::MAX
                            && new.refusals() == old.refusals().push(framed(v@))
                } else {
                    e == StoreError::Exhausted && old.written() == u64::MAX
                }
            },
        }
    }

    /// A new in-memory store; its events are lost when it is dropped.
    pub fn in_memory() -> (s: Store<E, W>)
        ensures
            s.wf(),
            s.events() == Seq::<E>::empty(),
            s.written() == 0,
            !s.is_persistent(),
            s.sent() == Seq::<u8>::empty(),
            s.refusals() == Seq::<Seq<u8>>::empty(),
            s.file_view() is None,
            s.refused() == 0,
    {
        Store { session: VecDeque::new(), db: None, written: 0, refs: Ghost(Seq::empty()), refused: Ghost(0) }
    }

    /// The file that the store writes to, if it is backed by one.
    pub fn file(&self) -> (f: Option<&W>)
        ensures
            f is Some == self.file_view() is Some,
            f is Some ==> *f->0 == self.file_view()->0,
    {
        match &self.db {
            Some(db) => Some(db.file()),
            None => None,
        }
    }

    /// The number of events pushed in this session.
    pub fn len(&self) -> (n: u64)
        ensures
            n == self.events().len(),
    {
        self.session.len() as u64
    }
}

impl<E, W: Sink> Store<E, W> {
    /// A new store backed by `file`, which already holds `written` bytes.
    pub fn open(written: u64, file: W) -> (s: Store<E, W>)
        ensures
            s.wf(),
            s.events() == Seq::<E>::empty(),
            s.written() == written,
            s.is_persistent(),
            s.sent() == Seq::<u8>::empty(),
            s.refusals() == Seq::<Seq<u8>>::empty(),
            s.file_view() == Some(file),
            s.refused() == 0,
    {
        Store {
            session: VecDeque::new(),
            db: Some(Database::open(file)),
            written,
            refs: Ghost(Seq::empty()),
            refused: Ghost(0),
        }
    }

    /// Adds an event to the store and returns the reference that identifies
    /// it: the number of bytes or events written before it. A file-backed
    /// store appends the event's frame, serialized by `codec`, to its file,
    /// and keeps nothing when that fails; an in-memory store never fails but
    /// when its count would overflow.
    pub fn push<C: Encode<E>>(&mut self, event: E, codec: &C) -> (r: Result<EventRef, StoreError>)
        requires
            old(self).wf(),
        ensures
            final(self).wf(),
            Self::push_outcome(*old(self), *final(self), event, codec, r),
    {
        let event_ref = self.written;
        match &mut self.db {
            Some(db) => {
                let out = codec.encode(&event);
                let bytes = match out {
                    Some(bytes) => bytes,
                    None => {
                        self.refused = Ghost(self.refused@ + 1);
                        return Err(StoreError::Encode);
                    },
                };
                assert(encodes(codec, &event, Some(bytes)));
                if bytes.len() > MAX_RECORD as usize {
                    self.refused = Ghost(self.refused@ + 1);
                    return Err(StoreError::TooLarge);
                }
                if self.written > u64::MAX - (bytes.len() as u64 + 4) {
                    self.refused = Ghost(self.refused@ + 1);
                    return Err(StoreError::Exhausted);
                }
                let n = match db.append(bytes.as_slice()) {
                    Ok(n) => n,
                    Err(e) => {
                        self.refused = Ghost(self.refused@ + 1);
                        return Err(e);
                    },
                };
                self.written = self.written + n as u64;
            },
            None => {
                if self.written == u64::MAX {
                    self.refused = Ghost(self.refused@ + 1);
                    return Err(StoreError::Exhausted);
                }
                self.written = self.written + 1;
            },
        }
        self.session.push_back(event);
        self.refs = Ghost(self.refs@.push(event_ref));
        Ok(event_ref)
    }
}

impl<E: Clone, W: Sink> Store<E, W> {
    /// The events at positions `start` up to, not including, `stop` of this
    /// session, copied; refused unless `start <= stop <= len`.
    pub fn read(&self, start: u64, stop: u64) -> (r: Result<Vec<E>, StoreError>)
        ensures
            match r {
                Ok(events) => {
                    &&& start <= stop <= self.events().len()
                    &&& events@.len() == stop - start
                    &&& forall|i: int|
                        0 <= i < events@.len() ==> cloned::<E>(
                            self.events()[start + i],
                            #[trigger] events@[i],
                        )
                },
                Err(e) => e == StoreError::OutOfRange && !(start <= stop <= self.events().len()),
            },
    {
        let n = self.session.len();
        if start > stop || stop > n as u64 {
            return Err(StoreError::OutOfRange);
        }
        let mut out: Vec<E> = Vec::new();
        let mut i: u64 = start;
        while i < stop
            invariant
                start <= i <= stop,
                stop <= self.events().len(),
                n == self.events().len(),
                out@.len() == i - start,
                forall|k: int|
                    0 <= k < out@.len() ==> cloned::<E>(self.events()[start + k], #[trigger] out@[k]),
            decreases stop - i,
        {
            let e = self.session[i as usize].clone();
            out.push(e);
            i = i + 1;
        }
        Ok(out)
    }
}

/// In an in-memory store the reference of an event is its position: a push
/// that succeeds hands back the number of events stored before it, and the
/// event then stands at that position.
pub proof fn lemma_memory_ref_is_position<E, W: Sink, C: Encode<E>>(
    old: Store<E, W>,
    new: Store<E, W>,
    event: E,
    codec: &C,
    at: EventRef,
)
    requires
        old.wf(),
        !old.is_persistent(),
        Store::push_outcome(old, new, event, codec, Ok(at)),
    ensures
        at == old.events().len(),
        new.events().len() == at + 1,
        new.events()[at as int] == event,
{
}

/// An in-memory store accepts every push until its count of events no longer
/// fits in 64 bits.
pub proof fn lemma_memory_push_succeeds<E, W: Sink, C: Encode<E>>(
    old: Store<E, W>,
    new: Store<E, W>,
    event: E,
    codec: &C,
    r: Result<EventRef, StoreError>,
)
    requires
        old.wf(),
        !old.is_persistent(),
        old.written() < u64::MAX,
        Store::push_outcome(old, new, event, codec, r),
    ensures
        r is Ok,
{
}

/// References grow: an event pushed after another gets a larger reference,
/// in memory and on file alike.
pub proof fn lemma_refs_increase<E, W: Sink, C: Encode<E>>(
    s0: Store<E, W>,
    s1: Store<E, W>,
    s2: Store<E, W>,
    e1: E,
    e2: E,
    codec: &C,
    a: EventRef,
    b: EventRef,
)
    requires
        Store::push_outcome(s0, s1, e1, codec, Ok(a)),
        Store::push_outcome(s1, s2, e2, codec, Ok(b)),
    ensures
        a < b,
{
}

/// A refused push changes nothing in the store, and counts nothing more as
/// sent to its file.
pub proof fn lemma_refused_push_changes_nothing<E, W: Sink, C: Encode<E>>(
    old: Store<E, W>,
    new: Store<E, W>,
    event: E,
    codec: &C,
    e: StoreError,
)
    requires
        Store::push_outcome(old, new, event, codec, Err(e)),
    ensures
        new.events() == old.events(),
        new.written() == old.written(),
        new.refs() == old.refs(),
        new.is_persistent() == old.is_persistent(),
        new.sent() == old.sent(),
{
}

/// A refused push hands its reference on: the next push that succeeds
/// returns the reference that the refused one would have returned.
pub proof fn lemma_refused_ref_is_reused<E, W: Sink, C: Encode<E>>(
    s0: Store<E, W>,
    s1: Store<E, W>,
    s2: Store<E, W>,
    e1: E,
    e2: E,
    codec: &C,
    err: StoreError,
    at: EventRef,
)
    requires
        Store::push_outcome(s0, s1, e1, codec, Err(err)),
        Store::push_outcome(s1, s2, e2, codec, Ok(at)),
    ensures
        at == s0.written(),
        s2.events() == s0.events().push(e2),
{
}

/// What a file-backed store writes to its file is a run of frames, one per
/// event stored, each carrying what the codec serialized the event as: a
/// push that succeeds adds exactly one frame after those before it, and the
/// reference it returns is where that frame starts among the bytes written.
pub proof fn lemma_sent_is_frames<E, W: Sink, C: Encode<E>>(
    old: Store<E, W>,
    new: Store<E, W>,
    event: E,
    codec: &C,
    at: EventRef,
    base: Seq<u8>,
    payloads: Seq<Seq<u8>>,
)
    requires
        old.is_persistent(),
        old.sent() == base + concat_frames(payloads),
        Store::push_outcome(old, new, event, codec, Ok(at)),
    ensures
        at == old.written(),
        exists|v: Vec<u8>|
            {
                &&& encodes(codec, &event, Some(v))
                &&& v@.len() <= MAX_RECORD
                &&& new.sent() == base + concat_frames(payloads.push(v@))
                &&& new.written() == at + framed(v@).len()
            },
{
    let v = choose|v: Vec<u8>|
        {
            &&& encodes(codec, &event, Some(v))
            &&& v@.len() <= MAX_RECORD
            &&& new.sent() == old.sent() + framed(v@)
            &&& new.written() == old.written() + v@.len() + 4
        };
    lemma_concat_frames_push(payloads, v@);
    assert(framed(v@).len() == v@.len() + 4);
    assert(base + concat_frames(payloads.push(v@)) =~= base + concat_frames(payloads) + framed(v@));
}

/// A file-backed push fails with `Write` exactly when the file reported the
/// write of the event's frame as failed: that frame, and only it, is then
/// added to what the file refused, and every other outcome leaves that as it
/// was.
pub proof fn lemma_write_fails_only_when_the_file_refuses<E, W: Sink, C: Encode<E>>(
    old: Store<E, W>,
    new: Store<E, W>,
    event: E,
    codec: &C,
    r: Result<EventRef, StoreError>,
)
    requires
        Store::push_outcome(old, new, event, codec, r),
    ensures
        (r == Err::<EventRef, StoreError>(StoreError::Write)) <==> new.refusals().len() == old.refusals().len() + 1,
        r != Err::<EventRef, StoreError>(StoreError::Write) ==> new.refusals() == old.refusals(),
        r == Err::<EventRef, StoreError>(StoreError::Write) ==> exists|v: Vec<u8>|
            {
                &&& encodes(codec, &event, Some(v))
                &&& v@.len() <= MAX_RECORD
                &&& new.refusals() == old.refusals().push(framed(v@))
            },
{
    match r {
        Ok(_) => {},
        Err(e) => {
            if e == StoreError::Write {
                let v = choose|v: Vec<u8>|
                    encodes(codec, &event, Some(v)) && v@.len() <= MAX_RECORD
                        && old.written() + v@.len() + 4 <= u64::MAX
                        && new.refusals() == old.refusals().push(framed(v@));
                assert(new.refusals().len() == old.refusals().len() + 1);
            }
        },
    }
}

/// A push into a file that refuses no write succeeds whenever the event can
/// be serialized, its payload fits a frame and the count of bytes does not
/// overflow: it returns the number of bytes written before it, and the
/// file then holds the event's frame after what it held.
pub proof fn lemma_accepted_write_succeeds<E, W: Sink, C: Encode<E>>(
    old: Store<E, W>,
    new: Store<E, W>,
    event: E,
    codec: &C,
    r: Result<EventRef, StoreError>,
)
    requires
        old.is_persistent(),
        forall|out: Option<Vec<u8>>| #[trigger] encodes(codec, &event, out) ==> out is Some
            && out->0@.len() <= MAX_RECORD && old.written() + out->0@.len() + 4 <= u64::MAX,
        Store::push_outcome(old, new, event, codec, r),
        new.refusals() == old.refusals(),
    ensures
        r == Ok::<EventRef, StoreError>(old.written()),
        exists|v: Vec<u8>|
            {
                &&& encodes(codec, &event, Some(v))
                &&& new.sent() == old.sent() + framed(v@)
                &&& new.written() == old.written() + framed(v@).len()
            },
{
    if r is Err {
        let e = r->Err_0;
        if e == StoreError::Encode {
            assert(encodes(codec, &event, None));
        } else if e == StoreError::TooLarge {
            let v = choose|v: Vec<u8>| encodes(codec, &event, Some(v)) && v@.len() > MAX_RECORD;
            assert(encodes(codec, &event, Some(v)));
        } else if e == StoreError::Exhausted {
            let v = choose|v: Vec<u8>|
                encodes(codec, &event, Some(v)) && v@.len() <= MAX_RECORD
                    && old.written() + v@.len() + 4 > u64::MAX;
            assert(encodes(codec, &event, Some(v)));
        } else {
            lemma_write_fails_only_when_the_file_refuses(old, new, event, codec, r);
        }
    } else {
        let v = choose|v: Vec<u8>|
            {
                &&& encodes(codec, &event, Some(v))
                &&& v@.len() <= MAX_RECORD
                &&& new.sent() == old.sent() + framed(v@)
                &&& new.written() == old.written() + v@.len() + 4
            };
        assert(framed(v@).len() == v@.len() + 4);
    }
}

} // verus!
