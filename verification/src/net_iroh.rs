//! The framing between the seraphim client and server over `iroh`: every
//! message travels as a frame, a big-endian `u32` length and the message.

use vstd::prelude::*;
use crate::frame::{append_frame, framed, status_of, take_frame, FrameError, FrameStatus};
pub use crate::net::{Request, Response};

verus! {

/// Network codec of the seraphim client: it sends requests and receives responses.
#[derive(Debug, Clone, Copy)]
pub struct ClientProtocol;

/// Network codec of the seraphim server: it receives requests and sends responses.
#[derive(Debug, Clone, Copy)]
pub struct AcceptProtocol;

/// Takes the frame that starts `src` out of it and hands back its payload,
/// when the whole frame has arrived; otherwise leaves `src` as it is.
pub open spec fn decoded(src: Seq<u8>, rest: Seq<u8>, payload: Option<Vec<u8>>) -> bool {
    match status_of(src) {
        FrameStatus::Complete { len } => {
            &&& payload matches Some(p)
            &&& p@ == src.subrange(4, 4 + len)
            &&& rest == src.subrange(4 + len, src.len() as int)
        },
        FrameStatus::Incomplete { .. } => {
            &&& payload is None
            &&& rest == src
        },
    }
}

/// `dst` after the frame of `payload` was appended to it, or unchanged when
/// the payload is too long for a frame.
pub open spec fn encoded(dst: Seq<u8>, payload: Seq<u8>, after: Seq<u8>, r: Result<(), FrameError>) -> bool {
    if payload.len() <= u32::MAX {
        r is Ok && after == dst + framed(payload)
    } else {
        r == Err::<(), FrameError>(FrameError::TooLarge) && after == dst
    }
}

fn encode_into(payload: &[u8], dst: &mut Vec<u8>) -> (r: Result<(), FrameError>)
    ensures
        encoded(old(dst)@, payload@, final(dst)@, r),
{
    if payload.len() > u32::MAX as usize {
        return Err(FrameError::TooLarge);
    }
    append_frame(dst, payload);
    Ok(())
}

impl ClientProtocol {
    /// Takes the next response frame out of `src`, once it has fully arrived,
    /// and hands back its payload.
    pub fn decode(&mut self, src: &mut Vec<u8>) -> (payload: Option<Vec<u8>>)
        ensures
            decoded(old(src)@, final(src)@, payload),
    {
        take_frame(src)
    }

    /// Appends the frame of a serialized request to `dst`.
    pub fn encode(&mut self, payload: &[u8], dst: &mut Vec<u8>) -> (r: Result<(), FrameError>)
        ensures
            encoded(old(dst)@, payload@, final(dst)@, r),
    {
        encode_into(payload, dst)
    }
}

impl AcceptProtocol {
    /// Takes the next request frame out of `src`, once it has fully arrived,
    /// and hands back its payload.
    pub fn decode(&mut self, src: &mut Vec<u8>) -> (payload: Option<Vec<u8>>)
        ensures
            decoded(old(src)@, final(src)@, payload),
    {
        take_frame(src)
    }

    /// Appends the frame of a serialized response to `dst`.
    pub fn encode(&mut self, payload: &[u8], dst: &mut Vec<u8>) -> (r: Result<(), FrameError>)
        ensures
            encoded(old(dst)@, payload@, final(dst)@, r),
    {
        encode_into(payload, dst)
    }
}

/// The update that tells a client of `events`, newly recorded into a store
/// that holds `store_len` events; nothing is sent when there are no new events.
pub fn update_response<E>(store_len: u64, events: Vec<E>) -> (r: Option<Response<E>>)
    ensures
        events@.len() == 0 ==> r is None,
        events@.len() > 0 ==> (r matches Some(Response::Update { start, events: sent })
            && start == store_len && sent@ == events@),
{
    if events.len() == 0 {
        None
    } else {
        Some(Response::Update { start: store_len, events })
    }
}

/// The events that a server connection has been told of and not yet sent
/// on in an update.
pub struct Updates<E> {
    pending: Vec<E>,
    received: Ghost<Seq<E>>,
    sent: Ghost<Seq<E>>,
}

impl<E> Updates<E> {
    /// Every event received so far, in order.
    pub closed spec fn received(&self) -> Seq<E> {
        self.received@
    }

    /// The events of every update handed out so far, one update after another.
    pub closed spec fn sent(&self) -> Seq<E> {
        self.sent@
    }

    /// The events received and not yet handed out.
    pub closed spec fn pending(&self) -> Seq<E> {
        self.pending@
    }

    /// What was handed out, then what is pending, is what was received.
    pub open spec fn wf(&self) -> bool {
        self.sent() + self.pending() == self.received()
    }

    /// Nothing received yet.
    pub fn new() -> (u: Updates<E>)
        ensures
            u.wf(),
            u.received() == Seq::<E>::empty(),
            u.sent() == Seq::<E>::empty(),
            u.pending() == Seq::<E>::empty(),
    {
        Updates { pending: Vec::new(), received: Ghost(Seq::empty()), sent: Ghost(Seq::empty()) }
    }

    /// Receives one more event; it waits for the next update.
    pub fn receive(&mut self, event: E)
        requires
            old(self).wf(),
        ensures
            final(self).wf(),
            final(self).received() == old(self).received().push(event),
            final(self).sent() == old(self).sent(),
            final(self).pending() == old(self).pending().push(event),
    {
        self.pending.push(event);
        self.received = Ghost(self.received@.push(event));
    }

    /// The update that tells a client of the pending events, the store then
    /// holding `store_len` events; nothing when none is pending. The events
    /// handed out are pending no more.
    pub fn flush(&mut self, store_len: u64) -> (r: Option<Response<E>>)
        requires
            old(self).wf(),
        ensures
            final(self).wf(),
            final(self).received() == old(self).received(),
            final(self).pending() == Seq::<E>::empty(),
            old(self).pending().len() == 0 ==> r is None && final(self).sent() == old(self).sent(),
            old(self).pending().len() > 0 ==> (r matches Some(Response::Update { start, events })
                && start == store_len && events@ == old(self).pending()
                && final(self).sent() == old(self).sent() + events@),
    {
        let mut events: Vec<E> = Vec::new();
        std::mem::swap(&mut events, &mut self.pending);
        self.sent = Ghost(self.sent@ + events@);
        assert(self.sent() + self.pending() =~= self.received());
        update_response(store_len, events)
    }
}

/// The updates that a server connection sends, one after another, hold the
/// events it received in the order received, none twice and none made up:
/// together they are a first part of what it received (and `flush` hands
/// out no empty update).
pub proof fn lemma_updates_are_a_prefix<E>(u: Updates<E>)
    requires
        u.wf(),
    ensures
        u.sent().len() <= u.received().len(),
        u.sent() == u.received().subrange(0, u.sent().len() as int),
{
    assert(u.sent() =~= (u.sent() + u.pending()).subrange(0, u.sent().len() as int));
}

/// What one side sends is what the other receives: the frame that `encode`
/// appends to an empty buffer, followed by whatever else arrives, is taken
/// whole out of the receiving buffer by `decode`, which hands back the payload
/// and leaves what followed.
pub proof fn lemma_codec_roundtrip(
    payload: Seq<u8>,
    sent: Seq<u8>,
    r: Result<(), FrameError>,
    rest: Seq<u8>,
    received: Option<Vec<u8>>,
    left: Seq<u8>,
)
    requires
        encoded(Seq::empty(), payload, sent, r),
        r is Ok,
        decoded(sent + rest, left, received),
    ensures
        received matches Some(p) && p@ == payload,
        left == rest,
{
    assert(Seq::<u8>::empty() + framed(payload) =~= framed(payload));
    crate::frame::lemma_frame_roundtrip(payload, rest);
}

} // verus!
