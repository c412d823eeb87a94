//! The requests a client sends to a seraphim server, the responses it gets,
//! and how the server answers them from its store.

use vstd::prelude::*;
use crate::store::{Sink, Store, StoreError};
use crate::types::EventRef;

verus! {

/// Request which can be sent to the seraphim server to access traces.
#[derive(Debug, Clone, Copy, PartialEq, Eq, Structural)]
pub enum Request {
    /// How many events the store holds.
    Status,
    /// The events at positions `start` up to, not including, `stop`.
    Read { start: EventRef, stop: EventRef },
}

/// Response from the seraphim server returning traces.
#[derive(Debug)]
pub enum Response<E> {
    /// The store holds `end` events.
    Status { end: EventRef },
    /// The events read, the first at position `start`.
    Read { start: EventRef, events: Vec<E> },
    /// Events recorded since the last update, `start` telling where they stand.
    Update { start: EventRef, events: Vec<E> },
}

/// The answer to `request` from `store`: its number of events, or copies of
/// the events requested; a read outside the stored events is refused.
pub fn respond<E: Clone, W: Sink>(store: &Store<E, W>, request: Request) -> (r: Result<Response<E>, StoreError>)
    ensures
        match request {
            Request::Status => r matches Ok(Response::Status { end }) && end == store.events().len(),
            Request::Read { start, stop } => match r {
                Ok(Response::Read { start: at, events }) => {
                    &&& at == start
                    &&& start <= stop <= store.events().len()
                    &&& events@.len() == stop - start
                    &&& forall|i: int|
                        0 <= i < events@.len() ==> cloned::<E>(
                            store.events()[start + i],
                            #[trigger] events@[i],
                        )
                },
                Err(e) => e == StoreError::OutOfRange && !(start <= stop <= store.events().len()),
                _ => false,
            },
        },
{
    match request {
        Request::Status => Ok(Response::Status { end: store.len() }),
        Request::Read { start, stop } => {
            let events = store.read(start, stop)?;
            Ok(Response::Read { start, events })
        },
    }
}

/// The update that tells a client of `events`, newly recorded into a store
/// that now holds `store_len` events; `start` is the position of the last
/// event stored. Nothing is sent when there are no new events.
pub fn update_response<E>(store_len: u64, events: Vec<E>) -> (r: Option<Response<E>>)
    requires
        events@.len() > 0 ==> store_len >= 1,
    ensures
        events@.len() == 0 ==> r is None,
        events@.len() > 0 ==> (r matches Some(Response::Update { start, events: sent })
            && start == store_len - 1 && sent@ == events@),
{
    if events.len() == 0 {
        None
    } else {
        Some(Response::Update { start: store_len - 1, events })
    }
}

} // verus!
