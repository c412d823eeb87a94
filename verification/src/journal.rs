//! A sink together with the record of what it took: the bytes handed to it
//! in the writes that it reported as done.

use vstd::prelude::*;
use crate::store::Sink;

verus! {

/// A sink, with the bytes that it took so far.
pub struct Journal<W> {
    sink: W,
    taken: Ghost<Seq<u8>>,
    refused: Ghost<Seq<Seq<u8>>>,
}

impl<W: Sink> Journal<W> {
    /// The bytes handed to the sink in the writes it reported as done, in order.
    pub closed spec fn taken(&self) -> Seq<u8> {
        self.taken@
    }

    /// The bytes of each write that the sink reported as failed, in order.
    pub closed spec fn refused(&self) -> Seq<Seq<u8>> {
        self.refused@
    }

    /// The sink written to.
    pub closed spec fn sink_view(&self) -> W {
        self.sink
    }

    /// A journal over `sink`, which has taken nothing yet.
    pub fn new(sink: W) -> (j: Journal<W>)
        ensures
            j.taken() == Seq::<u8>::empty(),
            j.refused() == Seq::<Seq<u8>>::empty(),
            j.sink_view() == sink,
    {
        Journal { sink, taken: Ghost(Seq::empty()), refused: Ghost(Seq::empty()) }
    }

    /// The sink written to.
    pub fn sink(&self) -> (s: &W)
        ensures
            *s == self.sink_view(),
    {
        &self.sink
    }

    /// Hands `bytes` to the sink; when it reports them written, they count
    /// as taken, after what it took before, and otherwise as refused.
    pub fn write(&mut self, bytes: &[u8]) -> (ok: bool)
        ensures
            ok ==> final(self).taken() == old(self).taken() + bytes@,
            !ok ==> final(self).taken() == old(self).taken(),
            ok ==> final(self).refused() == old(self).refused(),
            !ok ==> final(self).refused() == old(self).refused().push(bytes@),
    {
        let ok = self.sink.write_bytes(bytes);
        if ok {
            self.taken = Ghost(self.taken@ + bytes@);
        } else {
            self.refused = Ghost(self.refused@.push(bytes@));
        }
        ok
    }
}

} // verus!
