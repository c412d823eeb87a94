//! What a client does with the events that a server sends it: it files the
//! callsites it sees and shows each event whose callsite it has filed.

use vstd::prelude::*;
use std::collections::HashSet;
use crate::types::Event;

verus! {

broadcast use vstd::std_specs::hash::group_hash_axioms;

/// What a client does with one event of a batch.
#[derive(Debug, Clone, Copy, PartialEq, Eq, Structural)]
pub enum Step {
    /// File the event, a callsite, under this key.
    File(u64),
    /// Show the event with the callsite filed under this key.
    Show(u64),
    /// Pass the event over.
    Skip,
}

/// The keys filed before the event at position `i` of a batch: those filed
/// before the batch, and the positions of the batch's earlier `Callsite`
/// events.
pub open spec fn filed_before<V>(keys: Set<u64>, events: Seq<Event<V>>, i: int) -> Set<u64> {
    keys.union(Set::new(|k: u64| k < i && events[k as int] is Callsite))
}

/// What the client does with `ev`, at position `i` of its batch, given the
/// keys filed before it: a callsite is filed under its position, an event
/// whose callsite is filed is shown with it, anything else is passed over.
pub open spec fn step_for<V>(keys: Set<u64>, ev: Event<V>, i: int) -> Step {
    match ev {
        Event::Callsite { .. } => Step::File(i as u64),
        Event::Event { callsite, .. } => if keys.contains(callsite) {
            Step::Show(callsite)
        } else {
            Step::Skip
        },
        _ => Step::Skip,
    }
}

/// The keys under which a client has filed the callsites it saw.
pub struct Callsites {
    keys: HashSet<u64>,
}

impl Callsites {
    /// The keys filed.
    pub closed spec fn filed(&self) -> Set<u64> {
        self.keys@
    }

    /// A client that has filed nothing.
    pub fn new() -> (c: Callsites)
        ensures
            c.filed() == Set::<u64>::empty(),
    {
        Callsites { keys: HashSet::new() }
    }

    /// The number of callsites filed.
    pub fn len(&self) -> (n: usize)
        ensures
            n == self.filed().len(),
    {
        self.keys.len()
    }

    /// Takes in a batch of events and says what to do with each: every
    /// `Callsite` event is filed under its position in the batch, and every
    /// `Event` event whose callsite is filed when it comes is shown.
    pub fn take_batch<V>(&mut self, events: &Vec<Event<V>>) -> (steps: Vec<Step>)
        ensures
            steps@.len() == events@.len(),
            forall|i: int|
                0 <= i < events@.len() ==> #[trigger] steps@[i] == step_for(
                    filed_before(old(self).filed(), events@, i),
                    events@[i],
                    i,
                ),
            final(self).filed() == filed_before(old(self).filed(), events@, events@.len() as int),
    {
        let ghost keys0 = self.filed();
        let mut steps: Vec<Step> = Vec::new();
        let mut i: usize = 0;
        assert(filed_before(keys0, events@, 0) =~= keys0);
        while i < events.len()
            invariant
                i <= events@.len(),
                steps@.len() == i,
                forall|k: int|
                    0 <= k < i ==> #[trigger] steps@[k] == step_for(filed_before(keys0, events@, k), events@[k], k),
                self.filed() == filed_before(keys0, events@, i as int),
            decreases events@.len() - i,
        {
            let key = i as u64;
            let step = match &events[i] {
                Event::Callsite { .. } => {
                    self.keys.insert(key);
                    Step::File(key)
                },
                Event::Event { callsite, .. } => if self.keys.contains(callsite) {
                    Step::Show(*callsite)
                } else {
                    Step::Skip
                },
                _ => Step::Skip,
            };
            proof {
                let before = filed_before(keys0, events@, i as int);
                let after = filed_before(keys0, events@, i + 1);
                if events@[i as int] is Callsite {
                    assert(after =~= before.insert(key));
                } else {
                    assert(after =~= before);
                }
            }
            steps.push(step);
            i = i + 1;
        }
        steps
    }
}

/// What the client does with an event depends on its kind and, for an
/// `Event` event, on whether its callsite is filed, and on nothing else:
/// not on its parent span, nor on its values. A callsite is filed under its
/// position, and nothing else is filed.
pub proof fn lemma_steps_ignore_parents<V>(
    keys: Set<u64>,
    parent: Option<u64>,
    callsite: u64,
    values: Vec<V>,
    ev: Event<V>,
    i: u64,
)
    ensures
        keys.contains(callsite) ==> step_for(keys, Event::Event { parent, callsite, values }, i as int)
            == Step::Show(callsite),
        !keys.contains(callsite) ==> step_for(keys, Event::Event { parent, callsite, values }, i as int)
            == Step::Skip,
        ev is Callsite ==> step_for(keys, ev, i as int) == Step::File(i),
        !(ev is Callsite) && !(ev is Event) ==> step_for(keys, ev, i as int) == Step::Skip,
        step_for(keys, ev, i as int) matches Step::Show(c) ==> keys.contains(c),
{
}

} // verus!
