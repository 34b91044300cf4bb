use vstd::prelude::*;

use crate::types::{Event, Id};

verus! {

/// Whether some event of `evs` has identifier `id`.
pub open spec fn holds_id(evs: Seq<Event>, id: Id) -> bool {
    exists|i: int| 0 <= i < evs.len() && (#[trigger] evs[i]).id == id
}

/// No two events of `evs` share an identifier.
pub open spec fn ids_unique(evs: Seq<Event>) -> bool {
    forall|i: int, j: int|
        0 <= i < evs.len() && 0 <= j < evs.len() && (#[trigger] evs[i]).id == (#[trigger] evs[j]).id
            ==> i == j
}

/// The outcome of accepting an event.
#[derive(Clone, Copy, Debug, PartialEq, Eq, Structural)]
pub enum Admission {
    Inserted,
    AlreadyPresent,
}

/// Append-only, deduplicating store of events, in order of admission.
pub struct EventStore {
    events: Vec<Event>,
}

impl View for EventStore {
    type V = Seq<Event>;

    closed spec fn view(&self) -> Seq<Event> {
        self.events@
    }
}

impl EventStore {
    pub open spec fn wf(&self) -> bool {
        ids_unique(self@)
    }

    pub fn new() -> (s: EventStore)
        ensures
            s@ == Seq::<Event>::empty(),
            s.wf(),
    {
        EventStore { events: Vec::new() }
    }

    pub fn len(&self) -> (n: usize)
        ensures
            n == self@.len(),
    {
        self.events.len()
    }

    /// The position of the event with identifier `id`, if it is held.
    pub fn find(&self, id: Id) -> (r: Option<usize>)
        ensures
            r is None <==> !holds_id(self@, id),
            r matches Some(i) ==> i < self@.len() && self@[i as int].id == id,
    {
        let mut i: usize = 0;
        while i < self.events.len()
            invariant
                i <= self.events@.len(),
                self@ == self.events@,
                forall|k: int| 0 <= k < i ==> (#[trigger] self.events@[k]).id != id,
            decreases self.events@.len() - i,
        {
            if self.events[i].id == id {
                return Some(i);
            }
            i = i + 1;
        }
        None
    }

    /// The event with identifier `id`, if it is held.
    pub fn get(&self, id: Id) -> (r: Option<&Event>)
        ensures
            r is None <==> !holds_id(self@, id),
            r matches Some(e) ==> e.id == id && self@.contains(*e),
    {
        match self.find(id) {
            Some(i) => Some(&self.events[i]),
            None => None,
        }
    }

    /// Accepts `e` unless an event with its identifier is already held.
    pub fn accept(&mut self, e: Event) -> (r: Admission)
        requires
            old(self).wf(),
        ensures
            final(self).wf(),
            r == Admission::Inserted <==> !holds_id(old(self)@, e.id),
            r == Admission::Inserted ==> final(self)@ == old(self)@.push(e),
            r == Admission::AlreadyPresent ==> final(self)@ == old(self)@,
    {
        if self.find(e.id).is_some() {
            return Admission::AlreadyPresent;
        }
        let ghost id = e.id;
        self.events.push(e);
        assert(ids_unique(self@)) by {
            assert forall|i: int, j: int|
                0 <= i < self@.len() && 0 <= j < self@.len() && (#[trigger] self@[i]).id == (#[trigger] self@[j]).id
                implies i == j by {
                if i == self@.len() - 1 && j < self@.len() - 1 {
                    assert(old(self)@[j].id == id);
                }
                if j == self@.len() - 1 && i < self@.len() - 1 {
                    assert(old(self)@[i].id == id);
                }
            }
        }
        Admission::Inserted
    }
}

} // verus!
