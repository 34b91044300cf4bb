use vstd::prelude::*;

use crate::graph::{
    EdgeView, RelationshipGraph, deletion_of, has_reacted, is_tally, reactors, replies_of,
    zap_total_of,
};
use crate::implied::{implied_edges, implied_edges_of};
use crate::overlord::Overlord;
use crate::relays::{OUTBOX, RelayDescriptor, best_relay_for, has_bits, listed, preferred};
use crate::store::{Admission, EventStore, holds_id};
use crate::types::{Event, Id, PublicKey, Relationship};
use crate::zap::{ZapEvent, ZapState, zap_next};

verus! {

/// `es` with edge `e` added, unless it is already there.
pub open spec fn with_edge(es: Seq<EdgeView>, e: EdgeView) -> Seq<EdgeView> {
    if es.contains(e) {
        es
    } else {
        es.push(e)
    }
}

/// `es` with each edge of `new` added in turn.
pub open spec fn with_edges(es: Seq<EdgeView>, new: Seq<EdgeView>) -> Seq<EdgeView>
    decreases new.len(),
{
    if new.len() == 0 {
        es
    } else {
        with_edge(with_edges(es, new.drop_last()), new.last())
    }
}

/// URLs of the outbox relays of `relays`, in order.
pub open spec fn outbox_urls(relays: Seq<RelayDescriptor>) -> Seq<Seq<char>>
    decreases relays.len(),
{
    if relays.len() == 0 {
        Seq::empty()
    } else if has_bits(relays.last(), OUTBOX) {
        outbox_urls(relays.drop_last()).push(relays.last().url@)
    } else {
        outbox_urls(relays.drop_last())
    }
}

/// A shareable identity: a public key with the relays where its events are published.
#[derive(Debug)]
pub struct Profile {
    pub pubkey: PublicKey,
    pub relays: Vec<String>,
}

/// The application context, created once at startup and handed to every component.
pub struct Globals {
    /// Every event accepted so far.
    pub events: EventStore,
    /// All relationships between events.
    pub relationships: RelationshipGraph,
    /// The current identity's public key, if one is set.
    pub public_key: Option<PublicKey>,
    /// The known relays.
    pub relays: Vec<RelayDescriptor>,
    /// The connected relays and their jobs.
    pub overlord: Overlord,
    /// The payment negotiation in progress.
    pub current_zap: ZapState,
}

impl Globals {
    pub open spec fn wf(&self) -> bool {
        &&& self.events.wf()
        &&& self.relationships.wf()
        &&& self.overlord.wf()
    }

    pub fn new(public_key: Option<PublicKey>, relays: Vec<RelayDescriptor>) -> (g: Globals)
        ensures
            g.wf(),
            g.events@ == Seq::<Event>::empty(),
            g.relationships@ == Seq::<EdgeView>::empty(),
            g.public_key == public_key,
            g.relays == relays,
            g.overlord.agents().len() == 0,
            !g.overlord.is_shutting_down(),
            g.current_zap is Idle,
    {
        Globals {
            events: EventStore::new(),
            relationships: RelationshipGraph::new(),
            public_key,
            relays,
            overlord: Overlord::new(),
            current_zap: ZapState::Idle,
        }
    }

    /// Records that `related` stands in `relationship` to event `id`, unless that
    /// edge is already recorded.
    pub fn add_relationship(&mut self, id: Id, related: Id, relationship: Relationship)
        requires
            old(self).wf(),
        ensures
            final(self).wf(),
            final(self).relationships@ == with_edge(
                old(self).relationships@,
                EdgeView { target: id, source: related, kind: relationship@ },
            ),
            final(self).events == old(self).events,
    {
        self.relationships.add_edge(id, related, relationship);
    }

    /// Accepts `e`: unless an event with its identifier is held, stores it and
    /// records the edges it implies.
    pub fn accept_event(&mut self, e: Event) -> (r: Admission)
        requires
            old(self).wf(),
        ensures
            final(self).wf(),
            r == Admission::Inserted <==> !holds_id(old(self).events@, e.id),
            r == Admission::Inserted ==> final(self).events@ == old(self).events@.push(e)
                && final(self).relationships@ == with_edges(old(self).relationships@, implied_edges(e)),
            r == Admission::AlreadyPresent ==> final(self).events@ == old(self).events@
                && final(self).relationships@ == old(self).relationships@,
    {
        let ghost want = implied_edges(e);
        let ghost accepted = e;
        let id = e.id;
        let edges = implied_edges_of(&e);
        let r = self.events.accept(e);
        if r == Admission::AlreadyPresent {
            return r;
        }
        let mut k: usize = 0;
        while k < edges.len()
            invariant
                k <= edges@.len(),
                edges@.len() == want.len(),
                forall|q: int|
                    0 <= q < edges@.len() ==> (EdgeView { target: #[trigger] edges@[q].0, source: id, kind: edges@[q].1@ })
                        == want[q],
                self.relationships.wf(),
                self.relationships@ == with_edges(old(self).relationships@, want.take(k as int)),
                self.events.wf(),
                self.events@ == old(self).events@.push(accepted),
                self.overlord == old(self).overlord,
                self.overlord.wf(),
            decreases edges@.len() - k,
        {
            assert(want.take(k + 1).drop_last() =~= want.take(k as int));
            let kind = edges[k].1.clone();
            self.relationships.add_edge(edges[k].0, id, kind);
            k = k + 1;
        }
        assert(want.take(want.len() as int) =~= want);
        r
    }

    /// Sources of the replies to event `id`, in order of insertion.
    pub fn get_replies_sync(&self, id: Id) -> (r: Vec<Id>)
        ensures
            r@ == replies_of(self.relationships@, id),
    {
        self.relationships.replies(id)
    }

    /// The reactions to event `id`, one entry per symbol in increasing order with
    /// the number of distinct authors, and whether the current identity reacted.
    pub fn get_reactions_sync(&self, id: Id) -> (r: (Vec<(char, usize)>, bool))
        requires
            self.wf(),
        ensures
            is_tally(self.relationships@, self.events@, id, r.0@),
            r.1 == (self.public_key matches Some(k) && has_reacted(self.relationships@, self.events@, id, k)),
    {
        self.relationships.reaction_tally(id, &self.events, self.public_key)
    }

    /// Total of the payment receipts for event `id`, in millisatoshi.
    pub fn get_zap_total_sync(&self, id: Id) -> (r: u128)
        ensures
            r == zap_total_of(self.relationships@, id),
    {
        self.relationships.zap_total(id)
    }

    /// The reason of the first deletion request for event `id`, if any.
    pub fn get_deletion_sync(&self, id: Id) -> (r: Option<String>)
        ensures
            r is None <==> deletion_of(self.relationships@, id) is None,
            r matches Some(s) ==> deletion_of(self.relationships@, id) == Some(s@),
    {
        self.relationships.deletion_reason(id)
    }

    /// The URL of the known relay that best covers a need for the usage bits
    /// `need`, preferring connected relays, then higher rank, then the lower URL;
    /// `None` when no known relay has all of those bits.
    pub fn best_relay_for(&self, need: u64) -> (r: Option<String>)
        ensures
            r is None <==> forall|j: int| 0 <= j < self.relays@.len() ==> !has_bits(#[trigger] self.relays@[j], need),
            r matches Some(u) ==> exists|i: int|
                0 <= i < self.relays@.len() && u@ == self.relays@[i].url@ && has_bits(self.relays@[i], need)
                    && forall|j: int|
                    0 <= j < self.relays@.len() && has_bits(#[trigger] self.relays@[j], need) ==> !preferred(
                        self.relays@[j],
                        listed(self.overlord.agents(), self.relays@[j].url@),
                        self.relays@[i],
                        listed(self.overlord.agents(), self.relays@[i].url@),
                    ),
    {
        match best_relay_for(&self.relays, self.overlord.agent_urls(), need) {
            Some(i) => Some(self.relays[i].url.clone()),
            None => None,
        }
    }

    /// Moves the payment negotiation on by `ev`.
    pub fn advance_zap(&mut self, ev: ZapEvent)
        requires
            old(self).wf(),
        ensures
            final(self).wf(),
            final(self).current_zap == zap_next(old(self).current_zap, ev),
            final(self).events == old(self).events,
            final(self).relationships == old(self).relationships,
            final(self).overlord == old(self).overlord,
    {
        let mut current = ZapState::Idle;
        std::mem::swap(&mut current, &mut self.current_zap);
        self.current_zap = current.step(ev);
    }

    /// The current identity with the URLs of its outbox relays, or `None` when no
    /// identity is set.
    pub fn get_your_nprofile(&self) -> (r: Option<Profile>)
        ensures
            r is None <==> self.public_key is None,
            r matches Some(p) ==> Some(p.pubkey) == self.public_key && p.relays@.map_values(|s: String| s@)
                == outbox_urls(self.relays@),
    {
        let pubkey = match self.public_key {
            Some(pk) => pk,
            None => return None,
        };
        let mut relays: Vec<String> = Vec::new();
        let mut k: usize = 0;
        while k < self.relays.len()
            invariant
                k <= self.relays@.len(),
                relays@.map_values(|s: String| s@) == outbox_urls(self.relays@.take(k as int)),
            decreases self.relays@.len() - k,
        {
            assert(self.relays@.take(k + 1).drop_last() =~= self.relays@.take(k as int));
            if self.relays[k].has_usage_bits(OUTBOX) {
                let ghost before = relays@;
                relays.push(self.relays[k].url.clone());
                assert(relays@.map_values(|s: String| s@) =~= before.map_values(|s: String| s@).push(
                    self.relays@[k as int].url@,
                ));
            }
            k = k + 1;
        }
        assert(self.relays@.take(self.relays@.len() as int) =~= self.relays@);
        Some(Profile { pubkey, relays })
    }
}

proof fn lemma_with_edges_extends(es: Seq<EdgeView>, new: Seq<EdgeView>)
    ensures
        with_edges(es, new).len() >= es.len(),
        with_edges(es, new).take(es.len() as int) == es,
        forall|x: EdgeView| es.contains(x) ==> with_edges(es, new).contains(x),
        forall|k: int| 0 <= k < new.len() ==> with_edges(es, new).contains(#[trigger] new[k]),
        forall|x: EdgeView| #[trigger] with_edges(es, new).contains(x) ==> es.contains(x) || new.contains(x),
        es.no_duplicates() ==> with_edges(es, new).no_duplicates(),
    decreases new.len(),
{
    if new.len() > 0 {
        let prev = with_edges(es, new.drop_last());
        lemma_with_edges_extends(es, new.drop_last());
        let w = with_edges(es, new);
        assert(w.take(es.len() as int) =~= es) by {
            assert(prev.take(es.len() as int) =~= es);
            if !prev.contains(new.last()) {
                assert forall|k: int| 0 <= k < es.len() implies w[k] == prev[k] by {}
            }
        }
        assert forall|x: EdgeView| es.contains(x) implies w.contains(x) by {
            assert(prev.contains(x));
            let k = choose|k: int| 0 <= k < prev.len() && prev[k] == x;
            assert(w[k] == x);
        }
        assert forall|k: int| 0 <= k < new.len() implies w.contains(#[trigger] new[k]) by {
            if k < new.len() - 1 {
                assert(new.drop_last()[k] == new[k]);
                assert(prev.contains(new[k]));
                let q = choose|q: int| 0 <= q < prev.len() && prev[q] == new[k];
                assert(w[q] == new[k]);
            } else if !prev.contains(new.last()) {
                assert(w[prev.len() as int] == new[k]);
            }
        }
        assert forall|x: EdgeView| #[trigger] w.contains(x) implies es.contains(x) || new.contains(x) by {
            let q = choose|q: int| 0 <= q < w.len() && w[q] == x;
            if q < prev.len() {
                assert(prev[q] == x);
                assert(prev.contains(x));
                if new.drop_last().contains(x) {
                    let r = choose|r: int| 0 <= r < new.drop_last().len() && new.drop_last()[r] == x;
                    assert(new[r] == x);
                }
            } else {
                assert(new[new.len() - 1] == x);
            }
        }
    }
}

proof fn lemma_with_edges_held(es: Seq<EdgeView>, new: Seq<EdgeView>)
    requires
        forall|k: int| 0 <= k < new.len() ==> es.contains(#[trigger] new[k]),
    ensures
        with_edges(es, new) == es,
    decreases new.len(),
{
    if new.len() > 0 {
        assert forall|k: int| 0 <= k < new.drop_last().len() implies es.contains(#[trigger] new.drop_last()[k]) by {
            assert(new.drop_last()[k] == new[k]);
        }
        lemma_with_edges_held(es, new.drop_last());
        assert(es.contains(new[new.len() - 1]));
    }
}

/// Accepting the same event twice: after the first acceptance the event is held,
/// so the second is refused; adding the edges it implies again changes nothing, and
/// no edge is ever held twice.
pub proof fn law_accept_idempotent(evs: Seq<Event>, e: Event, es: Seq<EdgeView>)
    requires
        es.no_duplicates(),
    ensures
        holds_id(evs.push(e), e.id),
        with_edges(es, implied_edges(e)).no_duplicates(),
        with_edges(with_edges(es, implied_edges(e)), implied_edges(e)) == with_edges(es, implied_edges(e)),
{
    assert(evs.push(e)[evs.len() as int].id == e.id);
    lemma_with_edges_extends(es, implied_edges(e));
    lemma_with_edges_held(with_edges(es, implied_edges(e)), implied_edges(e));
}

proof fn lemma_replies_prefix(es: Seq<EdgeView>, n: int, t: Id)
    requires
        0 <= n <= es.len(),
    ensures
        replies_of(es.take(n), t).is_prefix_of(replies_of(es, t)),
    decreases es.len() - n,
{
    if n == es.len() {
        assert(es.take(n) =~= es);
    } else {
        lemma_replies_prefix(es.drop_last(), n, t);
        assert(es.drop_last().take(n) =~= es.take(n));
    }
}

proof fn lemma_zap_total_grows(es: Seq<EdgeView>, n: int, t: Id)
    requires
        0 <= n <= es.len(),
    ensures
        zap_total_of(es.take(n), t) <= zap_total_of(es, t),
    decreases es.len() - n,
{
    if n == es.len() {
        assert(es.take(n) =~= es);
    } else {
        lemma_zap_total_grows(es.drop_last(), n, t);
        assert(es.drop_last().take(n) =~= es.take(n));
    }
}

/// An edge recorded before its target event arrives still counts once the target
/// is accepted: accepting any event keeps the replies to every target as a prefix,
/// never lowers its payment total, and keeps every author who reacted to it.
pub proof fn law_forward_reference(es: Seq<EdgeView>, evs: Seq<Event>, e: Event, t: Id, c: char)
    ensures
        replies_of(es, t).is_prefix_of(replies_of(with_edges(es, implied_edges(e)), t)),
        zap_total_of(es, t) <= zap_total_of(with_edges(es, implied_edges(e)), t),
        reactors(es, evs, t, c).subset_of(reactors(with_edges(es, implied_edges(e)), evs.push(e), t, c)),
{
    let w = with_edges(es, implied_edges(e));
    lemma_with_edges_extends(es, implied_edges(e));
    lemma_replies_prefix(w, es.len() as int, t);
    lemma_zap_total_grows(w, es.len() as int, t);
    assert forall|pk: PublicKey| reactors(es, evs, t, c).contains(pk) implies reactors(w, evs.push(e), t, c).contains(pk) by {
        let i = choose|i: int| 0 <= i < es.len() && crate::graph::reacts(#[trigger] es[i], evs, t, c, pk);
        let j = choose|j: int| 0 <= j < evs.len() && (#[trigger] evs[j]).id == es[i].source && evs[j].pubkey == pk;
        assert(w.take(es.len() as int)[i] == w[i]);
        assert(evs.push(e)[j] == evs[j]);
        assert(crate::graph::reacts(w[i], evs.push(e), t, c, pk));
    }
}

} // verus!
