use vstd::prelude::*;

use vstd::string::*;

use crate::store::{EventStore, holds_id};
use crate::types::{Event, Id, PublicKey, Relationship, RelationshipView};

verus! {

/// A relationship edge: `source` stands in relation `kind` to `target`.
pub struct EdgeView {
    pub target: Id,
    pub source: Id,
    pub kind: RelationshipView,
}

/// Sources of the replies to `t`, in order of insertion.
pub open spec fn replies_of(es: Seq<EdgeView>, t: Id) -> Seq<Id>
    decreases es.len(),
{
    if es.len() == 0 {
        Seq::empty()
    } else {
        let e = es.last();
        let rest = replies_of(es.drop_last(), t);
        if e.target == t && e.kind is Reply {
            rest.push(e.source)
        } else {
            rest
        }
    }
}

/// Sum of the amounts of all payment receipts for `t`.
pub open spec fn zap_total_of(es: Seq<EdgeView>, t: Id) -> nat
    decreases es.len(),
{
    if es.len() == 0 {
        0
    } else {
        let e = es.last();
        let rest = zap_total_of(es.drop_last(), t);
        match e.kind {
            RelationshipView::ZapReceipt(m) if e.target == t => rest + m as nat,
            _ => rest,
        }
    }
}

/// Reason of the first deletion edge for `t`, if any.
pub open spec fn deletion_of(es: Seq<EdgeView>, t: Id) -> Option<Seq<char>>
    decreases es.len(),
{
    if es.len() == 0 {
        None
    } else {
        let e = es.last();
        let rest = deletion_of(es.drop_last(), t);
        match (rest, e.kind) {
            (None, RelationshipView::Deletion(reason)) if e.target == t => Some(reason),
            _ => rest,
        }
    }
}

/// The symbol a reaction text counts under: its first character, `+` when empty.
pub open spec fn symbol_of(text: Seq<char>) -> char {
    if text.len() == 0 {
        '+'
    } else {
        text[0]
    }
}

/// Some event of `evs` with identifier `id` was written by `pk`.
pub open spec fn authored_by(evs: Seq<Event>, id: Id, pk: PublicKey) -> bool {
    exists|j: int| 0 <= j < evs.len() && (#[trigger] evs[j]).id == id && evs[j].pubkey == pk
}

/// Edge `e` is a reaction to `t` under symbol `c` whose event, held in `evs`,
/// was written by `pk`.
pub open spec fn reacts(e: EdgeView, evs: Seq<Event>, t: Id, c: char, pk: PublicKey) -> bool {
    &&& e.target == t
    &&& e.kind matches RelationshipView::Reaction(text) && symbol_of(text) == c
    &&& authored_by(evs, e.source, pk)
}

/// The authors who reacted to `t` under symbol `c`, each counted once.
pub open spec fn reactors(es: Seq<EdgeView>, evs: Seq<Event>, t: Id, c: char) -> Set<PublicKey> {
    Set::new(|pk: PublicKey| exists|i: int| 0 <= i < es.len() && reacts(#[trigger] es[i], evs, t, c, pk))
}

/// `pk` wrote some reaction to `t`, whatever its symbol.
pub open spec fn has_reacted(es: Seq<EdgeView>, evs: Seq<Event>, t: Id, pk: PublicKey) -> bool {
    exists|i: int|
        0 <= i < es.len() && (#[trigger] es[i]).target == t && es[i].kind is Reaction
            && authored_by(evs, es[i].source, pk)
}

/// The tally of reactions to `t` is `tally`: one entry per symbol that some
/// author used, in increasing order of symbol, with the number of distinct authors.
pub open spec fn is_tally(es: Seq<EdgeView>, evs: Seq<Event>, t: Id, tally: Seq<(char, usize)>) -> bool {
    &&& forall|a: int, b: int| 0 <= a < b < tally.len() ==> tally[a].0 < tally[b].0
    &&& forall|k: int|
        0 <= k < tally.len() ==> #[trigger] tally[k].1 == reactors(es, evs, t, tally[k].0).len()
            && tally[k].1 > 0
    &&& forall|c: char, pk: PublicKey|
        #[trigger] reactors(es, evs, t, c).contains(pk) ==> exists|k: int| 0 <= k < tally.len() && tally[k].0 == c
}

/// All typed edges between events, in order of insertion, each at most once.
pub struct RelationshipGraph {
    edges: Vec<(Id, Id, Relationship)>,
}

pub open spec fn edge_view(e: (Id, Id, Relationship)) -> EdgeView {
    EdgeView { target: e.0, source: e.1, kind: e.2@ }
}

impl View for RelationshipGraph {
    type V = Seq<EdgeView>;

    closed spec fn view(&self) -> Seq<EdgeView> {
        self.edges@.map_values(|e: (Id, Id, Relationship)| edge_view(e))
    }
}

impl RelationshipGraph {
    /// No edge is held twice.
    pub open spec fn wf(&self) -> bool {
        self@.no_duplicates()
    }

    proof fn lemma_view(&self)
        ensures
            self@.len() == self.edges@.len(),
            forall|i: int| 0 <= i < self@.len() ==> #[trigger] self@[i] == edge_view(self.edges@[i]),
    {
    }

    pub fn new() -> (g: RelationshipGraph)
        ensures
            g@ == Seq::<EdgeView>::empty(),
            g.wf(),
    {
        let g = RelationshipGraph { edges: Vec::new() };
        assert(g@ =~= Seq::<EdgeView>::empty());
        g
    }

    /// Records that `source` relates to `target` by `kind`, unless that very edge
    /// is already held.
    pub fn add_edge(&mut self, target: Id, source: Id, kind: Relationship) -> (added: bool)
        requires
            old(self).wf(),
        ensures
            final(self).wf(),
            added == !old(self)@.contains(EdgeView { target, source, kind: kind@ }),
            added ==> final(self)@ == old(self)@.push(EdgeView { target, source, kind: kind@ }),
            !added ==> final(self)@ == old(self)@,
    {
        let ghost ev = EdgeView { target, source, kind: kind@ };
        proof {
            self.lemma_view();
        }
        let mut i: usize = 0;
        while i < self.edges.len()
            invariant
                i <= self.edges@.len(),
                self@.len() == self.edges@.len(),
                forall|k: int| 0 <= k < self@.len() ==> #[trigger] self@[k] == edge_view(self.edges@[k]),
                forall|k: int| 0 <= k < i ==> #[trigger] self@[k] != ev,
                self@ == old(self)@,
                self.edges@ == old(self).edges@,
                ev == (EdgeView { target, source, kind: kind@ }),
                self.wf(),
            decreases self.edges@.len() - i,
        {
            let e = &self.edges[i];
            if e.0 == target && e.1 == source && e.2.eq(&kind) {
                assert(self@[i as int] == ev);
                return false;
            }
            i = i + 1;
        }
        assert(!self@.contains(ev));
        self.edges.push((target, source, kind));
        proof {
            self.lemma_view();
            assert(self@ =~= old(self)@.push(ev));
        }
        true
    }

    /// Sources of the replies to `target`, in order of insertion.
    pub fn replies(&self, target: Id) -> (r: Vec<Id>)
        ensures
            r@ == replies_of(self@, target),
    {
        proof {
            self.lemma_view();
        }
        let mut out: Vec<Id> = Vec::new();
        let mut i: usize = 0;
        while i < self.edges.len()
            invariant
                i <= self.edges@.len(),
                self@.len() == self.edges@.len(),
                forall|k: int| 0 <= k < self@.len() ==> #[trigger] self@[k] == edge_view(self.edges@[k]),
                out@ == replies_of(self@.take(i as int), target),
            decreases self.edges@.len() - i,
        {
            assert(self@.take(i + 1).drop_last() =~= self@.take(i as int));
            let e = &self.edges[i];
            if e.0 == target {
                if let Relationship::Reply = e.2 {
                    out.push(e.1);
                }
            }
            i = i + 1;
        }
        assert(self@.take(self@.len() as int) =~= self@);
        out
    }

    /// Sum of the amounts of all payment receipts for `target`, in millisatoshi.
    pub fn zap_total(&self, target: Id) -> (r: u128)
        ensures
            r == zap_total_of(self@, target),
    {
        proof {
            self.lemma_view();
        }
        let mut total: u128 = 0;
        let mut i: usize = 0;
        while i < self.edges.len()
            invariant
                i <= self.edges@.len(),
                self@.len() == self.edges@.len(),
                forall|k: int| 0 <= k < self@.len() ==> #[trigger] self@[k] == edge_view(self.edges@[k]),
                total == zap_total_of(self@.take(i as int), target),
                total <= i * 0xffff_ffff_ffff_ffff,
            decreases self.edges@.len() - i,
        {
            assert(self@.take(i + 1).drop_last() =~= self@.take(i as int));
            let e = &self.edges[i];
            if e.0 == target {
                if let Relationship::ZapReceipt(m) = e.2 {
                    proof {
                        assert(i < 0x1_0000_0000_0000_0000);
                        assert(total + m <= (i + 1) * 0xffff_ffff_ffff_ffff) by (nonlinear_arith)
                            requires
                                total <= i * 0xffff_ffff_ffff_ffff,
                                m <= 0xffff_ffff_ffff_ffff,
                        ;
                        assert((i + 1) * 0xffff_ffff_ffff_ffff <= 0x1_0000_0000_0000_0000 * 0xffff_ffff_ffff_ffff)
                            by (nonlinear_arith)
                            requires
                                i < 0x1_0000_0000_0000_0000,
                        ;
                    }
                    total = total + m as u128;
                }
            }
            proof {
                assert(total <= (i + 1) * 0xffff_ffff_ffff_ffff) by (nonlinear_arith)
                    requires
                        total <= i * 0xffff_ffff_ffff_ffff || total <= (i + 1) * 0xffff_ffff_ffff_ffff,
                ;
            }
            i = i + 1;
        }
        assert(self@.take(self@.len() as int) =~= self@);
        total
    }

    /// Reactions to `target` grouped by symbol, each author counted once per
    /// symbol, and whether `me` reacted to it.
    pub fn reaction_tally(&self, target: Id, store: &EventStore, me: Option<PublicKey>) -> (r: (
        Vec<(char, usize)>,
        bool,
    ))
        requires
            store.wf(),
        ensures
            is_tally(self@, store@, target, r.0@),
            r.1 == (me matches Some(k) && has_reacted(self@, store@, target, k)),
    {
        proof {
            self.lemma_view();
        }
        let ghost es = self@;
        let ghost evs = store@;
        let mut groups: Vec<(char, Vec<PublicKey>)> = Vec::new();
        let mut mine = false;
        let mut i: usize = 0;
        while i < self.edges.len()
            invariant
                i <= self.edges@.len(),
                es == self@,
                evs == store@,
                store.wf(),
                es.len() == self.edges@.len(),
                forall|k: int| 0 <= k < es.len() ==> #[trigger] es[k] == edge_view(self.edges@[k]),
                groups_ok(groups@),
                forall|ch: char, pk: PublicKey|
                    #[trigger] group_has(groups@, ch, pk) <==> exists|k: int|
                        0 <= k < i && reacts(#[trigger] es[k], evs, target, ch, pk),
                mine == (me matches Some(m) && exists|k: int|
                    0 <= k < i && (#[trigger] es[k]).target == target && es[k].kind is Reaction
                        && authored_by(evs, es[k].source, m)),
            decreases self.edges@.len() - i,
        {
            let ghost old_groups = groups@;
            let ghost ei = es[i as int];
            let e = &self.edges[i];
            let mut hit = false;
            if e.0 == target {
                if let Relationship::Reaction(text) = &e.2 {
                    if let Some(ev) = store.get(e.1) {
                        let c0 = symbol(text);
                        let pk0 = ev.pubkey;
                        proof {
                            let j = choose|j: int| 0 <= j < evs.len() && evs[j] == *ev;
                            assert forall|c: char, pk: PublicKey|
                                reacts(ei, evs, target, c, pk) <==> c == c0 && pk == pk0 by {
                                if authored_by(evs, ei.source, pk) {
                                    let j2 = choose|j2: int|
                                        0 <= j2 < evs.len() && (#[trigger] evs[j2]).id == ei.source
                                            && evs[j2].pubkey == pk;
                                    assert(evs[j2].id == evs[j].id);
                                }
                                if c == c0 && pk == pk0 {
                                    assert(evs[j].id == ei.source);
                                }
                            }
                            assert(authored_by(evs, ei.source, pk0)) by {
                                assert(evs[j].id == ei.source);
                            }
                            assert forall|m: PublicKey| authored_by(evs, ei.source, m) implies m == pk0 by {
                                assert(reacts(ei, evs, target, c0, m));
                            }
                        }
                        if let Some(m) = me {
                            if m == pk0 {
                                mine = true;
                            }
                        }
                        add_to_group(&mut groups, c0, pk0);
                        proof {
                            assert forall|ch: char, pk: PublicKey|
                                #[trigger] group_has(groups@, ch, pk) <==> exists|k: int|
                                    0 <= k < i + 1 && reacts(#[trigger] es[k], evs, target, ch, pk) by {
                                if ch == c0 && pk == pk0 {
                                    assert(reacts(es[i as int], evs, target, ch, pk));
                                }
                                if exists|k: int| 0 <= k < i + 1 && reacts(#[trigger] es[k], evs, target, ch, pk) {
                                    let k = choose|k: int| 0 <= k < i + 1 && reacts(#[trigger] es[k], evs, target, ch, pk);
                                    if k < i {
                                        assert(group_has(old_groups, ch, pk));
                                    }
                                }
                            }
                        }
                        hit = true;
                    }
                }
            }
            if !hit {
                proof {
                    assert forall|c: char, pk: PublicKey| !reacts(ei, evs, target, c, pk) by {
                        if ei.target == target && ei.kind is Reaction && authored_by(evs, ei.source, pk) {
                            let j2 = choose|j2: int|
                                0 <= j2 < evs.len() && (#[trigger] evs[j2]).id == ei.source && evs[j2].pubkey == pk;
                            assert(holds_id(evs, ei.source));
                        }
                    }
                    assert forall|m: PublicKey|
                        !(ei.target == target && ei.kind is Reaction && authored_by(evs, ei.source, m)) by {
                        if ei.target == target && ei.kind is Reaction && authored_by(evs, ei.source, m) {
                            let j2 = choose|j2: int|
                                0 <= j2 < evs.len() && (#[trigger] evs[j2]).id == ei.source && evs[j2].pubkey == m;
                            assert(holds_id(evs, ei.source));
                        }
                    }
                    assert forall|ch: char, pk: PublicKey|
                        #[trigger] group_has(groups@, ch, pk) <==> exists|k: int|
                            0 <= k < i + 1 && reacts(#[trigger] es[k], evs, target, ch, pk) by {
                        if exists|k: int| 0 <= k < i + 1 && reacts(#[trigger] es[k], evs, target, ch, pk) {
                            let k = choose|k: int| 0 <= k < i + 1 && reacts(#[trigger] es[k], evs, target, ch, pk);
                            assert(k < i);
                        }
                    }
                }
            }
            i = i + 1;
        }
        let mut out: Vec<(char, usize)> = Vec::new();
        let mut g: usize = 0;
        while g < groups.len()
            invariant
                g <= groups@.len(),
                out@.len() == g,
                groups_ok(groups@),
                forall|ch: char, pk: PublicKey|
                    #[trigger] group_has(groups@, ch, pk) <==> exists|k: int|
                        0 <= k < es.len() && reacts(#[trigger] es[k], evs, target, ch, pk),
                forall|q: int| 0 <= q < g ==> #[trigger] out@[q].0 == groups@[q].0 && out@[q].1 == groups@[q].1@.len(),
            decreases groups@.len() - g,
        {
            out.push((groups[g].0, groups[g].1.len()));
            g = g + 1;
        }
        proof {
            assert forall|q: int| 0 <= q < out@.len() implies #[trigger] out@[q].1 == reactors(es, evs, target, out@[q].0).len()
                && out@[q].1 > 0 by {
                assert(q < groups@.len());
                let v = groups@[q].1@;
                let c = groups@[q].0;
                assert(v.no_duplicates());
                assert forall|pk: PublicKey| v.contains(pk) <==> reactors(es, evs, target, c).contains(pk) by {
                    if reactors(es, evs, target, c).contains(pk) {
                        let k = choose|k: int| 0 <= k < es.len() && reacts(#[trigger] es[k], evs, target, c, pk);
                        assert(group_has(groups@, c, pk));
                        let g2 = choose|g2: int| 0 <= g2 < groups@.len() && (#[trigger] groups@[g2]).0 == c && groups@[g2].1@.contains(pk);
                        assert(g2 == q);
                    }
                    if v.contains(pk) {
                        assert(group_has(groups@, c, pk));
                    }
                }
                assert(v.to_set() =~= reactors(es, evs, target, c));
                v.unique_seq_to_set();
            }
            assert forall|c: char, pk: PublicKey| #[trigger] reactors(es, evs, target, c).contains(pk) implies exists|k: int|
                0 <= k < out@.len() && out@[k].0 == c by {
                let k = choose|k: int| 0 <= k < es.len() && reacts(#[trigger] es[k], evs, target, c, pk);
                assert(group_has(groups@, c, pk));
                let g2 = choose|g2: int| 0 <= g2 < groups@.len() && (#[trigger] groups@[g2]).0 == c && groups@[g2].1@.contains(pk);
                assert(out@[g2].0 == c);
            }
        }
        (out, mine)
    }

    /// Reason of the first deletion edge for `target`, if any.
    pub fn deletion_reason(&self, target: Id) -> (r: Option<String>)
        ensures
            r is None <==> deletion_of(self@, target) is None,
            r matches Some(s) ==> deletion_of(self@, target) == Some(s@),
    {
        proof {
            self.lemma_view();
        }
        let mut i: usize = 0;
        while i < self.edges.len()
            invariant
                i <= self.edges@.len(),
                self@.len() == self.edges@.len(),
                forall|k: int| 0 <= k < self@.len() ==> #[trigger] self@[k] == edge_view(self.edges@[k]),
                deletion_of(self@.take(i as int), target) is None,
            decreases self.edges@.len() - i,
        {
            assert(self@.take(i + 1).drop_last() =~= self@.take(i as int));
            let e = &self.edges[i];
            if e.0 == target {
                if let Relationship::Deletion(reason) = &e.2 {
                    proof {
                        lemma_deletion_prefix(self@, i as int + 1, target);
                    }
                    return Some(reason.clone());
                }
            }
            i = i + 1;
        }
        assert(self@.take(self@.len() as int) =~= self@);
        None
    }
}

/// However many reactions one author makes to `t` under symbol `c`, the author
/// counts once: when `pk` is the only author of such reactions, the count is one.
pub proof fn law_one_author_counts_once(es: Seq<EdgeView>, evs: Seq<Event>, t: Id, c: char, pk: PublicKey)
    requires
        exists|i: int| 0 <= i < es.len() && reacts(#[trigger] es[i], evs, t, c, pk),
        forall|i: int, k: PublicKey| 0 <= i < es.len() && #[trigger] reacts(es[i], evs, t, c, k) ==> k == pk,
    ensures
        reactors(es, evs, t, c) == set![pk],
        reactors(es, evs, t, c).len() == 1,
{
    assert(reactors(es, evs, t, c) =~= set![pk]);
    assert(set![pk].len() == 1) by {
        assert(set![pk] =~= Set::<PublicKey>::empty().insert(pk));
    }
}

/// The first deletion request for a target decides its reason: a later edge
/// never changes it.
pub proof fn law_deletion_first_wins(es: Seq<EdgeView>, later: EdgeView, t: Id)
    requires
        deletion_of(es, t) is Some,
    ensures
        deletion_of(es.push(later), t) == deletion_of(es, t),
{
    assert(es.push(later).drop_last() =~= es);
}

/// Once a prefix holds a deletion for `t`, every longer prefix gives the same reason.
proof fn lemma_deletion_prefix(es: Seq<EdgeView>, n: int, t: Id)
    requires
        0 <= n <= es.len(),
        deletion_of(es.take(n), t) is Some,
    ensures
        deletion_of(es, t) == deletion_of(es.take(n), t),
    decreases es.len() - n,
{
    if n < es.len() {
        assert(es.take(n + 1).drop_last() =~= es.take(n));
        lemma_deletion_prefix(es, n + 1, t);
    } else {
        assert(es.take(n) =~= es);
    }
}

/// Symbols are strictly increasing, and each group holds distinct authors, at least one.
pub open spec fn groups_ok(gs: Seq<(char, Vec<PublicKey>)>) -> bool {
    &&& forall|a: int, b: int| 0 <= a < b < gs.len() ==> gs[a].0 < gs[b].0
    &&& forall|g: int| 0 <= g < gs.len() ==> (#[trigger] gs[g]).1@.no_duplicates() && gs[g].1@.len() > 0
}

/// Some group of `gs` under symbol `ch` holds `pk`.
pub open spec fn group_has(gs: Seq<(char, Vec<PublicKey>)>, ch: char, pk: PublicKey) -> bool {
    exists|g: int| 0 <= g < gs.len() && (#[trigger] gs[g]).0 == ch && gs[g].1@.contains(pk)
}

fn symbol(text: &String) -> (c: char)
    ensures
        c == symbol_of(text@),
{
    let s = text.as_str();
    if s.is_empty() {
        '+'
    } else {
        s.get_char(0)
    }
}

fn key_listed(keys: &Vec<PublicKey>, pk: PublicKey) -> (r: bool)
    ensures
        r == keys@.contains(pk),
{
    let mut i: usize = 0;
    while i < keys.len()
        invariant
            i <= keys@.len(),
            forall|k: int| 0 <= k < i ==> keys@[k] != pk,
        decreases keys@.len() - i,
    {
        if keys[i] == pk {
            return true;
        }
        i = i + 1;
    }
    false
}

/// Adds `pk` to the group of symbol `c`, making that group where there is none.
fn add_to_group(groups: &mut Vec<(char, Vec<PublicKey>)>, c: char, pk: PublicKey)
    requires
        groups_ok(old(groups)@),
    ensures
        groups_ok(final(groups)@),
        forall|ch: char, k: PublicKey|
            #[trigger] group_has(final(groups)@, ch, k) <==> group_has(old(groups)@, ch, k) || (ch == c && k == pk),
{
    let ghost before = groups@;
    let mut p: usize = 0;
    while p < groups.len() && groups[p].0 < c
        invariant
            p <= groups@.len(),
            groups@ == before,
            forall|q: int| 0 <= q < p ==> #[trigger] groups@[q].0 < c,
        decreases groups@.len() - p,
    {
        p = p + 1;
    }
    if p < groups.len() && groups[p].0 == c {
        let (sym, mut keys) = groups.remove(p);
        let ghost old_keys = keys@;
        if !key_listed(&keys, pk) {
            keys.push(pk);
            assert(keys@[keys@.len() - 1] == pk);
            assert(keys@.no_duplicates()) by {
                assert forall|a: int, b: int| 0 <= a < keys@.len() && 0 <= b < keys@.len() && a != b
                    implies keys@[a] != keys@[b] by {
                    if a == keys@.len() - 1 {
                        assert(!old_keys.contains(keys@[b]) || keys@[b] != pk);
                    }
                    if b == keys@.len() - 1 {
                        assert(!old_keys.contains(keys@[a]) || keys@[a] != pk);
                    }
                }
            }
        }
        assert(keys@.contains(pk));
        assert forall|k: PublicKey| keys@.contains(k) <==> old_keys.contains(k) || k == pk by {
            if old_keys.contains(k) {
                let x = choose|x: int| 0 <= x < old_keys.len() && old_keys[x] == k;
                assert(keys@[x] == k);
            }
        }
        groups.insert(p, (sym, keys));
        proof {
            before.remove_ensures(p as int);
            before.remove(p as int).insert_ensures(p as int, (sym, keys));
            assert(groups@ =~= before.update(p as int, (sym, keys)));
            assert(sym == before[p as int].0);
            assert(keys@.no_duplicates() && keys@.len() > 0);
            assert(groups_ok(groups@)) by {
                assert forall|g: int| 0 <= g < groups@.len() implies (#[trigger] groups@[g]).1@.no_duplicates()
                    && groups@[g].1@.len() > 0 by {
                    if g != p {
                        assert(groups@[g] == before[g]);
                    }
                }
            }
            assert forall|ch: char, k: PublicKey|
                #[trigger] group_has(groups@, ch, k) <==> group_has(before, ch, k) || (ch == c && k == pk) by {
                if group_has(before, ch, k) {
                    let g = choose|g: int| 0 <= g < before.len() && (#[trigger] before[g]).0 == ch && before[g].1@.contains(k);
                    assert(groups@[g].0 == ch && groups@[g].1@.contains(k));
                }
                if ch == c && k == pk {
                    assert(groups@[p as int].0 == ch && groups@[p as int].1@.contains(k));
                }
                if group_has(groups@, ch, k) {
                    let g = choose|g: int| 0 <= g < groups@.len() && (#[trigger] groups@[g]).0 == ch && groups@[g].1@.contains(k);
                    if g != p {
                        assert(before[g].0 == ch && before[g].1@.contains(k));
                    } else if k != pk {
                        assert(before[g].0 == ch && before[g].1@.contains(k));
                    }
                }
            }
        }
    } else {
        let mut keys: Vec<PublicKey> = Vec::new();
        keys.push(pk);
        assert(keys@ =~= seq![pk]);
        groups.insert(p, (c, keys));
        proof {
            before.insert_ensures(p as int, (c, keys));
            if p < before.len() {
                assert(before[p as int].0 != c);
                assert(before[p as int].0 > c);
            }
            assert(groups_ok(groups@)) by {
                assert forall|a: int, b: int| 0 <= a < b < groups@.len() implies groups@[a].0 < groups@[b].0 by {
                    if b < p {
                    } else if b == p {
                        assert(groups@[a] == before[a]);
                    } else if a < p {
                        assert(groups@[b] == before[b - 1]);
                        assert(groups@[a] == before[a]);
                    } else if a == p {
                        assert(groups@[b] == before[b - 1]);
                    } else {
                        assert(groups@[b] == before[b - 1]);
                        assert(groups@[a] == before[a - 1]);
                    }
                }
                assert forall|g: int| 0 <= g < groups@.len() implies (#[trigger] groups@[g]).1@.no_duplicates()
                    && groups@[g].1@.len() > 0 by {
                    if g < p {
                        assert(groups@[g] == before[g]);
                    } else if g > p {
                        assert(groups@[g] == before[g - 1]);
                    }
                }
            }
            assert forall|ch: char, k: PublicKey|
                #[trigger] group_has(groups@, ch, k) <==> group_has(before, ch, k) || (ch == c && k == pk) by {
                if group_has(before, ch, k) {
                    let g = choose|g: int| 0 <= g < before.len() && (#[trigger] before[g]).0 == ch && before[g].1@.contains(k);
                    if g < p {
                        assert(groups@[g].0 == ch && groups@[g].1@.contains(k));
                    } else {
                        assert(groups@[g + 1].0 == ch && groups@[g + 1].1@.contains(k));
                    }
                }
                if ch == c && k == pk {
                    assert(groups@[p as int].1@[0] == k);
                    assert(groups@[p as int].0 == ch && groups@[p as int].1@.contains(k));
                }
                if group_has(groups@, ch, k) {
                    let g = choose|g: int| 0 <= g < groups@.len() && (#[trigger] groups@[g]).0 == ch && groups@[g].1@.contains(k);
                    if g < p {
                        assert(before[g].0 == ch && before[g].1@.contains(k));
                    } else if g > p {
                        assert(before[g - 1].0 == ch && before[g - 1].1@.contains(k));
                    } else {
                        assert(groups@[g].1@ == seq![pk]);
                    }
                }
            }
        }
    }
}

} // verus!
