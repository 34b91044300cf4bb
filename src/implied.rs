use vstd::prelude::*;

use crate::graph::EdgeView;
use crate::types::{
    Event, Id, KIND_DELETION, KIND_REACTION, KIND_TEXT_NOTE, KIND_ZAP_RECEIPT, Relationship,
    RelationshipView, Tag,
};

verus! {

/// The last event reference among `tags`.
pub open spec fn last_event_ref(tags: Seq<Tag>) -> Option<Id>
    decreases tags.len(),
{
    if tags.len() == 0 {
        None
    } else {
        match tags.last() {
            Tag::Event(id) => Some(id),
            _ => last_event_ref(tags.drop_last()),
        }
    }
}

/// Every event reference among `tags`, in order.
pub open spec fn event_refs(tags: Seq<Tag>) -> Seq<Id>
    decreases tags.len(),
{
    if tags.len() == 0 {
        Seq::empty()
    } else {
        match tags.last() {
            Tag::Event(id) => event_refs(tags.drop_last()).push(id),
            _ => event_refs(tags.drop_last()),
        }
    }
}

/// The first amount among `tags`.
pub open spec fn first_amount(tags: Seq<Tag>) -> Option<u64>
    decreases tags.len(),
{
    if tags.len() == 0 {
        None
    } else {
        match first_amount(tags.drop_last()) {
            Some(m) => Some(m),
            None => match tags.last() {
                Tag::Amount(m) => Some(m),
                _ => None,
            },
        }
    }
}

/// The edges that event `e` implies, each with `e` as its source.
///
/// A text note replies to its last referenced event, a reaction reacts to its
/// last referenced event with its content, a deletion request asks for each
/// referenced event to be deleted with its content as the reason, and a payment
/// receipt carrying an amount pays its last referenced event. Other events, and
/// events without the references they need, imply nothing.
pub open spec fn implied_edges(e: Event) -> Seq<EdgeView> {
    if e.kind == KIND_TEXT_NOTE {
        match last_event_ref(e.tags@) {
            Some(t) => seq![EdgeView { target: t, source: e.id, kind: RelationshipView::Reply }],
            None => Seq::empty(),
        }
    } else if e.kind == KIND_REACTION {
        match last_event_ref(e.tags@) {
            Some(t) => seq![EdgeView { target: t, source: e.id, kind: RelationshipView::Reaction(e.content@) }],
            None => Seq::empty(),
        }
    } else if e.kind == KIND_DELETION {
        event_refs(e.tags@).map_values(
            |t: Id| EdgeView { target: t, source: e.id, kind: RelationshipView::Deletion(e.content@) },
        )
    } else if e.kind == KIND_ZAP_RECEIPT {
        match (last_event_ref(e.tags@), first_amount(e.tags@)) {
            (Some(t), Some(m)) => seq![EdgeView { target: t, source: e.id, kind: RelationshipView::ZapReceipt(m) }],
            _ => Seq::empty(),
        }
    } else {
        Seq::empty()
    }
}

fn last_event_ref_of(tags: &Vec<Tag>) -> (r: Option<Id>)
    ensures
        r == last_event_ref(tags@),
{
    let mut i: usize = tags.len();
    assert(tags@.take(i as int) =~= tags@);
    while i > 0
        invariant
            i <= tags@.len(),
            last_event_ref(tags@) == last_event_ref(tags@.take(i as int)),
        decreases i,
    {
        assert(tags@.take(i as int).drop_last() =~= tags@.take(i - 1));
        if let Tag::Event(id) = tags[i - 1] {
            return Some(id);
        }
        i = i - 1;
    }
    None
}

fn first_amount_of(tags: &Vec<Tag>) -> (r: Option<u64>)
    ensures
        r == first_amount(tags@),
{
    let mut i: usize = 0;
    while i < tags.len()
        invariant
            i <= tags@.len(),
            first_amount(tags@.take(i as int)) is None,
        decreases tags@.len() - i,
    {
        assert(tags@.take(i + 1).drop_last() =~= tags@.take(i as int));
        if let Tag::Amount(m) = tags[i] {
            proof {
                lemma_first_amount_prefix(tags@, i + 1);
            }
            return Some(m);
        }
        i = i + 1;
    }
    assert(tags@.take(tags@.len() as int) =~= tags@);
    None
}

proof fn lemma_first_amount_prefix(tags: Seq<Tag>, n: int)
    requires
        0 <= n <= tags.len(),
        first_amount(tags.take(n)) is Some,
    ensures
        first_amount(tags) == first_amount(tags.take(n)),
    decreases tags.len() - n,
{
    if n < tags.len() {
        assert(tags.take(n + 1).drop_last() =~= tags.take(n));
        lemma_first_amount_prefix(tags, n + 1);
    } else {
        assert(tags.take(n) =~= tags);
    }
}

/// The edges that `e` implies, as (target, relationship) pairs.
pub fn implied_edges_of(e: &Event) -> (r: Vec<(Id, Relationship)>)
    ensures
        r@.len() == implied_edges(*e).len(),
        forall|k: int|
            0 <= k < r@.len() ==> (EdgeView { target: #[trigger] r@[k].0, source: e.id, kind: r@[k].1@ })
                == implied_edges(*e)[k],
{
    let mut out: Vec<(Id, Relationship)> = Vec::new();
    if e.kind == KIND_TEXT_NOTE {
        if let Some(t) = last_event_ref_of(&e.tags) {
            out.push((t, Relationship::Reply));
        }
    } else if e.kind == KIND_REACTION {
        if let Some(t) = last_event_ref_of(&e.tags) {
            out.push((t, Relationship::Reaction(e.content.clone())));
        }
    } else if e.kind == KIND_DELETION {
        let ghost want = implied_edges(*e);
        let mut i: usize = 0;
        while i < e.tags.len()
            invariant
                i <= e.tags@.len(),
                e.kind == KIND_DELETION,
                want == implied_edges(*e),
                out@.len() == event_refs(e.tags@.take(i as int)).len(),
                forall|k: int|
                    0 <= k < out@.len() ==> (#[trigger] out@[k]).0 == event_refs(e.tags@.take(i as int))[k]
                        && out@[k].1@ == RelationshipView::Deletion(e.content@),
            decreases e.tags@.len() - i,
        {
            assert(e.tags@.take(i + 1).drop_last() =~= e.tags@.take(i as int));
            if let Tag::Event(t) = e.tags[i] {
                out.push((t, Relationship::Deletion(e.content.clone())));
            }
            i = i + 1;
        }
        assert(e.tags@.take(e.tags@.len() as int) =~= e.tags@);
    } else if e.kind == KIND_ZAP_RECEIPT {
        if let Some(t) = last_event_ref_of(&e.tags) {
            if let Some(m) = first_amount_of(&e.tags) {
                out.push((t, Relationship::ZapReceipt(m)));
            }
        }
    }
    out
}

} // verus!
