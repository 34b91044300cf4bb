use vstd::prelude::*;

verus! {

/// A 256-bit event identifier (the content hash of the event), as four words.
#[derive(Clone, Copy, Debug, PartialEq, Eq, Structural, Hash)]
pub struct Id(pub u64, pub u64, pub u64, pub u64);

/// A 256-bit public key of an author, as four words.
#[derive(Clone, Copy, Debug, PartialEq, Eq, Structural, Hash)]
pub struct PublicKey(pub u64, pub u64, pub u64, pub u64);

/// The typed payload of a relationship edge.
#[derive(Debug)]
pub enum Relationship {
    /// The source event replies to the target.
    Reply,
    /// The source event reacts to the target with this text.
    Reaction(String),
    /// The source event asks for the target to be deleted, for this reason.
    Deletion(String),
    /// The source event is a payment receipt of this many millisatoshi.
    ZapReceipt(u64),
}

/// The mathematical value of a `Relationship`.
pub enum RelationshipView {
    Reply,
    Reaction(Seq<char>),
    Deletion(Seq<char>),
    ZapReceipt(u64),
}

impl View for Relationship {
    type V = RelationshipView;

    open spec fn view(&self) -> RelationshipView {
        match self {
            Relationship::Reply => RelationshipView::Reply,
            Relationship::Reaction(s) => RelationshipView::Reaction(s@),
            Relationship::Deletion(s) => RelationshipView::Deletion(s@),
            Relationship::ZapReceipt(m) => RelationshipView::ZapReceipt(*m),
        }
    }
}

impl Clone for Relationship {
    fn clone(&self) -> (r: Relationship)
        ensures
            r@ == self@,
    {
        match self {
            Relationship::Reply => Relationship::Reply,
            Relationship::Reaction(s) => Relationship::Reaction(s.clone()),
            Relationship::Deletion(s) => Relationship::Deletion(s.clone()),
            Relationship::ZapReceipt(m) => Relationship::ZapReceipt(*m),
        }
    }
}

impl PartialEq for Relationship {
    fn eq(&self, o: &Relationship) -> (r: bool)
        ensures
            r == (self@ == o@),
    {
        match (self, o) {
            (Relationship::Reply, Relationship::Reply) => true,
            (Relationship::Reaction(a), Relationship::Reaction(b)) => a.eq(b),
            (Relationship::Deletion(a), Relationship::Deletion(b)) => a.eq(b),
            (Relationship::ZapReceipt(a), Relationship::ZapReceipt(b)) => *a == *b,
            _ => false,
        }
    }
}

impl vstd::std_specs::cmp::PartialEqSpecImpl for Relationship {
    open spec fn obeys_eq_spec() -> bool {
        true
    }

    open spec fn eq_spec(&self, o: &Relationship) -> bool {
        self@ == o@
    }
}

/// One tag of an event, as far as the relationship logic reads it.
#[derive(Clone, Copy, Debug, PartialEq, Eq, Structural)]
pub enum Tag {
    /// A reference to another event.
    Event(Id),
    /// A reference to an author.
    Pubkey(PublicKey),
    /// An amount in millisatoshi, carried by a payment receipt.
    Amount(u64),
    /// Any other tag.
    Other,
}

/// Kind of a text note.
pub const KIND_TEXT_NOTE: u32 = 1;

/// Kind of a deletion request.
pub const KIND_DELETION: u32 = 5;

/// Kind of a reaction.
pub const KIND_REACTION: u32 = 7;

/// Kind of a payment receipt.
pub const KIND_ZAP_RECEIPT: u32 = 9735;

/// An immutable signed event.
#[derive(Debug)]
pub struct Event {
    pub id: Id,
    pub pubkey: PublicKey,
    pub kind: u32,
    pub created_at: i64,
    pub content: String,
    pub tags: Vec<Tag>,
    pub sig: Vec<u8>,
}

} // verus!
