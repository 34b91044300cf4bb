use vstd::prelude::*;

use crate::types::{Id, PublicKey};

verus! {

/// Payment metadata returned by a recipient's LNURL endpoint.
#[derive(Debug, Clone)]
pub struct PayRequestData {
    pub callback: String,
    pub metadata: String,
    pub min_sendable: u64,
    pub max_sendable: u64,
    pub allows_nostr: bool,
}

/// The single in-flight payment negotiation.
#[derive(Debug, Clone)]
pub enum ZapState {
    Idle,
    CheckingLnurl(Id, PublicKey, String),
    SeekingAmount(Id, PublicKey, PayRequestData, String),
    LoadingInvoice(Id, PublicKey),
    /// The invoice, to be shown for payment.
    ReadyToPay(Id, String),
}

/// What drives the negotiation: a user action, or the completion of an external
/// call made for the flow of the given target event.
#[derive(Debug)]
pub enum ZapEvent {
    /// Start a flow for a target event, its author and the author's LNURL endpoint.
    Start(Id, PublicKey, String),
    /// The endpoint answered with payment metadata and the callback to invoke.
    LnurlResolved(Id, PayRequestData, String),
    /// An amount was chosen and the callback invoked.
    AmountChosen(Id),
    /// The callback returned an invoice.
    InvoiceReceived(Id, String),
    /// An external call of the flow failed or returned malformed data.
    Failed(Id),
    /// The user cancelled.
    Cancel,
}

/// The target event of the flow in progress, if any.
pub open spec fn zap_target(s: ZapState) -> Option<Id> {
    match s {
        ZapState::Idle => None,
        ZapState::CheckingLnurl(t, _, _) => Some(t),
        ZapState::SeekingAmount(t, _, _, _) => Some(t),
        ZapState::LoadingInvoice(t, _) => Some(t),
        ZapState::ReadyToPay(t, _) => Some(t),
    }
}

/// The state after `ev`. A completion moves the flow one step forward only when it
/// belongs to the flow in progress and that flow waits for it; any other completion
/// is stale and changes nothing. A start replaces whatever flow was in progress, a
/// failure of the flow in progress or a cancel returns to `Idle`.
pub open spec fn zap_next(s: ZapState, ev: ZapEvent) -> ZapState {
    match ev {
        ZapEvent::Start(t, p, lnurl) => ZapState::CheckingLnurl(t, p, lnurl),
        ZapEvent::LnurlResolved(t, prd, callback) => match s {
            ZapState::CheckingLnurl(t0, p, _) if t0 == t => ZapState::SeekingAmount(t, p, prd, callback),
            _ => s,
        },
        ZapEvent::AmountChosen(t) => match s {
            ZapState::SeekingAmount(t0, p, _, _) if t0 == t => ZapState::LoadingInvoice(t, p),
            _ => s,
        },
        ZapEvent::InvoiceReceived(t, invoice) => match s {
            ZapState::LoadingInvoice(t0, _) if t0 == t => ZapState::ReadyToPay(t, invoice),
            _ => s,
        },
        ZapEvent::Failed(t) => if zap_target(s) == Some(t) {
            ZapState::Idle
        } else {
            s
        },
        ZapEvent::Cancel => ZapState::Idle,
    }
}

/// The target event that a completion or failure belongs to.
pub open spec fn event_target(ev: ZapEvent) -> Option<Id> {
    match ev {
        ZapEvent::Start(..) | ZapEvent::Cancel => None,
        ZapEvent::LnurlResolved(t, _, _) => Some(t),
        ZapEvent::AmountChosen(t) => Some(t),
        ZapEvent::InvoiceReceived(t, _) => Some(t),
        ZapEvent::Failed(t) => Some(t),
    }
}

impl ZapState {
    /// The target event of the flow in progress, if any.
    pub fn target(&self) -> (r: Option<Id>)
        ensures
            r == zap_target(*self),
    {
        match self {
            ZapState::Idle => None,
            ZapState::CheckingLnurl(t, _, _) => Some(*t),
            ZapState::SeekingAmount(t, _, _, _) => Some(*t),
            ZapState::LoadingInvoice(t, _) => Some(*t),
            ZapState::ReadyToPay(t, _) => Some(*t),
        }
    }

    /// Moves the negotiation on by `ev`.
    pub fn step(self, ev: ZapEvent) -> (r: ZapState)
        ensures
            r == zap_next(self, ev),
    {
        match ev {
            ZapEvent::Start(t, p, lnurl) => ZapState::CheckingLnurl(t, p, lnurl),
            ZapEvent::LnurlResolved(t, prd, callback) => match self {
                ZapState::CheckingLnurl(t0, p, lnurl) => {
                    if t0 == t {
                        ZapState::SeekingAmount(t, p, prd, callback)
                    } else {
                        ZapState::CheckingLnurl(t0, p, lnurl)
                    }
                },
                other => other,
            },
            ZapEvent::AmountChosen(t) => match self {
                ZapState::SeekingAmount(t0, p, prd, callback) => {
                    if t0 == t {
                        ZapState::LoadingInvoice(t, p)
                    } else {
                        ZapState::SeekingAmount(t0, p, prd, callback)
                    }
                },
                other => other,
            },
            ZapEvent::InvoiceReceived(t, invoice) => match self {
                ZapState::LoadingInvoice(t0, p) => {
                    if t0 == t {
                        ZapState::ReadyToPay(t, invoice)
                    } else {
                        ZapState::LoadingInvoice(t0, p)
                    }
                },
                other => other,
            },
            ZapEvent::Failed(t) => {
                let current = self.target();
                if current == Some(t) {
                    ZapState::Idle
                } else {
                    self
                }
            },
            ZapEvent::Cancel => ZapState::Idle,
        }
    }
}

/// Starting a flow replaces the one in progress: the new flow is in its first
/// step, and no completion or failure that belongs to another target moves it.
pub proof fn law_start_replaces(s: ZapState, t: Id, p: PublicKey, lnurl: String, ev: ZapEvent)
    requires
        event_target(ev) is Some,
        event_target(ev) != Some(t),
    ensures
        zap_next(s, ZapEvent::Start(t, p, lnurl)) == ZapState::CheckingLnurl(t, p, lnurl),
        zap_next(ZapState::CheckingLnurl(t, p, lnurl), ev) == ZapState::CheckingLnurl(t, p, lnurl),
{
}

/// A cancel from any state returns to `Idle`.
pub proof fn law_cancel_resets(s: ZapState)
    ensures
        zap_next(s, ZapEvent::Cancel) is Idle,
{
}

} // verus!
