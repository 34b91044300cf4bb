use gossip_core::globals::Globals;
use gossip_core::overlord::{CommandError, JobKind, Overlord, RelayJob};
use gossip_core::relays::{best_relay_for, str_lt, RelayDescriptor, INBOX, OUTBOX, READ, WRITE};
use gossip_core::store::Admission;
use gossip_core::types::{
    Event, Id, PublicKey, Relationship, Tag, KIND_DELETION, KIND_REACTION, KIND_TEXT_NOTE,
    KIND_ZAP_RECEIPT,
};
use gossip_core::zap::{PayRequestData, ZapEvent, ZapState};

fn id(n: u64) -> Id {
    Id(0, 0, 0, n)
}

fn key(n: u64) -> PublicKey {
    PublicKey(n, 0, 0, 0)
}

fn event(n: u64, author: u64, kind: u32, content: &str, tags: Vec<Tag>) -> Event {
    Event {
        id: id(n),
        pubkey: key(author),
        kind,
        created_at: 1_700_000_000 + n as i64,
        content: content.to_string(),
        tags,
        sig: vec![0u8; 64],
    }
}

fn relay(url: &str, bits: u64, rank: u64) -> RelayDescriptor {
    RelayDescriptor { url: url.to_string(), usage_bits: bits, rank }
}

fn pay_request() -> PayRequestData {
    PayRequestData {
        callback: "https://pay.example/cb".to_string(),
        metadata: "[]".to_string(),
        min_sendable: 1000,
        max_sendable: 100_000_000,
        allows_nostr: true,
    }
}

#[test]
fn accepting_twice_is_already_present() {
    let mut g = Globals::new(None, Vec::new());
    assert_eq!(g.accept_event(event(1, 1, KIND_TEXT_NOTE, "root", vec![])), Admission::Inserted);
    let reply = event(2, 2, KIND_TEXT_NOTE, "reply", vec![Tag::Event(id(1))]);
    let again = event(2, 2, KIND_TEXT_NOTE, "reply", vec![Tag::Event(id(1))]);
    assert_eq!(g.accept_event(reply), Admission::Inserted);
    assert_eq!(g.accept_event(again), Admission::AlreadyPresent);
    assert_eq!(g.get_replies_sync(id(1)), vec![id(2)]);
    assert_eq!(g.events.len(), 2);
}

#[test]
fn add_relationship_is_idempotent() {
    let mut g = Globals::new(None, Vec::new());
    g.add_relationship(id(1), id(2), Relationship::Reply);
    g.add_relationship(id(1), id(2), Relationship::Reply);
    g.add_relationship(id(1), id(3), Relationship::Reply);
    assert_eq!(g.get_replies_sync(id(1)), vec![id(2), id(3)]);
    g.add_relationship(id(1), id(4), Relationship::ZapReceipt(10));
    g.add_relationship(id(1), id(4), Relationship::ZapReceipt(10));
    assert_eq!(g.get_zap_total_sync(id(1)), 10);
}

#[test]
fn edge_before_target_counts_once_target_arrives() {
    let mut g = Globals::new(None, Vec::new());
    g.accept_event(event(2, 2, KIND_TEXT_NOTE, "early reply", vec![Tag::Event(id(1))]));
    g.accept_event(event(3, 3, KIND_REACTION, "+", vec![Tag::Event(id(1))]));
    g.accept_event(event(4, 4, KIND_ZAP_RECEIPT, "", vec![Tag::Event(id(1)), Tag::Amount(21_000)]));
    assert!(g.events.get(id(1)).is_none());
    assert_eq!(g.accept_event(event(1, 1, KIND_TEXT_NOTE, "root", vec![])), Admission::Inserted);
    assert!(g.events.get(id(1)).is_some());
    assert_eq!(g.get_replies_sync(id(1)), vec![id(2)]);
    assert_eq!(g.get_reactions_sync(id(1)), (vec![('+', 1)], false));
    assert_eq!(g.get_zap_total_sync(id(1)), 21_000);
}

#[test]
fn reply_goes_to_last_referenced_event() {
    let mut g = Globals::new(None, Vec::new());
    g.accept_event(event(5, 2, KIND_TEXT_NOTE, "hi", vec![Tag::Event(id(1)), Tag::Pubkey(key(9)), Tag::Event(id(3)), Tag::Other]));
    assert_eq!(g.get_replies_sync(id(3)), vec![id(5)]);
    assert!(g.get_replies_sync(id(1)).is_empty());
}

#[test]
fn repeated_reactions_by_one_author_count_once() {
    let mut g = Globals::new(None, Vec::new());
    for n in 10..15u64 {
        g.accept_event(event(n, 7, KIND_REACTION, "+", vec![Tag::Event(id(1))]));
    }
    assert_eq!(g.get_reactions_sync(id(1)), (vec![('+', 1)], false));
}

#[test]
fn reactions_group_by_symbol_and_author() {
    let mut g = Globals::new(Some(key(8)), Vec::new());
    g.accept_event(event(10, 7, KIND_REACTION, "+", vec![Tag::Event(id(1))]));
    g.accept_event(event(11, 8, KIND_REACTION, "", vec![Tag::Event(id(1))]));
    g.accept_event(event(12, 7, KIND_REACTION, "-", vec![Tag::Event(id(1))]));
    g.accept_event(event(13, 9, KIND_REACTION, "🤙 nice", vec![Tag::Event(id(1))]));
    g.accept_event(event(14, 9, KIND_REACTION, "+", vec![Tag::Event(id(2))]));
    // one author with two symbols counts once under each
    assert_eq!(g.get_reactions_sync(id(1)), (vec![('+', 2), ('-', 1), ('🤙', 1)], true));
    assert_eq!(g.get_reactions_sync(id(2)), (vec![('+', 1)], false));
    assert_eq!(g.get_reactions_sync(id(3)), (vec![], false));
}

#[test]
fn reaction_whose_event_is_missing_is_not_counted() {
    let mut g = Globals::new(Some(key(8)), Vec::new());
    g.add_relationship(id(1), id(50), Relationship::Reaction("+".to_string()));
    assert_eq!(g.get_reactions_sync(id(1)), (vec![], false));
}

#[test]
fn zap_total_sums_receipts() {
    let mut g = Globals::new(None, Vec::new());
    g.add_relationship(id(1), id(20), Relationship::ZapReceipt(1000));
    g.add_relationship(id(1), id(21), Relationship::ZapReceipt(2000));
    g.add_relationship(id(1), id(22), Relationship::ZapReceipt(500));
    g.add_relationship(id(2), id(23), Relationship::ZapReceipt(7));
    assert_eq!(g.get_zap_total_sync(id(1)), 3500);
    assert_eq!(g.get_zap_total_sync(id(3)), 0);
}

#[test]
fn zap_total_counts_duplicate_receipts_and_does_not_overflow() {
    let mut g = Globals::new(None, Vec::new());
    g.add_relationship(id(1), id(20), Relationship::ZapReceipt(u64::MAX));
    g.add_relationship(id(1), id(21), Relationship::ZapReceipt(u64::MAX));
    assert_eq!(g.get_zap_total_sync(id(1)), 2 * (u64::MAX as u128));
}

#[test]
fn zap_receipt_without_amount_is_ignored() {
    let mut g = Globals::new(None, Vec::new());
    g.accept_event(event(4, 4, KIND_ZAP_RECEIPT, "", vec![Tag::Event(id(1))]));
    g.accept_event(event(5, 4, KIND_ZAP_RECEIPT, "", vec![Tag::Event(id(1)), Tag::Amount(5), Tag::Amount(9)]));
    assert_eq!(g.get_zap_total_sync(id(1)), 5);
}

#[test]
fn first_deletion_reason_wins() {
    let mut g = Globals::new(None, Vec::new());
    g.accept_event(event(30, 1, KIND_DELETION, "spam", vec![Tag::Event(id(1))]));
    g.accept_event(event(31, 1, KIND_DELETION, "duplicate", vec![Tag::Event(id(1)), Tag::Event(id(2))]));
    assert_eq!(g.get_deletion_sync(id(1)), Some("spam".to_string()));
    assert_eq!(g.get_deletion_sync(id(2)), Some("duplicate".to_string()));
    assert_eq!(g.get_deletion_sync(id(3)), None);
}

#[test]
fn picker_never_picks_relay_without_needed_bits() {
    let known = vec![relay("wss://only.example", READ, 9)];
    let connected = vec!["wss://only.example".to_string()];
    assert_eq!(best_relay_for(&known, &connected, WRITE), None);
    assert_eq!(best_relay_for(&known, &connected, READ | WRITE), None);
    assert_eq!(best_relay_for(&known, &connected, READ), Some(0));
    assert_eq!(best_relay_for(&Vec::new(), &connected, READ), None);
}

#[test]
fn picker_prefers_connected_then_rank_then_lowest_url() {
    let known = vec![
        relay("wss://c.example", READ | WRITE, 5),
        relay("wss://b.example", READ, 9),
        relay("wss://a.example", READ | INBOX, 5),
        relay("wss://d.example", WRITE, 50),
    ];
    let none: Vec<String> = Vec::new();
    assert_eq!(best_relay_for(&known, &none, READ), Some(1));
    let connected = vec!["wss://c.example".to_string(), "wss://a.example".to_string()];
    assert_eq!(best_relay_for(&known, &connected, READ), Some(2));
    assert_eq!(best_relay_for(&known, &connected, WRITE), Some(0));
    assert_eq!(best_relay_for(&known, &none, WRITE), Some(3));
    assert_eq!(best_relay_for(&known, &none, INBOX), Some(2));
    assert_eq!(best_relay_for(&known, &none, OUTBOX), None);
}

#[test]
fn urls_compare_lexicographically() {
    assert!(str_lt("wss://a", "wss://b"));
    assert!(str_lt("wss://a", "wss://ab"));
    assert!(!str_lt("wss://ab", "wss://a"));
    assert!(!str_lt("wss://a", "wss://a"));
    assert!(str_lt("", "x"));
}

#[test]
fn has_usage_bits_needs_every_bit() {
    let r = relay("wss://r", READ | OUTBOX, 0);
    assert!(r.has_usage_bits(READ));
    assert!(r.has_usage_bits(READ | OUTBOX));
    assert!(!r.has_usage_bits(READ | WRITE));
}

#[test]
fn zap_flow_runs_forward() {
    let s = ZapState::Idle;
    let s = s.step(ZapEvent::Start(id(1), key(2), "lnurl1".to_string()));
    assert!(matches!(&s, ZapState::CheckingLnurl(t, p, l) if *t == id(1) && *p == key(2) && l == "lnurl1"));
    let s = s.step(ZapEvent::LnurlResolved(id(1), pay_request(), "https://pay.example/cb".to_string()));
    assert!(matches!(&s, ZapState::SeekingAmount(t, p, d, cb) if *t == id(1) && *p == key(2) && d.min_sendable == 1000 && cb == "https://pay.example/cb"));
    let s = s.step(ZapEvent::AmountChosen(id(1)));
    assert!(matches!(&s, ZapState::LoadingInvoice(t, p) if *t == id(1) && *p == key(2)));
    let s = s.step(ZapEvent::InvoiceReceived(id(1), "lnbc1invoice".to_string()));
    assert!(matches!(&s, ZapState::ReadyToPay(t, inv) if *t == id(1) && inv == "lnbc1invoice"));
    assert_eq!(s.target(), Some(id(1)));
}

#[test]
fn new_zap_flow_replaces_the_old_one() {
    let s = ZapState::SeekingAmount(id(1), key(2), pay_request(), "cb".to_string());
    let s = s.step(ZapEvent::Start(id(5), key(6), "lnurl5".to_string()));
    assert!(matches!(&s, ZapState::CheckingLnurl(t, _, _) if *t == id(5)));
    let s = s.step(ZapEvent::AmountChosen(id(1)));
    let s = s.step(ZapEvent::LnurlResolved(id(1), pay_request(), "cb".to_string()));
    let s = s.step(ZapEvent::Failed(id(1)));
    assert!(matches!(&s, ZapState::CheckingLnurl(t, p, _) if *t == id(5) && *p == key(6)));
}

#[test]
fn cancel_and_failure_return_to_idle() {
    let states = vec![
        ZapState::CheckingLnurl(id(1), key(2), "l".to_string()),
        ZapState::SeekingAmount(id(1), key(2), pay_request(), "cb".to_string()),
        ZapState::LoadingInvoice(id(1), key(2)),
        ZapState::ReadyToPay(id(1), "inv".to_string()),
    ];
    for s in states {
        assert!(matches!(s.clone().step(ZapEvent::Cancel), ZapState::Idle));
        assert!(matches!(s.step(ZapEvent::Failed(id(1))), ZapState::Idle));
    }
    assert!(matches!(ZapState::Idle.step(ZapEvent::Cancel), ZapState::Idle));
    assert_eq!(ZapState::Idle.target(), None);
}

#[test]
fn jobs_go_to_connected_relays_in_order() {
    let mut o = Overlord::new();
    let a = "wss://a.example".to_string();
    let b = "wss://b.example".to_string();
    let job1 = RelayJob { id: 1, kind: JobKind::Subscribe };
    let job2 = RelayJob { id: 2, kind: JobKind::Fetch };
    let job3 = RelayJob { id: 3, kind: JobKind::Publish };
    assert_eq!(o.assign(&a, job1), Err(CommandError::NotConnected));
    assert_eq!(o.connect(a.clone()), Ok(()));
    assert_eq!(o.connect(a.clone()), Err(CommandError::AlreadyConnected));
    assert_eq!(o.connect(b.clone()), Ok(()));
    assert_eq!(o.assign(&a, job1), Ok(()));
    assert_eq!(o.assign(&b, job2), Ok(()));
    assert_eq!(o.assign(&a, job3), Ok(()));
    assert_eq!(o.jobs_of(&a), vec![job1, job3]);
    assert_eq!(o.jobs_of(&b), vec![job2]);
    o.agent_terminated(&a);
    assert!(o.jobs_of(&a).is_empty());
    assert_eq!(o.jobs_of(&b), vec![job2]);
    assert_eq!(o.assign(&a, job1), Err(CommandError::NotConnected));
}

#[test]
fn shutdown_refuses_work_and_waits_for_every_agent() {
    let mut o = Overlord::new();
    let a = "wss://a.example".to_string();
    let b = "wss://b.example".to_string();
    o.connect(a.clone()).unwrap();
    o.connect(b.clone()).unwrap();
    assert!(!o.shutdown_complete());
    let told = o.begin_shutdown();
    assert_eq!(told, vec![a.clone(), b.clone()]);
    assert!(o.shutting_down());
    let job = RelayJob { id: 9, kind: JobKind::Fetch };
    assert_eq!(o.assign(&a, job), Err(CommandError::ShuttingDown));
    assert_eq!(o.connect("wss://c.example".to_string()), Err(CommandError::ShuttingDown));
    assert!(!o.shutdown_complete());
    o.agent_terminated(&a);
    assert!(!o.shutdown_complete());
    o.agent_terminated(&b);
    assert!(o.shutdown_complete());
}

#[test]
fn nprofile_lists_outbox_relays() {
    let relays = vec![
        relay("wss://out1.example", OUTBOX | READ, 1),
        relay("wss://in.example", INBOX, 1),
        relay("wss://out2.example", OUTBOX, 1),
    ];
    let g = Globals::new(Some(key(3)), relays);
    let p = g.get_your_nprofile().unwrap();
    assert_eq!(p.pubkey, key(3));
    assert_eq!(p.relays, vec!["wss://out1.example".to_string(), "wss://out2.example".to_string()]);
    let anon = Globals::new(None, vec![relay("wss://out1.example", OUTBOX, 1)]);
    assert!(anon.get_your_nprofile().is_none());
}

#[test]
fn globals_pick_among_known_relays_using_connections() {
    let relays = vec![
        relay("wss://b.example", READ, 3),
        relay("wss://a.example", READ, 3),
        relay("wss://w.example", WRITE, 1),
    ];
    let mut g = Globals::new(None, relays);
    assert_eq!(g.best_relay_for(READ), Some("wss://a.example".to_string()));
    assert_eq!(g.overlord.connect("wss://b.example".to_string()), Ok(()));
    assert_eq!(g.best_relay_for(READ), Some("wss://b.example".to_string()));
    assert_eq!(g.best_relay_for(OUTBOX), None);
    assert_eq!(g.best_relay_for(READ | WRITE), None);
}

#[test]
fn globals_hold_one_zap_flow() {
    let mut g = Globals::new(None, Vec::new());
    g.advance_zap(ZapEvent::Start(id(1), key(2), "lnurl1".to_string()));
    g.advance_zap(ZapEvent::LnurlResolved(id(1), pay_request(), "cb".to_string()));
    assert!(matches!(&g.current_zap, ZapState::SeekingAmount(t, _, _, _) if *t == id(1)));
    g.advance_zap(ZapEvent::Start(id(3), key(4), "lnurl3".to_string()));
    assert_eq!(g.current_zap.target(), Some(id(3)));
    g.advance_zap(ZapEvent::InvoiceReceived(id(1), "stale".to_string()));
    assert!(matches!(&g.current_zap, ZapState::CheckingLnurl(t, _, _) if *t == id(3)));
    g.advance_zap(ZapEvent::Cancel);
    assert!(matches!(&g.current_zap, ZapState::Idle));
}
