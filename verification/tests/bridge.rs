use radix_index::bridge::convert_batch;
use radix_index::bridge::keyspace;
use radix_index::bridge::keyspace_with_kind;
use radix_index::bridge::on_ack;
use radix_index::bridge::on_connected;
use radix_index::bridge::DigestCache;
use radix_index::bridge::EpochLedger;
use radix_index::bridge::Refusal;
use radix_index::bridge::WorkerAction;
use radix_index::bridge::WorkerEvent;
use radix_index::bridge::WorkerLoop;
use radix_index::proto::EventKind;
use radix_index::proto::KvBlock;
use radix_index::proto::KvCacheEvent;
use radix_index::proto::KvData;
use radix_index::proto::KvEventBatch;
use radix_index::proto::PublishAck;
use radix_index::proto::SymbolKind;
use radix_index::proto::Update;
use radix_index::wire_hash::content_hash;

fn batch(seq: u64) -> KvEventBatch {
    KvEventBatch {
        sequence_number: seq,
        events: vec![
            KvCacheEvent {
                event_id: 1,
                data: Some(KvData::Stored {
                    parent_block_hash: Some(-1),
                    blocks: vec![KvBlock { block_hash: -2, token_ids: vec![1, 2], block_size: 2 }],
                }),
            },
            KvCacheEvent { event_id: 2, data: None },
            KvCacheEvent { event_id: 3, data: Some(KvData::Removed { block_hashes: vec![5] }) },
            KvCacheEvent { event_id: 4, data: Some(KvData::Cleared) },
        ],
    }
}

#[test]
fn batches_keep_their_order_and_signs() {
    let u = convert_batch(&batch(7), "m", 2, "w", 3);
    assert_eq!((u.holder.as_str(), u.epoch, u.seq), ("w", 3, 7));
    assert_eq!(u.keyspace, Some(keyspace("m", 2)));
    assert_eq!(u.events.len(), 3);
    match &u.events[0].kind {
        Some(EventKind::Stored { parent_seq_hash, blocks }) => {
            assert_eq!(*parent_seq_hash, Some(u64::MAX));
            assert_eq!(blocks[0].seq_hash, u64::MAX - 1);
            assert_eq!(blocks[0].content_hash, content_hash(&[1, 2]).0);
        }
        other => panic!("unexpected {other:?}"),
    }
    assert_eq!(u.events[1].kind, Some(EventKind::Removed { seq_hashes: vec![5] }));
    assert_eq!(u.events[2].kind, Some(EventKind::Cleared(true)));
}

#[test]
fn symbol_kinds_have_keyspaces_of_their_own() {
    assert_ne!(keyspace("m", 4), keyspace_with_kind("m", 4, SymbolKind::Bytes));
    assert_eq!(keyspace("m", 4), keyspace_with_kind("m", 4, SymbolKind::Tokens));
}

#[test]
fn the_record_keeps_the_highest_epoch() {
    let mut ledger = EpochLedger::default();
    assert_eq!(ledger.known("w"), 0);
    ledger.observe("w", 5);
    ledger.observe("w", 3);
    assert_eq!(ledger.known("w"), 5);
    assert_eq!(ledger.known("x"), 0);
}

#[test]
fn loops_adopt_an_epoch_past_the_record() {
    let mut l = WorkerLoop::new("w", "m", 2);
    assert!(matches!(
        l.step(WorkerEvent::Start { known: 0 }),
        WorkerAction::Subscribe { from: 0 }
    ));
    assert_eq!(l.epoch, 1);
    assert!(matches!(l.step(WorkerEvent::Batch(batch(1))), WorkerAction::Send(_)));
    assert!(matches!(
        l.step(WorkerEvent::Sent { known: 1 }),
        WorkerAction::Retry { after_ms: 200 }
    ));
    assert!(matches!(
        l.step(WorkerEvent::Start { known: 4 }),
        WorkerAction::Subscribe { from: 0 }
    ));
    assert_eq!((l.epoch, l.last_seq), (5, 0));
}

#[test]
fn gaps_start_a_new_epoch() {
    let mut l = WorkerLoop::new("w", "m", 2);
    l.step(WorkerEvent::Start { known: 0 });
    assert!(matches!(l.step(WorkerEvent::Batch(batch(3))), WorkerAction::Send(_)));
    assert!(matches!(l.step(WorkerEvent::Batch(batch(3))), WorkerAction::Next));
    assert!(matches!(l.step(WorkerEvent::Batch(batch(4))), WorkerAction::Send(_)));
    assert!(matches!(
        l.step(WorkerEvent::Batch(batch(6))),
        WorkerAction::Retry { after_ms: 200 }
    ));
    assert_eq!((l.epoch, l.last_seq), (2, 0));
}

#[test]
fn refusals_end_or_restart_a_loop() {
    let mut l = WorkerLoop::new("w", "m", 2);
    assert!(matches!(
        l.step(WorkerEvent::Refused(Refusal::Other)),
        WorkerAction::Retry { after_ms: 500 }
    ));
    assert_eq!(l.epoch, 1);
    l.step(WorkerEvent::Refused(Refusal::OutOfRange));
    assert_eq!(l.epoch, 2);
    l.step(WorkerEvent::Refused(Refusal::DataLoss));
    assert_eq!(l.epoch, 3);
    assert!(matches!(l.step(WorkerEvent::Refused(Refusal::Unimplemented)), WorkerAction::Exit));
    assert!(matches!(l.step(WorkerEvent::PublisherGone), WorkerAction::Exit));
    assert!(matches!(l.step(WorkerEvent::Ended), WorkerAction::Retry { after_ms: 200 }));
    assert!(matches!(l.step(WorkerEvent::Unreachable), WorkerAction::Retry { after_ms: 500 }));
}

fn full() -> Update {
    convert_batch(&batch(1), "m", 2, "w", 1)
}

#[test]
fn established_chains_go_out_as_digests() {
    let mut cache = DigestCache::default();
    assert!(cache.plan(9, 3, &full()).is_none());
    let digest = cache.plan(9, 3, &full()).expect("established");
    assert!(matches!(&digest.events[0].kind, Some(EventKind::Digest(d)) if d.tip_seq_hash == 9 && d.len == 3));
    assert_eq!(cache.resend(9), Some(full()));
    assert_eq!(cache.resend(8), None);
    cache.reset();
    assert!(cache.plan(9, 3, &full()).is_none());
}

#[test]
fn missed_digests_are_sent_in_full() {
    let mut ledger = EpochLedger::default();
    let mut cache = DigestCache::default();
    cache.plan(9, 3, &full());
    let mut digest = Some(cache);
    let ack = PublishAck { holder: "w".into(), epoch: 2, digest_miss_tip: Some(9) };
    assert_eq!(on_ack(&mut ledger, &digest, &ack), vec![full()]);
    assert_eq!(ledger.known("w"), 2);
    on_connected(&mut digest);
    assert!(on_ack(&mut ledger, &digest, &ack).is_empty());
}

#[test]
fn digests_are_per_holder() {
    let (u1, mut u2) = (full(), full());
    u2.holder = "v".into();
    let mut cache = DigestCache::default();
    assert!(cache.plan(7, 2, &u1).is_none());
    assert!(cache.plan(7, 2, &u2).is_none());
    assert_eq!(cache.plan(7, 2, &u1).map(|d| d.holder), Some("w".to_string()));
    assert_eq!(cache.resend(7), Some(u1.clone()));
    let digest = cache.plan(7, 2, &u2).expect("established");
    assert_eq!(digest.holder, "v");
    assert_eq!(cache.resend(7), Some(u2.clone()));
    assert_eq!(cache.resend_for("w", 7), vec![u1.clone()]);
    assert_eq!(cache.resend_for("v", 7), vec![u2.clone()]);
    u2.epoch = 5;
    assert!(cache.plan(7, 2, &u2).is_some());
    assert_eq!(cache.resend_for("v", 7), vec![u2]);
    let other = convert_batch(&batch(1), "n", 2, "w", 1);
    assert!(cache.plan(7, 2, &other).is_none());
    assert_eq!(cache.resend_for("w", 7), vec![u1, other]);
}
