use radix_index::engine::placement_chain;
use radix_index::engine::AddedControl;
use radix_index::engine::ApplyOutcome;
use radix_index::engine::Engine;
use radix_index::engine::EngineConfig;
use radix_index::engine::KeyspaceKey;
use radix_index::engine::SymbolKind;
use radix_index::engine::UpdateMsg;
use radix_index::engine::WireBlock;
use radix_index::engine::WireEvent;
use radix_index::wire_hash::content_hash;
use radix_index::wire_hash::ContentHash;
use radix_index::wire_hash::SequenceHash;
use rand::rngs::StdRng;
use rand::seq::SliceRandom;
use rand::RngExt;
use rand::SeedableRng;

fn keyspace() -> KeyspaceKey {
    KeyspaceKey { model: "m".into(), symbol_kind: SymbolKind::Tokens, block_size: 4 }
}

/// Block i hashes the tokens [seed, i]: shared prefixes share leading hashes.
fn prefix_hashes(seed: u32, blocks: usize) -> Vec<ContentHash> {
    (0..blocks as u32).map(|i| content_hash(&[seed, i])).collect()
}

fn placement(holder: &str, seed: u32, blocks: usize) -> UpdateMsg {
    UpdateMsg {
        keyspace: keyspace(),
        holder: holder.into(),
        epoch: 1,
        seq: 0,
        events: vec![WireEvent::Stored {
            parent: None,
            blocks: placement_chain(&prefix_hashes(seed, blocks)),
        }],
        added: None,
        dropped: false,
    }
}

fn event_batch(holder: &str, seq: u64, events: Vec<WireEvent>) -> UpdateMsg {
    UpdateMsg {
        keyspace: keyspace(),
        holder: holder.into(),
        epoch: 1,
        seq,
        events,
        added: None,
        dropped: false,
    }
}

fn scores(engine: &Engine, seed: u32, blocks: usize) -> Vec<(String, u32)> {
    engine
        .find_matches(&keyspace(), &prefix_hashes(seed, blocks))
        .into_iter()
        .map(|s| (s.holder, s.matched_blocks))
        .collect()
}

#[test]
fn move_only_apply_reports_changed_for_relay() {
    let mut engine = Engine::new(EngineConfig::default());
    let (_, _, changed) = engine.apply(&placement("w1", 21, 4), 0);
    assert!(changed);
    let chain = placement_chain(&prefix_hashes(21, 4));
    let other_parent = placement_chain(&prefix_hashes(22, 2));
    let mut setup = UpdateMsg {
        keyspace: keyspace(),
        holder: "w1".into(),
        epoch: 1,
        seq: 0,
        events: vec![WireEvent::Stored { parent: None, blocks: other_parent.clone() }],
        added: None,
        dropped: false,
    };
    engine.apply(&setup, 0);
    setup.events = vec![WireEvent::Stored {
        parent: Some(other_parent[1].seq_hash),
        blocks: chain.clone(),
    }];
    let (_, _, changed) = engine.apply(&setup, 0);
    assert!(changed, "move-only apply must relay");
    let (_, _, changed) = engine.apply(&setup, 0);
    assert!(!changed, "idempotent echo must not relay");
}

#[test]
fn placement_chain_is_deterministic_and_positions_match() {
    let hashes = prefix_hashes(7, 6);
    assert_eq!(placement_chain(&hashes), placement_chain(&hashes));
    let mut engine = Engine::new(EngineConfig::default());
    engine.apply(&placement("w1", 7, 6), 0);
    assert_eq!(scores(&engine, 7, 6), vec![("w1".into(), 6)]);
    assert_eq!(scores(&engine, 7, 3), vec![("w1".into(), 3)]);
}

#[test]
fn placements_are_idempotent_across_publishers() {
    let mut a = Engine::new(EngineConfig::default());
    let mut b = Engine::new(EngineConfig::default());
    let mut updates = Vec::new();
    for _publisher in 0..4 {
        updates.push(placement("w1", 9, 4));
        updates.push(placement("w1", 9, 8));
        updates.push(placement("w2", 9, 2));
    }
    let mut rng = StdRng::seed_from_u64(1);
    let mut for_a = updates.clone();
    let mut for_b = updates.clone();
    for_a.shuffle(&mut rng);
    for_b.shuffle(&mut rng);
    for u in &for_a {
        a.apply(u, 0);
    }
    for u in &for_b {
        b.apply(u, 0);
    }
    assert_eq!(scores(&a, 9, 8), scores(&b, 9, 8));
    assert_eq!(a.entry_count(), b.entry_count());
    let mut once = Engine::new(EngineConfig::default());
    once.apply(&placement("w1", 9, 8), 0);
    once.apply(&placement("w2", 9, 2), 0);
    assert_eq!(scores(&once, 9, 8), scores(&a, 9, 8));
}

fn deliver(
    engine: &mut Engine,
    rng: &mut StdRng,
    per_holder: &[Vec<UpdateMsg>],
    placements: &[UpdateMsg],
) {
    let mut cursors = vec![0usize; per_holder.len()];
    let mut pending = placements.to_vec();
    loop {
        let live: Vec<usize> =
            (0..per_holder.len()).filter(|&h| cursors[h] < per_holder[h].len()).collect();
        if live.is_empty() && pending.is_empty() {
            break;
        }
        if !pending.is_empty() && (live.is_empty() || rng.random_bool(0.4)) {
            let i = rng.random_range(0..pending.len());
            let u = pending.swap_remove(i);
            engine.apply(&u, 0);
            if rng.random_bool(0.3) {
                engine.apply(&u, 0);
            }
        } else {
            let h = live[rng.random_range(0..live.len())];
            let u = &per_holder[h][cursors[h]];
            engine.apply(u, 0);
            if rng.random_bool(0.3) {
                engine.apply(u, 0);
            }
            cursors[h] += 1;
        }
    }
}

#[test]
fn replicas_converge_under_interleaving_and_duplication() {
    let mut rng = StdRng::seed_from_u64(42);
    let mut per_holder: Vec<Vec<UpdateMsg>> = Vec::new();
    for h in 0..4u32 {
        let holder = format!("ev{h}");
        let mut seqs = Vec::new();
        let chain = placement_chain(&prefix_hashes(100 + h, 12));
        for (i, window) in chain.chunks(3).enumerate() {
            let parent = if i == 0 { None } else { Some(chain[i * 3 - 1].seq_hash) };
            let mut events = vec![WireEvent::Stored { parent, blocks: window.to_vec() }];
            if i == 3 {
                events.push(WireEvent::Removed { seq_hashes: vec![chain[11].seq_hash] });
            }
            seqs.push(event_batch(&holder, (i + 1) as u64, events));
        }
        per_holder.push(seqs);
    }
    let placements: Vec<UpdateMsg> = (0..6u32)
        .map(|p| placement(&format!("pl{}", p % 2), 200 + (p % 3), 4 + (p % 5) as usize))
        .collect();

    let mut a = Engine::new(EngineConfig::default());
    let mut b = Engine::new(EngineConfig::default());
    deliver(&mut a, &mut rng, &per_holder, &placements);
    deliver(&mut b, &mut rng, &per_holder, &placements);
    for h in 0..4u32 {
        assert_eq!(
            scores(&a, 100 + h, 12),
            scores(&b, 100 + h, 12),
            "event holder {h} diverged"
        );
        assert_eq!(scores(&a, 100 + h, 12), vec![(format!("ev{h}"), 11)]);
    }
    for p in 0..3u32 {
        assert_eq!(scores(&a, 200 + p, 8), scores(&b, 200 + p, 8));
    }
    assert_eq!(a.entry_count(), b.entry_count());
}

#[test]
fn higher_epoch_clears_lower_and_stale_epochs_drop() {
    let mut engine = Engine::new(EngineConfig::default());
    engine.apply(&placement("w1", 5, 6), 0);
    assert_eq!(scores(&engine, 5, 6), vec![("w1".into(), 6)]);

    let mut restarted = placement("w1", 5, 2);
    restarted.epoch = 2;
    let (outcome, _, _) = engine.apply(&restarted, 0);
    assert_eq!(outcome, ApplyOutcome::Applied);
    assert_eq!(scores(&engine, 5, 6), vec![("w1".into(), 2)]);

    let (outcome, _, _) = engine.apply(&placement("w1", 5, 6), 0);
    assert_eq!(outcome, ApplyOutcome::Deduped);
    assert_eq!(scores(&engine, 5, 6), vec![("w1".into(), 2)]);
}

#[test]
fn tail_eviction_keeps_prefixes_closed() {
    let mut engine =
        Engine::new(EngineConfig { default_capacity_blocks: 4, ..EngineConfig::default() });
    engine.apply(&placement("w1", 3, 8), 0);
    assert_eq!(scores(&engine, 3, 8), vec![("w1".into(), 8)]);
    engine.apply(&placement("w1", 3, 12), 0);
    assert_eq!(scores(&engine, 3, 12), vec![("w1".into(), 8)]);
    assert_eq!(scores(&engine, 3, 4), vec![("w1".into(), 4)]);
    assert_eq!(engine.entry_count(), 8);
}

#[test]
fn event_fed_holders_reject_placements_and_split_batches_do_not_lose_events() {
    let mut engine = Engine::new(EngineConfig::default());
    let chain = placement_chain(&prefix_hashes(11, 6));
    engine.apply(
        &event_batch(
            "w1",
            1,
            vec![
                WireEvent::Stored { parent: None, blocks: chain.clone() },
                WireEvent::Removed { seq_hashes: vec![chain[5].seq_hash] },
            ],
        ),
        0,
    );
    assert_eq!(scores(&engine, 11, 6), vec![("w1".into(), 5)]);

    let (outcome, _, _) = engine.apply(&placement("w1", 12, 3), 0);
    assert_eq!(outcome, ApplyOutcome::FeedRejected);
    assert!(scores(&engine, 12, 3).is_empty());

    engine.apply(
        &event_batch("w1", 1, vec![WireEvent::Removed { seq_hashes: vec![chain[4].seq_hash] }]),
        0,
    );
    assert_eq!(scores(&engine, 11, 6), vec![("w1".into(), 5)]);
}

#[test]
fn snapshot_bootstrap_reproduces_answers() {
    let mut a = Engine::new(EngineConfig::default());
    a.apply(&placement("w1", 21, 5), 0);
    let chain = placement_chain(&prefix_hashes(22, 4));
    a.apply(
        &event_batch("w2", 3, vec![WireEvent::Stored { parent: None, blocks: chain }]),
        0,
    );

    let mut b = Engine::new(EngineConfig::default());
    for update in a.snapshot() {
        b.apply(&update, 0);
    }
    assert_eq!(scores(&a, 21, 5), scores(&b, 21, 5));
    assert_eq!(scores(&a, 22, 4), scores(&b, 22, 4));
    assert_eq!(a.entry_count(), b.entry_count());

    let (outcome, _, _) = b.apply(&event_batch("w2", 2, vec![WireEvent::Cleared]), 0);
    assert_eq!(outcome, ApplyOutcome::Deduped);
}

#[test]
fn empty_block_sizes_are_refused() {
    let mut engine = Engine::new(EngineConfig::default());
    let mut update = placement("w1", 1, 2);
    update.keyspace.block_size = 0;
    let (outcome, _, changed) = engine.apply(&update, 0);
    assert_eq!(outcome, ApplyOutcome::KeyspaceMismatch);
    assert!(!changed);
    assert_eq!(engine.stats().keyspaces, 0);
}

#[test]
fn stale_epochs_report_the_watermark() {
    let mut engine = Engine::new(EngineConfig::default());
    let mut update = event_batch("w1", 9, vec![WireEvent::Cleared]);
    update.epoch = 7;
    assert_eq!(engine.apply(&update, 0), (ApplyOutcome::Applied, 9, true));
    let late = engine.apply(&placement("w1", 1, 2), 0);
    assert_eq!(late, (ApplyOutcome::Deduped, 9, false));
}

#[test]
fn keyspaces_do_not_share_blocks() {
    let mut engine = Engine::new(EngineConfig::default());
    engine.apply(&placement("w1", 4, 3), 0);
    let other = KeyspaceKey { model: "m".into(), symbol_kind: SymbolKind::Bytes, block_size: 4 };
    assert!(engine.find_matches(&other, &prefix_hashes(4, 3)).is_empty());
    let longer = KeyspaceKey { model: "m".into(), symbol_kind: SymbolKind::Tokens, block_size: 8 };
    assert!(engine.find_matches(&longer, &prefix_hashes(4, 3)).is_empty());
}

#[test]
fn deepest_holders_come_first() {
    let mut engine = Engine::new(EngineConfig::default());
    engine.apply(&placement("b", 4, 2), 0);
    engine.apply(&placement("a", 4, 5), 0);
    engine.apply(&placement("c", 4, 3), 0);
    let found = scores(&engine, 4, 6);
    assert_eq!(found, vec![("a".into(), 5), ("c".into(), 3), ("b".into(), 2)]);
}

#[test]
fn idle_placements_leave_and_event_feeds_stay() {
    let mut engine = Engine::new(EngineConfig { inferred_ttl: 10, ..EngineConfig::default() });
    engine.apply(&placement("w1", 4, 3), 5);
    let chain = placement_chain(&prefix_hashes(4, 2));
    engine.apply(
        &event_batch("w2", 1, vec![WireEvent::Stored { parent: None, blocks: chain }]),
        5,
    );
    engine.sweep_idle(10);
    assert_eq!(scores(&engine, 4, 3).len(), 2);
    engine.sweep_idle(100);
    assert_eq!(scores(&engine, 4, 3), vec![("w2".into(), 2)]);
}

#[test]
fn dropped_holders_answer_no_queries() {
    let mut engine = Engine::new(EngineConfig::default());
    engine.apply(&placement("w1", 4, 3), 0);
    let mut gone = placement("w1", 4, 0);
    gone.events.clear();
    gone.dropped = true;
    let (_, _, changed) = engine.apply(&gone, 0);
    assert!(changed);
    assert!(scores(&engine, 4, 3).is_empty());
    assert_eq!(engine.stats().dropped_holders, 1);
}

#[test]
fn stats_count_holders_and_blocks() {
    let mut engine = Engine::new(EngineConfig::default());
    engine.apply(&placement("w1", 4, 3), 0);
    engine.apply(&placement("w2", 4, 3), 0);
    engine.apply(&event_batch("w3", 1, vec![WireEvent::Removed { seq_hashes: vec![] }]), 0);
    let s = engine.stats();
    assert_eq!((s.keyspaces, s.holders, s.event_fed_holders, s.blocks), (1, 3, 1, 3));
    assert_eq!(engine.entry_count(), 3);
}

#[test]
fn declared_capacities_bound_a_holder() {
    let mut engine = Engine::new(EngineConfig::default());
    let mut update = placement("w1", 3, 12);
    update.added = Some(AddedControl { capacity_blocks: 3, event_fed: false });
    engine.apply(&update, 0);
    assert_eq!(scores(&engine, 3, 12), vec![("w1".into(), 6)]);
}

#[test]
fn large_placements_travel_in_chunks() {
    let mut a = Engine::new(EngineConfig::default());
    a.apply(&placement("w1", 3, 20_000), 0);
    let messages = a.snapshot();
    assert_eq!(messages.len(), 2);
    let mut b = Engine::new(EngineConfig::default());
    for m in &messages {
        b.apply(m, 0);
    }
    assert_eq!(scores(&b, 3, 20_000), vec![("w1".into(), 20_000)]);
}

#[test]
fn wire_hashes_are_pinned_per_position() {
    let contents = prefix_hashes(1, 3);
    let chain = placement_chain(&contents);
    assert_eq!(chain[0].seq_hash.0, contents[0].0);
    assert_ne!(chain[1].seq_hash.0, contents[1].0);
    assert_ne!(content_hash(&[1, 0]), content_hash(&[0, 1]));
    let shifted = placement_chain(&contents[1..]);
    assert_ne!(chain[1].seq_hash, shifted[0].seq_hash);
}

#[test]
fn content_hashes_are_seeded_xxh3() {
    let bytes = [1u8, 0, 0, 0, 2, 1, 0, 0];
    let want = xxhash_rust::xxh3::xxh3_64_with_seed(&bytes, 1337);
    assert_eq!(content_hash(&[1, 0x102]).0, want);
    let (a, b) = (content_hash(&[1]), content_hash(&[2]));
    let mut pair = a.0.to_le_bytes().to_vec();
    pair.extend_from_slice(&b.0.to_le_bytes());
    let want = xxhash_rust::xxh3::xxh3_64_with_seed(&pair, 1337);
    assert_eq!(placement_chain(&[a, b])[1].seq_hash.0, want);
}

#[test]
fn late_batches_do_not_count_again() {
    let mut e = Engine::new(EngineConfig::default());
    let batch = |holder: &str, seq: u64, blocks: usize| UpdateMsg {
        seq,
        ..placement(holder, 3, blocks)
    };
    assert_eq!(e.apply(&batch("w1", 1, 4), 0), (ApplyOutcome::Applied, 1, true));
    e.apply(&placement("w2", 3, 6), 1);
    let cut = UpdateMsg {
        events: vec![WireEvent::Removed {
            seq_hashes: placement_chain(&prefix_hashes(3, 4))[2..]
                .iter()
                .map(|b| b.seq_hash)
                .collect(),
        }],
        ..batch("w1", 2, 0)
    };
    assert_eq!(e.apply(&cut, 2), (ApplyOutcome::Applied, 2, true));
    let before = scores(&e, 3, 6);
    assert_eq!(e.apply(&batch("w1", 1, 4), 3), (ApplyOutcome::Deduped, 2, false));
    assert_eq!(scores(&e, 3, 6), before);
}

fn blocks(pairs: &[(u64, u64)]) -> Vec<WireBlock> {
    pairs
        .iter()
        .map(|&(k, c)| WireBlock { seq_hash: SequenceHash(k), content_hash: ContentHash(c) })
        .collect()
}

fn stored(parent: Option<u64>, pairs: &[(u64, u64)]) -> WireEvent {
    WireEvent::Stored { parent: parent.map(SequenceHash), blocks: blocks(pairs) }
}

fn update(holder: &str, seq: u64, events: Vec<WireEvent>) -> UpdateMsg {
    event_batch(holder, seq, events)
}

fn depths(e: &Engine, chain: &[u64]) -> Vec<(String, u32)> {
    let chain: Vec<ContentHash> = chain.iter().map(|&c| ContentHash(c)).collect();
    e.find_matches(&keyspace(), &chain).into_iter().map(|s| (s.holder, s.matched_blocks)).collect()
}

fn pulled(a: &Engine) -> Engine {
    let mut b = Engine::new(EngineConfig::default());
    for m in &a.snapshot() {
        b.apply(m, 0);
    }
    b
}

#[test]
fn a_cut_is_a_change() {
    let mut e = Engine::new(EngineConfig::default());
    let p = update("w1", 0, vec![stored(None, &[(1, 10), (2, 20), (3, 30)])]);
    assert_eq!(e.apply(&p, 0), (ApplyOutcome::Applied, 0, true));
    let mut lower = update("w1", 0, vec![]);
    lower.added = Some(AddedControl { capacity_blocks: 1, event_fed: false });
    assert_eq!(e.apply(&lower, 0), (ApplyOutcome::Applied, 0, true));
    assert_eq!(e.apply(&lower, 0), (ApplyOutcome::Applied, 0, false));
    assert_eq!(depths(&e, &[10, 20, 30]), vec![("w1".into(), 3)]);
    assert_eq!(e.apply(&p, 0), (ApplyOutcome::Applied, 0, true));
    assert_eq!(depths(&e, &[10, 20, 30]), vec![("w1".into(), 2)]);
    assert_eq!(e.apply(&p, 0), (ApplyOutcome::Applied, 0, false));
    assert_eq!(depths(&e, &[10, 20, 30]), vec![("w1".into(), 2)]);
}

#[test]
fn echoes_past_the_bound_die_in_one_hop() {
    let mut e =
        Engine::new(EngineConfig { default_capacity_blocks: 2, ..EngineConfig::default() });
    let p = placement("w1", 3, 9);
    assert_eq!(e.apply(&p, 0), (ApplyOutcome::Applied, 0, true));
    for _ in 0..3 {
        assert_eq!(e.apply(&p, 0), (ApplyOutcome::Applied, 0, false));
        assert_eq!(e.entry_count(), 4);
    }
}

#[test]
fn what_comes_and_goes_in_one_update_changes_nothing() {
    let mut e = Engine::new(EngineConfig::default());
    e.apply(&update("w1", 1, vec![stored(None, &[(1, 10)])]), 0);
    let gone = WireEvent::Removed { seq_hashes: vec![SequenceHash(2)] };
    let u = update("w1", 2, vec![stored(Some(1), &[(2, 20)]), gone]);
    assert_eq!(e.apply(&u, 0), (ApplyOutcome::Applied, 2, false));
    let first = update("w2", 0, vec![]);
    assert_eq!(e.apply(&first, 0), (ApplyOutcome::Applied, 0, true));
    assert_eq!(e.apply(&first, 0), (ApplyOutcome::Applied, 0, false));
}

#[test]
fn snapshots_keep_chains_apart() {
    let mut a = Engine::new(EngineConfig::default());
    a.apply(&update("w1", 0, vec![stored(None, &[(1, 10), (2, 20)])]), 0);
    a.apply(&update("w1", 0, vec![stored(None, &[(3, 30), (4, 40)])]), 0);
    a.apply(&update("w1", 0, vec![stored(None, &[(1, 10), (5, 50), (6, 60)])]), 0);
    let b = pulled(&a);
    for chain in [&[10u64, 20][..], &[30, 40], &[10, 50, 60], &[10, 40]] {
        assert_eq!(depths(&a, chain), depths(&b, chain));
    }
    assert_eq!(depths(&b, &[10, 20]), vec![("w1".into(), 2)]);
    assert_eq!(a.entry_count(), b.entry_count());
}

#[test]
fn gaps_collapse_in_a_snapshot() {
    let mut a = Engine::new(EngineConfig::default());
    a.apply(&update("w1", 1, vec![stored(None, &[(1, 10), (2, 20), (3, 30), (4, 40)])]), 0);
    a.apply(&update("w1", 2, vec![WireEvent::Removed { seq_hashes: vec![SequenceHash(3)] }]), 0);
    let b = pulled(&a);
    assert_eq!(depths(&b, &[10, 20, 40]), vec![("w1".into(), 3)]);
}

/// An engine with an event-fed holder of a long chain and a short one.
fn fed(watermark: u64, capacity_blocks: u64) -> Engine {
    let mut a = Engine::new(EngineConfig::default());
    let long = placement_chain(&prefix_hashes(5, 40_000));
    let mut u = update("w1", watermark, vec![]);
    u.events =
        vec![WireEvent::Stored { parent: None, blocks: long }, stored(None, &[(3, 30), (4, 40)])];
    if watermark == 0 {
        u.events.push(WireEvent::Removed { seq_hashes: vec![] });
    }
    assert_eq!(a.apply(&u, 0), (ApplyOutcome::Applied, watermark, true));
    let mut control = update("w1", 0, vec![]);
    control.added = Some(AddedControl { capacity_blocks, event_fed: true });
    assert_eq!(a.apply(&control, 0).0, ApplyOutcome::Applied);
    a
}

fn whole(a: &Engine, watermark: u64) -> Engine {
    let mut b = pulled(a);
    assert_eq!(scores(&b, 5, 40_000), vec![("w1".into(), 40_000)]);
    assert_eq!(depths(&b, &[30, 40]), vec![("w1".into(), 2)]);
    assert_eq!(a.entry_count(), b.entry_count());
    assert_eq!(b.stats().event_fed_holders, 1);
    assert_eq!(b.apply(&placement("w1", 6, 2), 0).0, ApplyOutcome::FeedRejected);
    if watermark > 0 {
        let late = update("w1", watermark, vec![WireEvent::Cleared]);
        assert_eq!(b.apply(&late, 0), (ApplyOutcome::Deduped, watermark, false));
    }
    b
}

#[test]
fn large_event_fed_holders_travel_whole() {
    for watermark in [0u64, 1, 9] {
        let a = fed(watermark, 1 << 20);
        let messages = a.snapshot();
        assert_eq!(messages.len(), 3);
        let mut parents = Vec::new();
        let mut ends = Vec::new();
        for (i, m) in messages.iter().enumerate() {
            assert_eq!(m.added.is_some(), i == 0);
            assert_eq!(m.seq, if i == 2 { watermark } else { 0 });
            let mut size = 0;
            for event in &m.events {
                if let WireEvent::Stored { parent, blocks } = event {
                    parents.push(*parent);
                    ends.push(blocks.last().map(|b| b.seq_hash));
                    size += blocks.len();
                }
            }
            assert_eq!(size, [16_384, 16_384, 7_234][i]);
        }
        assert_eq!(parents, vec![None, None, ends[1], ends[2]]);
        let last = &messages[2].events;
        let removal = WireEvent::Removed { seq_hashes: vec![] };
        assert_eq!(last.last() == Some(&removal), watermark == 0);
        whole(&a, watermark);
    }
}

#[test]
fn event_fed_holders_past_the_bound_travel_whole() {
    for watermark in [0u64, 2] {
        let a = fed(watermark, 7);
        let messages = a.snapshot();
        assert_eq!(messages.len(), 4);
        assert_eq!(messages[3].seq, watermark);
        assert_eq!(messages[3].events, vec![]);
        assert_eq!(
            messages[3].added,
            Some(AddedControl { capacity_blocks: 7, event_fed: true })
        );
        let b = whole(&a, watermark);
        assert_eq!(b.snapshot(), messages);
    }
}

#[test]
fn event_fed_holders_of_one_message_travel_as_they_are() {
    let mut a = Engine::new(EngineConfig::default());
    let chains = vec![stored(None, &[(1, 10), (3, 20), (4, 30)]), stored(None, &[(2, 40), (5, 50)])];
    let mut u = update("w1", 4, chains);
    u.added = Some(AddedControl { capacity_blocks: 1, event_fed: true });
    a.apply(&u, 0);
    assert_eq!(a.snapshot(), vec![u]);
    assert_eq!(depths(&pulled(&a), &[10, 20, 30]), vec![("w1".into(), 3)]);
    assert_eq!(depths(&pulled(&a), &[40, 50]), vec![("w1".into(), 2)]);
}

#[test]
fn placements_with_an_event_feed_are_refused() {
    let mut e = Engine::new(EngineConfig::default());
    let mut u = update("w1", 0, vec![stored(None, &[(1, 10)])]);
    u.added = Some(AddedControl { capacity_blocks: 7, event_fed: true });
    assert_eq!(e.apply(&u, 0), (ApplyOutcome::FeedRejected, 0, true));
    let more = update("w1", 0, vec![stored(Some(1), &[(2, 20)])]);
    assert_eq!(e.apply(&more, 0), (ApplyOutcome::FeedRejected, 0, false));
    assert_eq!(e.entry_count(), 0);
    assert_eq!(e.apply(&update("w1", 1, more.events), 0), (ApplyOutcome::Applied, 1, true));
    assert_eq!(depths(&e, &[20]), vec![("w1".into(), 1)]);
}
