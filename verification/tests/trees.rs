use radix_index::core3::audit::AuditFault;
use radix_index::core3::OverlapScratch;
use radix_index::core3::RadixTree3;
use radix_index::flat::RadixTree;
use radix_index::types::Config;
use radix_index::types::HolderId;
use radix_index::types::Overlap;
use radix_index::types::StoreError;
use std::collections::BTreeMap;
use std::collections::HashMap;

struct Rng(u64);

impl Rng {
    fn new(seed: u64) -> Rng {
        Rng(seed)
    }

    fn next(&mut self) -> u64 {
        self.0 = self.0.wrapping_add(0x9E37_79B9_7F4A_7C15);
        let mut z = self.0;
        z = (z ^ (z >> 30)).wrapping_mul(0xBF58_476D_1CE4_E5B9);
        z = (z ^ (z >> 27)).wrapping_mul(0x94D0_49BB_1331_11EB);
        z ^ (z >> 31)
    }

    fn below(&mut self, n: usize) -> usize {
        (self.next() % n as u64) as usize
    }

    fn chance(&mut self, pct: u64) -> bool {
        self.next() % 100 < pct
    }
}

#[derive(Debug, Clone)]
enum Op {
    Store { holder: usize, parent: Option<u64>, blocks: Vec<(u64, u64)> },
    Remove { holder: usize, keys: Vec<u64> },
    Clear { holder: usize },
}

impl Op {
    fn holder(&self) -> usize {
        match self {
            Op::Store { holder, .. } | Op::Remove { holder, .. } | Op::Clear { holder } => *holder,
        }
    }
}

// ── A plain model: chains with their lineage written out ────────────────────

#[derive(Debug, Clone, Copy, PartialEq, Eq)]
struct Placement {
    chain: usize,
    pos: u32,
}

#[derive(Debug, Clone, Default)]
struct Chain {
    present: BTreeMap<u32, (u64, u64)>,
    lineage: Vec<u64>,
}

#[derive(Debug, Clone, Default)]
struct ModelHolder {
    chains: Vec<Chain>,
    registry: HashMap<u64, Placement>,
}

#[derive(Debug, Clone, Copy, PartialEq, Eq)]
enum StoreResult {
    Applied { applied: u32, duplicates: u32 },
    ParentNotFound,
}

struct Model {
    holders: Vec<ModelHolder>,
}

impl Model {
    fn new(holder_count: usize) -> Model {
        Model { holders: vec![ModelHolder::default(); holder_count] }
    }

    fn apply(&mut self, op: &Op) -> Option<StoreResult> {
        match op {
            Op::Store { holder, parent, blocks } => Some(self.store(*holder, *parent, blocks)),
            Op::Remove { holder, keys } => {
                let h = &mut self.holders[*holder];
                for key in keys {
                    if let Some(p) = h.registry.remove(key) {
                        h.chains[p.chain].present.remove(&p.pos);
                    }
                }
                None
            }
            Op::Clear { holder } => {
                self.holders[*holder] = ModelHolder::default();
                None
            }
        }
    }

    fn store(&mut self, holder: usize, parent: Option<u64>, blocks: &[(u64, u64)]) -> StoreResult {
        if blocks.is_empty() {
            return StoreResult::Applied { applied: 0, duplicates: 0 };
        }
        let h = &mut self.holders[holder];
        let (chain_idx, start_pos) = match parent {
            None => match h.registry.get(&blocks[0].0) {
                Some(p) if p.pos == 0 => (p.chain, 0),
                _ => {
                    h.chains.push(Chain::default());
                    (h.chains.len() - 1, 0)
                }
            },
            Some(parent_key) => match h.registry.get(&parent_key) {
                None => return StoreResult::ParentNotFound,
                Some(p) => (p.chain, p.pos + 1),
            },
        };
        let mut applied = 0u32;
        let mut duplicates = 0u32;
        for (i, &(key, content)) in blocks.iter().enumerate() {
            let pos = start_pos + i as u32;
            let placement = Placement { chain: chain_idx, pos };
            match h.registry.get(&key) {
                Some(existing) if *existing == placement => {
                    duplicates += 1;
                    continue;
                }
                Some(&existing) => {
                    h.chains[existing.chain].present.remove(&existing.pos);
                }
                None => {}
            }
            let chain = &mut h.chains[chain_idx];
            if chain.lineage.len() <= pos as usize {
                chain.lineage.resize(pos as usize + 1, 0);
            }
            chain.lineage[pos as usize] = content;
            chain.present.insert(pos, (key, content));
            h.registry.insert(key, placement);
            applied += 1;
        }
        StoreResult::Applied { applied, duplicates }
    }

    fn depth(&self, holder: usize, query: &[u64]) -> u32 {
        let mut best = 0u32;
        for chain in &self.holders[holder].chains {
            let mut d = 0u32;
            for (p, &q) in query.iter().enumerate() {
                let lineage_true = chain.lineage.get(p) == Some(&q);
                let present_true = chain.present.get(&(p as u32)).map(|&(_, c)| c) == Some(q);
                if lineage_true && present_true {
                    d = p as u32 + 1;
                } else {
                    break;
                }
            }
            best = best.max(d);
        }
        best
    }

    fn overlap(&self, query: &[u64]) -> BTreeMap<usize, u32> {
        let mut out = BTreeMap::new();
        for holder in 0..self.holders.len() {
            let d = self.depth(holder, query);
            if d > 0 {
                out.insert(holder, d);
            }
        }
        out
    }

    fn holder_blocks(&self, holder: usize) -> u64 {
        self.holders[holder].registry.len() as u64
    }
}

// ── Workloads ───────────────────────────────────────────────────────────────

struct WlConfig {
    holders: usize,
    families: usize,
    family_len: (usize, usize),
    holders_per_family: (usize, usize),
    tail_len: (usize, usize),
    store_batch: usize,
    duplicate_pct: u64,
    gap_pct: u64,
    clear_pct: u64,
    coincidence_pct: u64,
}

fn small() -> WlConfig {
    WlConfig {
        holders: 24,
        families: 8,
        family_len: (8, 96),
        holders_per_family: (1, 8),
        tail_len: (2, 16),
        store_batch: 8,
        duplicate_pct: 10,
        gap_pct: 15,
        clear_pct: 8,
        coincidence_pct: 0,
    }
}

struct Workload {
    ops: Vec<Op>,
    queries: Vec<Vec<u64>>,
    holders: usize,
}

fn fresh_content(rng: &mut Rng, pool: &mut Vec<u64>, coincidence_pct: u64) -> u64 {
    if !pool.is_empty() && rng.chance(coincidence_pct) {
        pool[rng.below(pool.len())]
    } else {
        let c = rng.next() | 1;
        pool.push(c);
        c
    }
}

fn generate(seed: u64, cfg: &WlConfig) -> Workload {
    let mut rng = Rng::new(seed);
    let mut pool: Vec<u64> = Vec::new();
    let mut families: Vec<Vec<(u64, u64)>> = Vec::new();
    for _ in 0..cfg.families {
        let len = cfg.family_len.0 + rng.below(cfg.family_len.1 - cfg.family_len.0 + 1);
        let mut chain = Vec::with_capacity(len);
        let mut prev_key = 0u64;
        for i in 0..len {
            let coincidence = if i == 0 { 0 } else { cfg.coincidence_pct };
            let content = fresh_content(&mut rng, &mut pool, coincidence);
            let key = if i == 0 {
                content
            } else {
                (prev_key ^ content.rotate_left(17)).wrapping_mul(0x2545_F491_4F6C_DD1D) | 1
            };
            chain.push((key, content));
            prev_key = key;
        }
        families.push(chain);
    }

    let mut per_holder: Vec<Vec<Op>> = vec![Vec::new(); cfg.holders];
    for (fi, family) in families.iter().enumerate() {
        let count = cfg.holders_per_family.0
            + rng.below(cfg.holders_per_family.1 - cfg.holders_per_family.0 + 1);
        for _ in 0..count {
            let holder = rng.below(cfg.holders);
            let mut parent = None;
            let mut batches = Vec::new();
            for batch in family.chunks(cfg.store_batch) {
                batches.push(Op::Store { holder, parent, blocks: batch.to_vec() });
                parent = Some(batch.last().expect("non-empty").0);
            }
            let tail_len = cfg.tail_len.0 + rng.below(cfg.tail_len.1 - cfg.tail_len.0 + 1);
            let mut tail = Vec::with_capacity(tail_len);
            let mut prev_key = parent.expect("family non-empty");
            for _ in 0..tail_len {
                let content = fresh_content(&mut rng, &mut pool, 0);
                let key = (prev_key ^ content.rotate_left(29))
                    .wrapping_mul(0x9E37_79B9_7F4A_7C15)
                    .wrapping_add(holder as u64 ^ (fi as u64) << 32)
                    | 1;
                tail.push((key, content));
                prev_key = key;
            }
            for batch in tail.chunks(cfg.store_batch) {
                batches.push(Op::Store { holder, parent, blocks: batch.to_vec() });
                parent = Some(batch.last().expect("non-empty").0);
            }
            let mut dups = Vec::new();
            for b in &batches {
                if rng.chance(cfg.duplicate_pct) {
                    dups.push(b.clone());
                }
            }
            let mut gaps = Vec::new();
            if rng.chance(cfg.gap_pct) && family.len() > 2 {
                let victim = family[1 + rng.below(family.len() - 2)].0;
                gaps.push(Op::Remove { holder, keys: vec![victim] });
            }
            let script = &mut per_holder[holder];
            script.extend(batches);
            script.extend(dups);
            script.extend(gaps);
        }
    }
    for (holder, script) in per_holder.iter_mut().enumerate() {
        if rng.chance(cfg.clear_pct) && !script.is_empty() {
            let at = rng.below(script.len());
            script.insert(at, Op::Clear { holder });
        }
    }

    let mut cursors = vec![0usize; cfg.holders];
    let mut ops = Vec::new();
    loop {
        let live: Vec<usize> =
            (0..cfg.holders).filter(|&h| cursors[h] < per_holder[h].len()).collect();
        if live.is_empty() {
            break;
        }
        let h = live[rng.below(live.len())];
        ops.push(per_holder[h][cursors[h]].clone());
        cursors[h] += 1;
    }

    let mut queries: Vec<Vec<u64>> = Vec::new();
    for family in &families {
        for _ in 0..4 {
            let d = 1 + rng.below(family.len());
            queries.push(family[..d].iter().map(|&(_, c)| c).collect());
        }
    }
    for _ in 0..families.len() {
        let miss: Vec<u64> = (0..1 + rng.below(24)).map(|_| rng.next() | 1).collect();
        queries.push(miss);
    }
    Workload { ops, queries, holders: cfg.holders }
}

fn reinterleave(seed: u64, ops: &[Op], holders: usize) -> Vec<Op> {
    let mut per_holder: Vec<Vec<Op>> = vec![Vec::new(); holders];
    for op in ops {
        per_holder[op.holder()].push(op.clone());
    }
    let mut rng = Rng::new(seed);
    let mut cursors = vec![0usize; holders];
    let mut out = Vec::with_capacity(ops.len());
    loop {
        let live: Vec<usize> =
            (0..holders).filter(|&h| cursors[h] < per_holder[h].len()).collect();
        if live.is_empty() {
            break;
        }
        let h = live[rng.below(live.len())];
        out.push(per_holder[h][cursors[h]].clone());
        cursors[h] += 1;
    }
    out
}

// ── The trees under the same operations ─────────────────────────────────────

struct Flat {
    tree: RadixTree,
    ids: Vec<HolderId>,
    scratch: Vec<Overlap>,
}

impl Flat {
    fn new(holders: usize) -> Flat {
        let mut tree = RadixTree::new(Config::default());
        let ids = (0..holders).map(|h| tree.create_holder(&format!("holder-{h}"))).collect();
        Flat { tree, ids, scratch: Vec::new() }
    }

    fn apply(&mut self, op: &Op) -> bool {
        match op {
            Op::Store { holder, parent, blocks } => {
                match self.tree.store(self.ids[*holder], *parent, blocks) {
                    Ok(_) => true,
                    Err(StoreError::ParentNotFound) => false,
                    Err(e) => panic!("unexpected store error {e:?}"),
                }
            }
            Op::Remove { holder, keys } => {
                self.tree.remove(self.ids[*holder], keys);
                true
            }
            Op::Clear { holder } => {
                self.tree.clear(self.ids[*holder]);
                true
            }
        }
    }

    fn overlap(&mut self, query: &[u64]) -> BTreeMap<usize, u32> {
        self.tree.overlap(query, &mut self.scratch);
        self.scratch.iter().map(|o| (o.holder.parts().0 as usize, o.depth)).collect()
    }
}

struct Linked {
    tree: RadixTree3,
    ids: Vec<HolderId>,
    out: Vec<Overlap>,
    scratch: OverlapScratch,
}

impl Linked {
    fn new(holders: usize) -> Linked {
        let mut tree = RadixTree3::new(Config::default());
        let ids = (0..holders).map(|h| tree.create_holder(&format!("holder-{h}"))).collect();
        Linked { tree, ids, out: Vec::new(), scratch: OverlapScratch::default() }
    }

    fn apply(&mut self, op: &Op) -> bool {
        match op {
            Op::Store { holder, parent, blocks } => {
                match self.tree.store(self.ids[*holder], *parent, blocks) {
                    Ok(_) => true,
                    Err(StoreError::ParentNotFound) => false,
                    Err(e) => panic!("unexpected store error {e:?}"),
                }
            }
            Op::Remove { holder, keys } => {
                self.tree.remove(self.ids[*holder], keys);
                true
            }
            Op::Clear { holder } => {
                self.tree.clear(self.ids[*holder]);
                true
            }
        }
    }

    fn overlap(&mut self, query: &[u64]) -> BTreeMap<usize, u32> {
        self.tree.overlap(query, &mut self.scratch, &mut self.out);
        self.out.iter().map(|o| (o.holder.parts().0 as usize, o.depth)).collect()
    }
}

#[test]
fn model_converges_within_scope() {
    for seed in 1..=6u64 {
        let wl = generate(seed, &small());
        let mut reference = Model::new(wl.holders);
        for op in &wl.ops {
            reference.apply(op);
        }
        for reorder_seed in [7u64, 8, 9] {
            let ops = reinterleave(reorder_seed, &wl.ops, wl.holders);
            let mut other = Model::new(wl.holders);
            let mut subject = Flat::new(wl.holders);
            for op in &ops {
                other.apply(op);
                subject.apply(op);
            }
            for query in &wl.queries {
                let want = reference.overlap(query);
                assert_eq!(
                    want,
                    other.overlap(query),
                    "model diverged under scoped reordering (seed {seed}/{reorder_seed})"
                );
                assert_eq!(
                    subject.overlap(query),
                    want,
                    "RadixTree diverged under scoped reordering (seed {seed}/{reorder_seed})"
                );
            }
            for h in 0..wl.holders {
                assert_eq!(reference.holder_blocks(h), other.holder_blocks(h));
                assert_eq!(
                    subject.tree.holder_blocks(subject.ids[h]),
                    reference.holder_blocks(h)
                );
            }
        }
    }
}

#[test]
fn rejected_store_applies_nothing() {
    let mut model = Model::new(1);
    let mut subject = Flat::new(1);
    let mut linked = Linked::new(1);
    let seeded =
        Op::Store { holder: 0, parent: None, blocks: vec![(11, 101), (12, 102)] };
    model.apply(&seeded);
    subject.apply(&seeded);
    linked.apply(&seeded);
    let before_model = model.overlap(&[101, 102]);
    let before_subject = subject.overlap(&[101, 102]);
    let before_linked = linked.overlap(&[101, 102]);
    let bad = Op::Store { holder: 0, parent: Some(999), blocks: vec![(13, 103)] };
    assert_eq!(model.apply(&bad), Some(StoreResult::ParentNotFound));
    assert!(!subject.apply(&bad));
    assert!(!linked.apply(&bad));
    assert_eq!(model.overlap(&[101, 102]), before_model);
    assert_eq!(subject.overlap(&[101, 102]), before_subject);
    assert_eq!(linked.overlap(&[101, 102]), before_linked);
    assert_eq!(model.holder_blocks(0), 2);
    assert_eq!(subject.tree.holder_blocks(subject.ids[0]), 2);
    assert_eq!(linked.tree.holder_blocks(linked.ids[0]), 2);
}

/// Both layouts are the model, at every checkpoint of a workload.
fn run_differential(seed: u64, cfg: &WlConfig) {
    let wl = generate(seed, cfg);
    let mut model = Model::new(wl.holders);
    let mut flat = Flat::new(wl.holders);
    let mut linked = Linked::new(wl.holders);
    let checkpoint_every = (wl.ops.len() / 8).max(1);
    for (i, op) in wl.ops.iter().enumerate() {
        let model_outcome = model.apply(op);
        let flat_ok = flat.apply(op);
        let linked_ok = linked.apply(op);
        if let Op::Store { .. } = op {
            let model_ok = !matches!(model_outcome, Some(StoreResult::ParentNotFound));
            assert_eq!(model_ok, flat_ok, "acceptance diverged at op {i} (seed {seed}): {op:?}");
            assert_eq!(model_ok, linked_ok, "acceptance diverged at op {i} (seed {seed}): {op:?}");
        }
        if i % checkpoint_every == 0 || i + 1 == wl.ops.len() {
            for query in &wl.queries {
                let want = model.overlap(query);
                assert_eq!(flat.overlap(query), want, "flat != model (seed {seed}, op {i})");
                assert_eq!(linked.overlap(query), want, "linked != model (seed {seed}, op {i})");
                for o in flat.scratch.iter().chain(&linked.out) {
                    let h = o.holder.parts().0 as usize;
                    assert_eq!(
                        o.total_blocks,
                        model.holder_blocks(h),
                        "total_blocks diverged for holder {h} (seed {seed}, op {i})"
                    );
                }
            }
        }
    }
    for h in 0..wl.holders {
        assert_eq!(
            flat.tree.holder_blocks(flat.ids[h]),
            model.holder_blocks(h),
            "holder_blocks diverged for holder {h} (seed {seed})"
        );
        assert_eq!(flat.tree.enumerate(flat.ids[h]), linked.tree.enumerate(linked.ids[h]));
    }
}

#[test]
fn model_vs_oracle_content_unique() {
    for seed in 1..=8u64 {
        run_differential(seed, &small());
    }
}

#[test]
fn model_vs_oracle_with_coincidence() {
    for seed in 100..=107u64 {
        run_differential(seed, &WlConfig { coincidence_pct: 25, ..small() });
    }
}

fn random_config(rng: &mut Rng) -> WlConfig {
    let holders = 2 + rng.below(255);
    WlConfig {
        holders,
        families: 1 + rng.below(64),
        family_len: {
            let lo = 1 + rng.below(64);
            (lo, lo + 1 + rng.below(448))
        },
        holders_per_family: {
            let lo = 1 + rng.below(4);
            (lo, lo + rng.below(holders.min(24)))
        },
        tail_len: (1 + rng.below(8), 9 + rng.below(56)),
        store_batch: 1 + rng.below(16),
        duplicate_pct: rng.below(41) as u64,
        gap_pct: rng.below(41) as u64,
        clear_pct: rng.below(31) as u64,
        coincidence_pct: rng.below(51) as u64,
    }
}

/// A wide workload: the tree is the model at every checkpoint, and its audit
/// holds.
fn run_one_in_contract(seed: u64) {
    let mut rng = Rng::new(seed ^ 0xF00D);
    let cfg = random_config(&mut rng);
    let wl = generate(seed, &cfg);
    let audit_every_op = wl.ops.len() < 4000;
    let mut model = Model::new(wl.holders);
    let mut subject = Linked::new(wl.holders);
    let checkpoint_every = (wl.ops.len() / 6).max(1);
    for (i, op) in wl.ops.iter().enumerate() {
        let model_outcome = model.apply(op);
        let subject_ok = subject.apply(op);
        if let Op::Store { .. } = op {
            let model_ok = !matches!(model_outcome, Some(StoreResult::ParentNotFound));
            assert_eq!(model_ok, subject_ok, "acceptance diverged: seed {seed} op {i}");
        }
        let checkpoint = i % checkpoint_every == 0 || i + 1 == wl.ops.len();
        if audit_every_op || checkpoint {
            assert!(subject.tree.audit().is_ok(), "audit failed: seed {seed} op {i}");
        }
        if checkpoint {
            for query in &wl.queries {
                let want = model.overlap(query);
                assert_eq!(subject.overlap(query), want, "subject != model: seed {seed} op {i}");
            }
        }
    }
    for h in 0..wl.holders {
        assert_eq!(
            subject.tree.holder_blocks(subject.ids[h]),
            model.holder_blocks(h),
            "holder_blocks diverged: seed {seed} holder {h}"
        );
    }
}

#[derive(Clone, Debug)]
enum Chaos {
    Store { slot: usize, parent_pick: u64, blocks: Vec<(u64, u64)> },
    Remove { slot: usize, keys: Vec<u64> },
    Clear { slot: usize },
    Truncate { slot: usize, keep: u64 },
    Retire { slot: usize },
    Recreate { slot: usize },
    StaleProbe { slot: usize },
    Query { probe: Vec<u64> },
}

fn play(
    seed: u64,
    slots: usize,
    key_pool: &[u64],
    script: &[Chaos],
) -> (Vec<BTreeMap<usize, u32>>, u64, u64) {
    let mut tree = RadixTree3::new(Config { max_chain_len: 64 });
    let mut ids: Vec<Option<HolderId>> =
        (0..slots).map(|s| Some(tree.create_holder(&format!("chaos-{s}")))).collect();
    let mut stale: Vec<HolderId> = Vec::new();
    let mut answers = Vec::new();
    let mut out = Vec::new();
    let mut scratch = OverlapScratch::default();
    for (i, op) in script.iter().enumerate() {
        match op {
            Chaos::Store { slot, parent_pick, blocks } => {
                if let Some(id) = ids[*slot] {
                    let parent = match parent_pick % 3 {
                        0 => None,
                        1 => Some(key_pool[(*parent_pick as usize / 3) % key_pool.len()]),
                        _ => Some(parent_pick | 1),
                    };
                    let _ = tree.store(id, parent, blocks);
                }
            }
            Chaos::Remove { slot, keys } => {
                if let Some(id) = ids[*slot] {
                    tree.remove(id, keys);
                }
            }
            Chaos::Clear { slot } => {
                if let Some(id) = ids[*slot] {
                    tree.clear(id);
                }
            }
            Chaos::Truncate { slot, keep } => {
                if let Some(id) = ids[*slot] {
                    tree.truncate_tail(id, *keep);
                }
            }
            Chaos::Retire { slot } => {
                if let Some(id) = ids[*slot].take() {
                    tree.retire_holder(id);
                    stale.push(id);
                }
            }
            Chaos::Recreate { slot } => {
                if ids[*slot].is_none() {
                    ids[*slot] = Some(tree.create_holder(&format!("chaos-{slot}-re{i}")));
                }
            }
            Chaos::StaleProbe { slot } => {
                if let Some(&old) = stale.last() {
                    assert_eq!(
                        tree.store(old, None, &[(1, 1)]),
                        Err(StoreError::UnknownHolder),
                        "stale id accepted a store (seed {seed} op {i} slot {slot})"
                    );
                    assert_eq!(tree.remove(old, &[1]), 0);
                    assert_eq!(tree.holder_blocks(old), 0);
                    assert_eq!(tree.holder_name(old), None);
                }
            }
            Chaos::Query { probe } => {
                tree.overlap(probe, &mut scratch, &mut out);
                answers.push(
                    out.iter().map(|o: &Overlap| (o.holder.parts().0 as usize, o.depth)).collect(),
                );
            }
        }
        assert!(tree.audit().is_ok(), "chaos audit failed: seed {seed} op {i}");
    }
    let stats = tree.stats();
    (answers, stats.holder_blocks, stats.distinct_entries)
}

/// Operations at random: no panic, the audit holds after each, ids of retired
/// holders do nothing, and a replay ends alike.
fn run_one_chaos(seed: u64) {
    let mut rng = Rng::new(seed ^ 0xC4A05);
    let slots = 2 + rng.below(12);
    let ops_count = 400 + rng.below(1200);
    let key_pool: Vec<u64> = (0..64).map(|_| rng.next() | 1).collect();
    let content_pool: Vec<u64> = (0..48).map(|_| rng.next() | 1).collect();
    let mut script = Vec::with_capacity(ops_count);
    for _ in 0..ops_count {
        let slot = rng.below(slots);
        let roll = rng.below(100);
        script.push(match roll {
            0..=44 => {
                let len = 1 + rng.below(12);
                let blocks: Vec<(u64, u64)> = (0..len)
                    .map(|_| {
                        (
                            key_pool[rng.below(key_pool.len())],
                            content_pool[rng.below(content_pool.len())],
                        )
                    })
                    .collect();
                Chaos::Store { slot, parent_pick: rng.next(), blocks }
            }
            45..=59 => Chaos::Remove {
                slot,
                keys: (0..1 + rng.below(6))
                    .map(|_| key_pool[rng.below(key_pool.len())])
                    .collect(),
            },
            60..=66 => Chaos::Clear { slot },
            67..=74 => Chaos::Truncate { slot, keep: rng.below(40) as u64 },
            75..=81 => Chaos::Retire { slot },
            82..=88 => Chaos::Recreate { slot },
            89..=92 => Chaos::StaleProbe { slot },
            _ => Chaos::Query {
                probe: (0..1 + rng.below(16))
                    .map(|_| content_pool[rng.below(content_pool.len())])
                    .collect(),
            },
        });
    }
    let a = play(seed, slots, &key_pool, &script);
    let b = play(seed, slots, &key_pool, &script);
    assert_eq!(a, b, "chaos replay diverged (seed {seed})");
}

#[test]
fn fuzz_quick() {
    for seed in 1..=32u64 {
        run_one_in_contract(seed);
    }
    for seed in 1..=8u64 {
        run_one_chaos(seed);
    }
}

#[test]
fn wide_workloads_follow_the_model_in_the_flat_layout() {
    for seed in 1..=16u64 {
        let cfg = random_config(&mut Rng::new(seed ^ 0xF00D));
        let wl = generate(seed, &cfg);
        let mut model = Model::new(wl.holders);
        let mut flat = Flat::new(wl.holders);
        for op in &wl.ops {
            let expected = model.apply(op);
            let accepted = !matches!(expected, Some(StoreResult::ParentNotFound));
            assert_eq!(flat.apply(op), accepted);
        }
        for query in &wl.queries {
            assert_eq!(flat.overlap(query), model.overlap(query));
        }
        for h in 0..wl.holders {
            assert_eq!(flat.tree.holder_blocks(flat.ids[h]), model.holder_blocks(h));
        }
    }
}

// ── Single rules ────────────────────────────────────────────────────────────

#[test]
fn stores_count_new_blocks_and_duplicates() {
    let mut tree = RadixTree::new(Config::default());
    let h = tree.create_holder("h");
    let first = tree.store(h, None, &[(1, 10), (2, 20)]).unwrap();
    assert_eq!((first.applied, first.duplicates), (2, 0));
    let again = tree.store(h, None, &[(1, 10), (2, 20), (3, 30)]).unwrap();
    assert_eq!((again.applied, again.duplicates), (1, 2));
    assert_eq!(tree.enumerate(h), vec![(0, 1, 10), (1, 2, 20), (2, 3, 30)]);
}

#[test]
fn long_chains_are_rejected_whole() {
    let mut flat = RadixTree::new(Config { max_chain_len: 2 });
    let mut linked = RadixTree3::new(Config { max_chain_len: 2 });
    let a = flat.create_holder("h");
    let b = linked.create_holder("h");
    let blocks = [(1, 10), (2, 20), (3, 30)];
    assert_eq!(flat.store(a, None, &blocks), Err(StoreError::ChainTooLong));
    assert_eq!(linked.store(b, None, &blocks), Err(StoreError::ChainTooLong));
    assert_eq!(flat.holder_blocks(a), 0);
    assert_eq!(linked.holder_blocks(b), 0);
    assert!(flat.store(a, None, &blocks[..2]).is_ok());
    assert_eq!(flat.store(a, Some(2), &blocks[2..]), Err(StoreError::ChainTooLong));
}

#[test]
fn retired_ids_stay_stale() {
    let mut tree = RadixTree::new(Config::default());
    let old = tree.create_holder("a");
    tree.store(old, None, &[(1, 10)]).unwrap();
    tree.retire_holder(old);
    let new = tree.create_holder("b");
    assert_eq!(new.parts().0, old.parts().0);
    assert_ne!(new, old);
    assert_eq!(tree.store(old, None, &[(1, 10)]), Err(StoreError::UnknownHolder));
    assert_eq!(tree.holder_name(old), None);
    assert_eq!(tree.holder_name(new), Some("b"));
    assert_eq!(tree.holder_blocks(new), 0);
}

#[test]
fn gaps_end_a_match() {
    for keep in [0usize, 1, 2] {
        let mut tree = RadixTree3::new(Config::default());
        let h = tree.create_holder("h");
        tree.store(h, None, &[(1, 10), (2, 20), (3, 30)]).unwrap();
        assert_eq!(tree.remove(h, &[[1, 2, 3][keep]]), 1);
        let mut out = Vec::new();
        tree.overlap(&[10, 20, 30], &mut OverlapScratch::default(), &mut out);
        let depths: Vec<u32> = out.iter().map(|o| o.depth).collect();
        assert_eq!(depths, if keep == 0 { vec![] } else { vec![keep as u32] });
    }
}

#[test]
fn equal_contents_under_another_prefix_do_not_match() {
    let mut flat = RadixTree::new(Config::default());
    let h = flat.create_holder("h");
    flat.store(h, None, &[(1, 10), (2, 20)]).unwrap();
    flat.store(h, None, &[(3, 11), (4, 21)]).unwrap();
    let mut out = Vec::new();
    flat.overlap(&[10, 21], &mut out);
    assert_eq!(out[0].depth, 1);
    assert_eq!(out[0].total_blocks, 4);
}

#[test]
fn truncation_drops_the_deepest_blocks() {
    let mut flat = RadixTree::new(Config::default());
    let mut linked = RadixTree3::new(Config::default());
    let a = flat.create_holder("h");
    let b = linked.create_holder("h");
    for tree in 0..2 {
        let blocks = [(1u64, 10u64), (2, 20), (3, 30), (4, 40)];
        if tree == 0 {
            flat.store(a, None, &blocks).unwrap();
            assert_eq!(flat.truncate_tail(a, 2), 2);
            assert_eq!(flat.enumerate(a), vec![(0, 1, 10), (1, 2, 20)]);
        } else {
            linked.store(b, None, &blocks).unwrap();
            assert_eq!(linked.truncate_tail(b, 2), 2);
            assert_eq!(linked.enumerate(b), vec![(0, 1, 10), (1, 2, 20)]);
        }
    }
    assert_eq!(flat.truncate_tail(a, 2), 0);
}

#[test]
fn listings_rebuild_a_holder() {
    let mut tree = RadixTree::new(Config::default());
    let a = tree.create_holder("a");
    tree.store(a, None, &[(1, 10), (2, 20), (3, 30)]).unwrap();
    let rows: Vec<(u64, u64)> = tree.enumerate(a).into_iter().map(|(_, k, c)| (k, c)).collect();
    let b = tree.create_holder("b");
    tree.store(b, None, &rows).unwrap();
    assert_eq!(tree.enumerate(b), tree.enumerate(a));
    assert_eq!(tree.stats().distinct_entries, 3);
    assert_eq!(tree.stats().holder_blocks, 6);
}

#[test]
fn batches_may_come_in_pieces() {
    let blocks = [(1u64, 10u64), (2, 20), (3, 30)];
    let mut whole = RadixTree3::new(Config::default());
    let mut pieces = RadixTree3::new(Config::default());
    let a = whole.create_holder("h");
    let b = pieces.create_holder("h");
    whole.store(a, None, &blocks).unwrap();
    pieces.store(b, None, &blocks[..1]).unwrap();
    pieces.store(b, Some(1), &blocks[1..]).unwrap();
    assert_eq!(whole.enumerate(a), pieces.enumerate(b));
}

#[test]
fn moved_blocks_leave_their_old_place() {
    let mut tree = RadixTree3::new(Config::default());
    let h = tree.create_holder("h");
    tree.store(h, None, &[(1, 10), (2, 20)]).unwrap();
    tree.store(h, None, &[(5, 50)]).unwrap();
    let moved = tree.store(h, Some(5), &[(2, 20)]).unwrap();
    assert_eq!((moved.applied, moved.duplicates), (1, 0));
    assert_eq!(tree.holder_blocks(h), 3);
    let mut out = Vec::new();
    let mut scratch = OverlapScratch::default();
    tree.overlap(&[10, 20], &mut scratch, &mut out);
    assert_eq!(out[0].depth, 1);
    tree.overlap(&[50, 20], &mut scratch, &mut out);
    assert_eq!(out[0].depth, 2);
}

#[test]
fn what_nobody_holds_takes_no_space() {
    let mut tree = RadixTree3::new(Config::default());
    let a = tree.create_holder("a");
    let b = tree.create_holder("b");
    tree.store(a, None, &[(1, 10), (2, 20), (3, 30)]).unwrap();
    tree.store(b, None, &[(1, 10), (2, 25)]).unwrap();
    assert!(tree.stats().bytes_estimate > 2 * 128 + 24 * 5);
    tree.clear(a);
    tree.remove(b, &[1, 2]);
    assert_eq!(tree.stats().bytes_estimate, 2 * 128);
    assert_eq!(tree.stats().distinct_entries, 0);
    tree.retire_holder(a);
    tree.retire_holder(b);
    assert_eq!(tree.stats().bytes_estimate, 0);
    assert_eq!(tree.audit(), Ok(()));
}

#[test]
fn faults_tell_where_they_are() {
    let told = |fault: AuditFault| fault.message();
    assert_eq!(told(AuditFault::Name { name: "w-0".to_string() }), "by_name incoherent for w-0");
    assert_eq!(told(AuditFault::NameCount), "by_name size mismatch");
    assert_eq!(told(AuditFault::FreeList { entry: 4 }), "free-list bad entry 4");
    assert_eq!(told(AuditFault::FreedChain { chain: 1 }), "freed chain 1 not empty");
    assert_eq!(told(AuditFault::EmptyChain { chain: 2 }), "live chain 2 is empty");
    assert_eq!(told(AuditFault::EmptySpan { chain: 3 }), "chain 3 empty span");
    assert_eq!(told(AuditFault::OverlappingSpans { chain: 3 }), "chain 3 overlapping spans");
    assert_eq!(told(AuditFault::SpanBounds { chain: 3 }), "chain 3 span out of bounds");
    assert_eq!(told(AuditFault::AdjacentSpans { chain: 3 }), "chain 3 non-maximal adjacent spans");
    assert_eq!(told(AuditFault::UnsortedHolders { chain: 3 }), "chain 3 unsorted span holders");
    assert_eq!(
        told(AuditFault::RetiredHolder { chain: 3, holder: 12 }),
        "chain 3 span holds retired holder 12"
    );
    assert_eq!(told(AuditFault::UnsortedChildren { chain: 3 }), "chain 3 unsorted children");
    assert_eq!(told(AuditFault::ForkBounds { chain: 3 }), "chain 3 child fork out of bounds");
    assert_eq!(told(AuditFault::BrokenChild { chain: 3, child: 5 }), "chain 3 child 5 link broken");
    assert_eq!(told(AuditFault::Unindexed { chain: 3 }), "root chain 3 unindexed");
    assert_eq!(told(AuditFault::NotAChild { chain: 3 }), "chain 3 not in parent's children");
    assert_eq!(told(AuditFault::StaleLineage { chain: 3 }), "chain 3 end_lineage stale");
    assert_eq!(told(AuditFault::Root { lineage: 0 }), "roots entry 0x0 bad");
    assert_eq!(
        told(AuditFault::DeadChain { slot: 1, key: 0xbeef, chain: 7 }),
        "holder 1 key 0xbeef points at dead chain 7"
    );
    assert_eq!(
        told(AuditFault::KeyBounds { slot: 1, key: u64::MAX }),
        "holder 1 key 0xffffffffffffffff position out of bounds"
    );
    assert_eq!(
        told(AuditFault::Uncovered { slot: 1, key: 16 }),
        "holder 1 key 0x10 not covered by spans"
    );
    assert_eq!(
        told(AuditFault::BlockCount { total: 10, recount: 9 }),
        "holder_blocks_total 10 != recount 9"
    );
    assert_eq!(
        told(AuditFault::NoKey { chain: 1, pos: 2, holder: 3 }),
        "span coverage (chain 1, pos 2, holder 3) has no key map entry"
    );
    assert_eq!(
        told(AuditFault::DistinctCount { total: 1 << 70, recount: 0 }),
        "distinct_entries 1180591620717411303424 != recount 0"
    );
}
