//! Load on an index service: many gateways publish the same hot chains, and
//! queries ask for them.

use crate::bridge::keyspace;
use crate::bridge::keyspace_of;
use crate::mock::hash::scrambled;
use crate::mock::hash::splitmix64;
use crate::proto::Block;
use crate::proto::Event;
use crate::proto::EventKind;
use crate::proto::EventView;
use crate::proto::Keyspace;
use crate::proto::SymbolKind;
use crate::proto::Update;
use crate::proto::UpdateView;
use crate::sorted::sort_numbers;
use crate::text;
use crate::text::decimal;
use crate::text::natural_up_to;
use crate::wire_hash::ContentHash;
use crate::wire_hash;
use vstd::prelude::*;

verus! {

pub const MODEL: &'static str = "loadbench";

pub const BLOCK_SIZE: u32 = 128;

/// How many blocks a fresh turn adds to a hot chain.
pub const TAIL_LEN: u64 = 32;

// ── Arguments ───────────────────────────────────────────────────────────────

/// Where a flag first stands: at the number of arguments if it does not.
pub open spec fn flag_at(args: Seq<String>, flag: Seq<char>) -> int
    decreases args.len(),
{
    if args.len() == 0 {
        0
    } else if args[0]@ == flag {
        0
    } else {
        1 + flag_at(args.skip(1), flag)
    }
}

/// The number behind a flag, if there is one.
pub open spec fn flag_value(args: Seq<String>, flag: Seq<char>, max: nat) -> Option<nat> {
    let i = flag_at(args, flag);
    if i + 1 < args.len() {
        natural_up_to(args[i + 1]@, max)
    } else {
        None
    }
}

proof fn flag_at_is(args: Seq<String>, flag: Seq<char>, n: int)
    requires
        0 <= n <= args.len(),
        forall|j: int| 0 <= j < n ==> (#[trigger] args[j])@ != flag,
        n < args.len() ==> args[n]@ == flag,
    ensures
        flag_at(args, flag) == n,
    decreases args.len(),
{
    if args.len() > 0 && n > 0 {
        let rest = args.skip(1);
        assert(args[0]@ != flag);
        assert forall|j: int| 0 <= j < n - 1 implies (#[trigger] rest[j])@ != flag by {
            assert(args[j + 1]@ != flag);
        }
        flag_at_is(rest, flag, n - 1);
    }
}

/// The number behind a flag, if there is one.
pub fn parse_flag(args: &Vec<String>, flag: &str, max: u64) -> (r: Option<u64>)
    ensures
        match r {
            Some(n) => flag_value(args@, flag@, max as nat) == Some(n as nat),
            None => flag_value(args@, flag@, max as nat) is None,
        },
{
    let mut i: usize = 0;
    while i < args.len() && !text::same_text(args[i].as_str(), flag)
        invariant
            i <= args@.len(),
            forall|j: int| 0 <= j < i ==> (#[trigger] args@[j])@ != flag@,
        decreases args@.len() - i,
    {
        i = i + 1;
    }
    proof {
        flag_at_is(args@, flag@, i as int);
    }
    if i < args.len() && i + 1 < args.len() {
        text::parse_natural(args[i + 1].as_str(), max)
    } else {
        None
    }
}

/// How a run is set up.
#[derive(Debug, Clone, Copy, PartialEq, Eq, Structural)]
pub struct Options {
    pub publishers: usize,
    pub queriers: usize,
    pub workers: usize,
    pub chain_len: usize,
    pub hot_per_worker: usize,
    /// Of a hundred updates, how many repeat a hot chain.
    pub dup_pct: u64,
    pub secs: u64,
}

/// A number, or what counts if it is not given.
pub open spec fn or_default(n: Option<nat>, default: nat) -> nat {
    match n {
        Some(x) => x,
        None => default,
    }
}

fn size_flag(args: &Vec<String>, flag: &str, default: usize) -> (r: usize)
    ensures
        r == or_default(flag_value(args@, flag@, usize::MAX as nat), default as nat),
{
    match parse_flag(args, flag, usize::MAX as u64) {
        Some(n) => n as usize,
        None => default,
    }
}

fn number_flag(args: &Vec<String>, flag: &str, default: u64) -> (r: u64)
    ensures
        r == or_default(flag_value(args@, flag@, u64::MAX as nat), default as nat),
{
    match parse_flag(args, flag, u64::MAX) {
        Some(n) => n,
        None => default,
    }
}

impl Options {
    /// The setup that arguments ask for.
    pub fn from_args(args: &Vec<String>) -> (r: Options)
        ensures
            r.publishers == or_default(flag_value(args@, "--publishers"@, usize::MAX as nat), 16),
            r.queriers == or_default(flag_value(args@, "--queriers"@, usize::MAX as nat), 2),
            r.workers == or_default(flag_value(args@, "--workers"@, usize::MAX as nat), 64),
            r.chain_len == or_default(flag_value(args@, "--chain-len"@, usize::MAX as nat), 256),
            r.hot_per_worker == or_default(
                flag_value(args@, "--hot-per-worker"@, usize::MAX as nat),
                8,
            ),
            r.dup_pct == or_default(flag_value(args@, "--dup-pct"@, u64::MAX as nat), 90),
            r.secs == or_default(flag_value(args@, "--secs"@, u64::MAX as nat), 15),
    {
        Options {
            publishers: size_flag(args, "--publishers", 16),
            queriers: size_flag(args, "--queriers", 2),
            workers: size_flag(args, "--workers", 64),
            chain_len: size_flag(args, "--chain-len", 256),
            hot_per_worker: size_flag(args, "--hot-per-worker", 8),
            dup_pct: number_flag(args, "--dup-pct", 90),
            secs: number_flag(args, "--secs", 15),
        }
    }
}

// ── Chains ──────────────────────────────────────────────────────────────────

/// A block of a chain with a seed: never 0.
pub open spec fn content_at(seed: u64, pos: u64) -> ContentHash {
    ContentHash(scrambled(seed ^ pos) | 1)
}

/// The first blocks of a chain with a seed.
pub open spec fn contents_of(seed: u64, len: nat) -> Seq<ContentHash> {
    Seq::new(len, |i: int| content_at(seed, i as u64))
}

/// The seed of a worker's hot chain.
pub open spec fn hot_seed(worker: usize, slot: usize) -> u64 {
    (((worker as u64) << 20) | (slot as u64)).wrapping_mul(0x1000)
}

fn contents(seed: u64, len: u64) -> (r: Vec<ContentHash>)
    ensures
        r@ == contents_of(seed, len as nat),
{
    let mut out: Vec<ContentHash> = Vec::new();
    let mut pos: u64 = 0;
    while pos < len
        invariant
            pos <= len,
            out@ == contents_of(seed, pos as nat),
        decreases len - pos,
    {
        out.push(ContentHash(splitmix64(seed ^ pos) | 1));
        pos = pos + 1;
        assert(out@ =~= contents_of(seed, pos as nat));
    }
    out
}

/// The hot chain of a worker: the same for every gateway.
pub fn hot_contents(worker: usize, slot: usize, len: usize) -> (r: Vec<ContentHash>)
    ensures
        r@ == contents_of(hot_seed(worker, slot), len as nat),
{
    let seed: u64 = ((worker as u64) << 20) | (slot as u64);
    contents(seed.wrapping_mul(0x1000), len as u64)
}

/// A chain's blocks as they go over the wire.
pub open spec fn wire_blocks(contents: Seq<ContentHash>) -> Seq<Block> {
    Seq::new(
        contents.len(),
        |i: int|
            Block { seq_hash: wire_hash::sequence_at(contents, i), content_hash: contents[i].0 },
    )
}

/// The update that places a chain.
pub open spec fn placement(holder: Seq<char>, contents: Seq<ContentHash>) -> UpdateView {
    UpdateView {
        keyspace: Some(keyspace_of(MODEL@, BLOCK_SIZE, SymbolKind::Tokens)),
        holder,
        epoch: 1,
        seq: 0,
        events: seq![EventView::Stored(None, wire_blocks(contents))],
        added: None,
        dropped: false,
    }
}

/// The update that places a chain.
pub fn placement_update(holder: &str, contents: &Vec<ContentHash>) -> (r: Update)
    ensures
        r@ == placement(holder@, contents@),
{
    let chain = wire_hash::placement_chain(contents.as_slice());
    let mut blocks: Vec<Block> = Vec::new();
    let mut i: usize = 0;
    while i < chain.len()
        invariant
            i <= chain@.len(),
            chain@.len() == contents@.len(),
            blocks@ == wire_blocks(contents@).take(i as int),
            forall|j: int|
                0 <= j < chain@.len() ==> (#[trigger] chain@[j]).0.0 == wire_hash::sequence_at(
                    contents@,
                    j,
                ) && chain@[j].1 == contents@[j],
        decreases chain@.len() - i,
    {
        let (seq_hash, content_hash) = chain[i];
        assert(chain@[i as int] == (seq_hash, content_hash));
        blocks.push(Block { seq_hash: seq_hash.0, content_hash: content_hash.0 });
        i = i + 1;
        assert(blocks@ =~= wire_blocks(contents@).take(i as int));
    }
    assert(wire_blocks(contents@).take(i as int) =~= wire_blocks(contents@));
    let mut events: Vec<Event> = Vec::new();
    events.push(Event { kind: Some(EventKind::Stored { parent_seq_hash: None, blocks }) });
    let r = Update {
        keyspace: Some(keyspace(MODEL, BLOCK_SIZE)),
        holder: holder.to_owned(),
        epoch: 1,
        seq: 0,
        events,
        added: None,
        dropped: false,
    };
    assert(r@.events =~= placement(holder@, contents@).events);
    r
}

/// A worker's address.
pub open spec fn url_of(w: int) -> Seq<char> {
    "grpc://10.0.0."@ + decimal((w % 250) as nat) + ":"@ + decimal((9000 + w / 250) as nat)
}

/// A worker's address.
pub fn worker_url(w: usize) -> (r: String)
    ensures
        r@ == url_of(w as int),
{
    let w: u64 = w as u64;
    let mut s = text::numbered("grpc://10.0.0.", w % 250);
    s.append(":");
    text::push_decimal(&mut s, 9000 + w / 250);
    s
}

// ── Publishers and queriers ─────────────────────────────────────────────────

/// A worker and one of its hot chains, picked by a random number.
pub open spec fn hot_pick(rng: u64, workers: nat, hot_per_worker: nat) -> (int, int) {
    (rng as int % workers as int, (rng >> 32) as int % hot_per_worker as int)
}

fn pick(rng: u64, workers: usize, hot_per_worker: usize) -> (r: (usize, usize))
    requires
        workers > 0,
        hot_per_worker > 0,
    ensures
        r.0 as int == hot_pick(rng, workers as nat, hot_per_worker as nat).0,
        r.1 as int == hot_pick(rng, workers as nat, hot_per_worker as nat).1,
{
    ((rng % (workers as u64)) as usize, ((rng >> 32) % (hot_per_worker as u64)) as usize)
}

/// A gateway that publishes.
pub struct Publisher {
    pub seed: u64,
    pub rng: u64,
    /// How many fresh turns it published.
    pub nonce: u64,
}

/// What a publisher publishes next: a hot chain again, or one that goes on.
pub open spec fn published(p: Publisher, options: Options) -> (Seq<char>, Seq<ContentHash>) {
    let rng = scrambled(p.rng);
    let (w, slot) = hot_pick(rng, options.workers as nat, options.hot_per_worker as nat);
    let hot = contents_of(hot_seed(w as usize, slot as usize), options.chain_len as nat);
    (
        url_of(w),
        if rng % 100 < options.dup_pct {
            hot
        } else {
            hot + contents_of(p.seed.wrapping_mul(0x51D) ^ ((p.nonce + 1) as u64), TAIL_LEN as nat)
        },
    )
}

impl Publisher {
    /// A gateway before its first update.
    pub fn new(seed: u64) -> (r: Publisher)
        ensures
            r == (Publisher { seed, rng: seed ^ 0xF00D, nonce: 0 }),
    {
        Publisher { seed, rng: seed ^ 0xF00D, nonce: 0 }
    }

    /// The next update, and how many blocks it places.
    pub fn next(&mut self, options: &Options) -> (r: (Update, u64))
        requires
            options.workers > 0,
            options.hot_per_worker > 0,
            options.chain_len + TAIL_LEN <= usize::MAX,
            old(self).nonce < u64::MAX,
        ensures
            r.0@ == placement(
                published(*old(self), *options).0,
                published(*old(self), *options).1,
            ),
            r.1 == published(*old(self), *options).1.len(),
            final(self).seed == old(self).seed,
            final(self).rng == scrambled(old(self).rng),
            final(self).nonce == old(self).nonce + if scrambled(old(self).rng) % 100
                < options.dup_pct {
                0int
            } else {
                1
            },
    {
        self.rng = splitmix64(self.rng);
        let (w, slot) = pick(self.rng, options.workers, options.hot_per_worker);
        let mut chain = hot_contents(w, slot, options.chain_len);
        if self.rng % 100 >= options.dup_pct {
            self.nonce = self.nonce + 1;
            let mut tail = contents(self.seed.wrapping_mul(0x51D) ^ self.nonce, TAIL_LEN);
            chain.append(&mut tail);
        }
        let blocks: u64 = chain.len() as u64;
        (placement_update(worker_url(w).as_str(), &chain), blocks)
    }
}

/// A query.
pub struct Query {
    pub query_id: u64,
    pub keyspace: Keyspace,
    pub content_hashes: Vec<u64>,
}

/// One who asks for hot chains, one at a time.
pub struct Querier {
    pub rng: u64,
    pub query_id: u64,
}

impl Querier {
    /// One before the first query.
    pub fn new(seed: u64) -> (r: Querier)
        ensures
            r == (Querier { rng: seed, query_id: 1 }),
    {
        Querier { rng: seed, query_id: 1 }
    }

    /// The next query.
    pub fn next(&mut self, options: &Options) -> (r: Query)
        requires
            options.workers > 0,
            options.hot_per_worker > 0,
        ensures
            r.query_id == old(self).query_id,
            r.keyspace@ == keyspace_of(MODEL@, BLOCK_SIZE, SymbolKind::Tokens),
            ({
                let (w, slot) = hot_pick(
                    scrambled(old(self).rng),
                    options.workers as nat,
                    options.hot_per_worker as nat,
                );
                r.content_hashes@ == contents_of(
                    hot_seed(w as usize, slot as usize),
                    options.chain_len as nat,
                ).map_values(|c: ContentHash| c.0)
            }),
            final(self).rng == scrambled(old(self).rng),
            final(self).query_id == old(self).query_id,
    {
        self.rng = splitmix64(self.rng);
        let (w, slot) = pick(self.rng, options.workers, options.hot_per_worker);
        let chain = hot_contents(w, slot, options.chain_len);
        let mut content_hashes: Vec<u64> = Vec::new();
        let mut i: usize = 0;
        while i < chain.len()
            invariant
                i <= chain@.len(),
                content_hashes@ == chain@.take(i as int).map_values(|c: ContentHash| c.0),
            decreases chain@.len() - i,
        {
            let ghost was = content_hashes@;
            content_hashes.push(chain[i].0);
            proof {
                let f = |c: ContentHash| c.0;
                assert(chain@.take(i + 1).map_values(f) =~= chain@.take(i as int).map_values(
                    f,
                ).push(chain@[i as int].0));
            }
            i = i + 1;
        }
        assert(chain@.take(i as int) =~= chain@);
        Query { query_id: self.query_id, keyspace: keyspace(MODEL, BLOCK_SIZE), content_hashes }
    }

    /// Takes the answer: whether it is the one to the query, and finds someone.
    pub fn take(&mut self, query_id: u64, scores: usize) -> (r: bool)
        requires
            old(self).query_id < u64::MAX,
        ensures
            r == (query_id == old(self).query_id && scores > 0),
            final(self).rng == old(self).rng,
            final(self).query_id == old(self).query_id + if r {
                1int
            } else {
                0
            },
    {
        if query_id == self.query_id && scores > 0 {
            self.query_id = self.query_id + 1;
            true
        } else {
            false
        }
    }
}

/// Publishers agree: a hot chain is the same whoever publishes it, and whoever
/// asks for it.
pub proof fn hot_chains_are_shared(a: Publisher, b: Publisher, options: Options)
    requires
        a.rng == b.rng,
        scrambled(a.rng) % 100 < options.dup_pct,
    ensures
        published(a, options) == published(b, options),
{
}

// ── Latencies ───────────────────────────────────────────────────────────────

/// Latencies: how many, and three of them by their ranks.
#[derive(Debug, Clone, Copy, PartialEq, Eq, Structural)]
pub struct Percentiles {
    pub n: usize,
    pub p50: u64,
    pub p90: u64,
    pub p99: u64,
}

/// Ranks that stand for percentiles.
pub struct Ranks {
    pub p50: usize,
    pub p90: usize,
    pub p99: usize,
}

/// The numbers in order.
pub open spec fn is_sort_of(sorted: Seq<u64>, ns: Seq<u64>) -> bool {
    &&& sorted.to_multiset() == ns.to_multiset()
    &&& forall|i: int, j: int| 0 <= i < j < sorted.len() ==> sorted[i] <= sorted[j]
}

/// The number at a rank, or the greatest one.
pub open spec fn at_rank(sorted: Seq<u64>, rank: usize) -> u64 {
    if rank < sorted.len() {
        sorted[rank as int]
    } else {
        sorted.last()
    }
}

fn ranked(sorted: &Vec<u64>, rank: usize) -> (r: u64)
    requires
        sorted@.len() > 0,
    ensures
        r == at_rank(sorted@, rank),
{
    if rank < sorted.len() {
        sorted[rank]
    } else {
        sorted[sorted.len() - 1]
    }
}

/// The latencies at the ranks.
pub fn percentiles(ns: Vec<u64>, ranks: &Ranks) -> (r: Percentiles)
    requires
        ns@.len() > 0,
    ensures
        r.n == ns@.len(),
        forall|s: Seq<u64>| #[trigger]
            is_sort_of(s, ns@) ==> r.p50 == at_rank(s, ranks.p50) && r.p90 == at_rank(s, ranks.p90)
                && r.p99 == at_rank(s, ranks.p99),
{
    let ghost given = ns@;
    let mut sorted = ns;
    sort_numbers(&mut sorted);
    proof {
        broadcast use vstd::seq_lib::group_to_multiset_ensures;

        assert(sorted@.to_multiset().len() == given.to_multiset().len());
        assert(sorted@.len() == given.len());
        assert forall|s: Seq<u64>| #[trigger] is_sort_of(s, given) implies s == sorted@ by {
            vstd::seq_lib::lemma_sorted_unique(s, sorted@, |x: u64, y: u64| x <= y);
        }
    }
    Percentiles {
        n: sorted.len(),
        p50: ranked(&sorted, ranks.p50),
        p90: ranked(&sorted, ranks.p90),
        p99: ranked(&sorted, ranks.p99),
    }
}

} // verus!
