//! Records of requests, and what a run amounts to.

use super::session::succeeded;
use crate::json;
use crate::json::number;
use crate::json::Fields;
use crate::json::JsonView;
use crate::text;
use serde_json::Value;
use std::collections::HashMap;
use vstd::prelude::*;

verus! {

broadcast use vstd::std_specs::hash::group_hash_axioms;

/// A request that was made.
pub struct RequestRecord {
    pub turn: u8,
    pub session: u64,
    pub key: String,
    /// Which gateway the request went to.
    pub smg: usize,
    pub worker_port: Option<u64>,
    /// How many ids were sent, whatever the answer says.
    pub prompt_tokens: usize,
    pub cached_tokens: Option<u64>,
    pub completion_tokens: Option<u64>,
    pub max_new: u32,
    /// How long the request took, in whole milliseconds.
    pub elapsed_ms: u64,
    /// The status: 0 where the transport failed.
    pub status: u16,
    /// When the request began, in milliseconds since the Unix epoch.
    pub start_ms: u64,
}

/// A sum that stays at the largest number.
pub open spec fn sum_up_to_max(a: int, b: int) -> u64 {
    if a + b > u64::MAX {
        u64::MAX
    } else {
        (a + b) as u64
    }
}

/// A number that may be missing, as a document.
pub open spec fn optional_number(n: Option<u64>) -> JsonView {
    match n {
        Some(x) => number(x as int),
        None => JsonView::Null,
    }
}

fn optional_value(n: Option<u64>) -> (r: Value)
    ensures
        json::json_tree(r) == optional_number(n),
{
    match n {
        Some(x) => json::of_u64(x),
        None => json::null(),
    }
}

impl RequestRecord {
    /// When the request ended.
    pub open spec fn finished(&self) -> u64 {
        sum_up_to_max(self.start_ms as int, self.elapsed_ms as int)
    }

    /// The record as a document, with its two latencies.
    pub open spec fn as_json(&self, ttft_ms: JsonView, e2e_ms: JsonView) -> JsonView {
        JsonView::Object(
            Map::empty().insert("turn"@, number(self.turn as int)).insert(
                "session"@,
                number(self.session as int),
            ).insert("key"@, JsonView::Text(self.key@)).insert("smg"@, number(self.smg as int)).insert(
                "worker_port"@,
                optional_number(self.worker_port),
            ).insert("prompt_tokens"@, number(self.prompt_tokens as int)).insert(
                "cached_tokens"@,
                optional_number(self.cached_tokens),
            ).insert("completion_tokens"@, optional_number(self.completion_tokens)).insert(
                "max_new"@,
                number(self.max_new as int),
            ).insert("ttft_ms"@, ttft_ms).insert("e2e_ms"@, e2e_ms).insert(
                "status"@,
                number(self.status as int),
            ).insert("start_ms"@, number(self.start_ms as int)),
        )
    }

    /// Whether the request succeeded.
    pub fn is_ok(&self) -> (r: bool)
        ensures
            r == succeeded(self.status),
    {
        200 <= self.status && self.status < 300
    }

    fn finish_ms(&self) -> (r: u64)
        ensures
            r == self.finished(),
    {
        self.start_ms.saturating_add(self.elapsed_ms)
    }

    /// The record as a document. Its two latencies, which are no whole numbers,
    /// come as documents.
    pub fn to_json(&self, ttft_ms: Value, e2e_ms: Value) -> (r: Value)
        ensures
            json::json_tree(r) == self.as_json(
                json::json_tree(ttft_ms),
                json::json_tree(e2e_ms),
            ),
    {
        let mut f = Fields::new();
        f.number("turn", self.turn as u64);
        f.number("session", self.session);
        f.text("key", self.key.as_str());
        f.number("smg", self.smg as u64);
        f.put("worker_port", optional_value(self.worker_port));
        f.number("prompt_tokens", self.prompt_tokens as u64);
        f.put("cached_tokens", optional_value(self.cached_tokens));
        f.put("completion_tokens", optional_value(self.completion_tokens));
        f.number("max_new", self.max_new as u64);
        f.put("ttft_ms", ttft_ms);
        f.put("e2e_ms", e2e_ms);
        f.number("status", self.status as u64);
        f.number("start_ms", self.start_ms);
        f.done()
    }
}

// ── Counting ────────────────────────────────────────────────────────────────

/// The numbers below `n` that the predicate picks, in order.
pub open spec fn picked(n: nat, p: spec_fn(int) -> bool) -> Seq<usize>
    decreases n,
{
    if n == 0 {
        Seq::empty()
    } else {
        let init = picked((n - 1) as nat, p);
        if p(n - 1) {
            init.push((n - 1) as usize)
        } else {
            init
        }
    }
}

/// What the function finds below `n`, in order.
pub open spec fn found<T>(n: nat, f: spec_fn(int) -> Option<T>) -> Seq<T>
    decreases n,
{
    if n == 0 {
        Seq::empty()
    } else {
        let init = found((n - 1) as nat, f);
        match f(n - 1) {
            Some(x) => init.push(x),
            None => init,
        }
    }
}

/// How often a key occurs.
pub open spec fn occurrences(keys: Seq<u64>, key: u64) -> nat
    decreases keys.len(),
{
    if keys.len() == 0 {
        0
    } else {
        occurrences(keys.drop_last(), key) + if keys.last() == key {
            1nat
        } else {
            0
        }
    }
}

/// The pairs are the keys that occur, in increasing order, each with how often
/// it does.
pub open spec fn counts_of(pairs: Seq<(u64, u64)>, keys: Seq<u64>) -> bool {
    &&& forall|i: int, j: int| 0 <= i < j < pairs.len() ==> (#[trigger] pairs[i]).0 < (#[trigger] pairs[j]).0
    &&& forall|i: int|
        0 <= i < pairs.len() ==> (#[trigger] pairs[i]).1 > 0 && pairs[i].1 == occurrences(
            keys,
            pairs[i].0,
        )
    &&& forall|k: u64|
        #![trigger occurrences(keys, k)]
        occurrences(keys, k) > 0 ==> exists|i: int| 0 <= i < pairs.len() && (#[trigger] pairs[i]).0 == k
}

/// The sum of the counts.
pub open spec fn total(pairs: Seq<(u64, u64)>) -> nat
    decreases pairs.len(),
{
    if pairs.len() == 0 {
        0
    } else {
        total(pairs.drop_last()) + pairs.last().1 as nat
    }
}

proof fn occurrences_bounded(keys: Seq<u64>, key: u64)
    ensures
        occurrences(keys, key) <= keys.len(),
    decreases keys.len(),
{
    if keys.len() > 0 {
        occurrences_bounded(keys.drop_last(), key);
    }
}

fn bump(pairs: &mut Vec<(u64, u64)>, key: u64, keys: Ghost<Seq<u64>>)
    requires
        counts_of(old(pairs)@, keys@),
        keys@.len() < u64::MAX,
    ensures
        counts_of(final(pairs)@, keys@.push(key)),
{
    let ghost pre = pairs@;
    let ghost more = keys@.push(key);
    let mut i: usize = 0;
    while i < pairs.len() && pairs[i].0 < key
        invariant
            i <= pairs@.len(),
            pairs@ == pre,
            forall|j: int| 0 <= j < i ==> (#[trigger] pre[j]).0 < key,
        decreases pairs@.len() - i,
    {
        i = i + 1;
    }
    proof {
        assert(more.drop_last() =~= keys@);
        assert forall|k: u64| #[trigger] occurrences(more, k) == occurrences(keys@, k) + if k == key {
            1nat
        } else {
            0
        } by {}
        occurrences_bounded(keys@, key);
    }
    if i < pairs.len() && pairs[i].0 == key {
        let c: u64 = pairs[i].1;
        assert(pre[i as int].1 == occurrences(keys@, key));
        pairs.set(i, (key, c + 1));
        proof {
            let post = pairs@;
            assert forall|j: int| 0 <= j < post.len() implies (#[trigger] post[j]).1 > 0
                && post[j].1 == occurrences(more, post[j].0) by {
                assert(pre[j].1 == occurrences(keys@, pre[j].0));
                if j < i {
                    assert(pre[j].0 < pre[i as int].0);
                } else if j > i {
                    assert(pre[i as int].0 < pre[j].0);
                }
            }
            assert forall|a: int, b: int| 0 <= a < b < post.len() implies (#[trigger] post[a]).0 < (
            #[trigger] post[b]).0 by {
                assert(pre[a].0 < pre[b].0);
            }
            assert forall|k: u64|
                #![trigger occurrences(more, k)]
                occurrences(more, k) > 0 implies exists|j: int|
                0 <= j < post.len() && (#[trigger] post[j]).0 == k by {
                if k == key {
                    assert(post[i as int].0 == k);
                } else {
                    assert(occurrences(keys@, k) > 0);
                    let j = choose|j: int| 0 <= j < pre.len() && (#[trigger] pre[j]).0 == k;
                    assert(post[j].0 == k);
                }
            }
        }
    } else {
        proof {
            if occurrences(keys@, key) > 0 {
                let j = choose|j: int| 0 <= j < pre.len() && (#[trigger] pre[j]).0 == key;
                assert(pre[j].0 == key);
                if j > i {
                    assert(pre[i as int].0 < pre[j].0);
                }
            }
        }
        pairs.insert(i, (key, 1));
        proof {
            let post = pairs@;
            assert(post =~= pre.insert(i as int, (key, 1)));
            assert forall|a: int, b: int| 0 <= a < b < post.len() implies (#[trigger] post[a]).0 < (
            #[trigger] post[b]).0 by {
                let x = if a < i {
                    a
                } else {
                    a - 1
                };
                let y = if b < i {
                    b
                } else {
                    b - 1
                };
                if a != i && b != i {
                    assert(post[a] == pre[x]);
                    assert(post[b] == pre[y]);
                    assert(pre[x].0 < pre[y].0);
                } else if b == i {
                    assert(post[a] == pre[a]);
                    assert(pre[a].0 < key);
                } else {
                    assert(post[b] == pre[b - 1]);
                    if b - 1 > i {
                        assert(pre[i as int].0 < pre[b - 1].0);
                    }
                }
            }
            assert forall|j: int| 0 <= j < post.len() implies (#[trigger] post[j]).1 > 0
                && post[j].1 == occurrences(more, post[j].0) by {
                if j < i {
                    assert(post[j] == pre[j]);
                    assert(pre[j].0 < key);
                    assert(pre[j].1 == occurrences(keys@, pre[j].0));
                } else if j > i {
                    assert(post[j] == pre[j - 1]);
                    assert(post[i as int].0 < post[j].0);
                    assert(pre[j - 1].1 == occurrences(keys@, pre[j - 1].0));
                }
            }
            assert forall|k: u64|
                #![trigger occurrences(more, k)]
                occurrences(more, k) > 0 implies exists|j: int|
                0 <= j < post.len() && (#[trigger] post[j]).0 == k by {
                if k == key {
                    assert(post[i as int].0 == k);
                } else {
                    assert(occurrences(keys@, k) > 0);
                    let j = choose|j: int| 0 <= j < pre.len() && (#[trigger] pre[j]).0 == k;
                    if j < i {
                        assert(post[j].0 == k);
                    } else {
                        assert(post[j + 1].0 == k);
                    }
                }
            }
        }
    }
}

/// The keys other than one.
pub open spec fn others(keys: Seq<u64>, key: u64) -> Seq<u64>
    decreases keys.len(),
{
    if keys.len() == 0 {
        Seq::empty()
    } else {
        let init = others(keys.drop_last(), key);
        if keys.last() == key {
            init
        } else {
            init.push(keys.last())
        }
    }
}

proof fn others_counted(keys: Seq<u64>, key: u64)
    ensures
        others(keys, key).len() + occurrences(keys, key) == keys.len(),
        forall|k: u64| #[trigger]
            occurrences(others(keys, key), k) == if k == key {
                0
            } else {
                occurrences(keys, k)
            },
    decreases keys.len(),
{
    if keys.len() > 0 {
        let init = keys.drop_last();
        others_counted(init, key);
        if keys.last() != key {
            assert(others(keys, key).drop_last() =~= others(init, key));
            assert forall|k: u64| #[trigger]
                occurrences(others(keys, key), k) == if k == key {
                    0
                } else {
                    occurrences(keys, k)
                } by {
                assert(occurrences(others(init, key), k) == if k == key {
                    0
                } else {
                    occurrences(init, k)
                });
            }
        } else {
            assert forall|k: u64| #[trigger]
                occurrences(others(keys, key), k) == if k == key {
                    0
                } else {
                    occurrences(keys, k)
                } by {
                assert(occurrences(others(init, key), k) == if k == key {
                    0
                } else {
                    occurrences(init, k)
                });
            }
        }
    }
}

/// Counts add up to how many keys there are.
pub proof fn counts_add_up(pairs: Seq<(u64, u64)>, keys: Seq<u64>)
    requires
        counts_of(pairs, keys),
    ensures
        total(pairs) == keys.len(),
    decreases pairs.len(),
{
    if pairs.len() == 0 {
        if keys.len() > 0 {
            assert(occurrences(keys, keys.last()) > 0);
        }
    } else {
        let n = pairs.len() - 1;
        let (k, c) = pairs[n];
        let init = pairs.drop_last();
        let rest = others(keys, k);
        others_counted(keys, k);
        assert forall|i: int, j: int| 0 <= i < j < init.len() implies (#[trigger] init[i]).0 < (
        #[trigger] init[j]).0 by {
            assert(pairs[i].0 < pairs[j].0);
        }
        assert forall|i: int| 0 <= i < init.len() implies (#[trigger] init[i]).1 > 0 && init[i].1
            == occurrences(rest, init[i].0) by {
            assert(pairs[i].0 < pairs[n].0);
            assert(pairs[i].1 == occurrences(keys, pairs[i].0));
        }
        assert forall|x: u64|
            #![trigger occurrences(rest, x)]
            occurrences(rest, x) > 0 implies exists|i: int|
            0 <= i < init.len() && (#[trigger] init[i]).0 == x by {
            assert(occurrences(keys, x) > 0);
            let i = choose|i: int| 0 <= i < pairs.len() && (#[trigger] pairs[i]).0 == x;
            assert(init[i].0 == x);
        }
        counts_add_up(init, rest);
    }
}

// ── What a run amounts to ───────────────────────────────────────────────────

/// Until when requests do not count, unless in the totals.
pub open spec fn warmup_end(run_start_ms: u64, warmup_secs: u64) -> u64 {
    sum_up_to_max(
        run_start_ms as int,
        if warmup_secs * 1000 > u64::MAX {
            u64::MAX as int
        } else {
            warmup_secs * 1000
        },
    )
}

/// The request counts.
pub open spec fn counts(r: RequestRecord, end: u64) -> bool {
    r.finished() >= end
}

/// The request counts, and it succeeded.
pub open spec fn counts_ok(r: RequestRecord, end: u64) -> bool {
    counts(r, end) && succeeded(r.status)
}

/// The worker that a session's first turn reached: the first one on record.
pub open spec fn anchors(records: Seq<RequestRecord>) -> Map<u64, u64>
    decreases records.len(),
{
    if records.len() == 0 {
        Map::empty()
    } else {
        let init = anchors(records.drop_last());
        let r = records.last();
        match r.worker_port {
            Some(port) => if r.turn == 1 && succeeded(r.status) && !init.contains_key(r.session) {
                init.insert(r.session, port)
            } else {
                init
            },
            None => init,
        }
    }
}

/// Whether a second turn reached its session's worker, where both are known.
pub open spec fn reunion(r: RequestRecord, end: u64, ports: Map<u64, u64>) -> Option<bool> {
    match r.worker_port {
        Some(port) => if counts_ok(r, end) && r.turn == 2 && ports.contains_key(r.session) {
            Some(port == ports[r.session])
        } else {
            None
        },
        None => None,
    }
}

/// The worker of a first turn that counts and succeeded.
pub open spec fn first_port(r: RequestRecord, end: u64) -> Option<u64> {
    if counts_ok(r, end) && r.turn == 1 {
        r.worker_port
    } else {
        None
    }
}

/// The status of a request that failed.
pub open spec fn failure(r: RequestRecord) -> Option<u64> {
    if succeeded(r.status) {
        None
    } else {
        Some(r.status as u64)
    }
}

/// How much of a prompt was cached: tokens cached, and tokens sent.
pub open spec fn cached_part(r: RequestRecord, end: u64, turn: u8) -> Option<(u64, usize)> {
    match r.cached_tokens {
        Some(c) => if counts_ok(r, end) && r.turn == turn && r.prompt_tokens != 0 {
            Some((c, r.prompt_tokens))
        } else {
            None
        },
        None => None,
    }
}

/// The requests of a turn.
pub struct TurnBlock {
    /// How many count.
    pub count: usize,
    /// Those that count and succeeded, by their places.
    pub ok: Vec<usize>,
    /// How much of their prompts was cached: tokens cached, and tokens sent.
    pub cached: Vec<(u64, usize)>,
}

/// What a run amounts to, in whole numbers.
pub struct Summary {
    pub requests: usize,
    /// How often each status came, of requests that failed.
    pub errors: Vec<(u64, u64)>,
    /// The requests that count, by their places.
    pub measured: Vec<usize>,
    /// Those that count and succeeded, by their places.
    pub ok: Vec<usize>,
    pub turn1: TurnBlock,
    pub turn2: TurnBlock,
    /// Of second turns, whether each reached its session's worker.
    pub reunions: Vec<bool>,
    /// How many first turns each worker got.
    pub worker_counts: Vec<(u64, u64)>,
    /// How many first turns all workers got.
    pub first_turns: usize,
    /// How many requests each gateway got.
    pub per_smg: Vec<u64>,
}

/// The block is the one of a turn.
pub open spec fn block_of(b: TurnBlock, records: Seq<RequestRecord>, end: u64, turn: u8) -> bool {
    let n = records.len();
    &&& b.count == picked(n, |i: int| counts(records[i], end) && records[i].turn == turn).len()
    &&& b.ok@ == picked(n, |i: int| counts_ok(records[i], end) && records[i].turn == turn)
    &&& b.cached@ == found(n, |i: int| cached_part(records[i], end, turn))
}

/// The summary is the one of a run.
pub open spec fn summary_of(
    s: Summary,
    records: Seq<RequestRecord>,
    run_start_ms: u64,
    warmup_secs: u64,
    gateways: nat,
) -> bool {
    let n = records.len();
    let end = warmup_end(run_start_ms, warmup_secs);
    let ports = anchors(records);
    &&& s.requests == n
    &&& counts_of(s.errors@, found(n, |i: int| failure(records[i])))
    &&& s.measured@ == picked(n, |i: int| counts(records[i], end))
    &&& s.ok@ == picked(n, |i: int| counts_ok(records[i], end))
    &&& block_of(s.turn1, records, end, 1)
    &&& block_of(s.turn2, records, end, 2)
    &&& s.reunions@ == found(n, |i: int| reunion(records[i], end, ports))
    &&& counts_of(s.worker_counts@, found(n, |i: int| first_port(records[i], end)))
    &&& s.first_turns == found(n, |i: int| first_port(records[i], end)).len()
    &&& s.per_smg@.len() == gateways
    &&& forall|g: int|
        0 <= g < gateways ==> #[trigger] s.per_smg@[g] == picked(
            n,
            |i: int| records[i].smg == g,
        ).len()
}

proof fn picked_bounded(n: nat, p: spec_fn(int) -> bool)
    ensures
        picked(n, p).len() <= n,
    decreases n,
{
    if n > 0 {
        picked_bounded((n - 1) as nat, p);
    }
}

proof fn found_bounded<T>(n: nat, f: spec_fn(int) -> Option<T>)
    ensures
        found(n, f).len() <= n,
    decreases n,
{
    if n > 0 {
        found_bounded((n - 1) as nat, f);
    }
}

/// The worker that each session's first turn reached. One that ended during the
/// warm-up counts here.
fn first_ports(records: &Vec<RequestRecord>) -> (r: HashMap<u64, u64>)
    ensures
        r@ == anchors(records@),
{
    let mut out: HashMap<u64, u64> = HashMap::new();
    let mut i: usize = 0;
    assert(out@ =~= anchors(records@.take(0)));
    while i < records.len()
        invariant
            i <= records@.len(),
            out@ == anchors(records@.take(i as int)),
        decreases records@.len() - i,
    {
        let r = &records[i];
        proof {
            let now = records@.take(i + 1);
            assert(now.drop_last() =~= records@.take(i as int));
            assert(now.last() == records@[i as int]);
        }
        match r.worker_port {
            Some(port) => {
                if r.turn == 1 && r.is_ok() && !out.contains_key(&r.session) {
                    out.insert(r.session, port);
                }
            },
            None => {},
        }
        i = i + 1;
    }
    assert(records@.take(i as int) =~= records@);
    out
}

fn turn_block(records: &Vec<RequestRecord>, end: u64, turn: u8) -> (r: TurnBlock)
    ensures
        block_of(r, records@, end, turn),
{
    let ghost p = |i: int| counts(records@[i], end) && records@[i].turn == turn;
    let ghost q = |i: int| counts_ok(records@[i], end) && records@[i].turn == turn;
    let ghost f = |i: int| cached_part(records@[i], end, turn);
    let mut count: usize = 0;
    let mut ok: Vec<usize> = Vec::new();
    let mut cached: Vec<(u64, usize)> = Vec::new();
    let mut i: usize = 0;
    while i < records.len()
        invariant
            i <= records@.len(),
            p == (|i: int| counts(records@[i], end) && records@[i].turn == turn),
            q == (|i: int| counts_ok(records@[i], end) && records@[i].turn == turn),
            f == (|i: int| cached_part(records@[i], end, turn)),
            count == picked(i as nat, p).len(),
            count <= i,
            ok@ == picked(i as nat, q),
            cached@ == found(i as nat, f),
        decreases records@.len() - i,
    {
        let r = &records[i];
        if r.finish_ms() >= end && r.turn == turn {
            count = count + 1;
            if r.is_ok() {
                ok.push(i);
                match r.cached_tokens {
                    Some(c) => {
                        if r.prompt_tokens != 0 {
                            cached.push((c, r.prompt_tokens));
                        }
                    },
                    None => {},
                }
            }
        }
        i = i + 1;
    }
    TurnBlock { count, ok, cached }
}

fn per_gateway(records: &Vec<RequestRecord>, gateways: usize) -> (r: Vec<u64>)
    ensures
        r@.len() == gateways,
        forall|g: int|
            0 <= g < gateways ==> #[trigger] r@[g] == picked(
                records@.len(),
                |i: int| records@[i].smg == g,
            ).len(),
{
    let mut out: Vec<u64> = Vec::new();
    let mut g: usize = 0;
    while g < gateways
        invariant
            g <= gateways,
            out@.len() == g,
            forall|j: int| 0 <= j < g ==> out@[j] == 0,
        decreases gateways - g,
    {
        out.push(0);
        g = g + 1;
    }
    let mut i: usize = 0;
    while i < records.len()
        invariant
            i <= records@.len(),
            out@.len() == gateways,
            forall|g: int|
                0 <= g < gateways ==> #[trigger] out@[g] == picked(
                    i as nat,
                    |i: int| records@[i].smg == g,
                ).len(),
        decreases records@.len() - i,
    {
        let ghost pre = out@;
        let smg: usize = records[i].smg;
        if smg < gateways {
            let n: u64 = out[smg];
            proof {
                assert(pre[smg as int] == picked(i as nat, |i: int| records@[i].smg == smg as int).len());
                picked_bounded(i as nat, |i: int| records@[i].smg == smg as int);
            }
            out.set(smg, n + 1);
        }
        proof {
            assert forall|g: int| 0 <= g < gateways implies #[trigger] out@[g] == picked(
                (i + 1) as nat,
                |i: int| records@[i].smg == g,
            ).len() by {
                let p = |i: int| records@[i].smg == g;
                assert(pre[g] == picked(i as nat, p).len());
                assert(p(i as int) == (smg == g));
            }
        }
        i = i + 1;
    }
    out
}

/// What a run amounts to. Requests that end during the warm-up count in the
/// totals alone.
pub fn summarize(
    records: &Vec<RequestRecord>,
    run_start_ms: u64,
    warmup_secs: u64,
    gateways: usize,
) -> (r: Summary)
    ensures
        summary_of(r, records@, run_start_ms, warmup_secs, gateways as nat),
{
    let warmup_ms: u64 = match warmup_secs.checked_mul(1000) {
        Some(ms) => ms,
        None => u64::MAX,
    };
    let end: u64 = run_start_ms.saturating_add(warmup_ms);
    assert(end == warmup_end(run_start_ms, warmup_secs));
    let ports = first_ports(records);
    let ghost fails = |i: int| failure(records@[i]);
    let ghost p = |i: int| counts(records@[i], end);
    let ghost q = |i: int| counts_ok(records@[i], end);
    let ghost f = |i: int| reunion(records@[i], end, anchors(records@));
    let ghost w = |i: int| first_port(records@[i], end);
    let mut errors: Vec<(u64, u64)> = Vec::new();
    let mut measured: Vec<usize> = Vec::new();
    let mut ok: Vec<usize> = Vec::new();
    let mut reunions: Vec<bool> = Vec::new();
    let mut worker_counts: Vec<(u64, u64)> = Vec::new();
    let mut first_turns: usize = 0;
    let mut i: usize = 0;
    while i < records.len()
        invariant
            i <= records@.len(),
            ports@ == anchors(records@),
            fails == (|i: int| failure(records@[i])),
            p == (|i: int| counts(records@[i], end)),
            q == (|i: int| counts_ok(records@[i], end)),
            f == (|i: int| reunion(records@[i], end, anchors(records@))),
            w == (|i: int| first_port(records@[i], end)),
            counts_of(errors@, found(i as nat, fails)),
            measured@ == picked(i as nat, p),
            ok@ == picked(i as nat, q),
            reunions@ == found(i as nat, f),
            counts_of(worker_counts@, found(i as nat, w)),
            first_turns == found(i as nat, w).len(),
            first_turns <= i,
        decreases records@.len() - i,
    {
        let r = &records[i];
        let fine: bool = r.is_ok();
        proof {
            found_bounded(i as nat, fails);
            found_bounded(i as nat, w);
        }
        if !fine {
            bump(&mut errors, r.status as u64, Ghost(found(i as nat, fails)));
        }
        if r.finish_ms() >= end {
            measured.push(i);
            if fine {
                ok.push(i);
                match r.worker_port {
                    Some(port) => {
                        if r.turn == 1 {
                            bump(&mut worker_counts, port, Ghost(found(i as nat, w)));
                            first_turns = first_turns + 1;
                        } else if r.turn == 2 {
                            match ports.get(&r.session) {
                                Some(first) => {
                                    reunions.push(port == *first);
                                },
                                None => {},
                            }
                        }
                    },
                    None => {},
                }
            }
        }
        i = i + 1;
    }
    Summary {
        requests: records.len(),
        errors,
        measured,
        ok,
        turn1: turn_block(records, end, 1),
        turn2: turn_block(records, end, 2),
        reunions,
        worker_counts,
        first_turns,
        per_smg: per_gateway(records, gateways),
    }
}

/// Errors by status, as a document.
pub open spec fn errors_json(errors: Seq<(u64, u64)>) -> Map<Seq<char>, JsonView>
    decreases errors.len(),
{
    if errors.len() == 0 {
        Map::empty()
    } else {
        errors_json(errors.drop_last()).insert(
            text::decimal(errors.last().0 as nat),
            number(errors.last().1 as int),
        )
    }
}

/// What the gateways got, as a document.
pub open spec fn gateways_json(urls: Seq<String>, requests: Seq<u64>) -> JsonView {
    JsonView::Array(
        Seq::new(
            urls.len(),
            |i: int|
                JsonView::Object(
                    Map::empty().insert("url"@, JsonView::Text(urls[i]@)).insert(
                        "requests"@,
                        number(requests[i] as int),
                    ),
                ),
        ),
    )
}

impl Summary {
    /// The totals of a run, as a document.
    pub fn totals(&self, sessions: u64) -> (r: Value)
        ensures
            json::json_tree(r) == JsonView::Object(
                Map::empty().insert("sessions"@, number(sessions as int)).insert(
                    "requests"@,
                    number(self.requests as int),
                ).insert("errors"@, JsonView::Object(errors_json(self.errors@))),
            ),
    {
        let mut errors = Fields::new();
        let mut i: usize = 0;
        while i < self.errors.len()
            invariant
                i <= self.errors@.len(),
                errors.so_far() == errors_json(self.errors@.take(i as int)),
            decreases self.errors@.len() - i,
        {
            let (status, n) = self.errors[i];
            proof {
                let now = self.errors@.take(i + 1);
                assert(now.drop_last() =~= self.errors@.take(i as int));
                assert(now.last() == (status, n));
            }
            let name = text::numbered("", status);
            proof {
                reveal_strlit("");
                assert(name@ =~= text::decimal(status as nat));
            }
            errors.number(name.as_str(), n);
            i = i + 1;
        }
        assert(self.errors@.take(i as int) =~= self.errors@);
        let mut f = Fields::new();
        f.number("sessions", sessions);
        f.number("requests", self.requests as u64);
        f.put("errors", errors.done());
        f.done()
    }

    /// What the gateways got, as a document.
    pub fn per_smg_requests(&self, urls: &Vec<String>) -> (r: Value)
        requires
            self.per_smg@.len() == urls@.len(),
        ensures
            json::json_tree(r) == gateways_json(urls@, self.per_smg@),
    {
        let mut out: Vec<Value> = Vec::new();
        let mut i: usize = 0;
        while i < urls.len()
            invariant
                i <= urls@.len(),
                self.per_smg@.len() == urls@.len(),
                out@.len() == i,
                forall|j: int|
                    0 <= j < i ==> json::json_tree(#[trigger] out@[j]) == JsonView::Object(
                        Map::empty().insert("url"@, JsonView::Text(urls@[j]@)).insert(
                            "requests"@,
                            number(self.per_smg@[j] as int),
                        ),
                    ),
            decreases urls@.len() - i,
        {
            let mut f = Fields::new();
            f.text("url", urls[i].as_str());
            f.number("requests", self.per_smg[i]);
            out.push(f.done());
            i = i + 1;
        }
        assert(JsonView::Array(json::trees(out@)) == gateways_json(urls@, self.per_smg@)) by {
            assert(json::trees(out@) =~= gateways_json(urls@, self.per_smg@)->Array_0);
        }
        json::of_elements(out)
    }

    /// The most first turns that one worker got, if any worker got one.
    pub fn busiest(&self) -> (r: Option<u64>)
        ensures
            r is Some <==> self.worker_counts@.len() > 0,
            r matches Some(m) ==> (exists|i: int|
                0 <= i < self.worker_counts@.len() && (#[trigger] self.worker_counts@[i]).1 == m)
                && forall|i: int|
                    0 <= i < self.worker_counts@.len() ==> (#[trigger] self.worker_counts@[i]).1 <= m,
    {
        if self.worker_counts.len() == 0 {
            return None;
        }
        let mut m: u64 = self.worker_counts[0].1;
        let ghost mut at: int = 0;
        let mut i: usize = 1;
        while i < self.worker_counts.len()
            invariant
                1 <= i <= self.worker_counts@.len(),
                0 <= at < i,
                self.worker_counts@[at].1 == m,
                forall|j: int| 0 <= j < i ==> (#[trigger] self.worker_counts@[j]).1 <= m,
            decreases self.worker_counts@.len() - i,
        {
            if self.worker_counts[i].1 > m {
                m = self.worker_counts[i].1;
                proof {
                    at = i as int;
                }
            }
            i = i + 1;
        }
        assert(self.worker_counts@[at].1 == m);
        Some(m)
    }
}

/// A request that ends during the warm-up is among none of those that count,
/// though the totals have it.
pub proof fn warmups_are_not_measured(
    s: Summary,
    records: Seq<RequestRecord>,
    run_start_ms: u64,
    warmup_secs: u64,
    gateways: nat,
    i: int,
)
    requires
        summary_of(s, records, run_start_ms, warmup_secs, gateways),
        0 <= i < records.len() <= usize::MAX,
        records[i].finished() < warmup_end(run_start_ms, warmup_secs),
    ensures
        s.requests == records.len(),
        !s.measured@.contains(i as usize),
        !s.ok@.contains(i as usize),
        !s.turn1.ok@.contains(i as usize),
        !s.turn2.ok@.contains(i as usize),
{
    let n = records.len();
    let end = warmup_end(run_start_ms, warmup_secs);
    picked_are_picked(n, |i: int| counts(records[i], end));
    picked_are_picked(n, |i: int| counts_ok(records[i], end));
    picked_are_picked(n, |i: int| counts_ok(records[i], end) && records[i].turn == 1);
    picked_are_picked(n, |i: int| counts_ok(records[i], end) && records[i].turn == 2);
}

proof fn picked_are_picked(n: nat, p: spec_fn(int) -> bool)
    requires
        n <= usize::MAX,
    ensures
        forall|i: usize| #[trigger] picked(n, p).contains(i) ==> i < n && p(i as int),
    decreases n,
{
    if n > 0 {
        picked_are_picked((n - 1) as nat, p);
        assert forall|i: usize| #[trigger] picked(n, p).contains(i) implies i < n && p(i as int) by {
            let init = picked((n - 1) as nat, p);
            if !init.contains(i) {
                let j = choose|j: int| 0 <= j < picked(n, p).len() && picked(n, p)[j] == i;
                if j < init.len() {
                    assert(init[j] == i);
                }
            }
        }
    }
}

/// The two runs differ in one request at most, which ends during the warm-up in
/// both, and it matters to no session's worker.
pub open spec fn differ_in_warmup(
    a: Seq<RequestRecord>,
    b: Seq<RequestRecord>,
    end: u64,
    i: int,
) -> bool {
    &&& a.len() == b.len()
    &&& forall|j: int| 0 <= j < a.len() && j != i ==> #[trigger] a[j] == b[j]
    &&& 0 <= i < a.len() ==> !counts(a[i], end) && !counts(b[i], end)
    &&& anchors(a) == anchors(b)
}

/// What ends during the warm-up is in no statistic: another request in its place
/// changes none.
pub proof fn warmups_change_no_statistic(
    s: Summary,
    t: Summary,
    a: Seq<RequestRecord>,
    b: Seq<RequestRecord>,
    run_start_ms: u64,
    warmup_secs: u64,
    gateways: nat,
    i: int,
)
    requires
        summary_of(s, a, run_start_ms, warmup_secs, gateways),
        summary_of(t, b, run_start_ms, warmup_secs, gateways),
        differ_in_warmup(a, b, warmup_end(run_start_ms, warmup_secs), i),
    ensures
        s.measured@ == t.measured@,
        s.ok@ == t.ok@,
        s.turn1.count == t.turn1.count,
        s.turn1.ok@ == t.turn1.ok@,
        s.turn1.cached@ == t.turn1.cached@,
        s.turn2.count == t.turn2.count,
        s.turn2.ok@ == t.turn2.ok@,
        s.turn2.cached@ == t.turn2.cached@,
        s.reunions@ == t.reunions@,
        s.first_turns == t.first_turns,
        s.worker_counts@ == t.worker_counts@,
{
    let n = a.len();
    let end = warmup_end(run_start_ms, warmup_secs);
    let ports = anchors(a);
    same_picks(n, |j: int| counts(a[j], end), |j: int| counts(b[j], end));
    same_picks(n, |j: int| counts_ok(a[j], end), |j: int| counts_ok(b[j], end));
    same_picks(
        n,
        |j: int| counts(a[j], end) && a[j].turn == 1,
        |j: int| counts(b[j], end) && b[j].turn == 1,
    );
    same_picks(
        n,
        |j: int| counts_ok(a[j], end) && a[j].turn == 1,
        |j: int| counts_ok(b[j], end) && b[j].turn == 1,
    );
    same_picks(
        n,
        |j: int| counts(a[j], end) && a[j].turn == 2,
        |j: int| counts(b[j], end) && b[j].turn == 2,
    );
    same_picks(
        n,
        |j: int| counts_ok(a[j], end) && a[j].turn == 2,
        |j: int| counts_ok(b[j], end) && b[j].turn == 2,
    );
    same_finds(n, |j: int| cached_part(a[j], end, 1), |j: int| cached_part(b[j], end, 1));
    same_finds(n, |j: int| cached_part(a[j], end, 2), |j: int| cached_part(b[j], end, 2));
    same_finds(n, |j: int| reunion(a[j], end, ports), |j: int| reunion(b[j], end, ports));
    same_finds(n, |j: int| first_port(a[j], end), |j: int| first_port(b[j], end));
    counts_are_determined(
        s.worker_counts@,
        t.worker_counts@,
        found(n, |j: int| first_port(a[j], end)),
    );
}

/// The requests at some places.
pub open spec fn those(records: Seq<RequestRecord>, places: Seq<usize>) -> Seq<RequestRecord> {
    places.map_values(|i: usize| records[i as int])
}

/// How often a status came.
pub open spec fn error_count(s: Summary, status: u64) -> int {
    if exists|i: int| 0 <= i < s.errors@.len() && (#[trigger] s.errors@[i]).0 == status {
        let i = choose|i: int| 0 <= i < s.errors@.len() && (#[trigger] s.errors@[i]).0 == status;
        s.errors@[i].1 as int
    } else {
        0
    }
}

/// What ends during the warm-up is left out of every statistic, and counted in
/// the totals all the same: without the request, the same requests are measured,
/// and only the totals are one less. (A first turn that reached a worker is set
/// aside: it still tells where its session's second turn belongs.)
pub proof fn warmups_are_counted_in_totals_only(
    s: Summary,
    t: Summary,
    xs: Seq<RequestRecord>,
    r: RequestRecord,
    ys: Seq<RequestRecord>,
    run_start_ms: u64,
    warmup_secs: u64,
    gateways: nat,
    status: u64,
    g: int,
)
    requires
        summary_of(s, xs.push(r) + ys, run_start_ms, warmup_secs, gateways),
        summary_of(t, xs + ys, run_start_ms, warmup_secs, gateways),
        xs.len() + 1 + ys.len() <= usize::MAX,
        !counts(r, warmup_end(run_start_ms, warmup_secs)),
        !(r.turn == 1 && succeeded(r.status) && r.worker_port is Some),
        0 <= g < gateways,
    ensures
        ({
            let a = xs.push(r) + ys;
            let b = xs + ys;
            &&& those(a, s.measured@) == those(b, t.measured@)
            &&& those(a, s.ok@) == those(b, t.ok@)
            &&& s.turn1.count == t.turn1.count
            &&& those(a, s.turn1.ok@) == those(b, t.turn1.ok@)
            &&& s.turn1.cached@ == t.turn1.cached@
            &&& s.turn2.count == t.turn2.count
            &&& those(a, s.turn2.ok@) == those(b, t.turn2.ok@)
            &&& s.turn2.cached@ == t.turn2.cached@
            &&& s.reunions@ == t.reunions@
            &&& s.first_turns == t.first_turns
            &&& s.worker_counts@ == t.worker_counts@
            &&& s.requests == t.requests + 1
            &&& error_count(s, status) == error_count(t, status) + (if failure(r) == Some(status) {
                1int
            } else {
                0
            })
            &&& s.per_smg@[g] == t.per_smg@[g] + (if r.smg == g {
                1int
            } else {
                0
            })
        }),
{
    let a = xs.push(r) + ys;
    let b = xs + ys;
    let n = a.len();
    let i = xs.len() as int;
    let end = warmup_end(run_start_ms, warmup_secs);
    assert forall|j: int| 0 <= j < i implies a[j] == #[trigger] b[j] by {}
    assert forall|j: int| i <= j < n - 1 implies a[j + 1] == #[trigger] b[j] by {}
    assert(lacks(n, a, b, i));
    assert(a[i] == r);
    anchors_without(xs, r, ys);
    let ports = anchors(a);
    picks_without(
        n,
        a,
        b,
        |i: int| counts(a[i], end),
        |i: int| counts(b[i], end),
        i,
    );
    picks_without(
        n,
        a,
        b,
        |i: int| counts_ok(a[i], end),
        |i: int| counts_ok(b[i], end),
        i,
    );
    picks_without(
        n,
        a,
        b,
        |i: int| counts(a[i], end) && a[i].turn == 1,
        |i: int| counts(b[i], end) && b[i].turn == 1,
        i,
    );
    picks_without(
        n,
        a,
        b,
        |i: int| counts_ok(a[i], end) && a[i].turn == 1,
        |i: int| counts_ok(b[i], end) && b[i].turn == 1,
        i,
    );
    picks_without(
        n,
        a,
        b,
        |i: int| counts(a[i], end) && a[i].turn == 2,
        |i: int| counts(b[i], end) && b[i].turn == 2,
        i,
    );
    picks_without(
        n,
        a,
        b,
        |i: int| counts_ok(a[i], end) && a[i].turn == 2,
        |i: int| counts_ok(b[i], end) && b[i].turn == 2,
        i,
    );
    picks_without(
        n,
        a,
        b,
        |i: int| a[i].smg == g,
        |i: int| b[i].smg == g,
        i,
    );
    finds_without(
        n,
        |j: int| cached_part(a[j], end, 1),
        |j: int| cached_part(b[j], end, 1),
        i,
    );
    finds_without(
        n,
        |j: int| cached_part(a[j], end, 2),
        |j: int| cached_part(b[j], end, 2),
        i,
    );
    finds_without(
        n,
        |j: int| reunion(a[j], end, ports),
        |j: int| reunion(b[j], end, ports),
        i,
    );
    finds_without(n, |j: int| first_port(a[j], end), |j: int| first_port(b[j], end), i);
    counts_are_determined(
        s.worker_counts@,
        t.worker_counts@,
        found(n, |j: int| first_port(a[j], end)),
    );
    occurrences_without(n, |j: int| failure(a[j]), |j: int| failure(b[j]), i, status);
    error_count_is(s, found(n, |j: int| failure(a[j])), status);
    error_count_is(t, found((n - 1) as nat, |j: int| failure(b[j])), status);
}

/// A place less: what comes before stays, what comes behind moves up.
spec fn moves_up<T>(n: nat, f: spec_fn(int) -> T, g: spec_fn(int) -> T, i: int) -> bool {
    &&& 0 <= i < n
    &&& forall|j: int| 0 <= j < i ==> f(j) == #[trigger] g(j)
    &&& forall|j: int| i <= j < n - 1 ==> f(j + 1) == #[trigger] g(j)
}

/// The first `n` requests of `a`, without the one at `i`, are those of `b`.
spec fn lacks(n: nat, a: Seq<RequestRecord>, b: Seq<RequestRecord>, i: int) -> bool {
    &&& forall|j: int| 0 <= j < i ==> a[j] == #[trigger] b[j]
    &&& forall|j: int| i <= j < n - 1 ==> a[j + 1] == #[trigger] b[j]
}

proof fn finds_without<T>(
    n: nat,
    f: spec_fn(int) -> Option<T>,
    g: spec_fn(int) -> Option<T>,
    i: int,
)
    requires
        moves_up(n, f, g, i),
        f(i) is None,
    ensures
        found(n, f) == found((n - 1) as nat, g),
    decreases n,
{
    if n == i + 1 {
        same_finds(i as nat, f, g);
    } else {
        finds_without((n - 1) as nat, f, g, i);
        assert(f(n - 2 + 1) == g(n - 2));
    }
}

proof fn occurrences_without(
    n: nat,
    f: spec_fn(int) -> Option<u64>,
    g: spec_fn(int) -> Option<u64>,
    i: int,
    key: u64,
)
    requires
        moves_up(n, f, g, i),
    ensures
        occurrences(found(n, f), key) == occurrences(found((n - 1) as nat, g), key) + (if f(i)
            == Some(key) {
            1int
        } else {
            0
        }),
    decreases n,
{
    let last = f(n - 1);
    let init = found((n - 1) as nat, f);
    if last is Some {
        assert(init.push(last->0).drop_last() =~= init);
    }
    if n == i + 1 {
        same_finds(i as nat, f, g);
    } else {
        occurrences_without((n - 1) as nat, f, g, i, key);
        assert(f(n - 2 + 1) == g(n - 2));
        let other = found((n - 2) as nat, g);
        if last is Some {
            assert(other.push(last->0).drop_last() =~= other);
        }
    }
}

proof fn picks_without(
    n: nat,
    a: Seq<RequestRecord>,
    b: Seq<RequestRecord>,
    p: spec_fn(int) -> bool,
    q: spec_fn(int) -> bool,
    i: int,
)
    requires
        n <= usize::MAX,
        lacks(n, a, b, i),
        moves_up(n, p, q, i),
    ensures
        picked(n, p).len() == picked((n - 1) as nat, q).len() + (if p(i) {
            1int
        } else {
            0
        }),
        !p(i) ==> those(a, picked(n, p)) == those(b, picked((n - 1) as nat, q)),
    decreases n,
{
    let x = picked((n - 1) as nat, p);
    if n == i + 1 {
        same_picks(i as nat, p, q);
        if !p(i) {
            picked_are_picked(i as nat, q);
            assert forall|t: int| 0 <= t < x.len() implies those(a, x)[t] == #[trigger] those(
                b,
                x,
            )[t] by {
                assert(x.contains(x[t]));
                let u = x[t] as int;
                assert(a[u] == b[u]);
            }
            assert(those(a, x) =~= those(b, x));
        }
    } else {
        picks_without((n - 1) as nat, a, b, p, q, i);
        assert(p(n - 2 + 1) == q(n - 2));
        assert(a[n - 2 + 1] == b[n - 2]);
        let y = picked((n - 2) as nat, q);
        if p(n - 1) {
            assert(those(a, x.push((n - 1) as usize)) =~= those(a, x).push(a[n - 1]));
            assert(those(b, y.push((n - 2) as usize)) =~= those(b, y).push(b[n - 2]));
        }
    }
}

/// A request that tells of no session's worker leaves the others' as they are.
proof fn anchors_without(xs: Seq<RequestRecord>, r: RequestRecord, ys: Seq<RequestRecord>)
    requires
        !(r.turn == 1 && succeeded(r.status) && r.worker_port is Some),
    ensures
        anchors(xs.push(r) + ys) == anchors(xs + ys),
    decreases ys.len(),
{
    if ys.len() == 0 {
        assert(xs.push(r) + ys =~= xs.push(r));
        assert(xs.push(r).drop_last() =~= xs);
        assert(xs + ys =~= xs);
    } else {
        anchors_without(xs, r, ys.drop_last());
        assert((xs.push(r) + ys).drop_last() =~= xs.push(r) + ys.drop_last());
        assert((xs + ys).drop_last() =~= xs + ys.drop_last());
    }
}

proof fn error_count_is(s: Summary, keys: Seq<u64>, status: u64)
    requires
        counts_of(s.errors@, keys),
    ensures
        error_count(s, status) == occurrences(keys, status),
{
}

proof fn same_picks(n: nat, p: spec_fn(int) -> bool, q: spec_fn(int) -> bool)
    requires
        forall|j: int| 0 <= j < n ==> #[trigger] p(j) == q(j),
    ensures
        picked(n, p) == picked(n, q),
    decreases n,
{
    if n > 0 {
        same_picks((n - 1) as nat, p, q);
        assert(p(n - 1) == q(n - 1));
    }
}

proof fn same_finds<T>(n: nat, f: spec_fn(int) -> Option<T>, g: spec_fn(int) -> Option<T>)
    requires
        forall|j: int| 0 <= j < n ==> #[trigger] f(j) == g(j),
    ensures
        found(n, f) == found(n, g),
    decreases n,
{
    if n > 0 {
        same_finds((n - 1) as nat, f, g);
        assert(f(n - 1) == g(n - 1));
    }
}

/// Keys have one count each: counts in order are determined by the keys.
pub proof fn counts_are_determined(p: Seq<(u64, u64)>, q: Seq<(u64, u64)>, keys: Seq<u64>)
    requires
        counts_of(p, keys),
        counts_of(q, keys),
    ensures
        p == q,
{
    assert forall|i: int| 0 <= i < p.len() && i < q.len() implies p[i] == q[i] by {
        heads_agree(p, q, keys, i);
    }
    no_more_keys(p, q, keys);
    no_more_keys(q, p, keys);
    assert(p =~= q);
}

proof fn heads_agree(p: Seq<(u64, u64)>, q: Seq<(u64, u64)>, keys: Seq<u64>, i: int)
    requires
        counts_of(p, keys),
        counts_of(q, keys),
        0 <= i < p.len(),
        i < q.len(),
    ensures
        p[i] == q[i],
    decreases i,
{
    assert forall|j: int| 0 <= j < i implies p[j] == q[j] by {
        heads_agree(p, q, keys, j);
    }
    assert(p[i].1 == occurrences(keys, p[i].0));
    assert(q[i].1 == occurrences(keys, q[i].0));
    let k = p[i].0;
    let at = choose|j: int| 0 <= j < q.len() && (#[trigger] q[j]).0 == k;
    assert(occurrences(keys, k) > 0);
    assert(q[at].0 == k);
    let l = q[i].0;
    assert(occurrences(keys, l) > 0);
    let to = choose|j: int| 0 <= j < p.len() && (#[trigger] p[j]).0 == l;
    assert(p[to].0 == l);
    if at < i {
        assert(p[at] == q[at]);
        assert(p[at].0 < p[i].0);
    }
    if to < i {
        assert(p[to] == q[to]);
        assert(q[to].0 < q[i].0);
    }
    if at > i {
        assert(q[i].0 < q[at].0);
    }
    if to > i {
        assert(p[i].0 < p[to].0);
    }
}

proof fn no_more_keys(p: Seq<(u64, u64)>, q: Seq<(u64, u64)>, keys: Seq<u64>)
    requires
        counts_of(p, keys),
        counts_of(q, keys),
    ensures
        p.len() <= q.len(),
{
    if q.len() < p.len() {
        let n = q.len() as int;
        let k = p[n].0;
        assert(p[n].1 == occurrences(keys, k));
        assert(occurrences(keys, k) > 0);
        let at = choose|j: int| 0 <= j < q.len() && (#[trigger] q[j]).0 == k;
        heads_agree(p, q, keys, at);
        assert(p[at].0 < p[n].0);
    }
}

} // verus!
