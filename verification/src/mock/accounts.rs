//! A simulated worker's accounts: what requests claim, what is cached, and what is
//! reported.

use super::hash::block_at;
use super::hash::chain_at;
use super::hash::chain_of;
use super::hash::fnv_ids;
use super::hash::fnv_step;
use super::hash::scrambled;
use super::hash::FNV_PRIME;
use super::hash::FNV_SEED;
use super::kv::excess_bounds;
use super::kv::pins;
use super::kv::pins_counted;
use super::kv::renewed_elements;
use super::kv::unpins_counted;
use super::kv::without_elements;
use super::kv::KvView;
use super::laws::room_for_pins;
use super::laws::running;
use super::lru::excess;
use super::lru::renewed;
use super::lru::without;
use super::sim::effective_at;
use super::sim::effective_of;
use super::sim::image_span;
use super::sim::image_token;
use super::sim::image_tokens;
use super::sim::output_for;
use super::sim::run_start;
use super::sim::runs_before;
use super::sim::GuardView;
use super::sim::SimParams;
use super::sim::SimView;
use crate::lineage;
use vstd::prelude::*;

verus! {

/// The first `n` blocks of the prompt are cached, and the next is not.
pub open spec fn cached_up_to(kv: KvView, chain: Seq<u64>, n: int) -> bool {
    &&& 0 <= n <= chain.len()
    &&& forall|i: int| 0 <= i < n ==> kv.has(#[trigger] chain[i])
    &&& n < chain.len() ==> !kv.has(chain[n])
}

/// A match goes as far as blocks are there, and no further.
pub proof fn matches_end_at_the_first_miss(kv: KvView, chain: Seq<u64>)
    ensures
        cached_up_to(kv, chain, kv.matched(chain)),
        forall|n: int| cached_up_to(kv, chain, n) ==> n == kv.matched(chain),
    decreases chain.len(),
{
    if chain.len() > 0 {
        let rest = chain.skip(1);
        matches_end_at_the_first_miss(kv, rest);
        if kv.has(chain[0]) {
            let n = kv.matched(rest);
            assert forall|i: int| 0 <= i < n + 1 implies kv.has(#[trigger] chain[i]) by {
                if i > 0 {
                    assert(kv.has(rest[i - 1]));
                }
            }
            if n < rest.len() {
                assert(chain[n + 1] == rest[n]);
            }
        }
        assert forall|n: int| cached_up_to(kv, chain, n) implies n == kv.matched(chain) by {
            let m = kv.matched(chain);
            assert(cached_up_to(kv, chain, m));
            if n < m {
                assert(kv.has(chain[n]));
            } else if m < n {
                assert(kv.has(chain[m]));
            }
        }
    }
}

/// A request claims what is not cached of its prompt, and room for its output: from
/// its admission to its end, used tokens are higher by just that much. A prompt that
/// is cached whole claims its output alone.
pub proof fn requests_claim_what_is_not_cached(w: SimView, prompt: Seq<u32>, max_new: u32)
    requires
        w.params.block_size > 0,
    ensures
        ({
            let block = w.params.block_size as int;
            let n = w.hit(prompt);
            let a = w.admitted(prompt, max_new);
            let r = w.request(prompt, max_new);
            &&& cached_up_to(w.kv, chain_of(prompt, block), n)
            &&& 0 <= n * block <= prompt.len()
            &&& a.running_tokens == w.running_tokens + (prompt.len() - n * block) + max_new
            &&& r.private_tokens == a.running_tokens - w.running_tokens
            &&& r.pinned_blocks == n
            &&& !r.prefill_done
            &&& r.prompt == prompt
            &&& r.chain == chain_of(prompt, block)
            &&& a.running == w.running + 1
            &&& a.waiting == w.waiting - 1
            &&& a.waiting_uncached_tokens == w.waiting_uncached_tokens - prompt.len()
            &&& n * block == prompt.len() ==> a.running_tokens == w.running_tokens + max_new
            &&& n == 0 ==> a.running_tokens == w.running_tokens + prompt.len() + max_new
        }),
{
    let block = w.params.block_size as int;
    let n = w.hit(prompt);
    matches_end_at_the_first_miss(w.kv, chain_of(prompt, block));
    assert(0 <= n * block <= prompt.len() && (n == 0 ==> n * block == 0)) by (nonlinear_arith)
        requires
            block > 0,
            0 <= n <= prompt.len() as int / block,
    ;
}

/// A request that waits counts as waiting, with its whole prompt, until it is admitted;
/// it changes nothing else.
pub proof fn waiting_is_counted(w: SimView, prompt: Seq<u32>, max_new: u32)
    ensures
        w.queued(prompt.len() as int).waiting == w.waiting + 1,
        w.queued(prompt.len() as int).waiting_uncached_tokens == w.waiting_uncached_tokens
            + prompt.len(),
        w.queued(prompt.len() as int).running == w.running,
        w.queued(prompt.len() as int).running_tokens == w.running_tokens,
        w.queued(prompt.len() as int).kv == w.kv,
        running(w, prompt, max_new).waiting == w.waiting,
        running(w, prompt, max_new).waiting_uncached_tokens == w.waiting_uncached_tokens,
{
}

/// A request that runs to its end gives back all that it claimed: afterwards counters
/// and pins are what they were before it came.
pub proof fn requests_give_back_their_claim(w: SimView, prompt: Seq<u32>, max_new: u32)
    requires
        w.kv.wf(),
        w.params.block_size > 0,
        w.running >= 0,
        w.running_tokens >= 0,
        room_for_pins(w.kv, chain_of(prompt, w.params.block_size as int).len() as int),
    ensures
        ({
            let q = w.queued(prompt.len() as int);
            let r = q.request(prompt, max_new);
            let done = running(w, prompt, max_new).prefilled(r);
            let post = done.completed(r.after_prefill());
            &&& done.running_tokens == running(w, prompt, max_new).running_tokens
            &&& done.running == running(w, prompt, max_new).running
            &&& post.running == w.running
            &&& post.running_tokens == w.running_tokens
            &&& post.waiting == w.waiting
            &&& post.waiting_uncached_tokens == w.waiting_uncached_tokens
            &&& post.kv.pinned == w.kv.pinned
        }),
{
    let q = w.queued(prompt.len() as int);
    let r = q.request(prompt, max_new);
    let block = w.params.block_size as int;
    let chain = chain_of(prompt, block);
    requests_claim_what_is_not_cached(q, prompt, max_new);
    let n = q.hit(prompt);
    let a = chain.take(n);
    let b = chain.skip(n);
    let looked = w.kv.looked_at_all(a);
    looks_keep_pins(w.kv, a);
    pins_counted(looked, a);
    let mid = running(w, prompt, max_new);
    assert(mid.kv.pinned == looked.pin_all(a).pinned);
    let done = mid.prefilled(r);
    pins_ignore_order(mid.kv, looked.pin_all(a), b);
    assert(a + b =~= chain);
    pins_add(looked, a, b);
    pins_counted(looked, chain);
    let all = looked.pin_all(chain);
    assert(done.kv.pinned == all.pinned);
    assert(chain.take(chain.len() as int) =~= chain);
    unpins_ignore_order(done.kv, all, chain);
    unpins_counted(all, chain);
    super::kv::unpin_undoes_pin(looked, chain);
    let released = done.kv.unpin_all(chain);
    assert(released.pinned == looked.pinned);
    looks_keep_pinned(released, chain_of(r.prompt + r.output, block));
}

/// Looks put no pins on, and keep a cache valid.
proof fn looks_keep_pins(kv: KvView, hashes: Seq<u64>)
    requires
        kv.wf(),
    ensures
        kv.looked_at_all(hashes).wf(),
        kv.looked_at_all(hashes).pinned == kv.pinned,
    decreases hashes.len(),
{
    if hashes.len() > 0 {
        looks_keep_pins(kv, hashes.drop_last());
        let mid = kv.looked_at_all(hashes.drop_last());
        renewed_elements(mid.cached, hashes.last());
    }
}

proof fn looks_keep_pinned(kv: KvView, hashes: Seq<u64>)
    ensures
        kv.looked_at_all(hashes).pinned == kv.pinned,
    decreases hashes.len(),
{
    if hashes.len() > 0 {
        looks_keep_pinned(kv, hashes.drop_last());
    }
}

/// Pins depend on pins alone.
proof fn pins_ignore_order(a: KvView, b: KvView, hashes: Seq<u64>)
    requires
        a.pinned == b.pinned,
    ensures
        a.pin_all(hashes).pinned == b.pin_all(hashes).pinned,
    decreases hashes.len(),
{
    if hashes.len() > 0 {
        pins_ignore_order(a, b, hashes.drop_last());
    }
}

proof fn unpins_ignore_order(a: KvView, b: KvView, hashes: Seq<u64>)
    requires
        a.pinned == b.pinned,
    ensures
        a.unpin_all(hashes).pinned == b.unpin_all(hashes).pinned,
    decreases hashes.len(),
{
    if hashes.len() > 0 {
        unpins_ignore_order(a, b, hashes.drop_last());
    }
}

proof fn pins_add(kv: KvView, a: Seq<u64>, b: Seq<u64>)
    ensures
        kv.pin_all(a).pin_all(b) == kv.pin_all(a + b),
    decreases b.len(),
{
    if b.len() == 0 {
        assert(a + b =~= a);
    } else {
        pins_add(kv, a, b.drop_last());
        assert((a + b).drop_last() =~= a + b.drop_last());
        assert((a + b).last() == b.last());
    }
}

/// While a request runs, what it found cached stays: every block that it matched is
/// pinned from its admission on.
pub proof fn matched_blocks_are_pinned(w: SimView, prompt: Seq<u32>, max_new: u32, i: int)
    requires
        0 <= i < w.hit(prompt) <= chain_of(prompt, w.params.block_size as int).len(),
    ensures
        w.admitted(prompt, max_new).kv.pinned.contains_key(
            chain_of(prompt, w.params.block_size as int)[i],
        ),
        w.admitted(prompt, max_new).kv.has(chain_of(prompt, w.params.block_size as int)[i]),
{
    let chain = chain_of(prompt, w.params.block_size as int);
    let part = chain.take(w.hit(prompt));
    assert(part[i] == chain[i]);
    pinned_stay(w.kv.looked_at_all(part), part, i);
}

proof fn pinned_stay(kv: KvView, hashes: Seq<u64>, i: int)
    requires
        0 <= i < hashes.len(),
    ensures
        kv.pin_all(hashes).pinned.contains_key(hashes[i]),
    decreases hashes.len(),
{
    if i < hashes.len() - 1 {
        assert(hashes.drop_last()[i] == hashes[i]);
        pinned_stay(kv, hashes.drop_last(), i);
    }
}

/// What ran to its end is cached: prompt and output, block after block, are the latest
/// that was touched, in their order, unless they are pinned.
pub proof fn finished_requests_are_cached(w: SimView, r: GuardView, i: int)
    requires
        w.kv.wf(),
        w.params.block_size > 0,
        r.prefill_done,
        w.kv.cached.len() + r.chain.len() + chain_of(
            r.prompt + r.output,
            w.params.block_size as int,
        ).len() <= (w.params.kv_capacity_tokens - w.running_tokens) / w.params.block_size as int,
        r.private_tokens >= 0,
        0 <= w.running_tokens <= w.params.kv_capacity_tokens,
        0 <= r.pinned_blocks <= r.chain.len(),
        0 <= i < chain_of(r.prompt + r.output, w.params.block_size as int).len(),
    ensures
        w.completed(r).kv.has(chain_of(r.prompt + r.output, w.params.block_size as int)[i]),
{
    let block = w.params.block_size as int;
    let full = chain_of(r.prompt + r.output, block);
    let part = r.chain.take(r.pinned_blocks);
    unpins_counted(w.kv, part);
    unpins_len(w.kv, part);
    let released = w.kv.unpin_all(part);
    looks_len(released, full);
    looks_add_them(released, full, i);
    let published = released.looked_at_all(full);
    let left = super::sim::less(w.running_tokens, r.private_tokens);
    let budget = super::sim::less(w.params.kv_capacity_tokens as int, left);
    let room = w.params.kv_capacity_tokens - w.running_tokens;
    assert(published.cached.len() <= budget / block) by {
        assert(room / block <= budget / block) by (nonlinear_arith)
            requires
                block > 0,
                0 <= room <= budget,
        ;
    }
    assert(excess(published.cached.len() as int, budget, block) == 0);
    assert(published.cached.skip(0) =~= published.cached);
}

proof fn unpins_len(kv: KvView, hashes: Seq<u64>)
    requires
        kv.wf(),
    ensures
        kv.unpin_all(hashes).cached.len() <= kv.cached.len() + hashes.len(),
    decreases hashes.len(),
{
    if hashes.len() > 0 {
        unpins_counted(kv, hashes.drop_last());
        unpins_len(kv, hashes.drop_last());
        without_elements(kv.unpin_all(hashes.drop_last()).cached, hashes.last());
    }
}

proof fn looks_len(kv: KvView, hashes: Seq<u64>)
    requires
        kv.wf(),
    ensures
        kv.looked_at_all(hashes).wf(),
        kv.looked_at_all(hashes).cached.len() <= kv.cached.len() + hashes.len(),
    decreases hashes.len(),
{
    looks_keep_pins(kv, hashes);
    if hashes.len() > 0 {
        looks_len(kv, hashes.drop_last());
        without_elements(kv.looked_at_all(hashes.drop_last()).cached, hashes.last());
    }
}

proof fn looks_add_them(kv: KvView, hashes: Seq<u64>, i: int)
    requires
        kv.wf(),
        0 <= i < hashes.len(),
    ensures
        kv.looked_at_all(hashes).has(hashes[i]),
    decreases hashes.len(),
{
    let init = hashes.drop_last();
    looks_len(kv, init);
    let mid = kv.looked_at_all(init);
    renewed_elements(mid.cached, hashes.last());
    if i < init.len() {
        assert(init[i] == hashes[i]);
        looks_add_them(kv, init, i);
        assert(mid.has(hashes[i]));
    }
}

/// A request that is done with prefill changes nothing by being so again.
pub proof fn prefill_is_done_once(w: SimView, r: GuardView)
    requires
        r.wf(),
    ensures
        w.prefilled(r).prefilled(r.after_prefill()) == w.prefilled(r),
        r.after_prefill().prefill_done,
        r.after_prefill().pinned_blocks == r.chain.len(),
        r.after_prefill().private_tokens == r.private_tokens,
{
}

// ── Eviction ────────────────────────────────────────────────────────────────

/// What is evicted was touched longest ago: what is left are the latest, in their order,
/// as many as fit, and not one less. Pins are left alone.
pub proof fn eviction_takes_the_oldest(kv: KvView, budget: int, block: int)
    requires
        budget >= 0,
        block > 0,
    ensures
        ({
            let post = kv.evicted(budget, block);
            let gone = kv.cached.len() - post.cached.len();
            &&& post.pinned == kv.pinned
            &&& 0 <= gone
            &&& forall|i: int|
                0 <= i < post.cached.len() ==> #[trigger] post.cached[i] == kv.cached[i + gone]
            &&& post.cached.len() * block <= budget
            &&& gone > 0 ==> (post.cached.len() + 1) * block > budget
        }),
{
    let n = kv.cached.len() as int;
    excess_bounds(n, budget, block);
    let post = kv.evicted(budget, block);
    let k = post.cached.len() as int;
    let fit = budget / block;
    assert(fit * block <= budget && (fit + 1) * block > budget) by (nonlinear_arith)
        requires
            block > 0,
            budget >= 0,
            fit == budget / block,
    ;
    assert(k * block <= fit * block) by (nonlinear_arith)
        requires
            block > 0,
            k <= fit,
    ;
}

/// A touch makes a block the latest, and leaves the order of the others.
pub proof fn touches_renew(s: Seq<u64>, x: u64, i: int, j: int)
    requires
        s.no_duplicates(),
        0 <= i < j < s.len(),
        s[i] != x,
        s[j] != x,
    ensures
        renewed(s, x).last() == x,
        renewed(s, x).no_duplicates(),
        renewed(s, x).index_of(s[i]) < renewed(s, x).index_of(s[j]) < renewed(s, x).len() - 1,
        renewed(s, x).contains(s[i]),
{
    renewed_elements(s, x);
    without_elements(s, x);
    let r = renewed(s, x);
    let (a, b) = without_keeps_order(s, x, i, j);
    assert(r[a] == s[i]);
    assert(r[b] == s[j]);
    assert(r.contains(s[i]));
    assert(r.contains(s[j]));
    let c = r.index_of(s[i]);
    let d = r.index_of(s[j]);
    assert(r[c] == r[a] && r[d] == r[b]);
}

proof fn without_keeps_order(s: Seq<u64>, x: u64, i: int, j: int) -> (r: (int, int))
    requires
        0 <= i < j < s.len(),
        s[i] != x,
        s[j] != x,
    ensures
        0 <= r.0 < r.1 < without(s, x).len(),
        without(s, x)[r.0] == s[i],
        without(s, x)[r.1] == s[j],
    decreases s.len(),
{
    let init = s.drop_last();
    if j < s.len() - 1 {
        let (a, b) = without_keeps_order(init, x, i, j);
        (a, b)
    } else {
        let a = without_keeps(init, x, i);
        (a, without(init, x).len() as int)
    }
}

proof fn without_keeps(s: Seq<u64>, x: u64, i: int) -> (a: int)
    requires
        0 <= i < s.len(),
        s[i] != x,
    ensures
        0 <= a < without(s, x).len(),
        without(s, x)[a] == s[i],
    decreases s.len(),
{
    if i < s.len() - 1 {
        without_keeps(s.drop_last(), x, i)
    } else {
        without(s.drop_last(), x).len() as int
    }
}

/// A pin takes a block out of what may be evicted, and the last one that is taken off
/// puts it back as the latest.
pub proof fn pins_hold_blocks(kv: KvView, h: u64)
    requires
        kv.wf(),
        pins(kv, h) < u64::MAX,
    ensures
        pins(kv.pin(h), h) == pins(kv, h) + 1,
        !kv.pin(h).cached.contains(h),
        kv.pin(h).has(h),
        pins(kv, h) > 0 ==> pins(kv.unpin(h), h) == pins(kv, h) - 1,
        pins(kv, h) == 0 ==> kv.unpin(h) == kv,
        pins(kv, h) == 1 ==> kv.unpin(h).cached.len() > 0 && kv.unpin(h).cached.last() == h,
        kv.unpin(h).has(h) <==> kv.has(h),
        kv.looked_at(h).has(h),
        pins(kv.looked_at(h), h) == pins(kv, h),
        pins(kv, h) == 0 ==> kv.looked_at(h).cached.last() == h,
{
    without_elements(kv.cached, h);
    renewed_elements(kv.cached, h);
    let r = renewed(kv.cached, h);
    assert(r[r.len() - 1] == h);
}

// ── Load ────────────────────────────────────────────────────────────────────

/// The load tells what runs, what waits and what is claimed; what is claimed past the
/// capacity does not show, and a worker without capacity has one token of it.
pub proof fn loads_tell_the_counters(w: SimView)
    requires
        0 <= w.running <= i64::MAX,
        0 <= w.waiting <= i64::MAX,
        i64::MIN <= w.waiting_uncached_tokens <= i64::MAX,
        0 <= w.running_tokens,
        w.params.kv_capacity_tokens <= i64::MAX,
        w.params.max_running <= i64::MAX,
    ensures
        ({
            let l = w.load_of();
            &&& l.num_running_reqs == w.running
            &&& l.num_waiting_reqs == w.waiting
            &&& l.num_waiting_uncached_tokens == w.waiting_uncached_tokens
            &&& l.max_running_requests == w.params.max_running
            &&& w.params.kv_capacity_tokens > 0 ==> l.max_total_num_tokens
                == w.params.kv_capacity_tokens
            &&& w.params.kv_capacity_tokens == 0 ==> l.max_total_num_tokens == 1
            &&& l.num_used_tokens <= l.max_total_num_tokens
            &&& w.running_tokens <= l.max_total_num_tokens ==> l.num_used_tokens
                == w.running_tokens
            &&& w.running_tokens > l.max_total_num_tokens ==> l.num_used_tokens
                == l.max_total_num_tokens
        }),
{
}

/// Admitting a request shows in the load: used tokens rise by the prompt's tokens that
/// are not cached and by what may be put out, as far as there is capacity.
pub proof fn admissions_show_in_the_load(w: SimView, prompt: Seq<u32>, max_new: u32)
    requires
        w.params.block_size > 0,
        0 <= w.running < i64::MAX,
        0 < w.waiting <= i64::MAX,
        0 <= w.running_tokens,
        i64::MIN <= w.waiting_uncached_tokens - prompt.len(),
        w.waiting_uncached_tokens <= i64::MAX,
        w.params.max_running <= i64::MAX,
        w.running_tokens + prompt.len() + max_new <= w.params.kv_capacity_tokens <= i64::MAX,
    ensures
        ({
            let cached = w.hit(prompt) * w.params.block_size;
            let a = w.admitted(prompt, max_new).load_of();
            &&& a.num_used_tokens == w.load_of().num_used_tokens + prompt.len() - cached + max_new
            &&& a.num_running_reqs == w.load_of().num_running_reqs + 1
            &&& a.num_waiting_reqs == w.load_of().num_waiting_reqs - 1
            &&& a.num_waiting_uncached_tokens == w.load_of().num_waiting_uncached_tokens
                - prompt.len()
        }),
{
    requests_claim_what_is_not_cached(w, prompt, max_new);
}

// ── Hashes ──────────────────────────────────────────────────────────────────

/// A step loses nothing.
proof fn steps_are_injective(h: u64, x: u64, g: u64, y: u64)
    requires
        fnv_step(h, x) == fnv_step(g, y),
        h == g || x == y,
    ensures
        h == g && x == y,
{
    lineage::product_is_injective(h ^ x, g ^ y, FNV_PRIME, 0xce965057aff6957b, 0xce9650590f);
    assert((h == g ==> x == y) && (x == y ==> h == g)) by (bit_vector)
        requires
            h ^ x == g ^ y,
    ;
}

proof fn ids_are_told_apart(h: u64, a: Seq<u32>, g: u64, b: Seq<u32>, i: int)
    requires
        a.len() == b.len(),
        forall|x: int| 0 <= x < a.len() && x != i ==> a[x] == b[x],
        h == g || a == b,
        h != g || (0 <= i < a.len() && a[i] != b[i]),
    ensures
        fnv_ids(h, a) != fnv_ids(g, b),
    decreases a.len(),
{
    if a.len() > 0 {
        let n = a.len() - 1;
        let c = a.drop_last();
        let d = b.drop_last();
        if h == g && i == n {
            assert(c =~= d);
            if fnv_ids(h, a) == fnv_ids(g, b) {
                steps_are_injective(fnv_ids(h, c), a[n] as u64, fnv_ids(g, d), b[n] as u64);
            }
        } else {
            if h != g {
                assert(c =~= d);
            }
            ids_are_told_apart(h, c, g, d, i);
            if fnv_ids(h, a) == fnv_ids(g, b) {
                steps_are_injective(fnv_ids(h, c), a[n] as u64, fnv_ids(g, d), b[n] as u64);
            }
        }
    }
}

/// The hash of a block tells the sequence up to its end: two sequences that differ in
/// one token have the same hashes before that token's block, and different ones from
/// it on; what is behind the last full block has no hash.
pub proof fn one_token_changes_the_chain(a: Seq<u32>, b: Seq<u32>, block: int, x: int, i: int)
    requires
        block > 0,
        a.len() == b.len(),
        0 <= x < a.len(),
        forall|y: int| 0 <= y < a.len() && y != x ==> a[y] == b[y],
        a[x] != b[x],
        0 <= i < chain_of(a, block).len(),
    ensures
        chain_of(a, block).len() == chain_of(b, block).len(),
        chain_of(a, block).len() == a.len() as int / block,
        (i + 1) * block <= x ==> chain_of(a, block)[i] == chain_of(b, block)[i],
        x < (i + 1) * block ==> chain_of(a, block)[i] != chain_of(b, block)[i],
{
    let n = a.len() as int / block;
    assert(n * block <= a.len()) by (nonlinear_arith)
        requires
            block > 0,
            a.len() >= 0,
            n == a.len() as int / block,
    ;
    chains_differ(a, b, block, x, n, i);
}

proof fn chains_differ(a: Seq<u32>, b: Seq<u32>, block: int, x: int, n: int, i: int)
    requires
        block > 0,
        a.len() == b.len(),
        0 <= x < a.len(),
        forall|y: int| 0 <= y < a.len() && y != x ==> a[y] == b[y],
        a[x] != b[x],
        n * block <= a.len(),
        -1 <= i < n,
    ensures
        (i + 1) * block <= x ==> chain_at(a, block, i) == chain_at(b, block, i),
        x < (i + 1) * block ==> chain_at(a, block, i) != chain_at(b, block, i),
    decreases i + 1,
{
    if i >= 0 {
        chains_differ(a, b, block, x, n, i - 1);
        assert(0 <= i * block && (i + 1) * block <= n * block && (i + 1) * block == i * block
            + block) by (nonlinear_arith)
            requires
                block > 0,
                0 <= i < n,
        ;
        let c = block_at(a, block, i);
        let d = block_at(b, block, i);
        let p = chain_at(a, block, i - 1);
        let q = chain_at(b, block, i - 1);
        if (i + 1) * block <= x {
            assert(c =~= d);
        } else if x < i * block {
            assert(c =~= d);
            assert(p ^ FNV_PRIME != q ^ FNV_PRIME) by (bit_vector)
                requires
                    p != q,
            ;
            ids_are_told_apart(p ^ FNV_PRIME, c, q ^ FNV_PRIME, d, 0);
        } else {
            assert(p == q);
            let k = x - i * block;
            assert(c[k] == a[x] && d[k] == b[x]);
            assert forall|y: int| 0 <= y < c.len() && y != k implies c[y] == d[y] by {
                assert(c[y] == a[i * block + y]);
                assert(d[y] == b[i * block + y]);
            }
            ids_are_told_apart(p ^ FNV_PRIME, c, q ^ FNV_PRIME, d, k);
        }
    } else {
        assert((i + 1) * block == 0) by (nonlinear_arith)
            requires
                i == -1,
        ;
    }
}

/// The output of a request is drawn from its content: from the hash of its last full
/// block, from its length and from how much it asks for.
pub proof fn outputs_are_drawn_from_the_prompt(prompt: Seq<u32>, block: int, max_new: u32, k: int)
    requires
        0 <= k < max_new,
        block > 0,
    ensures
        ({
            let chain = chain_of(prompt, block);
            let last = if chain.len() > 0 {
                chain[chain.len() - 1]
            } else {
                FNV_SEED
            };
            let seed = scrambled(last ^ (prompt.len() as u64) ^ ((max_new as u64) << 32));
            output_for(prompt, block, max_new)[k] == scrambled(seed ^ (k as u64)) % 30_000
        }),
        output_for(prompt, block, max_new).len() == max_new,
{
}

// ── Images ──────────────────────────────────────────────────────────────────

/// Text is cached as it is: without images, and without placeholders, the sequence is
/// the input, followed by the images' tokens where there are any.
pub proof fn plain_text_is_cached_as_it_is(
    ids: Seq<u32>,
    images: Seq<Seq<u8>>,
    params: SimParams,
    i: int,
)
    requires
        0 <= i < ids.len(),
    ensures
        effective_of(ids, images, params).len() >= ids.len(),
        ids[i] != params.image_placeholder_id ==> effective_of(ids, images, params)[i] == ids[i],
        images.len() == 0 ==> effective_of(ids, images, params) == ids,
{
    let ph = params.image_placeholder_id;
    if images.len() == 0 {
        let out = effective_of(ids, images, params);
        let text = Seq::new(ids.len(), |i: int| effective_at(ids, images, ph, i));
        assert(runs_before(ids, ph, ids.len() as int) >= 0) by {
            runs_count_up(ids, ph, 0, ids.len() as int);
        }
        assert(image_tokens(Seq::<Seq<u8>>::empty(), params) =~= Seq::empty());
        assert(text =~= ids) by {
            assert forall|x: int| 0 <= x < ids.len() implies text[x] == ids[x] by {
                no_image_for(ids, images, ph, x);
            }
        }
        assert(out == text + Seq::<u32>::empty());
        assert(out =~= ids);
    }
}

proof fn no_image_for(ids: Seq<u32>, images: Seq<Seq<u8>>, ph: u32, x: int)
    requires
        0 <= x < ids.len(),
        images.len() == 0,
    ensures
        effective_at(ids, images, ph, x) == ids[x],
{
    if ids[x] == ph {
        a_run_is_there(ids, ph, x);
    }
}

proof fn a_run_is_there(ids: Seq<u32>, ph: u32, i: int)
    requires
        0 <= i < ids.len(),
        ids[i] == ph,
    ensures
        runs_before(ids, ph, i + 1) >= 1,
    decreases i,
{
    runs_count_up(ids, ph, 0, i);
    if i > 0 && ids[i - 1] == ph {
        a_run_is_there(ids, ph, i - 1);
    }
}

proof fn runs_count_up(ids: Seq<u32>, ph: u32, i: int, j: int)
    requires
        0 <= i <= j,
    ensures
        0 <= runs_before(ids, ph, i) <= runs_before(ids, ph, j),
    decreases j,
{
    if i < j {
        runs_count_up(ids, ph, i, j - 1);
    } else if j > 0 {
        runs_count_up(ids, ph, j - 1, j - 1);
    }
}

/// A run of placeholders from `from` to `to`.
pub open spec fn is_run(ids: Seq<u32>, ph: u32, from: int, to: int) -> bool {
    &&& 0 <= from < to <= ids.len()
    &&& from == 0 || ids[from - 1] != ph
    &&& to == ids.len() || ids[to] != ph
    &&& forall|x: int| from <= x < to ==> ids[x] == ph
}

/// A run of placeholders gives way to its image: as many tokens as the run is long, the
/// first ones of the image that has the run's number; without such an image the
/// placeholders stay. Tokens of images are told apart from text by their range.
pub proof fn runs_give_way_to_their_image(
    ids: Seq<u32>,
    images: Seq<Seq<u8>>,
    params: SimParams,
    from: int,
    to: int,
    x: int,
)
    requires
        is_run(ids, params.image_placeholder_id, from, to),
        from <= x < to,
    ensures
        ({
            let r = runs_before(ids, params.image_placeholder_id, from);
            let out = effective_of(ids, images, params);
            &&& r < images.len() ==> out[x] == image_token(images[r], x - from) && 1_000_000
                <= out[x] < 2_000_000
            &&& r >= images.len() ==> out[x] == ids[x]
        }),
{
    let ph = params.image_placeholder_id;
    run_place(ids, ph, from, x);
}

proof fn run_place(ids: Seq<u32>, ph: u32, from: int, i: int)
    requires
        0 <= from <= i < ids.len(),
        from == 0 || ids[from - 1] != ph,
        forall|x: int| from <= x <= i ==> ids[x] == ph,
    ensures
        run_start(ids, ph, i) == from,
        runs_before(ids, ph, i + 1) == runs_before(ids, ph, from) + 1,
    decreases i - from,
{
    if i > from {
        run_place(ids, ph, from, i - 1);
        assert(ids[i - 1] == ph);
    } else {
        assert(ids[from] == ph);
    }
}

/// The number of runs goes up by one where a run starts, and stays else.
pub proof fn runs_are_counted(ids: Seq<u32>, ph: u32, i: int)
    requires
        0 <= i < ids.len(),
    ensures
        runs_before(ids, ph, 0) == 0,
        runs_before(ids, ph, i + 1) == runs_before(ids, ph, i) + if ids[i] == ph && (i == 0
            || ids[i - 1] != ph) {
            1int
        } else {
            0
        },
{
}

/// Images without a run follow the text, one after the other, each with as many tokens
/// as its size says, or as every image has.
pub proof fn other_images_follow(images: Seq<Seq<u8>>, params: SimParams)
    requires
        images.len() > 0,
    ensures
        ({
            let init = images.drop_last();
            let n = image_span(images.last(), params);
            let all = image_tokens(images, params);
            &&& n >= 1
            &&& params.image_tokens_per_image > 0 ==> n == params.image_tokens_per_image
            &&& params.image_tokens_per_image == 0 && params.image_bytes_per_token > 0 ==> (n - 1)
                * params.image_bytes_per_token <= images.last().len() && (n > 1 ==> n
                * params.image_bytes_per_token <= images.last().len()) && images.last().len() < (n
                + 1) * params.image_bytes_per_token
            &&& all.len() == image_tokens(init, params).len() + n
            &&& all.take(image_tokens(init, params).len() as int) == image_tokens(init, params)
            &&& forall|k: int|
                0 <= k < n ==> all[image_tokens(init, params).len() + k] == image_token(
                    images.last(),
                    k,
                )
        }),
{
    let init = images.drop_last();
    let all = image_tokens(images, params);
    let len = images.last().len() as int;
    let per = params.image_bytes_per_token as int;
    assert(all.take(image_tokens(init, params).len() as int) =~= image_tokens(init, params));
    if per > 0 {
        let d = len / per;
        assert(d >= 0 && d * per <= len && len < (d + 1) * per) by (nonlinear_arith)
            requires
                per > 0,
                len >= 0,
                d == len / per,
        ;
        let n = if d < 1 {
            1
        } else {
            d
        };
        assert((n - 1) * per <= len && (n > 1 ==> n * per <= len) && len < (n + 1) * per)
            by (nonlinear_arith)
            requires
                per > 0,
                len >= 0,
                d * per <= len,
                len < (d + 1) * per,
                d >= 0,
                n == d || (d < 1 && n == 1),
                n >= 1,
        ;
    }
}

/// One image more adds its own tokens at the end, unless there is a run of placeholders for
/// it; and where there are enough runs, nothing follows the text.
pub proof fn one_more_image_adds_its_tokens(
    ids: Seq<u32>,
    images: Seq<Seq<u8>>,
    image: Seq<u8>,
    params: SimParams,
)
    ensures
        ({
            let runs = runs_before(ids, params.image_placeholder_id, ids.len() as int);
            let more = effective_of(ids, images.push(image), params);
            let now = effective_of(ids, images, params);
            &&& runs <= images.len() ==> more == now + Seq::new(
                image_span(image, params) as nat,
                |k: int| image_token(image, k),
            )
            &&& runs > images.len() ==> more.len() == ids.len()
            &&& runs >= images.len() ==> now.len() == ids.len()
        }),
{
    let ph = params.image_placeholder_id;
    let runs = runs_before(ids, ph, ids.len() as int);
    runs_count_up(ids, ph, 0, ids.len() as int);
    let longer = images.push(image);
    assert(image_tokens(Seq::<Seq<u8>>::empty(), params) =~= Seq::empty());
    assert(images.skip(images.len() as int) =~= Seq::empty());
    assert(longer.skip(longer.len() as int) =~= Seq::empty());
    if runs <= images.len() {
        let a = Seq::new(ids.len(), |i: int| effective_at(ids, images, ph, i));
        let b = Seq::new(ids.len(), |i: int| effective_at(ids, longer, ph, i));
        assert(a =~= b) by {
            assert forall|i: int| 0 <= i < ids.len() implies effective_at(ids, images, ph, i)
                == effective_at(ids, longer, ph, i) by {
                runs_count_up(ids, ph, i + 1, ids.len() as int);
                runs_count_up(ids, ph, 0, i + 1);
                if ids[i] == ph {
                    run_has_begun(ids, ph, i);
                }
            }
        }
        let rest = images.skip(runs);
        assert(longer.skip(runs) =~= rest.push(image));
        assert(rest.push(image).drop_last() =~= rest);
        assert(effective_of(ids, longer, params) =~= effective_of(ids, images, params) + Seq::new(
            image_span(image, params) as nat,
            |k: int| image_token(image, k),
        ));
    }
}

proof fn run_has_begun(ids: Seq<u32>, ph: u32, i: int)
    requires
        0 <= i < ids.len(),
        ids[i] == ph,
    ensures
        runs_before(ids, ph, i + 1) >= 1,
    decreases i,
{
    runs_count_up(ids, ph, 0, i);
    if i > 0 && ids[i - 1] == ph {
        run_has_begun(ids, ph, i - 1);
    }
}

} // verus!
