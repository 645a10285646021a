//! Laws of the simulated worker that span a request's life.

use super::hash::chain_of;
use super::hash::chains_extend;
use super::kv::eviction_respects_budget_and_pins;
use super::kv::excess_bounds;
use super::kv::pins_counted;
use super::kv::renewed_elements;
use super::kv::unpins_counted;
use super::kv::KvView;
use super::lru::excess;
use super::sim::effective_at;
use super::sim::less;
use super::sim::runs_before;
use super::sim::GuardView;
use super::sim::SimView;
use vstd::prelude::*;

verus! {

/// A look at blocks adds what was not there, and keeps a cache valid.
proof fn looks_add(kv: KvView, hashes: Seq<u64>)
    requires
        kv.wf(),
    ensures
        kv.looked_at_all(hashes).wf(),
        kv.looked_at_all(hashes).pinned == kv.pinned,
        forall|h: u64| #[trigger]
            kv.looked_at_all(hashes).has(h) <==> kv.has(h) || hashes.contains(h),
    decreases hashes.len(),
{
    if hashes.len() > 0 {
        let init = hashes.drop_last();
        let x = hashes.last();
        looks_add(kv, init);
        let mid = kv.looked_at_all(init);
        renewed_elements(mid.cached, x);
        let post = mid.looked_at(x);
        assert forall|h: u64| #[trigger] post.has(h) <==> kv.has(h) || hashes.contains(h) by {
            assert(mid.has(h) <==> kv.has(h) || init.contains(h));
            if init.contains(h) {
                let i = init.index_of(h);
                assert(hashes[i] == h);
            }
            if hashes.contains(h) && h != x {
                let i = hashes.index_of(h);
                assert(init[i] == h);
            }
            assert(hashes[hashes.len() - 1] == x);
        }
    }
}

/// A match ends at the first block that is not there.
proof fn match_is_present(kv: KvView, chain: Seq<u64>)
    ensures
        0 <= kv.matched(chain) <= chain.len(),
        forall|i: int| 0 <= i < kv.matched(chain) ==> kv.has(#[trigger] chain[i]),
    decreases chain.len(),
{
    if chain.len() > 0 && kv.has(chain[0]) {
        let rest = chain.skip(1);
        match_is_present(kv, rest);
        assert forall|i: int| 0 <= i < kv.matched(chain) implies kv.has(#[trigger] chain[i]) by {
            if i > 0 {
                assert(kv.has(rest[i - 1]));
            }
        }
    }
}

/// A chain all of whose first blocks are there matches that far.
proof fn present_is_matched(kv: KvView, chain: Seq<u64>, n: int)
    requires
        0 <= n <= chain.len(),
        forall|i: int| 0 <= i < n ==> kv.has(#[trigger] chain[i]),
    ensures
        kv.matched(chain) >= n,
    decreases chain.len(),
{
    match_is_present(kv, chain);
    if n > 0 {
        let rest = chain.skip(1);
        assert(kv.has(chain[0]));
        assert forall|i: int| 0 <= i < n - 1 implies kv.has(#[trigger] rest[i]) by {
            assert(kv.has(chain[i + 1]));
        }
        present_is_matched(kv, rest, n - 1);
    }
}

/// The pins leave room for `n` more on every block.
pub open spec fn room_for_pins(kv: KvView, n: int) -> bool {
    &&& forall|h: u64| #[trigger] kv.pinned.contains_key(h) ==> kv.pinned[h] + n <= u64::MAX
    &&& n <= u64::MAX
}

/// The worker when the request waits, and then runs.
pub open spec fn running(w: SimView, prompt: Seq<u32>, max_new: u32) -> SimView {
    w.queued(prompt.len() as int).admitted(prompt, max_new)
}

/// What the cache of a worker is when a request runs.
proof fn running_kv(w: SimView, prompt: Seq<u32>, max_new: u32)
    requires
        w.kv.wf(),
        w.params.block_size > 0,
        room_for_pins(w.kv, chain_of(prompt, w.params.block_size as int).len() as int),
    ensures
        running(w, prompt, max_new).kv.wf(),
        forall|h: u64| #[trigger] running(w, prompt, max_new).kv.has(h) ==> w.kv.has(h),
        0 <= w.hit(prompt) <= chain_of(prompt, w.params.block_size as int).len(),
{
    let q = w.queued(prompt.len() as int);
    let block = w.params.block_size as int;
    let chain = chain_of(prompt, block);
    let n = q.hit(prompt);
    match_is_present(w.kv, chain);
    let part = chain.take(n);
    looks_add(w.kv, part);
    let looked = w.kv.looked_at_all(part);
    pins_counted(looked, part);
    let pinned = looked.pin_all(part);
    let post = running(w, prompt, max_new);
    let budget = less(w.params.kv_capacity_tokens as int, post.running_tokens);
    assert(post.kv == pinned.evicted(budget, block));
    evicted_wf(pinned, budget, block);
    assert forall|h: u64| #[trigger] post.kv.has(h) implies w.kv.has(h) by {
        eviction_respects_budget_and_pins(pinned, budget, block, h);
        assert(pinned.has(h) <==> looked.has(h) || part.contains(h));
        assert(looked.has(h) <==> w.kv.has(h) || part.contains(h));
        if part.contains(h) {
            let i = part.index_of(h);
            assert(chain[i] == h);
        }
    }
}

/// Eviction keeps a cache valid.
proof fn evicted_wf(kv: KvView, budget: int, block: int)
    requires
        kv.wf(),
        budget >= 0,
        block >= 0,
    ensures
        kv.evicted(budget, block).wf(),
{
    let n = excess(kv.cached.len() as int, budget, block);
    excess_bounds(kv.cached.len() as int, budget, block);
    let post = kv.evicted(budget, block);
    assert forall|h: u64| #[trigger] post.pinned.contains_key(h) implies post.pinned[h] > 0
        && !post.cached.contains(h) by {
        if post.cached.contains(h) {
            let i = post.cached.index_of(h);
            assert(kv.cached[i + n] == h);
        }
    }
}

/// A request that runs gives nobody anything to match that was not there: a
/// prompt is published with the end of prefill, not before.
pub proof fn cold_requests_publish_nothing(w: SimView, prompt: Seq<u32>, max_new: u32, h: u64)
    requires
        w.kv.wf(),
        w.params.block_size > 0,
        room_for_pins(w.kv, chain_of(prompt, w.params.block_size as int).len() as int),
    ensures
        running(w, prompt, max_new).kv.has(h) ==> w.kv.has(h),
{
    running_kv(w, prompt, max_new);
}

/// A request that ends before prefill is done leaves nothing behind: nothing can
/// be matched that could not be before, and the counters are as they were.
pub proof fn aborted_requests_leave_nothing(w: SimView, prompt: Seq<u32>, max_new: u32, h: u64)
    requires
        w.kv.wf(),
        w.params.block_size > 0,
        w.running >= 0,
        w.running_tokens >= 0,
        room_for_pins(w.kv, chain_of(prompt, w.params.block_size as int).len() as int),
    ensures
        ({
            let r = w.queued(prompt.len() as int).request(prompt, max_new);
            let post = running(w, prompt, max_new).completed(r);
            &&& post.kv.has(h) ==> w.kv.has(h)
            &&& post.running == w.running
            &&& post.waiting == w.waiting
            &&& post.waiting_uncached_tokens == w.waiting_uncached_tokens
            &&& post.running_tokens == w.running_tokens
        }),
{
    let q = w.queued(prompt.len() as int);
    let r = q.request(prompt, max_new);
    let mid = running(w, prompt, max_new);
    let block = w.params.block_size as int;
    running_kv(w, prompt, max_new);
    claims_are_natural(w, prompt, max_new);
    let part = r.chain.take(r.pinned_blocks);
    unpins_counted(mid.kv, part);
    let released = mid.kv.unpin_all(part);
    let post = mid.completed(r);
    assert(released.has(h) <==> mid.kv.has(h));
    assert(post.running_tokens == w.running_tokens);
    eviction_respects_budget_and_pins(
        released,
        less(w.params.kv_capacity_tokens as int, post.running_tokens),
        block,
        h,
    );
}

/// A claim is no less than the output reservation.
proof fn claims_are_natural(w: SimView, prompt: Seq<u32>, max_new: u32)
    requires
        w.params.block_size > 0,
        0 <= w.hit(prompt) <= chain_of(prompt, w.params.block_size as int).len(),
    ensures
        super::sim::claim(
            prompt.len() as int,
            w.hit(prompt) * w.params.block_size as int,
            max_new,
        ) >= max_new,
{
    let block = w.params.block_size as int;
    let n = w.hit(prompt);
    assert(n * block <= prompt.len()) by (nonlinear_arith)
        requires
            block > 0,
            0 <= n <= prompt.len() as int / block,
    ;
}

/// Prefill changes no usage, and afterwards the whole prompt can be matched.
pub proof fn prefill_publishes_the_prompt(w: SimView, r: GuardView)
    requires
        w.kv.wf(),
        r.wf(),
        !r.prefill_done,
        forall|i: int| 0 <= i < r.pinned_blocks ==> w.kv.has(#[trigger] r.chain[i]),
        room_for_pins(w.kv, r.chain.len() as int),
    ensures
        ({
            let post = w.prefilled(r);
            &&& post.running_tokens == w.running_tokens
            &&& post.running == w.running
            &&& post.kv.matched(r.chain) == r.chain.len()
            &&& forall|i: int|
                r.pinned_blocks <= i < r.chain.len() ==> post.kv.pinned.contains_key(
                    #[trigger] r.chain[i],
                )
        }),
{
    let rest = r.chain.skip(r.pinned_blocks);
    pins_counted(w.kv, rest);
    let post = w.prefilled(r);
    assert forall|i: int| 0 <= i < r.chain.len() implies post.kv.has(#[trigger] r.chain[i]) by {
        if i >= r.pinned_blocks {
            assert(rest[i - r.pinned_blocks] == r.chain[i]);
            assert(rest.contains(r.chain[i]));
        }
    }
    assert forall|i: int| r.pinned_blocks <= i < r.chain.len() implies post.kv.pinned.contains_key(
        #[trigger] r.chain[i],
    ) by {
        assert(rest[i - r.pinned_blocks] == r.chain[i]);
        pinned_after(w.kv, rest, i - r.pinned_blocks);
    }
    present_is_matched(post.kv, r.chain, r.chain.len() as int);
    match_is_present(post.kv, r.chain);
}

/// A block that was pinned is pinned.
proof fn pinned_after(kv: KvView, hashes: Seq<u64>, i: int)
    requires
        0 <= i < hashes.len(),
    ensures
        kv.pin_all(hashes).pinned.contains_key(hashes[i]),
    decreases hashes.len(),
{
    if i < hashes.len() - 1 {
        assert(hashes.drop_last()[i] == hashes[i]);
        pinned_after(kv, hashes.drop_last(), i);
    }
}

/// A later turn hits the earlier turn's prompt and output: after a request ran
/// to its end, a prompt that begins with them matches all their full blocks,
/// unless the cache has no room for what was published.
pub proof fn later_turns_hit(w: SimView, r: GuardView, prompt: Seq<u32>)
    requires
        w.kv.wf(),
        w.params.block_size > 0,
        r.prefill_done,
        r.prompt.len() + r.output.len() <= prompt.len(),
        prompt.take((r.prompt.len() + r.output.len()) as int) == r.prompt + r.output,
        excess(
            w.kv.unpin_all(r.chain.take(r.pinned_blocks)).looked_at_all(
                chain_of(r.prompt + r.output, w.params.block_size as int),
            ).cached.len() as int,
            less(
                w.params.kv_capacity_tokens as int,
                less(w.running_tokens, r.private_tokens),
            ),
            w.params.block_size as int,
        ) == 0,
    ensures
        w.completed(r).hit(prompt) >= (r.prompt.len() + r.output.len()) as int
            / w.params.block_size as int,
{
    let block = w.params.block_size as int;
    let full = r.prompt + r.output;
    let chain = chain_of(full, block);
    let longer = chain_of(prompt, block);
    chains_extend(full, prompt, block);
    let part = r.chain.take(r.pinned_blocks);
    unpins_counted(w.kv, part);
    let released = w.kv.unpin_all(part);
    looks_add(released, chain);
    let published = released.looked_at_all(chain);
    let post = w.completed(r);
    assert(published.cached.skip(0) =~= published.cached);
    assert(post.kv == published);
    assert forall|i: int| 0 <= i < chain.len() implies post.kv.has(#[trigger] longer[i]) by {
        assert(longer.take(chain.len() as int)[i] == longer[i]);
        assert(chain[i] == longer[i]);
        assert(chain.contains(chain[i]));
    }
    present_is_matched(post.kv, longer, chain.len() as int);
}

/// Whatever happens, what is cached and idle fits the capacity that running
/// requests leave.
pub proof fn cache_stays_within_capacity(w: SimView, prompt: Seq<u32>, max_new: u32, r: GuardView)
    requires
        w.params.block_size > 0,
    ensures
        ({
            let a = w.admitted(prompt, max_new);
            &&& a.kv.cached.len() * w.params.block_size <= a.budget()
            &&& a.budget() <= w.params.kv_capacity_tokens || a.running_tokens < 0
        }),
        ({
            let c = w.completed(r);
            &&& c.kv.cached.len() * w.params.block_size <= c.budget()
            &&& c.budget() <= w.params.kv_capacity_tokens
        }),
{
    let block = w.params.block_size as int;
    let a = w.admitted(prompt, max_new);
    let c = w.completed(r);
    let chain = chain_of(prompt, block);
    let n = w.hit(prompt);
    fitted(w.kv.looked_at_all(chain.take(n)).pin_all(chain.take(n)), a.budget(), block);
    let released = w.kv.unpin_all(r.chain.take(r.pinned_blocks));
    fitted(released, c.budget(), block);
    fitted(released.looked_at_all(chain_of(r.prompt + r.output, block)), c.budget(), block);
}

proof fn fitted(kv: KvView, budget: int, block: int)
    requires
        budget >= 0,
        block > 0,
    ensures
        kv.evicted(budget, block).cached.len() * block <= budget,
{
    let n = kv.cached.len() as int;
    excess_bounds(n, budget, block);
    let left = n - excess(n, budget, block);
    assert(kv.evicted(budget, block).cached.len() == left);
    assert(left * block <= budget) by (nonlinear_arith)
        requires
            block > 0,
            budget >= 0,
            left <= budget / block,
    ;
}

/// What is cached for a position depends only on the images of the runs up to
/// it: text before an image is cached alike, whatever the image.
pub proof fn images_change_nothing_before_them(
    ids: Seq<u32>,
    a: Seq<Seq<u8>>,
    b: Seq<Seq<u8>>,
    ph: u32,
    r: int,
    i: int,
)
    requires
        0 <= i < ids.len(),
        runs_before(ids, ph, i + 1) <= r,
        r <= a.len(),
        r <= b.len(),
        forall|x: int| 0 <= x < r ==> a[x] == b[x],
    ensures
        effective_at(ids, a, ph, i) == effective_at(ids, b, ph, i),
        ids[i] != ph ==> effective_at(ids, a, ph, i) == ids[i],
{
    if ids[i] == ph {
        a_run_was_met(ids, ph, i);
    }
}

proof fn a_run_was_met(ids: Seq<u32>, ph: u32, i: int)
    requires
        0 <= i < ids.len(),
        ids[i] == ph,
    ensures
        runs_before(ids, ph, i + 1) >= 1,
    decreases i,
{
    runs_are_natural(ids, ph, i);
    if i > 0 && ids[i - 1] == ph {
        a_run_was_met(ids, ph, i - 1);
    }
}

proof fn runs_are_natural(ids: Seq<u32>, ph: u32, i: int)
    ensures
        runs_before(ids, ph, i) >= 0,
    decreases i,
{
    if i > 0 {
        runs_are_natural(ids, ph, i - 1);
    }
}

/// Outputs follow from content: two workers that admit the same prompt with the
/// same block size, whatever their caches, their ports and what they admitted
/// before, give the same output, of the length asked for and with every token
/// below the bound.
pub proof fn outputs_follow_content(a: SimView, b: SimView, prompt: Seq<u32>, max_new: u32)
    requires
        a.params.block_size == b.params.block_size,
    ensures
        a.request(prompt, max_new).output == b.request(prompt, max_new).output,
        a.request(prompt, max_new).output.len() == max_new,
        forall|k: int|
            0 <= k < max_new ==> #[trigger] a.request(prompt, max_new).output[k] < 30_000,
{
}

} // verus!
