//! The cache of a simulated worker, as block hashes.

use super::lru::excess;
use super::lru::renewed;
use super::lru::without;
use super::lru::BlockLru;
use std::collections::HashMap;
use vstd::prelude::*;

verus! {

/// Blocks that running requests depend on, counted, and blocks that may be
/// evicted. Both can be matched.
pub struct KvIndex {
    pinned: HashMap<u64, u64>,
    lru: BlockLru,
    work: Ghost<nat>,
}

/// A cache as plain values: how often each block is pinned, and the evictable
/// blocks, the least recently touched first.
pub struct KvView {
    pub pinned: Map<u64, u64>,
    pub cached: Seq<u64>,
}

impl KvView {
    /// Whether a block can be matched.
    pub open spec fn has(self, h: u64) -> bool {
        self.pinned.contains_key(h) || self.cached.contains(h)
    }

    /// A pinned block is pinned at least once, and not evictable; no block is
    /// listed twice.
    pub open spec fn wf(self) -> bool {
        &&& forall|h: u64| #[trigger]
            self.pinned.contains_key(h) ==> self.pinned[h] > 0 && !self.cached.contains(h)
        &&& self.cached.no_duplicates()
        &&& self.pinned.dom().finite()
    }

    /// How many leading blocks of a chain can be matched.
    pub open spec fn matched(self, chain: Seq<u64>) -> int
        decreases chain.len(),
    {
        if chain.len() == 0 {
            0
        } else if self.has(chain[0]) {
            1 + self.matched(chain.skip(1))
        } else {
            0
        }
    }

    /// After a look at an evictable block.
    pub open spec fn looked_at(self, h: u64) -> KvView {
        if self.pinned.contains_key(h) {
            self
        } else {
            KvView { cached: renewed(self.cached, h), ..self }
        }
    }

    /// After a look at some blocks, in order.
    pub open spec fn looked_at_all(self, hashes: Seq<u64>) -> KvView
        decreases hashes.len(),
    {
        if hashes.len() == 0 {
            self
        } else {
            self.looked_at_all(hashes.drop_last()).looked_at(hashes.last())
        }
    }

    /// With one more pin on a block.
    pub open spec fn pin(self, h: u64) -> KvView {
        KvView {
            pinned: self.pinned.insert(
                h,
                if self.pinned.contains_key(h) {
                    (self.pinned[h] + 1) as u64
                } else {
                    1
                },
            ),
            cached: without(self.cached, h),
        }
    }

    /// With one more pin on each of some blocks.
    pub open spec fn pin_all(self, hashes: Seq<u64>) -> KvView
        decreases hashes.len(),
    {
        if hashes.len() == 0 {
            self
        } else {
            self.pin_all(hashes.drop_last()).pin(hashes.last())
        }
    }

    /// With one pin less on a block. The last one makes it evictable.
    pub open spec fn unpin(self, h: u64) -> KvView {
        if !self.pinned.contains_key(h) {
            self
        } else if self.pinned[h] > 1 {
            KvView { pinned: self.pinned.insert(h, (self.pinned[h] - 1) as u64), ..self }
        } else {
            KvView { pinned: self.pinned.remove(h), cached: renewed(self.cached, h) }
        }
    }

    /// With one pin less on each of some blocks.
    pub open spec fn unpin_all(self, hashes: Seq<u64>) -> KvView
        decreases hashes.len(),
    {
        if hashes.len() == 0 {
            self
        } else {
            self.unpin_all(hashes.drop_last()).unpin(hashes.last())
        }
    }

    /// With the least recently touched blocks gone that do not fit the budget.
    pub open spec fn evicted(self, budget: int, block_size: int) -> KvView {
        KvView {
            cached: self.cached.skip(excess(self.cached.len() as int, budget, block_size)),
            ..self
        }
    }
}

/// What is left without an element.
pub(crate) proof fn without_elements(s: Seq<u64>, x: u64)
    requires
        s.no_duplicates(),
    ensures
        without(s, x).no_duplicates(),
        forall|y: u64| #[trigger] without(s, x).contains(y) <==> s.contains(y) && y != x,
        without(s, x).len() <= s.len(),
    decreases s.len(),
{
    if s.len() > 0 {
        let init = s.drop_last();
        without_elements(init, x);
        let w = without(init, x);
        let post = without(s, x);
        assert(!init.contains(s.last())) by {
            if init.contains(s.last()) {
                let i = init.index_of(s.last());
                assert(s[i] == s[s.len() - 1]);
            }
        }
        assert forall|y: u64| #[trigger] post.contains(y) <==> s.contains(y) && y != x by {
            if post.contains(y) {
                let i = post.index_of(y);
                if i < w.len() {
                    assert(w[i] == y);
                    assert(w.contains(y));
                    let j = init.index_of(y);
                    assert(s[j] == y);
                } else {
                    assert(s[s.len() - 1] == y);
                }
            }
            if s.contains(y) && y != x {
                let j = s.index_of(y);
                if j < s.len() - 1 {
                    assert(init[j] == y);
                    assert(w.contains(y));
                    let i = w.index_of(y);
                    assert(post[i] == y);
                } else {
                    assert(post[post.len() - 1] == y);
                }
            }
        }
        if s.last() != x {
            assert(!w.contains(s.last()));
        }
    }
}

/// What is there after a renewal.
pub(crate) proof fn renewed_elements(s: Seq<u64>, x: u64)
    requires
        s.no_duplicates(),
    ensures
        renewed(s, x).no_duplicates(),
        forall|y: u64| #[trigger] renewed(s, x).contains(y) <==> s.contains(y) || y == x,
{
    without_elements(s, x);
    let w = without(s, x);
    let post = renewed(s, x);
    assert forall|y: u64| #[trigger] post.contains(y) <==> s.contains(y) || y == x by {
        if post.contains(y) {
            let i = post.index_of(y);
            if i < w.len() {
                assert(w[i] == y);
                assert(w.contains(y));
            }
        }
        if s.contains(y) && y != x {
            assert(w.contains(y));
            let i = w.index_of(y);
            assert(post[i] == y);
        }
        if y == x {
            assert(post[post.len() - 1] == y);
        }
    }
    assert(!w.contains(x));
}

impl View for KvIndex {
    type V = KvView;

    closed spec fn view(&self) -> KvView {
        KvView { pinned: self.pinned@, cached: self.lru@ }
    }
}

impl KvIndex {
    /// A valid cache.
    pub closed spec fn wf(&self) -> bool {
        &&& self.lru.wf()
        &&& self@.wf()
        &&& self.lru.touches() <= self.work@
        &&& forall|h: u64| #[trigger] self.pinned@.contains_key(h) ==> self.pinned@[h] <= self.work@
    }

    /// How often a block was touched or pinned.
    pub closed spec fn work(&self) -> nat {
        self.work@
    }

    /// What validity means to a caller.
    pub proof fn validity(&self)
        requires
            self.wf(),
        ensures
            self@.wf(),
    {
    }

    /// An empty cache.
    pub fn new() -> (r: KvIndex)
        ensures
            r.wf(),
            (r@ == KvView { pinned: Map::empty(), cached: Seq::empty() }),
            r.work() == 0,
    {
        broadcast use vstd::std_specs::hash::group_hash_axioms;

        KvIndex { pinned: HashMap::new(), lru: BlockLru::new(), work: Ghost(0) }
    }

    /// How many leading blocks of a chain the cache has. Evictable ones among
    /// them count as touched.
    pub fn match_blocks(&mut self, chain: &[u64]) -> (r: usize)
        requires
            old(self).wf(),
            old(self).work() + chain@.len() <= u64::MAX,
        ensures
            final(self).wf(),
            r == old(self)@.matched(chain@),
            r <= chain@.len(),
            final(self)@ == old(self)@.looked_at_all(chain@.take(r as int)),
            final(self).work() <= old(self).work() + chain@.len(),
    {
        broadcast use vstd::std_specs::hash::group_hash_axioms;

        let ghost pre = *self;
        let mut matched: usize = 0;
        proof {
            assert(chain@.take(0) =~= Seq::<u64>::empty());
            assert(chain@.skip(0) =~= chain@);
        }
        let mut more: bool = true;
        while more && matched < chain.len()
            invariant
                self.wf(),
                !more ==> pre@.matched(chain@.skip(matched as int)) == 0,
                matched <= chain@.len(),
                self@ == pre@.looked_at_all(chain@.take(matched as int)),
                forall|h: u64| self@.has(h) <==> pre@.has(h),
                self.work() == pre.work() + matched,
                pre.work() + chain@.len() <= u64::MAX,
                pre@.matched(chain@) == matched + pre@.matched(chain@.skip(matched as int)),
            decreases chain@.len() - matched + (if more {
                1int
            } else {
                0int
            }),
        {
            let hash: u64 = chain[matched];
            let ghost mid = *self;
            proof {
                let rest = chain@.skip(matched as int);
                assert(rest[0] == hash);
                assert(rest.skip(1) =~= chain@.skip(matched + 1));
                assert(chain@.take(matched + 1).drop_last() =~= chain@.take(matched as int));
                assert(chain@.take(matched + 1).last() == hash);
                assert(self@.has(hash) <==> pre@.has(hash));
            }
            if self.pinned.contains_key(&hash) {
                matched = matched + 1;
                proof {
                    self.work@ = self.work@ + 1;
                }
            } else if self.lru.contains(hash) {
                self.lru.touch(hash);
                matched = matched + 1;
                proof {
                    self.work@ = self.work@ + 1;
                    renewed_elements(mid@.cached, hash);
                    assert(self@ == mid@.looked_at(hash));
                    assert forall|h: u64| self@.has(h) <==> pre@.has(h) by {
                        assert(mid@.has(h) <==> pre@.has(h));
                    }
                }
            } else {
                more = false;
            }
        }
        proof {
            if matched == chain@.len() {
                assert(chain@.skip(matched as int) =~= Seq::<u64>::empty());
            }
        }
        matched
    }

    /// Pins blocks. One that was evictable is so no longer.
    pub fn pin(&mut self, hashes: &[u64])
        requires
            old(self).wf(),
            old(self).work() + hashes@.len() <= u64::MAX,
        ensures
            final(self).wf(),
            final(self)@ == old(self)@.pin_all(hashes@),
            final(self).work() == old(self).work() + hashes@.len(),
    {
        broadcast use vstd::std_specs::hash::group_hash_axioms;

        let ghost pre = *self;
        let mut i: usize = 0;
        assert(hashes@.take(0) =~= Seq::<u64>::empty());
        while i < hashes.len()
            invariant
                self.wf(),
                i <= hashes@.len(),
                self@ == pre@.pin_all(hashes@.take(i as int)),
                self.work() == pre.work() + i,
                pre.work() + hashes@.len() <= u64::MAX,
            decreases hashes@.len() - i,
        {
            let hash: u64 = hashes[i];
            let ghost mid = *self;
            let count: u64 = match self.pinned.get(&hash) {
                Some(n) => *n + 1,
                None => 1,
            };
            self.pinned.insert(hash, count);
            self.lru.remove(hash);
            proof {
                self.work@ = self.work@ + 1;
                without_elements(mid@.cached, hash);
                assert(self@ == mid@.pin(hash));
                let s = hashes@.take(i + 1);
                assert(s.drop_last() =~= hashes@.take(i as int));
                assert(s.last() == hash);
            }
            i = i + 1;
        }
        assert(hashes@.take(i as int) =~= hashes@);
    }

    /// Takes one pin off each block. The last one makes it evictable.
    pub fn unpin(&mut self, hashes: &[u64])
        requires
            old(self).wf(),
            old(self).work() + hashes@.len() <= u64::MAX,
        ensures
            final(self).wf(),
            final(self)@ == old(self)@.unpin_all(hashes@),
            final(self).work() == old(self).work() + hashes@.len(),
    {
        broadcast use vstd::std_specs::hash::group_hash_axioms;

        let ghost pre = *self;
        let mut i: usize = 0;
        assert(hashes@.take(0) =~= Seq::<u64>::empty());
        while i < hashes.len()
            invariant
                self.wf(),
                i <= hashes@.len(),
                self@ == pre@.unpin_all(hashes@.take(i as int)),
                self.work() == pre.work() + i,
                pre.work() + hashes@.len() <= u64::MAX,
            decreases hashes@.len() - i,
        {
            let hash: u64 = hashes[i];
            let ghost mid = *self;
            let count: u64 = match self.pinned.get(&hash) {
                Some(n) => *n,
                None => 0,
            };
            proof {
                self.work@ = self.work@ + 1;
                renewed_elements(mid@.cached, hash);
            }
            if count > 1 {
                self.pinned.insert(hash, count - 1);
            } else if count == 1 {
                self.pinned.remove(&hash);
                self.lru.touch(hash);
                assert(self.pinned@ =~= mid.pinned@.remove(hash));
            }
            proof {
                assert(self@ == mid@.unpin(hash));
                let s = hashes@.take(i + 1);
                assert(s.drop_last() =~= hashes@.take(i as int));
                assert(s.last() == hash);
            }
            i = i + 1;
        }
        assert(hashes@.take(i as int) =~= hashes@);
    }

    /// Makes blocks evictable that are not pinned.
    pub fn insert_evictable(&mut self, hashes: &[u64])
        requires
            old(self).wf(),
            old(self).work() + hashes@.len() <= u64::MAX,
        ensures
            final(self).wf(),
            final(self)@ == old(self)@.looked_at_all(hashes@),
            final(self).work() == old(self).work() + hashes@.len(),
    {
        broadcast use vstd::std_specs::hash::group_hash_axioms;

        let ghost pre = *self;
        let mut i: usize = 0;
        assert(hashes@.take(0) =~= Seq::<u64>::empty());
        while i < hashes.len()
            invariant
                self.wf(),
                i <= hashes@.len(),
                self@ == pre@.looked_at_all(hashes@.take(i as int)),
                self.work() == pre.work() + i,
                pre.work() + hashes@.len() <= u64::MAX,
            decreases hashes@.len() - i,
        {
            let hash: u64 = hashes[i];
            let ghost mid = *self;
            if !self.pinned.contains_key(&hash) {
                self.lru.touch(hash);
            }
            proof {
                self.work@ = self.work@ + 1;
                renewed_elements(mid@.cached, hash);
                assert(self@ == mid@.looked_at(hash));
                let s = hashes@.take(i + 1);
                assert(s.drop_last() =~= hashes@.take(i as int));
                assert(s.last() == hash);
            }
            i = i + 1;
        }
        assert(hashes@.take(i as int) =~= hashes@);
    }

    /// Evicts the least recently touched blocks until the rest fits the budget.
    /// Pinned blocks stay.
    pub fn evict_to(&mut self, budget_tokens: u64, block_size: usize)
        requires
            old(self).wf(),
        ensures
            final(self).wf(),
            final(self)@ == old(self)@.evicted(budget_tokens as int, block_size as int),
            final(self).work() == old(self).work(),
    {
        let ghost pre = *self;
        self.lru.evict_to(budget_tokens, block_size);
        proof {
            let n = excess(pre@.cached.len() as int, budget_tokens as int, block_size as int);
            excess_bounds(pre@.cached.len() as int, budget_tokens as int, block_size as int);
            assert forall|h: u64| self@.cached.contains(h) implies pre@.cached.contains(h) by {
                let i = self@.cached.index_of(h);
                assert(pre@.cached[i + n] == h);
            }
        }
    }

    /// Tokens of the evictable blocks.
    pub fn evictable_tokens(&self, block_size: usize) -> (r: u64)
        requires
            self.wf(),
            self@.cached.len() * block_size <= u64::MAX,
        ensures
            r == self@.cached.len() * block_size,
    {
        self.lru.tokens(block_size)
    }

    /// Tokens of the pinned blocks.
    pub fn pinned_tokens(&self, block_size: usize) -> (r: u64)
        requires
            self.wf(),
            self@.pinned.len() * block_size <= u64::MAX,
        ensures
            r == self@.pinned.len() * block_size,
    {
        (self.pinned.len() as u64) * (block_size as u64)
    }
}

/// No more blocks go than there are.
pub(crate) proof fn excess_bounds(n: int, budget: int, block_size: int)
    requires
        n >= 0,
        budget >= 0,
        block_size >= 0,
    ensures
        0 <= excess(n, budget, block_size) <= n,
{
    if block_size > 0 {
        assert(budget / block_size >= 0) by (nonlinear_arith)
            requires
                budget >= 0,
                block_size > 0,
        ;
    }
}

/// Eviction leaves what the budget has room for, no more, and never takes a
/// pinned block away.
pub proof fn eviction_respects_budget_and_pins(kv: KvView, budget: int, block_size: int, h: u64)
    requires
        kv.wf(),
        budget >= 0,
        block_size >= 0,
    ensures
        kv.evicted(budget, block_size).cached.len() * block_size <= budget || block_size == 0,
        kv.evicted(budget, block_size).pinned == kv.pinned,
        kv.pinned.contains_key(h) ==> kv.evicted(budget, block_size).has(h),
        kv.evicted(budget, block_size).has(h) ==> kv.has(h),
{
    let n = kv.cached.len() as int;
    let gone = excess(n, budget, block_size);
    let post = kv.evicted(budget, block_size);
    excess_bounds(n, budget, block_size);
    if block_size > 0 {
        assert((n - gone) * block_size <= budget) by (nonlinear_arith)
            requires
                block_size > 0,
                budget >= 0,
                n >= 0,
                n - gone <= budget / block_size,
        ;
    }
    if post.cached.contains(h) {
        let i = post.cached.index_of(h);
        assert(kv.cached[i + gone] == h);
    }
}

/// Taking off the pins that were put on leaves the pins as they were: what a
/// request pins it releases. Blocks that could be matched can be matched after.
pub proof fn unpin_undoes_pin(kv: KvView, hashes: Seq<u64>)
    requires
        kv.wf(),
        forall|h: u64| #[trigger]
            kv.pinned.contains_key(h) ==> kv.pinned[h] + hashes.len() <= u64::MAX,
        hashes.len() <= u64::MAX,
    ensures
        kv.pin_all(hashes).unpin_all(hashes).pinned == kv.pinned,
        forall|h: u64| #[trigger]
            kv.pin_all(hashes).unpin_all(hashes).has(h) <==> kv.has(h) || hashes.contains(h),
{
    pins_counted(kv, hashes);
    let mid = kv.pin_all(hashes);
    unpins_counted(mid, hashes);
    let post = mid.unpin_all(hashes);
    assert forall|h: u64| #[trigger] post.pinned.contains_key(h) == kv.pinned.contains_key(h) && (
    kv.pinned.contains_key(h) ==> post.pinned[h] == kv.pinned[h]) by {
        assert(pins(post, h) == pins(mid, h) - occurrences(hashes, h));
        assert(pins(mid, h) == pins(kv, h) + occurrences(hashes, h));
    }
    assert(post.pinned =~= kv.pinned);
    assert forall|h: u64| #[trigger] post.has(h) <==> kv.has(h) || hashes.contains(h) by {
        assert(mid.has(h) <==> kv.has(h) || hashes.contains(h));
        assert(post.has(h) <==> mid.has(h));
    }
}

/// How often a block is pinned.
pub open spec fn pins(kv: KvView, h: u64) -> int {
    if kv.pinned.contains_key(h) {
        kv.pinned[h] as int
    } else {
        0
    }
}

/// How often a hash occurs.
pub open spec fn occurrences(hashes: Seq<u64>, h: u64) -> int
    decreases hashes.len(),
{
    if hashes.len() == 0 {
        0
    } else {
        occurrences(hashes.drop_last(), h) + if hashes.last() == h {
            1int
        } else {
            0int
        }
    }
}

proof fn occurrences_bounded(hashes: Seq<u64>, h: u64)
    ensures
        0 <= occurrences(hashes, h) <= hashes.len(),
        occurrences(hashes, h) > 0 <==> hashes.contains(h),
    decreases hashes.len(),
{
    if hashes.len() > 0 {
        let init = hashes.drop_last();
        occurrences_bounded(init, h);
        if init.contains(h) {
            let i = init.index_of(h);
            assert(hashes[i] == h);
        }
        if hashes.contains(h) && hashes.last() != h {
            let i = hashes.index_of(h);
            assert(init[i] == h);
        }
        assert(hashes[hashes.len() - 1] == hashes.last());
    }
}

/// Pinning adds one pin per occurrence, and keeps a cache valid.
pub proof fn pins_counted(kv: KvView, hashes: Seq<u64>)
    requires
        kv.wf(),
        forall|h: u64| #[trigger]
            kv.pinned.contains_key(h) ==> kv.pinned[h] + hashes.len() <= u64::MAX,
        hashes.len() <= u64::MAX,
    ensures
        kv.pin_all(hashes).wf(),
        forall|h: u64| #[trigger]
            pins(kv.pin_all(hashes), h) == pins(kv, h) + occurrences(hashes, h),
        forall|h: u64| #[trigger]
            kv.pin_all(hashes).has(h) <==> kv.has(h) || hashes.contains(h),
    decreases hashes.len(),
{
    if hashes.len() > 0 {
        let init = hashes.drop_last();
        let x = hashes.last();
        pins_counted(kv, init);
        let mid = kv.pin_all(init);
        let post = mid.pin(x);
        without_elements(mid.cached, x);
        occurrences_bounded(init, x);
        assert(pins(mid, x) == pins(kv, x) + occurrences(init, x));
        assert forall|h: u64| #[trigger] pins(post, h) == pins(kv, h) + occurrences(hashes, h) by {
            assert(pins(mid, h) == pins(kv, h) + occurrences(init, h));
        }
        assert forall|h: u64| #[trigger] post.has(h) <==> kv.has(h) || hashes.contains(h) by {
            assert(mid.has(h) <==> kv.has(h) || init.contains(h));
            occurrences_bounded(init, h);
            occurrences_bounded(hashes, h);
        }
    }
}

/// Unpinning takes one pin off per occurrence, and keeps a cache valid.
pub proof fn unpins_counted(kv: KvView, hashes: Seq<u64>)
    requires
        kv.wf(),
    ensures
        kv.unpin_all(hashes).wf(),
        forall|h: u64|
            pins(kv, h) >= occurrences(hashes, h) ==> #[trigger] pins(kv.unpin_all(hashes), h)
                == pins(kv, h) - occurrences(hashes, h),
        forall|h: u64| #[trigger] kv.unpin_all(hashes).has(h) <==> kv.has(h),
    decreases hashes.len(),
{
    if hashes.len() > 0 {
        let init = hashes.drop_last();
        let x = hashes.last();
        unpins_counted(kv, init);
        let mid = kv.unpin_all(init);
        let post = mid.unpin(x);
        renewed_elements(mid.cached, x);
        assert forall|h: u64| pins(kv, h) >= occurrences(hashes, h) implies #[trigger] pins(post, h)
            == pins(kv, h) - occurrences(hashes, h) by {
            occurrences_bounded(init, h);
            assert(pins(mid, h) == pins(kv, h) - occurrences(init, h));
        }
        assert forall|h: u64| #[trigger] post.has(h) <==> kv.has(h) by {
            assert(mid.has(h) <==> kv.has(h));
        }
    }
}

} // verus!
