//! A set of block hashes in the order of their last touch.

use std::collections::HashMap;
use std::collections::VecDeque;
use vstd::prelude::*;

verus! {

/// Block hashes with cheap eviction of the least recently touched. A hash that
/// was touched again or removed leaves its old place in the queue behind, where
/// eviction skips it.
pub struct BlockLru {
    /// The last touch of each hash.
    live: HashMap<u64, u64>,
    /// Hashes with their touches, in the order of touches.
    order: VecDeque<(u64, u64)>,
    tick: u64,
}

/// The hashes of a queue whose last touch the pair is, in order.
spec fn alive(order: Seq<(u64, u64)>, live: Map<u64, u64>) -> Seq<u64>
    decreases order.len(),
{
    if order.len() == 0 {
        Seq::empty()
    } else {
        let init = alive(order.drop_last(), live);
        if current(order.last(), live) {
            init.push(order.last().0)
        } else {
            init
        }
    }
}

/// The pair is the last touch of its hash.
spec fn current(pair: (u64, u64), live: Map<u64, u64>) -> bool {
    live.contains_key(pair.0) && live[pair.0] == pair.1
}

/// A list without one of its elements.
pub open spec fn without(s: Seq<u64>, x: u64) -> Seq<u64>
    decreases s.len(),
{
    if s.len() == 0 {
        Seq::empty()
    } else if s.last() == x {
        without(s.drop_last(), x)
    } else {
        without(s.drop_last(), x).push(s.last())
    }
}

/// A list with `x` at its end, and nowhere else.
pub open spec fn renewed(s: Seq<u64>, x: u64) -> Seq<u64> {
    without(s, x).push(x)
}

/// How many blocks of `n` have to go for the rest to fit the budget.
pub open spec fn excess(n: int, budget: int, block_size: int) -> int {
    if block_size <= 0 || n <= budget / block_size {
        0
    } else {
        n - budget / block_size
    }
}

/// Every last touch stands in the queue, and touches ascend.
spec fn queued(order: Seq<(u64, u64)>, live: Map<u64, u64>, tick: u64) -> bool {
    &&& forall|i: int, j: int|
        0 <= i < j < order.len() ==> (#[trigger] order[i]).1 < (#[trigger] order[j]).1
    &&& forall|i: int| 0 <= i < order.len() ==> (#[trigger] order[i]).1 <= tick
    &&& forall|h: u64| #[trigger] live.contains_key(h) ==> order.contains((h, live[h]))
}

/// Forgetting a hash takes it out of the list.
proof fn alive_without(order: Seq<(u64, u64)>, live: Map<u64, u64>, h: u64)
    ensures
        alive(order, live.remove(h)) == without(alive(order, live), h),
    decreases order.len(),
{
    if order.len() > 0 {
        alive_without(order.drop_last(), live, h);
        let init = alive(order.drop_last(), live);
        if current(order.last(), live) {
            assert(init.push(order.last().0).drop_last() =~= init);
        }
    }
}

/// A touch that is not in the queue yet does not count there.
proof fn alive_newer(order: Seq<(u64, u64)>, live: Map<u64, u64>, h: u64, t: u64)
    requires
        forall|i: int| 0 <= i < order.len() ==> (#[trigger] order[i]).1 < t,
    ensures
        alive(order, live.insert(h, t)) == alive(order, live.remove(h)),
    decreases order.len(),
{
    if order.len() > 0 {
        let init = order.drop_last();
        assert forall|i: int| 0 <= i < init.len() implies (#[trigger] init[i]).1 < t by {
            assert(init[i] == order[i]);
        }
        alive_newer(init, live, h, t);
        assert(order[order.len() - 1].1 < t);
    }
}

/// The list from its front.
proof fn alive_front(order: Seq<(u64, u64)>, live: Map<u64, u64>)
    requires
        order.len() > 0,
    ensures
        alive(order, live) == (if current(order[0], live) {
            seq![order[0].0]
        } else {
            Seq::empty()
        }) + alive(order.subrange(1, order.len() as int), live),
    decreases order.len(),
{
    let rest = order.subrange(1, order.len() as int);
    let head = if current(order[0], live) {
        seq![order[0].0]
    } else {
        Seq::empty()
    };
    if order.len() == 1 {
        assert(order.drop_last() =~= Seq::empty());
        assert(rest =~= Seq::empty());
        assert(alive(order.drop_last(), live) =~= Seq::empty());
        assert(alive(order, live) =~= head + alive(rest, live));
    } else {
        alive_front(order.drop_last(), live);
        assert(order.drop_last().subrange(1, order.len() - 1) =~= rest.drop_last());
        assert(rest.last() == order.last());
        assert(alive(order, live) =~= head + alive(rest, live));
    }
}

/// What is not in a queue can be forgotten.
proof fn alive_unqueued(order: Seq<(u64, u64)>, live: Map<u64, u64>, h: u64)
    requires
        live.contains_key(h),
        !order.contains((h, live[h])),
    ensures
        alive(order, live.remove(h)) == alive(order, live),
    decreases order.len(),
{
    if order.len() > 0 {
        let init = order.drop_last();
        assert(!init.contains((h, live[h]))) by {
            if init.contains((h, live[h])) {
                let i = init.index_of((h, live[h]));
                assert(order[i] == (h, live[h]));
            }
        }
        alive_unqueued(init, live, h);
        assert(order[order.len() - 1] == order.last());
        assert(order.contains(order.last()));
    }
}

/// The list holds every hash once.
proof fn alive_is_live(order: Seq<(u64, u64)>, live: Map<u64, u64>)
    requires
        forall|i: int, j: int|
            0 <= i < j < order.len() ==> (#[trigger] order[i]).1 < (#[trigger] order[j]).1,
    ensures
        alive(order, live).no_duplicates(),
        forall|h: u64| #[trigger]
            alive(order, live).contains(h) <==> live.contains_key(h) && order.contains(
                (h, live[h]),
            ),
    decreases order.len(),
{
    if order.len() > 0 {
        let init = order.drop_last();
        let n = order.len() - 1;
        assert forall|i: int, j: int| 0 <= i < j < init.len() implies (#[trigger] init[i]).1 < (
        #[trigger] init[j]).1 by {
            assert(init[i] == order[i] && init[j] == order[j]);
        }
        alive_is_live(init, live);
        let s = alive(init, live);
        let post = alive(order, live);
        assert forall|h: u64| #[trigger] post.contains(h) <==> live.contains_key(h)
            && order.contains((h, live[h])) by {
            if post.contains(h) {
                let i = post.index_of(h);
                if i < s.len() {
                    assert(s[i] == h);
                    assert(s.contains(h));
                    let j = init.index_of((h, live[h]));
                    assert(order[j] == (h, live[h]));
                } else {
                    assert(order[n] == (h, live[h]));
                }
            }
            if live.contains_key(h) && order.contains((h, live[h])) {
                let j = order.index_of((h, live[h]));
                if j < n {
                    assert(init[j] == (h, live[h]));
                    assert(s.contains(h));
                    let i = s.index_of(h);
                    assert(post[i] == h);
                } else {
                    assert(current(order.last(), live));
                    assert(post[post.len() - 1] == h);
                }
            }
        }
        if current(order.last(), live) {
            let h = order.last().0;
            assert(!s.contains(h)) by {
                if s.contains(h) {
                    let j = init.index_of((h, live[h]));
                    assert(order[j].1 < order[n].1);
                }
            }
        }
    }
}

impl View for BlockLru {
    type V = Seq<u64>;

    /// The hashes, the least recently touched first.
    closed spec fn view(&self) -> Seq<u64> {
        alive(self.order@, self.live@)
    }
}

impl BlockLru {
    /// A valid set.
    pub closed spec fn wf(&self) -> bool {
        queued(self.order@, self.live@, self.tick)
    }

    /// How many touches there have been.
    pub closed spec fn touches(&self) -> nat {
        self.tick as nat
    }

    /// No hash stands in the list twice.
    pub proof fn listed_once(&self)
        requires
            self.wf(),
        ensures
            self@.no_duplicates(),
    {
        alive_is_live(self.order@, self.live@);
    }

    proof fn sizes_agree(&self)
        requires
            self.wf(),
        ensures
            self@.len() == self.live@.len(),
            forall|h: u64| #[trigger] self@.contains(h) <==> self.live@.contains_key(h),
    {
        alive_is_live(self.order@, self.live@);
        assert(self@.to_set() =~= self.live@.dom()) by {
            assert forall|h: u64| self@.to_set().contains(h) <==> self.live@.dom().contains(h) by {
                assert(self@.contains(h) <==> self.live@.contains_key(h));
            }
        }
        self@.unique_seq_to_set();
    }

    /// An empty set.
    pub fn new() -> (r: BlockLru)
        ensures
            r.wf(),
            r@ == Seq::<u64>::empty(),
            r.touches() == 0,
    {
        broadcast use vstd::std_specs::hash::group_hash_axioms;

        BlockLru { live: HashMap::new(), order: VecDeque::new(), tick: 0 }
    }

    /// How many tokens the blocks have.
    pub fn tokens(&self, block_size: usize) -> (r: u64)
        requires
            self.wf(),
            self@.len() * block_size <= u64::MAX,
        ensures
            r == self@.len() * block_size,
    {
        proof {
            self.sizes_agree();
        }
        (self.live.len() as u64) * (block_size as u64)
    }

    /// Whether the set has the hash.
    pub fn contains(&self, hash: u64) -> (r: bool)
        requires
            self.wf(),
        ensures
            r == self@.contains(hash),
    {
        broadcast use vstd::std_specs::hash::group_hash_axioms;

        proof {
            self.sizes_agree();
            assert(self@.contains(hash) <==> self.live@.contains_key(hash));
        }
        self.live.contains_key(&hash)
    }

    /// Takes a hash out.
    pub fn remove(&mut self, hash: u64)
        requires
            old(self).wf(),
        ensures
            final(self).wf(),
            final(self)@ == without(old(self)@, hash),
            final(self).touches() == old(self).touches(),
    {
        broadcast use vstd::std_specs::hash::group_hash_axioms;

        let ghost pre = *self;
        self.live.remove(&hash);
        proof {
            assert(self.live@ =~= pre.live@.remove(hash));
            alive_without(pre.order@, pre.live@, hash);
            assert forall|h: u64| #[trigger] self.live@.contains_key(h) implies self.order@.contains(
                (h, self.live@[h]),
            ) by {
                assert(pre.live@.contains_key(h));
            }
        }
    }

    /// Moves a hash to the end, or puts it there.
    pub fn touch(&mut self, hash: u64)
        requires
            old(self).wf(),
            old(self).touches() < u64::MAX,
        ensures
            final(self).wf(),
            final(self)@ == renewed(old(self)@, hash),
            final(self).touches() == old(self).touches() + 1,
    {
        broadcast use vstd::std_specs::hash::group_hash_axioms;

        let ghost pre = *self;
        self.tick = self.tick + 1;
        self.live.insert(hash, self.tick);
        self.order.push_back((hash, self.tick));
        proof {
            let t = self.tick;
            assert(self.order@.drop_last() =~= pre.order@);
            assert forall|i: int| 0 <= i < pre.order@.len() implies (#[trigger] pre.order@[i]).1
                < t by {}
            alive_newer(pre.order@, pre.live@, hash, t);
            alive_without(pre.order@, pre.live@, hash);
            assert(current(self.order@.last(), self.live@));
            assert forall|h: u64| #[trigger] self.live@.contains_key(h) implies self.order@.contains(
                (h, self.live@[h]),
            ) by {
                if h == hash {
                    assert(self.order@[self.order@.len() - 1] == (h, t));
                } else {
                    assert(pre.live@.contains_key(h));
                    let i = pre.order@.index_of((h, pre.live@[h]));
                    assert(self.order@[i] == (h, self.live@[h]));
                }
            }
        }
    }

    /// Drops the least recently touched blocks until the rest fits the budget.
    pub fn evict_to(&mut self, budget_tokens: u64, block_size: usize)
        requires
            old(self).wf(),
        ensures
            final(self).wf(),
            final(self)@ == old(self)@.skip(
                excess(old(self)@.len() as int, budget_tokens as int, block_size as int),
            ),
            final(self).touches() == old(self).touches(),
    {
        broadcast use vstd::std_specs::hash::group_hash_axioms;

        let ghost pre = *self;
        let ghost n = pre@.len() as int;
        let ghost mut gone: int = 0;
        proof {
            self.sizes_agree();
            assert(pre@.skip(0) =~= pre@);
        }
        while product(self.live.len(), block_size) > budget_tokens as u128
            invariant
                self.wf(),
                n == pre@.len(),
                self@ == pre@.skip(gone),
                0 <= gone <= n,
                self@.len() == self.live@.len(),
                gone <= excess(n, budget_tokens as int, block_size as int),
                self.tick == pre.tick,
            decreases self.order@.len(),
        {
            let ghost mid = *self;
            proof {
                fits_not(n - gone, budget_tokens as int, block_size as int);
            }
            match self.order.pop_front() {
                Some((hash, tick)) => {
                    proof {
                        alive_front(mid.order@, mid.live@);
                        assert((hash, tick) == mid.order@[0]);
                    }
                    let last: bool = match self.live.get(&hash) {
                        Some(t) => *t == tick,
                        None => false,
                    };
                    if last {
                        proof {
                            assert(!self.order@.contains((hash, tick))) by {
                                if self.order@.contains((hash, tick)) {
                                    let i = self.order@.index_of((hash, tick));
                                    assert(mid.order@[i + 1] == (hash, tick));
                                    assert(mid.order@[0].1 < mid.order@[i + 1].1);
                                }
                            }
                            alive_unqueued(self.order@, self.live@, hash);
                        }
                        self.live.remove(&hash);
                        proof {
                            assert(self.live@ =~= mid.live@.remove(hash));
                            assert(self@ =~= mid@.skip(1));
                            assert(pre@.skip(gone).skip(1) =~= pre@.skip(gone + 1));
                            gone = gone + 1;
                        }
                    } else {
                        proof {
                            assert(self@ =~= mid@);
                        }
                    }
                    proof {
                        self.rest_is_queued(mid, hash);
                        self.sizes_agree();
                    }
                },
                None => {
                    proof {
                        assert(mid@ =~= Seq::empty());
                        assert(false);
                    }
                },
            }
        }
        proof {
            fits(n - gone, budget_tokens as int, block_size as int);
            assert(gone == excess(n, budget_tokens as int, block_size as int));
        }
    }

    /// A set stays valid without the front of its queue.
    proof fn rest_is_queued(&self, mid: BlockLru, hash: u64)
        requires
            mid.wf(),
            mid.order@.len() > 0,
            mid.order@[0].0 == hash,
            self.tick == mid.tick,
            self.order@ == mid.order@.subrange(1, mid.order@.len() as int),
            current(mid.order@[0], mid.live@) ==> self.live@ == mid.live@.remove(hash),
            !current(mid.order@[0], mid.live@) ==> self.live@ == mid.live@,
        ensures
            self.wf(),
    {
        assert forall|i: int, j: int| 0 <= i < j < self.order@.len() implies (
        #[trigger] self.order@[i]).1 < (#[trigger] self.order@[j]).1 by {
            assert(mid.order@[i + 1].1 < mid.order@[j + 1].1);
        }
        assert forall|i: int| 0 <= i < self.order@.len() implies (#[trigger] self.order@[i]).1
            <= self.tick by {
            assert(mid.order@[i + 1].1 <= mid.tick);
        }
        assert forall|h: u64| #[trigger] self.live@.contains_key(h) implies self.order@.contains(
            (h, self.live@[h]),
        ) by {
            assert(mid.live@.contains_key(h));
            let i = mid.order@.index_of((h, mid.live@[h]));
            assert(mid.order@[i] == (h, mid.live@[h]));
            assert(i != 0);
            assert(self.order@[i - 1] == (h, self.live@[h]));
        }
    }
}

fn product(a: usize, b: usize) -> (r: u128)
    ensures
        r == a * b,
{
    assert(a * b <= 0xffff_ffff_ffff_ffff * 0xffff_ffff_ffff_ffff) by (nonlinear_arith)
        requires
            0 <= a <= 0xffff_ffff_ffff_ffff,
            0 <= b <= 0xffff_ffff_ffff_ffff,
    ;
    (a as u128) * (b as u128)
}

/// Blocks that fit a budget.
proof fn fits(n: int, budget: int, block_size: int)
    requires
        n >= 0,
        budget >= 0,
        block_size >= 0,
        n * block_size <= budget,
    ensures
        block_size > 0 ==> n <= budget / block_size,
{
    if block_size > 0 {
        assert(n <= budget / block_size) by (nonlinear_arith)
            requires
                n >= 0,
                block_size > 0,
                n * block_size <= budget,
        ;
    }
}

/// Blocks that do not fit a budget.
proof fn fits_not(n: int, budget: int, block_size: int)
    requires
        n >= 0,
        budget >= 0,
        block_size >= 0,
        n * block_size > budget,
    ensures
        block_size > 0,
        n > budget / block_size,
        n > 0,
{
    assert(block_size > 0 && n > 0) by (nonlinear_arith)
        requires
            n >= 0,
            block_size >= 0,
            budget >= 0,
            n * block_size > budget,
    ;
    assert(n > budget / block_size) by (nonlinear_arith)
        requires
            n > 0,
            block_size > 0,
            n * block_size > budget,
    ;
}

} // verus!
