//! The chain core: a trie of chains with membership runs, and the holder
//! table. It keeps the contract of the flat core, over whole chains instead of
//! fingerprints.

use crate::holders::HolderTable;
use crate::lineage::lineage_of;
use crate::lineage::lineage_root;
use crate::lineage::lineage_step;
use crate::merge::narrow;
use crate::merge::push_all;
use crate::model;
use crate::model::HolderView;
use crate::model::Placement;
use crate::model::SlotView;
use crate::model::TableView;
use crate::model::TreeView;
use crate::spans;
use crate::trie::Spot;
use crate::trie::Trie;
use crate::types::clamp;
use crate::types::clamped;
use crate::types::BlockKey;
use crate::types::Config;
use crate::types::ContentHash;
use crate::types::HolderId;
use crate::types::Overlap;
use crate::types::Stats;
use crate::types::StoreError;
use crate::types::StoreOutcome;
use vstd::prelude::*;

pub mod audit;

verus! {

/// Buffers of a query, kept by the caller from one query to the next.
pub struct OverlapScratch {
    active: Vec<u32>,
    next: Vec<u32>,
}

impl Default for OverlapScratch {
    fn default() -> (r: OverlapScratch) {
        OverlapScratch { active: Vec::new(), next: Vec::new() }
    }
}

/// The index with the chain layout.
pub struct RadixTree3 {
    cfg: Config,
    trie: Trie,
    holders: HolderTable<Spot>,
    holder_blocks_total: u128,
    /// Positions that at least one holder covers.
    distinct_entries: u128,
}

/// The contents up to a spot.
spec fn path_of(trie: Trie, s: Spot) -> Seq<u64> {
    trie.path(s.chain as int, s.pos as int)
}

/// A holder's blocks, placed by contents.
spec fn path_map(trie: Trie, m: Map<u64, Spot>) -> Map<u64, Seq<u64>> {
    Map::new(|k: u64| m.contains_key(k), |k: u64| path_of(trie, m[k]))
}

/// The holder table, placed by contents.
spec fn path_table(trie: Trie, t: TableView<Spot>) -> TableView<Seq<u64>> {
    TableView {
        slots: Seq::new(
            t.slots.len(),
            |i: int|
                SlotView {
                    generation: t.slots[i].generation,
                    state: match t.slots[i].state {
                        None => None,
                        Some(h) => Some(
                            HolderView { name: h.name, blocks: path_map(trie, h.blocks) },
                        ),
                    },
                },
        ),
        free: t.free,
    }
}

/// What the two tables have in common.
proof fn path_table_basics(trie: Trie, t: TableView<Spot>)
    ensures
        path_table(trie, t).slots.len() == t.slots.len(),
        path_table(trie, t).free == t.free,
        forall|i: int| #[trigger] path_table(trie, t).occupied(i) == t.occupied(i),
        forall|i: int|
            t.occupied(i) ==> #[trigger] path_table(trie, t).blocks(i) == path_map(
                trie,
                t.blocks(i),
            ),
        forall|i: int| t.occupied(i) ==> #[trigger] path_table(trie, t).name(i) == t.name(i),
        forall|id: HolderId| #[trigger] path_table(trie, t).live(id) == t.live(id),
        path_table(trie, t).pairs() =~= t.pairs(),
        path_table(trie, t).residents() =~= t.residents(),
        t.wf() ==> path_table(trie, t).wf(),
{
    let u = path_table(trie, t);
    assert forall|i: int| #[trigger] u.occupied(i) == t.occupied(i) by {}
    assert forall|i: int| t.occupied(i) implies #[trigger] u.blocks(i) == path_map(
        trie,
        t.blocks(i),
    ) by {}
    assert forall|x: (u32, u64)| #[trigger] u.pairs().contains(x) == t.pairs().contains(x) by {
        if t.occupied(x.0 as int) {
            assert(u.blocks(x.0 as int) == path_map(trie, t.blocks(x.0 as int)));
        }
    }
    if t.wf() {
        assert forall|i: int, j: int| #[trigger]
            u.occupied(i) && #[trigger] u.occupied(j) && u.name(i) == u.name(j) implies i == j by {
            assert(t.occupied(i) && t.occupied(j));
        }
        assert forall|i: int| 0 <= i < u.free.len() implies (#[trigger] u.free[i]) < u.slots.len()
            && !u.occupied(u.free[i] as int) by {
            assert(!t.occupied(t.free[i] as int));
        }
        assert forall|i: int| 0 <= i < u.slots.len() && !#[trigger] u.occupied(
            i,
        ) implies u.free.contains(i as u32) by {
            assert(!t.occupied(i));
        }
        assert forall|i: int| #[trigger] u.occupied(i) implies u.blocks(i).dom().finite() by {
            assert(u.blocks(i).dom() =~= t.blocks(i).dom());
        }
    }
}

/// Replacing blocks is the same in both tables.
proof fn path_table_with(trie: Trie, t: TableView<Spot>, i: int, m: Map<u64, Spot>)
    requires
        t.occupied(i),
    ensures
        path_table(trie, t.with_blocks(i, m)) == path_table(trie, t).with_blocks(
            i,
            path_map(trie, m),
        ),
{
    assert(path_table(trie, t.with_blocks(i, m)).slots =~= path_table(trie, t).with_blocks(
        i,
        path_map(trie, m),
    ).slots);
}

/// All blocks of all holders stand at positions of the trie.
spec fn grounded(trie: Trie, t: TableView<Spot>) -> bool {
    forall|i: int, k: u64|
        t.occupied(i) && #[trigger] t.blocks(i).contains_key(k) ==> trie.node(
            t.blocks(i)[k].chain as int,
            t.blocks(i)[k].pos as int,
        )
}

/// A trie that keeps the positions in use keeps the table.
proof fn path_table_kept(a: Trie, b: Trie, t: TableView<Spot>)
    requires
        grounded(a, t),
        forall|i: int, k: u64|
            t.occupied(i) && #[trigger] t.blocks(i).contains_key(k) ==> b.node(
                t.blocks(i)[k].chain as int,
                t.blocks(i)[k].pos as int,
            ) && path_of(b, t.blocks(i)[k]) == path_of(a, t.blocks(i)[k]),
    ensures
        grounded(b, t),
        path_table(a, t) == path_table(b, t),
{
    assert forall|i: int| 0 <= i < t.slots.len() implies #[trigger] path_table(a, t).slots[i]
        == path_table(b, t).slots[i] by {
        if t.occupied(i) {
            assert(path_map(a, t.blocks(i)) =~= path_map(b, t.blocks(i)));
        }
    }
    assert(path_table(a, t).slots =~= path_table(b, t).slots);
}

/// One spot, one path.
proof fn spots_are_paths(trie: Trie, limit: int, a: Spot, b: Spot)
    requires
        trie.ok(limit),
        trie.node(a.chain as int, a.pos as int),
        trie.node(b.chain as int, b.pos as int),
        path_of(trie, a) == path_of(trie, b),
    ensures
        a == b,
{
    reveal(Trie::shaped);
    reveal(Trie::unique);
    assert(trie.shaped(a.chain as int, limit) && trie.shaped(b.chain as int, limit));
    assert(path_of(trie, a).len() == a.pos + 1);
    assert(path_of(trie, b).len() == b.pos + 1);
}

/// A holder holds a spot if and only if it holds the spot's path.
proof fn holding_a_path(trie: Trie, limit: int, t: TableView<Spot>, i: int, s: Spot)
    requires
        trie.ok(limit),
        grounded(trie, t),
        t.occupied(i),
        trie.node(s.chain as int, s.pos as int),
    ensures
        model::holds(path_map(trie, t.blocks(i)), path_of(trie, s)) <==> model::holds(
            t.blocks(i),
            s,
        ),
{
    let m = t.blocks(i);
    let n = path_map(trie, m);
    if model::holds(m, s) {
        let k = choose|k: u64| #[trigger] m.contains_key(k) && m[k] == s;
        assert(n.contains_key(k) && n[k] == path_of(trie, s));
    }
    if model::holds(n, path_of(trie, s)) {
        let k = choose|k: u64| #[trigger] n.contains_key(k) && n[k] == path_of(trie, s);
        assert(m.contains_key(k));
        spots_are_paths(trie, limit, m[k], s);
    }
}

impl View for RadixTree3 {
    type V = TreeView<Seq<u64>>;

    closed spec fn view(&self) -> TreeView<Seq<u64>> {
        TreeView { limit: self.cfg.max_chain_len, table: path_table(self.trie, self.holders@) }
    }
}

impl RadixTree3 {
    /// The holder table as it is laid out.
    closed spec fn spots(&self) -> TableView<Spot> {
        self.holders@
    }

    closed spec fn bound(&self) -> int {
        self.cfg.max_chain_len as int
    }

    /// Runs and key maps tell the same.
    #[verifier::opaque]
    closed spec fn backed(&self) -> bool {
        forall|s: Spot, h: u32| #[trigger]
            self.trie.covers(s.chain as int, s.pos as int, h) <==> self.spots().occupied(h as int)
                && model::holds(self.spots().blocks(h as int), s)
    }

    /// Everything but that idle chains are gone.
    closed spec fn sound(&self) -> bool {
        &&& self.holders.wf()
        &&& self.trie.ok(self.bound())
        &&& grounded(self.trie, self.spots())
        &&& forall|i: int| #[trigger]
            self.spots().occupied(i) ==> model::unaliased(self.spots().blocks(i))
        &&& self.backed()
        &&& self@.table.pairs().finite()
        &&& self.holder_blocks_total == self@.table.pairs().len()
        &&& self.distinct_entries == self@.table.placements().len()
    }

    /// No chain is idle, but perhaps `c`.
    closed spec fn tidy_but(&self, c: int) -> bool {
        forall|d: int| #[trigger] self.trie.alive(d) && d != c ==> self.trie.busy(d)
    }

    /// A valid index.
    pub closed spec fn wf(&self) -> bool {
        self.sound() && self.tidy_but(-1)
    }

    /// Placements are paths within the bound, and no holder has one twice.
    proof fn view_facts(&self)
        requires
            self.sound(),
        ensures
            self@.table.wf(),
            self@.table.slots.len() <= u32::MAX,
            self@.table.placements().finite(),
            forall|i: int| #[trigger]
                self@.table.occupied(i) ==> model::unaliased(self@.table.blocks(i)),
            forall|i: int, k: u64|
                self@.table.occupied(i) && #[trigger] self@.table.blocks(i).contains_key(k)
                    ==> 0 < self@.table.blocks(i)[k].len() <= self@.limit,
    {
        let t = self.spots();
        let u = self@.table;
        path_table_basics(self.trie, t);
        model::placements_are_bounded(u);
        assert forall|i: int| #[trigger] u.occupied(i) implies model::unaliased(u.blocks(i)) by {
            assert(t.occupied(i));
            assert forall|j: u64, k: u64| #[trigger]
                u.blocks(i).contains_key(j) && #[trigger] u.blocks(i).contains_key(k) && u.blocks(
                    i,
                )[j] == u.blocks(i)[k] implies j == k by {
                assert(t.blocks(i).contains_key(j) && t.blocks(i).contains_key(k));
                spots_are_paths(self.trie, self.bound(), t.blocks(i)[j], t.blocks(i)[k]);
            }
        }
        assert forall|i: int, k: u64|
            u.occupied(i) && #[trigger] u.blocks(i).contains_key(k) implies 0 < u.blocks(
            i,
        )[k].len() <= self@.limit by {
            assert(t.blocks(i).contains_key(k));
            reveal(Trie::shaped);
            let s = t.blocks(i)[k];
            assert(self.trie.node(s.chain as int, s.pos as int));
            assert(self.trie.shaped(s.chain as int, self.bound()));
        }
    }

    /// What validity means to a caller.
    pub proof fn validity(&self)
        requires
            self.wf(),
        ensures
            self@.table.wf(),
            self@.table.pairs().finite(),
            self@.table.placements().finite(),
            forall|i: int| #[trigger]
                self@.table.occupied(i) ==> model::unaliased(self@.table.blocks(i)),
            forall|i: int, k: u64|
                self@.table.occupied(i) && #[trigger] self@.table.blocks(i).contains_key(k)
                    ==> 0 < self@.table.blocks(i)[k].len() <= self@.limit,
    {
        self.view_facts();
    }

    /// An index without holders.
    pub fn new(cfg: Config) -> (r: RadixTree3)
        ensures
            r.wf(),
            r@.limit == cfg.max_chain_len,
            r@.table.slots.len() == 0,
            r@.table.free.len() == 0,
    {
        let r = RadixTree3 {
            cfg,
            trie: Trie::new(),
            holders: HolderTable::new(),
            holder_blocks_total: 0,
            distinct_entries: 0,
        };
        proof {
            reveal(RadixTree3::backed);
            path_table_basics(r.trie, r.spots());
            assert(r@.table.pairs() =~= Set::empty());
            assert(r@.table.placements() =~= Set::empty());
        }
        r
    }

    /// A spot is covered by somebody if and only if its path is held.
    proof fn covered_is_placed(&self, s: Spot)
        requires
            self.sound(),
            self.trie.node(s.chain as int, s.pos as int),
        ensures
            self@.table.placements().contains(path_of(self.trie, s)) <==> exists|x: u32|
                self.trie.covers(s.chain as int, s.pos as int, x),
            forall|x: u32| #[trigger]
                self.trie.covers(s.chain as int, s.pos as int, x) <==> self@.table.occupied(
                    x as int,
                ) && model::holds(self@.table.blocks(x as int), path_of(self.trie, s)),
    {
        reveal(RadixTree3::backed);
        let t = self.spots();
        let u = self@.table;
        let q = path_of(self.trie, s);
        path_table_basics(self.trie, t);
        assert forall|x: u32| #[trigger]
            self.trie.covers(s.chain as int, s.pos as int, x) <==> u.occupied(x as int)
                && model::holds(u.blocks(x as int), q) by {
            if t.occupied(x as int) {
                holding_a_path(self.trie, self.bound(), t, x as int, s);
            }
        }
        if u.placements().contains(q) {
            let j = choose|j: int| #[trigger] u.occupied(j) && model::holds(u.blocks(j), q);
            assert(j == (j as u32) as int);
            assert(self.trie.covers(s.chain as int, s.pos as int, j as u32));
        }
        if exists|x: u32| self.trie.covers(s.chain as int, s.pos as int, x) {
            let x = choose|x: u32| self.trie.covers(s.chain as int, s.pos as int, x);
            assert(u.occupied(x as int) && model::holds(u.blocks(x as int), q));
        }
    }

    /// Registers `key` at `s` for a holder that has neither.
    fn attach(&mut self, h: u32, key: BlockKey, s: Spot)
        requires
            old(self).sound(),
            old(self).spots().occupied(h as int),
            old(self).trie.node(s.chain as int, s.pos as int),
            !old(self).spots().blocks(h as int).contains_key(key),
            !old(self).trie.covers(s.chain as int, s.pos as int, h),
        ensures
            final(self).sound(),
            final(self)@.limit == old(self)@.limit,
            final(self).spots() == old(self).spots().with_blocks(
                h as int,
                old(self).spots().blocks(h as int).insert(key, s),
            ),
            final(self)@.table == old(self)@.table.with_blocks(
                h as int,
                old(self)@.table.blocks(h as int).insert(key, path_of(old(self).trie, s)),
            ),
            final(self).trie.node(s.chain as int, s.pos as int),
            path_of(final(self).trie, s) == path_of(old(self).trie, s),
            final(self).trie.covers(s.chain as int, s.pos as int, h),
            forall|c: int| #[trigger] final(self).trie.alive(c) == old(self).trie.alive(c),
            final(self).trie.chains@.len() == old(self).trie.chains@.len(),
            forall|c: int|
                c != s.chain && final(self).trie.alive(c) ==> #[trigger] final(self).trie.busy(c)
                    == old(self).trie.busy(c),
            final(self).trie.busy(s.chain as int),
    {
        let ghost pre = *self;
        let ghost limit = self.bound();
        proof {
            self.view_facts();
            model::pairs_are_bounded(self@.table.pairs());
            model::placements_are_bounded(self@.table);
            self.covered_is_placed(s);
        }
        let first = self.trie.cover(s, h, Ghost(limit));
        self.holders.insert(h, key, s);
        if first {
            self.distinct_entries = self.distinct_entries + 1;
        }
        self.holder_blocks_total = self.holder_blocks_total + 1;
        proof {
            let t = pre.spots();
            let i = h as int;
            let m = t.blocks(i).insert(key, s);
            let q = path_of(pre.trie, s);
            let u = pre@.table;
            assert(self.spots() == t.with_blocks(i, m));
            model::with_blocks_twice(t, i, m, m);
            self.attached(pre, h, key, s);
            path_table_basics(pre.trie, t);
            path_table_with(self.trie, t, i, m);
            path_table_kept(pre.trie, self.trie, t);
            assert(path_map(self.trie, m) =~= path_map(pre.trie, t.blocks(i)).insert(key, q)) by {
                assert forall|k: u64| t.blocks(i).contains_key(k) implies path_of(
                    self.trie,
                    t.blocks(i)[k],
                ) == path_of(pre.trie, t.blocks(i)[k]) by {
                    assert(pre.trie.node(
                        t.blocks(i)[k].chain as int,
                        t.blocks(i)[k].pos as int,
                    ));
                }
            }
            assert(!u.blocks(i).contains_key(key));
            model::block_added(u, i, key, q);
        }
    }

    /// Key maps and runs stay in step when a block comes.
    proof fn attached(self, pre: Self, h: u32, key: u64, s: Spot)
        requires
            pre.sound(),
            pre.spots().occupied(h as int),
            pre.trie.node(s.chain as int, s.pos as int),
            !pre.spots().blocks(h as int).contains_key(key),
            !pre.trie.covers(s.chain as int, s.pos as int, h),
            pre.trie.kept(self.trie),
            self.spots() == pre.spots().with_blocks(
                h as int,
                pre.spots().blocks(h as int).insert(key, s),
            ),
            forall|c: int, p: int, x: u32| #[trigger]
                self.trie.covers(c, p, x) <==> pre.trie.covers(c, p, x) || (c == s.chain && p
                    == s.pos && x == h),
        ensures
            self.backed(),
            grounded(self.trie, self.spots()),
            forall|i: int, k: u64|
                pre.spots().occupied(i) && #[trigger] pre.spots().blocks(i).contains_key(k)
                    ==> self.trie.node(
                    pre.spots().blocks(i)[k].chain as int,
                    pre.spots().blocks(i)[k].pos as int,
                ) && path_of(self.trie, pre.spots().blocks(i)[k]) == path_of(
                    pre.trie,
                    pre.spots().blocks(i)[k],
                ),
            forall|i: int| #[trigger]
                self.spots().occupied(i) ==> model::unaliased(self.spots().blocks(i)),
    {
        let t = pre.spots();
        let u = self.spots();
        let i = h as int;
        reveal(RadixTree3::backed);
        assert(u.blocks(i) == t.blocks(i).insert(key, s));
        assert forall|j: int| #[trigger] u.occupied(j) == t.occupied(j) && (j != i && t.occupied(j)
            ==> u.blocks(j) == t.blocks(j)) by {}
        assert forall|a: int, k: u64|
            t.occupied(a) && #[trigger] t.blocks(a).contains_key(k) implies self.trie.node(
            t.blocks(a)[k].chain as int,
            t.blocks(a)[k].pos as int,
        ) && path_of(self.trie, t.blocks(a)[k]) == path_of(pre.trie, t.blocks(a)[k]) by {
            assert(pre.trie.node(t.blocks(a)[k].chain as int, t.blocks(a)[k].pos as int));
        }
        assert forall|a: int, k: u64|
            u.occupied(a) && #[trigger] u.blocks(a).contains_key(k) implies self.trie.node(
            u.blocks(a)[k].chain as int,
            u.blocks(a)[k].pos as int,
        ) by {
            assert(t.occupied(a));
            if !(a == i && k == key) {
                assert(t.blocks(a).contains_key(k));
            }
        }
        assert(!model::holds(t.blocks(i), s));
        assert forall|x: Spot, y: u32| #[trigger]
            self.trie.covers(x.chain as int, x.pos as int, y) <==> u.occupied(y as int)
                && model::holds(u.blocks(y as int), x) by {
            assert(pre.trie.covers(x.chain as int, x.pos as int, y) <==> t.occupied(y as int)
                && model::holds(t.blocks(y as int), x));
            assert((x.chain == s.chain && x.pos == s.pos) == (x == s));
            if y == h {
                if model::holds(t.blocks(i), x) {
                    let k = choose|k: u64| #[trigger]
                        t.blocks(i).contains_key(k) && t.blocks(i)[k] == x;
                    assert(u.blocks(i).contains_key(k));
                }
                if x == s {
                    assert(u.blocks(i).contains_key(key));
                }
                if model::holds(u.blocks(i), x) {
                    let k = choose|k: u64| #[trigger]
                        u.blocks(i).contains_key(k) && u.blocks(i)[k] == x;
                    if k != key {
                        assert(t.blocks(i).contains_key(k));
                    }
                }
            }
        }
        assert forall|j: int| #[trigger] u.occupied(j) implies model::unaliased(u.blocks(j)) by {
            assert(t.occupied(j));
            if j == i {
                assert forall|a: u64, b: u64| #[trigger]
                    u.blocks(i).contains_key(a) && #[trigger] u.blocks(i).contains_key(b)
                        && u.blocks(i)[a] == u.blocks(i)[b] implies a == b by {
                    if a != key {
                        assert(t.blocks(i).contains_key(a));
                    }
                    if b != key {
                        assert(t.blocks(i).contains_key(b));
                    }
                }
            }
        }
    }

    /// Takes `key`, which stands at `s`, from a holder.
    fn detach(&mut self, h: u32, key: BlockKey, s: Spot)
        requires
            old(self).sound(),
            old(self).spots().occupied(h as int),
            old(self).spots().blocks(h as int).contains_key(key),
            old(self).spots().blocks(h as int)[key] == s,
        ensures
            final(self).sound(),
            final(self)@.limit == old(self)@.limit,
            final(self).spots() == old(self).spots().with_blocks(
                h as int,
                old(self).spots().blocks(h as int).remove(key),
            ),
            final(self)@.table == old(self)@.table.with_blocks(
                h as int,
                old(self)@.table.blocks(h as int).remove(key),
            ),
            old(self).trie.kept(final(self).trie),
            old(self).trie.node(s.chain as int, s.pos as int),
            forall|c: int, p: int, x: u32| #[trigger]
                final(self).trie.covers(c, p, x) <==> old(self).trie.covers(c, p, x) && !(c
                    == s.chain && p == s.pos && x == h),
            forall|c: int| #[trigger] final(self).trie.alive(c) == old(self).trie.alive(c),
            final(self).trie.chains@.len() == old(self).trie.chains@.len(),
            forall|c: int|
                c != s.chain && final(self).trie.alive(c) ==> #[trigger] final(self).trie.busy(c)
                    == old(self).trie.busy(c),
    {
        let ghost pre = *self;
        let ghost limit = self.bound();
        proof {
            self.view_facts();
            assert(self.trie.node(s.chain as int, s.pos as int));
            assert(self.trie.covers(s.chain as int, s.pos as int, h)) by {
                reveal(RadixTree3::backed);
                assert(model::holds(self.spots().blocks(h as int), s));
            }
            self.covered_is_placed(s);
            path_table_basics(self.trie, self.spots());
        }
        let last = self.trie.uncover(s, h, Ghost(limit));
        self.holders.remove(h, key);
        proof {
            let t = pre.spots();
            let i = h as int;
            let u = pre@.table;
            let q = path_of(pre.trie, s);
            assert(u.blocks(i)[key] == q);
            assert(!last == exists|j: int|
                j != i && #[trigger] u.occupied(j) && model::holds(u.blocks(j), q)) by {
                if !last {
                    let x = choose|x: u32|
                        x != h && pre.trie.covers(s.chain as int, s.pos as int, x);
                    assert(u.occupied(x as int) && model::holds(u.blocks(x as int), q));
                }
                if exists|j: int|
                    j != i && #[trigger] u.occupied(j) && model::holds(u.blocks(j), q) {
                    let j = choose|j: int|
                        j != i && #[trigger] u.occupied(j) && model::holds(u.blocks(j), q);
                    assert(j == (j as u32) as int);
                    assert(pre.trie.covers(s.chain as int, s.pos as int, j as u32));
                }
            }
            model::block_removed(u, i, key, !last);
            assert(u.placements().len() > 0);
            assert(u.pairs().len() > 0);
        }
        if last {
            self.distinct_entries = self.distinct_entries - 1;
        }
        self.holder_blocks_total = self.holder_blocks_total - 1;
        proof {
            let t = pre.spots();
            let i = h as int;
            let m = t.blocks(i).remove(key);
            let u = pre@.table;
            assert(self.spots() == t.with_blocks(i, m));
            model::with_blocks_twice(t, i, m, m);
            self.detached(pre, h, key, s);
            path_table_with(self.trie, t, i, m);
            path_table_kept(pre.trie, self.trie, t);
            assert(path_map(self.trie, m) =~= u.blocks(i).remove(key)) by {
                assert forall|k: u64| t.blocks(i).contains_key(k) implies path_of(
                    self.trie,
                    t.blocks(i)[k],
                ) == path_of(pre.trie, t.blocks(i)[k]) by {
                    assert(pre.trie.node(
                        t.blocks(i)[k].chain as int,
                        t.blocks(i)[k].pos as int,
                    ));
                }
            }
        }
    }

    /// Key maps and runs stay in step when a block goes.
    proof fn detached(self, pre: Self, h: u32, key: u64, s: Spot)
        requires
            pre.sound(),
            pre.spots().occupied(h as int),
            pre.spots().blocks(h as int).contains_key(key),
            pre.spots().blocks(h as int)[key] == s,
            pre.trie.kept(self.trie),
            self.spots() == pre.spots().with_blocks(
                h as int,
                pre.spots().blocks(h as int).remove(key),
            ),
            forall|c: int, p: int, x: u32| #[trigger]
                self.trie.covers(c, p, x) <==> pre.trie.covers(c, p, x) && !(c == s.chain && p
                    == s.pos && x == h),
        ensures
            self.backed(),
            grounded(self.trie, self.spots()),
            forall|i: int, k: u64|
                pre.spots().occupied(i) && #[trigger] pre.spots().blocks(i).contains_key(k)
                    ==> self.trie.node(
                    pre.spots().blocks(i)[k].chain as int,
                    pre.spots().blocks(i)[k].pos as int,
                ) && path_of(self.trie, pre.spots().blocks(i)[k]) == path_of(
                    pre.trie,
                    pre.spots().blocks(i)[k],
                ),
            forall|i: int| #[trigger]
                self.spots().occupied(i) ==> model::unaliased(self.spots().blocks(i)),
    {
        let t = pre.spots();
        let u = self.spots();
        let i = h as int;
        reveal(RadixTree3::backed);
        assert(u.blocks(i) == t.blocks(i).remove(key));
        assert forall|j: int| #[trigger] u.occupied(j) == t.occupied(j) && (j != i && t.occupied(j)
            ==> u.blocks(j) == t.blocks(j)) by {}
        assert forall|a: int, k: u64|
            t.occupied(a) && #[trigger] t.blocks(a).contains_key(k) implies self.trie.node(
            t.blocks(a)[k].chain as int,
            t.blocks(a)[k].pos as int,
        ) && path_of(self.trie, t.blocks(a)[k]) == path_of(pre.trie, t.blocks(a)[k]) by {
            assert(pre.trie.node(t.blocks(a)[k].chain as int, t.blocks(a)[k].pos as int));
        }
        assert forall|a: int, k: u64|
            u.occupied(a) && #[trigger] u.blocks(a).contains_key(k) implies self.trie.node(
            u.blocks(a)[k].chain as int,
            u.blocks(a)[k].pos as int,
        ) by {
            assert(t.occupied(a));
            assert(t.blocks(a).contains_key(k));
        }
        assert forall|x: Spot, y: u32| #[trigger]
            self.trie.covers(x.chain as int, x.pos as int, y) <==> u.occupied(y as int)
                && model::holds(u.blocks(y as int), x) by {
            assert(pre.trie.covers(x.chain as int, x.pos as int, y) <==> t.occupied(y as int)
                && model::holds(t.blocks(y as int), x));
            assert((x.chain == s.chain && x.pos == s.pos) == (x == s));
            if y == h {
                if model::holds(t.blocks(i), x) && x != s {
                    let k = choose|k: u64| #[trigger]
                        t.blocks(i).contains_key(k) && t.blocks(i)[k] == x;
                    assert(u.blocks(i).contains_key(k));
                }
                if model::holds(u.blocks(i), x) {
                    let k = choose|k: u64| #[trigger]
                        u.blocks(i).contains_key(k) && u.blocks(i)[k] == x;
                    assert(t.blocks(i).contains_key(k));
                    assert(model::unaliased(t.blocks(i)));
                }
            }
        }
        assert forall|j: int| #[trigger] u.occupied(j) implies model::unaliased(u.blocks(j)) by {
            assert(t.occupied(j));
            if j == i {
                assert(model::unaliased(t.blocks(i)));
                assert forall|a: u64, b: u64| #[trigger]
                    u.blocks(i).contains_key(a) && #[trigger] u.blocks(i).contains_key(b)
                        && u.blocks(i)[a] == u.blocks(i)[b] implies a == b by {
                    assert(t.blocks(i).contains_key(a) && t.blocks(i).contains_key(b));
                }
            }
        }
    }

    /// Another trie under the same holders, with the same positions in use and
    /// the same runs, changes nothing.
    proof fn replanted(self, pre: Self)
        requires
            pre.sound(),
            self.cfg == pre.cfg,
            self.holders == pre.holders,
            self.holder_blocks_total == pre.holder_blocks_total,
            self.distinct_entries == pre.distinct_entries,
            self.trie.ok(self.bound()),
            forall|c: int, p: int, x: u32| #[trigger]
                self.trie.covers(c, p, x) <==> pre.trie.covers(c, p, x),
            forall|s: Spot, x: u32| #[trigger]
                pre.trie.covers(s.chain as int, s.pos as int, x) && pre.trie.node(
                    s.chain as int,
                    s.pos as int,
                ) ==> self.trie.node(s.chain as int, s.pos as int) && path_of(self.trie, s)
                    == path_of(pre.trie, s),
        ensures
            self.sound(),
            self@ == pre@,
    {
        let t = pre.spots();
        assert forall|i: int, k: u64|
            t.occupied(i) && #[trigger] t.blocks(i).contains_key(k) implies self.trie.node(
            t.blocks(i)[k].chain as int,
            t.blocks(i)[k].pos as int,
        ) && path_of(self.trie, t.blocks(i)[k]) == path_of(pre.trie, t.blocks(i)[k]) by {
            reveal(RadixTree3::backed);
            let s = t.blocks(i)[k];
            assert(pre.trie.node(s.chain as int, s.pos as int));
            assert(i == (i as u32) as int);
            assert(model::holds(t.blocks(i), s));
            assert(pre.trie.covers(s.chain as int, s.pos as int, i as u32));
        }
        path_table_kept(pre.trie, self.trie, t);
        assert(self.backed()) by {
            reveal(RadixTree3::backed);
            assert forall|s: Spot, h: u32| #[trigger]
                self.trie.covers(s.chain as int, s.pos as int, h) <==> self.spots().occupied(
                    h as int,
                ) && model::holds(self.spots().blocks(h as int), s) by {
                assert(self.trie.covers(s.chain as int, s.pos as int, h) <==> pre.trie.covers(
                    s.chain as int,
                    s.pos as int,
                    h,
                ));
            }
        }
    }

    /// Frees chain `c` if it is idle, and what only led to it.
    fn sweep(&mut self, c: usize)
        requires
            old(self).sound(),
            old(self).tidy_but(c as int),
            c < old(self).trie.chains@.len(),
        ensures
            final(self).wf(),
            final(self)@ == old(self)@,
            final(self).holders == old(self).holders,
            forall|d: int, p: int, h: u32| #[trigger]
                final(self).trie.covers(d, p, h) <==> old(self).trie.covers(d, p, h),
            forall|d: int, p: int|
                final(self).trie.alive(d) && old(self).trie.node(d, p)
                    ==> #[trigger] final(self).trie.node(d, p),
            final(self).trie.kept(old(self).trie),
    {
        let ghost pre = *self;
        let ghost limit = self.bound();
        self.trie.sweep(c, Ghost(limit));
        proof {
            assert forall|s: Spot, x: u32| #[trigger]
                pre.trie.covers(s.chain as int, s.pos as int, x) && pre.trie.node(
                    s.chain as int,
                    s.pos as int,
                ) implies self.trie.node(s.chain as int, s.pos as int) && path_of(self.trie, s)
                == path_of(pre.trie, s) by {
                assert(self.trie.covers(s.chain as int, s.pos as int, x));
                assert(self.trie.alive(s.chain as int));
                assert(self.trie.node(s.chain as int, s.pos as int));
            }
            self.replanted(pre);
        }
    }

    /// Places one block behind `cursor`. Returns its spot, and whether it was
    /// not held there already.
    fn place_block(
        &mut self,
        h: u32,
        key: BlockKey,
        content: ContentHash,
        lineage: u64,
        cursor: Option<Spot>,
    ) -> (r: (Spot, bool))
        requires
            old(self).wf(),
            old(self).spots().occupied(h as int),
            cursor is Some ==> old(self).trie.node(
                cursor->0.chain as int,
                cursor->0.pos as int,
            ),
            Trie::ahead(cursor) < old(self).bound(),
            lineage == lineage_of(old(self).trie.reach(cursor).push(content)),
        ensures
            final(self).wf(),
            final(self)@.limit == old(self)@.limit,
            final(self).trie.node(r.0.chain as int, r.0.pos as int),
            r.0.pos == Trie::ahead(cursor),
            path_of(final(self).trie, r.0) == old(self).trie.reach(cursor).push(content),
            r.1 == !model::holds(
                old(self)@.table.blocks(h as int),
                old(self).trie.reach(cursor).push(content),
            ),
            final(self)@.table == old(self)@.table.with_blocks(
                h as int,
                model::place(
                    old(self)@.table.blocks(h as int),
                    key,
                    old(self).trie.reach(cursor).push(content),
                ),
            ),
    {
        let ghost first = *self;
        let ghost q = self.trie.reach(cursor).push(content);
        let ghost limit = self.bound();
        let ghost u0 = self@.table;
        let ghost i = h as int;
        proof {
            path_table_basics(self.trie, self.spots());
        }
        let s = self.trie.grow(cursor, content, lineage, Ghost(limit));
        proof {
            assert forall|x: Spot, y: u32| #[trigger]
                first.trie.covers(x.chain as int, x.pos as int, y) && first.trie.node(
                    x.chain as int,
                    x.pos as int,
                ) implies self.trie.node(x.chain as int, x.pos as int) && path_of(self.trie, x)
                == path_of(first.trie, x) by {
                assert(self.trie.node(x.chain as int, x.pos as int));
            }
            self.replanted(first);
            self.covered_is_placed(s);
            assert(path_of(self.trie, s) == q);
            model::with_blocks_twice(u0, i, u0.blocks(i), u0.blocks(i));
            assert(self.tidy_but(s.chain as int));
            assert(self.trie.shaped(s.chain as int, limit));
        }
        let covered: bool = {
            proof {
                reveal(Trie::shaped);
            }
            spans::covered(&self.trie.chains[s.chain].spans, s.pos, h)
        };
        if covered {
            proof {
                assert(self.trie.covers(s.chain as int, s.pos as int, h));
                reveal(Trie::shaped);
                let ch = self.trie.chains@[s.chain as int];
                spans::cover_inside(
                    ch.spans@,
                    ch.base_pos as int,
                    crate::trie::tip(ch),
                    s.pos as int,
                    h,
                );
                assert(self.trie.busy(s.chain as int));
                assert(self.wf());
            }
            return (s, false);
        }
        assert(!self.trie.covers(s.chain as int, s.pos as int, h));
        match self.holders.get(h, key) {
            None => {
                self.attach(h, key, s);
                assert(self.wf());
                (s, true)
            },
            Some(was) => {
                let ghost t1 = self.spots();
                self.detach(h, key, was);
                let ghost mid = *self;
                proof {
                    model::with_blocks_twice(t1, i, t1.blocks(i).remove(key), t1.blocks(i));
                    model::with_blocks_twice(
                        u0,
                        i,
                        u0.blocks(i).remove(key),
                        u0.blocks(i).remove(key).insert(key, q),
                    );
                    assert(self.trie.node(s.chain as int, s.pos as int));
                    assert(path_of(self.trie, s) == q);
                }
                self.attach(h, key, s);
                let ghost late = *self;
                proof {
                    assert(u0.blocks(i).remove(key).insert(key, q) =~= u0.blocks(i).insert(key, q));
                    assert(late@.table == u0.with_blocks(i, u0.blocks(i).insert(key, q)));
                    assert(self.tidy_but(was.chain as int)) by {
                        assert forall|d: int| #[trigger]
                            self.trie.alive(d) && d != was.chain implies self.trie.busy(d) by {
                            assert(mid.trie.alive(d));
                            if d != s.chain {
                                assert(mid.trie.busy(d));
                                assert(self.trie.busy(d));
                            }
                        }
                    }
                    assert(was.chain < self.trie.chains@.len());
                }
                self.sweep(was.chain);
                proof {
                    assert(self.trie.covers(s.chain as int, s.pos as int, h));
                    assert(self.trie.alive(s.chain as int));
                    assert(self.trie.node(s.chain as int, s.pos as int));
                }
                (s, true)
            },
        }
    }

    /// Holders that come or go without blocks leave the rest as it is.
    proof fn reseated(self, pre: Self)
        requires
            pre.sound(),
            self.holders.wf(),
            self.cfg == pre.cfg,
            self.trie == pre.trie,
            self.holder_blocks_total == pre.holder_blocks_total,
            self.distinct_entries == pre.distinct_entries,
            forall|j: int| #[trigger]
                self.spots().occupied(j) && pre.spots().occupied(j) ==> self.spots().blocks(j)
                    == pre.spots().blocks(j),
            forall|j: int| #[trigger]
                self.spots().occupied(j) && !pre.spots().occupied(j) ==> self.spots().blocks(j)
                    == Map::<u64, Spot>::empty(),
            forall|j: int| #[trigger]
                pre.spots().occupied(j) && !self.spots().occupied(j) ==> pre.spots().blocks(j)
                    == Map::<u64, Spot>::empty(),
        ensures
            self.sound(),
    {
        let t = pre.spots();
        let v = self.spots();
        path_table_basics(self.trie, t);
        path_table_basics(self.trie, v);
        assert forall|j: int, s: Spot| (#[trigger] v.occupied(j) && model::holds(v.blocks(j), s))
            == (t.occupied(j) && #[trigger] model::holds(t.blocks(j), s)) by {
            if v.occupied(j) {
            }
            if t.occupied(j) {
            }
        }
        assert forall|x: (u32, u64)| #[trigger] v.pairs().contains(x) == t.pairs().contains(x) by {
            if v.occupied(x.0 as int) {
            }
            if t.occupied(x.0 as int) {
            }
        }
        assert(v.pairs() =~= t.pairs());
        assert(self@.table.pairs() =~= pre@.table.pairs());
        let a = pre@.table;
        let b = self@.table;
        assert forall|p: Seq<u64>| #[trigger] b.placements().contains(p)
            == a.placements().contains(p) by {
            if b.placements().contains(p) {
                let j = choose|j: int| #[trigger] b.occupied(j) && model::holds(b.blocks(j), p);
                let k = choose|k: u64| #[trigger] b.blocks(j).contains_key(k) && b.blocks(j)[k] == p;
                assert(v.occupied(j) && v.blocks(j).contains_key(k));
                assert(t.occupied(j));
                assert(a.occupied(j) && a.blocks(j).contains_key(k) && a.blocks(j)[k] == p);
            }
            if a.placements().contains(p) {
                let j = choose|j: int| #[trigger] a.occupied(j) && model::holds(a.blocks(j), p);
                let k = choose|k: u64| #[trigger] a.blocks(j).contains_key(k) && a.blocks(j)[k] == p;
                assert(t.occupied(j) && t.blocks(j).contains_key(k));
                assert(v.occupied(j));
                assert(b.occupied(j) && b.blocks(j).contains_key(k) && b.blocks(j)[k] == p);
            }
        }
        assert(b.placements() =~= a.placements());
        assert(self.backed()) by {
            reveal(RadixTree3::backed);
            assert forall|s: Spot, h: u32| #[trigger]
                self.trie.covers(s.chain as int, s.pos as int, h) <==> v.occupied(h as int)
                    && model::holds(v.blocks(h as int), s) by {
                assert((v.occupied(h as int) && model::holds(v.blocks(h as int), s)) == (t.occupied(
                    h as int,
                ) && model::holds(t.blocks(h as int), s)));
            }
        }
        assert forall|i: int, k: u64|
            v.occupied(i) && #[trigger] v.blocks(i).contains_key(k) implies self.trie.node(
            v.blocks(i)[k].chain as int,
            v.blocks(i)[k].pos as int,
        ) by {
            assert(t.occupied(i));
            assert(t.blocks(i).contains_key(k));
        }
        assert forall|i: int| #[trigger] v.occupied(i) implies model::unaliased(v.blocks(i)) by {
            if t.occupied(i) {
            }
        }
    }

    /// The live holder called `name`, created without blocks if there is none.
    /// Retired slots are used again.
    pub fn create_holder(&mut self, name: &str) -> (id: HolderId)
        requires
            old(self).wf(),
            old(self)@.table.has_room(name@),
        ensures
            final(self).wf(),
            final(self)@.limit == old(self)@.limit,
            old(self)@.table.created(name@, final(self)@.table, id),
    {
        let ghost pre = *self;
        proof {
            path_table_basics(self.trie, self.spots());
            assert(self@.table.has_name(name@) ==> self.spots().has_name(name@)) by {
                if self@.table.has_name(name@) {
                    let i = choose|i: int| #[trigger]
                        self@.table.occupied(i) && self@.table.name(i) == name@;
                    assert(self.spots().occupied(i));
                }
            }
        }
        let id = self.holders.create(name);
        proof {
            let t = pre.spots();
            let v = self.spots();
            if !t.has_name(name@) && t.free.len() > 0 {
                assert(t.free[t.free.len() - 1] == id.slot());
            }
            self.reseated(pre);
            path_table_basics(self.trie, v);
            assert(t.has_name(name@) == pre@.table.has_name(name@)) by {
                if t.has_name(name@) {
                    let i = choose|i: int| #[trigger] t.occupied(i) && t.name(i) == name@;
                    assert(pre@.table.occupied(i) && pre@.table.name(i) == name@);
                }
            }
            if !t.has_name(name@) {
                assert(path_map(self.trie, Map::<u64, Spot>::empty()) =~= Map::empty());
                assert(self@.table.slots =~= pre@.table.with_holder(t.next_slot(), name@).slots);
            }
        }
        id
    }

    /// The holder's name.
    pub fn holder_name(&self, id: HolderId) -> (r: Option<&str>)
        ensures
            r is Some <==> self@.table.live(id),
            r is Some ==> r->0@ == self@.table.name(id.slot() as int),
    {
        proof {
            path_table_basics(self.trie, self.spots());
        }
        self.holders.name_of(id)
    }

    /// How many blocks the holder holds.
    pub fn holder_blocks(&self, id: HolderId) -> (r: u64)
        requires
            self.wf(),
        ensures
            r == self@.table.held(id).len(),
    {
        proof {
            path_table_basics(self.trie, self.spots());
        }
        if self.holders.is_live(id) {
            proof {
                assert(self@.table.held(id).dom() =~= self.spots().held(id).dom());
            }
            self.holders.count(id.parts().0) as u64
        } else {
            0
        }
    }

    /// Stores a batch of blocks that continues the chain of `parent`, or that
    /// starts a chain at position 0. On an error nothing is changed.
    pub fn store(
        &mut self,
        id: HolderId,
        parent: Option<BlockKey>,
        blocks: &[(BlockKey, ContentHash)],
    ) -> (r: Result<StoreOutcome, StoreError>)
        requires
            old(self).wf(),
        ensures
            final(self).wf(),
            match r {
                Err(e) => model::store_error(old(self)@, id, parent, blocks@) == Some(e)
                    && final(self)@ == old(self)@,
                Ok(o) => {
                    &&& model::store_error(old(self)@, id, parent, blocks@) is None
                    &&& final(self)@ == model::stored(old(self)@, id, parent, blocks@)
                    &&& o.applied == model::fresh(
                        old(self)@.table.held(id),
                        model::batch(old(self)@.table.held(id), parent, blocks@),
                    )
                    &&& o.applied + o.duplicates == blocks@.len()
                },
            },
    {
        proof {
            path_table_basics(self.trie, self.spots());
        }
        if !self.holders.is_live(id) {
            return Err(StoreError::UnknownHolder);
        }
        let h: u32 = id.parts().0;
        let ghost t0 = self@.table;
        let ghost m0 = t0.held(id);
        let ghost a0 = model::anchor(m0, parent);
        if blocks.len() == 0 {
            proof {
                model::with_blocks_twice(t0, h as int, m0, m0);
            }
            return Ok(StoreOutcome { applied: 0, duplicates: 0 });
        }
        let mut cursor: Option<Spot> = None;
        let mut start: u32 = 0;
        let mut lineage: Option<u64> = None;
        match parent {
            None => {},
            Some(key) => match self.holders.get(h, key) {
                None => return Err(StoreError::ParentNotFound),
                Some(s) => {
                    proof {
                        assert(self.spots().blocks(h as int).contains_key(key));
                        assert(self.trie.node(s.chain as int, s.pos as int));
                        assert(m0[key] == path_of(self.trie, s));
                        assert(m0[key].len() == s.pos + 1 && s.pos < self.bound()) by {
                            reveal(Trie::shaped);
                            assert(self.trie.shaped(s.chain as int, self.bound()));
                        }
                    }
                    start = s.pos + 1;
                    cursor = Some(s);
                    lineage = Some(self.trie.lineage_at(s, Ghost(self.bound())));
                },
            },
        }
        if blocks.len() > (self.cfg.max_chain_len - start) as usize {
            return Err(StoreError::ChainTooLong);
        }
        let mut applied: u32 = 0;
        let mut duplicates: u32 = 0;
        let mut n: usize = 0;
        proof {
            model::with_blocks_twice(t0, h as int, m0, m0);
            assert(blocks@.take(0) =~= Seq::<(u64, u64)>::empty());
        }
        while n < blocks.len()
            invariant
                self.wf(),
                n <= blocks@.len(),
                start + blocks@.len() <= self.bound(),
                self.bound() == self@.limit,
                self@.limit <= u32::MAX,
                t0.occupied(h as int),
                h == id.slot(),
                self@.limit == old(self)@.limit,
                self@.table == t0.with_blocks(
                    h as int,
                    model::placed(m0, model::trail(a0, blocks@.take(n as int))),
                ),
                applied == model::fresh(m0, model::trail(a0, blocks@.take(n as int))),
                applied + duplicates == n,
                cursor is Some ==> self.trie.node(cursor->0.chain as int, cursor->0.pos as int),
                Trie::ahead(cursor) == start + n,
                cursor is None <==> lineage is None,
                lineage is Some ==> lineage->0 == lineage_of(self.trie.reach(cursor)),
                (if n == 0 {
                    a0
                } else {
                    Some(model::trail(a0, blocks@.take(n as int)).last().1)
                }) == (match cursor {
                    None => None::<Seq<u64>>,
                    Some(s) => Some(self.trie.reach(cursor)),
                }),
            decreases blocks@.len() - n,
        {
            let (key, content): (u64, u64) = blocks[n];
            let mixed: u64 = match lineage {
                None => lineage_root(content),
                Some(l) => lineage_step(l, content),
            };
            let ghost q = self.trie.reach(cursor).push(content);
            let ghost cur = model::placed(m0, model::trail(a0, blocks@.take(n as int)));
            proof {
                model::trail_push(a0, blocks@, n as int);
                model::placed_push(m0, model::trail(a0, blocks@.take(n as int)), (key, q));
                model::with_blocks_twice(t0, h as int, cur, model::place(cur, key, q));
                path_table_basics(self.trie, self.spots());
                assert(q.drop_last() =~= self.trie.reach(cursor));
                self.reach_len(cursor);
                if cursor is None {
                    assert(q =~= seq![content]);
                }
                assert(mixed == lineage_of(q));
                assert(q == model::next(
                    match cursor {
                        None => None::<Seq<u64>>,
                        Some(s) => Some(self.trie.reach(cursor)),
                    },
                    content,
                ));
            }
            let (spot, fresh) = self.place_block(h, key, content, mixed, cursor);
            if fresh {
                applied = applied + 1;
            } else {
                duplicates = duplicates + 1;
            }
            cursor = Some(spot);
            lineage = Some(mixed);
            n = n + 1;
        }
        assert(blocks@.take(n as int) =~= blocks@);
        Ok(StoreOutcome { applied, duplicates })
    }

    /// A spot's path is as long as its position says.
    proof fn reach_len(&self, at: Option<Spot>)
        requires
            self.sound(),
            at is Some ==> self.trie.node(at->0.chain as int, at->0.pos as int),
        ensures
            self.trie.reach(at).len() == Trie::ahead(at),
    {
        if at is Some {
            reveal(Trie::shaped);
            assert(self.trie.shaped(at->0.chain as int, self.bound()));
        }
    }

    /// Takes one block from a holder, if it has it.
    fn unlink(&mut self, h: u32, key: BlockKey) -> (r: bool)
        requires
            old(self).wf(),
            old(self)@.table.occupied(h as int),
        ensures
            final(self).wf(),
            final(self)@.limit == old(self)@.limit,
            r == old(self)@.table.blocks(h as int).contains_key(key),
            final(self)@.table == old(self)@.table.with_blocks(
                h as int,
                old(self)@.table.blocks(h as int).remove(key),
            ),
    {
        proof {
            path_table_basics(self.trie, self.spots());
        }
        match self.holders.get(h, key) {
            None => {
                proof {
                    let u = self@.table;
                    let i = h as int;
                    assert(u.blocks(i).remove(key) =~= u.blocks(i));
                    model::with_blocks_twice(u, i, u.blocks(i), u.blocks(i));
                }
                false
            },
            Some(s) => {
                let ghost pre = *self;
                proof {
                    assert(self.spots().blocks(h as int).contains_key(key));
                }
                self.detach(h, key, s);
                proof {
                    assert(self.tidy_but(s.chain as int)) by {
                        assert forall|d: int| #[trigger]
                            self.trie.alive(d) && d != s.chain implies self.trie.busy(d) by {
                            assert(pre.trie.alive(d) && pre.trie.busy(d));
                        }
                    }
                }
                self.sweep(s.chain);
                true
            },
        }
    }

    /// Takes the listed blocks from the holder; unknown keys are skipped.
    /// Returns how many were taken.
    pub fn remove(&mut self, id: HolderId, keys: &[BlockKey]) -> (r: u32)
        requires
            old(self).wf(),
        ensures
            final(self).wf(),
            final(self)@.limit == old(self)@.limit,
            !old(self)@.table.live(id) ==> final(self)@ == old(self)@ && r == 0,
            old(self)@.table.live(id) ==> final(self)@.table == old(self)@.table.with_blocks(
                id.slot() as int,
                model::pruned(old(self)@.table.held(id), keys@),
            ),
            r == (if model::taken(old(self)@.table.held(id), keys@) <= u32::MAX {
                model::taken(old(self)@.table.held(id), keys@) as u32
            } else {
                u32::MAX
            }),
    {
        proof {
            path_table_basics(self.trie, self.spots());
        }
        if !self.holders.is_live(id) {
            proof {
                let m = self@.table.held(id);
                assert(model::pruned(m, keys@) =~= m);
            }
            return 0;
        }
        let h: u32 = id.parts().0;
        let ghost t0 = self@.table;
        let ghost m0 = t0.held(id);
        let mut removed: u32 = 0;
        let mut n: usize = 0;
        proof {
            self.view_facts();
            assert(model::pruned(m0, keys@.take(0)) =~= m0);
            model::with_blocks_twice(t0, h as int, m0, m0);
        }
        while n < keys.len()
            invariant
                self.wf(),
                n <= keys@.len(),
                t0.occupied(h as int),
                self@.limit == old(self)@.limit,
                m0.dom().finite(),
                self@.table == t0.with_blocks(h as int, model::pruned(m0, keys@.take(n as int))),
                removed == (if model::taken(m0, keys@.take(n as int)) <= u32::MAX {
                    model::taken(m0, keys@.take(n as int)) as u32
                } else {
                    u32::MAX
                }),
            decreases keys@.len() - n,
        {
            let key: u64 = keys[n];
            let ghost cur = model::pruned(m0, keys@.take(n as int));
            proof {
                model::with_blocks_twice(t0, h as int, cur, cur.remove(key));
                model::pruned_step(m0, keys@, n as int);
            }
            if self.unlink(h, key) {
                removed = removed.saturating_add(1);
            }
            n = n + 1;
        }
        assert(keys@.take(n as int) =~= keys@);
        removed
    }

    /// Drops all blocks of the holder, which stays.
    pub fn clear(&mut self, id: HolderId)
        requires
            old(self).wf(),
        ensures
            final(self).wf(),
            final(self)@.limit == old(self)@.limit,
            !old(self)@.table.live(id) ==> final(self)@ == old(self)@,
            old(self)@.table.live(id) ==> final(self)@.table == old(self)@.table.with_blocks(
                id.slot() as int,
                Map::empty(),
            ),
    {
        proof {
            path_table_basics(self.trie, self.spots());
        }
        if self.holders.is_live(id) {
            let ghost m0 = self@.table.held(id);
            let keys = self.holders.keys(id.parts().0);
            self.remove(id, keys.as_slice());
            proof {
                assert(model::pruned(m0, keys@) =~= Map::empty());
            }
        }
    }

    /// Drops the holder: its blocks are gone, its ids are stale, and its slot
    /// is free for the next holder.
    pub fn retire_holder(&mut self, id: HolderId)
        requires
            old(self).wf(),
        ensures
            final(self).wf(),
            final(self)@.limit == old(self)@.limit,
            !old(self)@.table.live(id) ==> final(self)@ == old(self)@,
            old(self)@.table.live(id) ==> final(self)@.table == old(self)@.table.without_holder(
                id.slot() as int,
            ),
    {
        proof {
            path_table_basics(self.trie, self.spots());
        }
        if self.holders.is_live(id) {
            let h: u32 = id.parts().0;
            let ghost u0 = self@.table;
            self.clear(id);
            let ghost mid = *self;
            proof {
                model::with_blocks_twice(u0, h as int, Map::empty(), Map::empty());
                path_table_basics(self.trie, self.spots());
                assert(self.spots().blocks(h as int) =~= Map::<u64, Spot>::empty()) by {
                    assert forall|k: u64| !self.spots().blocks(h as int).contains_key(k) by {
                        assert(!self@.table.blocks(h as int).contains_key(k));
                    }
                }
            }
            self.holders.retire(h);
            proof {
                let t = mid.spots();
                let v = self.spots();
                assert forall|j: int| j != h implies #[trigger] v.occupied(j) == t.occupied(j) && (
                t.occupied(j) ==> v.blocks(j) == t.blocks(j)) by {}
                self.reseated(mid);
                path_table_basics(self.trie, v);
                let post = u0.without_holder(h as int);
                assert forall|j: int| 0 <= j < v.slots.len() implies #[trigger] self@.table.slots[j]
                    == post.slots[j] by {
                    if j != h {
                        assert(v.slots[j] == t.slots[j]);
                        assert(self@.table.slots[j] == mid@.table.slots[j]);
                        assert(mid@.table.slots[j] == u0.slots[j]);
                    } else {
                        assert(mid@.table.slots[j].generation == t.slots[j].generation);
                        assert(u0.slots[j].generation == mid@.table.slots[j].generation);
                    }
                }
                assert(self@.table.slots =~= post.slots);
            }
        }
    }

    /// Drops blocks from the deepest position up, ties by descending key,
    /// until `keep` are left. Returns how many were dropped.
    pub fn truncate_tail(&mut self, id: HolderId, keep: u64) -> (r: u64)
        requires
            old(self).wf(),
        ensures
            final(self).wf(),
            final(self)@.limit == old(self)@.limit,
            !old(self)@.table.live(id) ==> final(self)@ == old(self)@ && r == 0,
            old(self)@.table.live(id) ==> {
                &&& final(self)@.table == old(self)@.table.with_blocks(
                    id.slot() as int,
                    final(self)@.table.held(id),
                )
                &&& model::truncated(
                    old(self)@.table.held(id),
                    keep as int,
                    final(self)@.table.held(id),
                )
                &&& r == old(self)@.table.held(id).len() - final(self)@.table.held(id).len()
            },
    {
        proof {
            path_table_basics(self.trie, self.spots());
        }
        if !self.holders.is_live(id) {
            return 0;
        }
        let h: u32 = id.parts().0;
        let ghost t0 = self@.table;
        let ghost m0 = t0.held(id);
        let ghost s0 = self.spots().blocks(h as int);
        proof {
            self.view_facts();
            model::with_blocks_twice(t0, h as int, m0, m0);
            assert(m0.dom() =~= s0.dom());
            assert forall|k: u64| #[trigger] m0.contains_key(k) implies m0[k].position()
                == s0[k].pos by {
                self.reach_len(Some(s0[k]));
            }
        }
        if self.holders.count(h) as u64 <= keep {
            return 0;
        }
        let mut rows = self.holders.ordered(h);
        let ghost all = rows@;
        let mut dropped: u64 = 0;
        let ghost mut cur = m0;
        proof {
            assert(all.take(all.len() as int) =~= all);
            assert forall|k: u64| #[trigger] m0.contains_key(k) implies exists|j: int|
                0 <= j < rows@.len() && (#[trigger] rows@[j]).1 == k by {
                assert(s0.contains_key(k));
                let j = all.index_of((s0[k].pos, k));
                assert(all.contains((s0[k].pos, k)));
                assert(rows@[j].1 == k);
            }
            assert forall|j: int| 0 <= j < rows@.len() implies cur.contains_key(
                (#[trigger] rows@[j]).1,
            ) by {
                assert(s0.contains_key(rows@[j].1));
            }
        }
        while rows.len() as u64 > keep
            invariant
                self.wf(),
                t0.occupied(h as int),
                self@.limit == old(self)@.limit,
                self@.table == t0.with_blocks(h as int, cur),
                crate::holders::ordered_rows(s0, all),
                rows@.len() <= all.len(),
                rows@ == all.take(rows@.len() as int),
                keep <= rows@.len(),
                m0.dom().finite(),
                all.len() == m0.len(),
                all.len() <= usize::MAX,
                cur.submap_of(m0),
                cur.dom().finite(),
                cur.len() == rows@.len(),
                forall|k: u64| #[trigger]
                    cur.contains_key(k) ==> exists|j: int|
                        0 <= j < rows@.len() && (#[trigger] rows@[j]).1 == k,
                forall|j: int| 0 <= j < rows@.len() ==> cur.contains_key((#[trigger] rows@[j]).1),
                dropped == all.len() - rows@.len(),
            decreases rows@.len(),
        {
            let ghost was = rows@;
            match rows.pop() {
                None => {},
                Some((pos, key)) => {
                    proof {
                        assert(was[was.len() - 1] == (pos, key));
                        assert(cur.contains_key(was[was.len() - 1].1));
                        model::with_blocks_twice(t0, h as int, cur, cur.remove(key));
                        assert(rows@ =~= all.take(rows@.len() as int));
                        assert forall|j: int| 0 <= j < rows@.len() implies cur.remove(
                            key,
                        ).contains_key((#[trigger] rows@[j]).1) by {
                            assert(rows@[j] == was[j]);
                            assert(was[j] == all[j] && was[was.len() - 1] == all[was.len() - 1]);
                        }
                        assert forall|k: u64| #[trigger] cur.remove(key).contains_key(
                            k,
                        ) implies exists|j: int|
                            0 <= j < rows@.len() && (#[trigger] rows@[j]).1 == k by {
                            assert(cur.contains_key(k));
                            let j = choose|j: int| 0 <= j < was.len() && (#[trigger] was[j]).1 == k;
                            assert(rows@[j].1 == k);
                        }
                    }
                    self.unlink(h, key);
                    dropped = dropped + 1;
                    proof {
                        cur = cur.remove(key);
                    }
                },
            }
        }
        proof {
            model::with_blocks_twice(t0, h as int, cur, cur);
            assert forall|j: u64, k: u64| #[trigger]
                cur.contains_key(j) && #[trigger] m0.contains_key(k) && !cur.contains_key(
                    k,
                ) implies model::ahead(m0, j, k) by {
                let x = choose|x: int| 0 <= x < rows@.len() && (#[trigger] rows@[x]).1 == j;
                assert(m0.contains_key(j));
                assert(s0.contains_key(k) && s0.contains_key(j));
                assert(all.contains((s0[k].pos, k)));
                let y = all.index_of((s0[k].pos, k));
                assert(all[y].1 == k);
                if y < rows@.len() {
                    assert(rows@[y].1 == k);
                }
                assert(all[x] == rows@[x]);
                assert(crate::sorted::before(all[x], all[y]));
            }
        }
        dropped
    }

    /// The holder's blocks as (position, key, content), by position, ties by
    /// key. None for an id that names no live holder.
    pub fn enumerate(&self, id: HolderId) -> (r: Vec<(u32, BlockKey, ContentHash)>)
        requires
            self.wf(),
        ensures
            model::listed(self@.table.held(id), r@),
    {
        let mut out: Vec<(u32, BlockKey, ContentHash)> = Vec::new();
        proof {
            path_table_basics(self.trie, self.spots());
        }
        if !self.holders.is_live(id) {
            return out;
        }
        let h: u32 = id.parts().0;
        let ghost m = self@.table.held(id);
        let ghost s0 = self.spots().blocks(h as int);
        let rows = self.holders.ordered(h);
        let mut i: usize = 0;
        while i < rows.len()
            invariant
                self.wf(),
                self.spots().occupied(h as int),
                s0 == self.spots().blocks(h as int),
                m == path_map(self.trie, s0),
                crate::holders::ordered_rows(s0, rows@),
                i <= rows@.len(),
                out@.len() == i,
                forall|j: int| 0 <= j < i ==> #[trigger] out@[j] == (
                    rows@[j].0,
                    rows@[j].1,
                    m[rows@[j].1].content(),
                ),
            decreases rows@.len() - i,
        {
            let (pos, key): (u32, u64) = rows[i];
            match self.holders.get(h, key) {
                Some(s) => {
                    proof {
                        assert(s0.contains_key(key));
                        assert(self.trie.node(s.chain as int, s.pos as int));
                        reveal(Trie::shaped);
                        assert(self.trie.shaped(s.chain as int, self.bound()));
                    }
                    let ch = &self.trie.chains[s.chain];
                    out.push((pos, key, ch.contents[(s.pos - ch.base_pos) as usize]));
                },
                None => {},
            }
            i = i + 1;
        }
        proof {
            assert forall|k: u64| #[trigger] m.contains_key(k) implies m[k].position()
                == s0[k].pos by {
                self.reach_len(Some(s0[k]));
            }
            assert forall|j: int| #![trigger out@[j]] 0 <= j < out@.len() implies m.contains_key(
                out@[j].1,
            ) && out@[j].0 == m[out@[j].1].position() && out@[j].2 == m[out@[j].1].content() by {
                assert(s0.contains_key(rows@[j].1));
                assert(m.contains_key(rows@[j].1));
            }
            assert forall|k: u64| #[trigger] m.contains_key(k) implies exists|j: int|
                0 <= j < out@.len() && (#[trigger] out@[j]).1 == k by {
                assert(s0.contains_key(k));
                assert(rows@.contains((s0[k].pos, k)));
                let j = rows@.index_of((s0[k].pos, k));
                assert(out@[j].1 == k);
            }
            assert forall|a: int, b: int| 0 <= a < b < out@.len() implies model::ahead(
                m,
                (#[trigger] out@[a]).1,
                (#[trigger] out@[b]).1,
            ) by {
                assert(crate::sorted::before(rows@[a], rows@[b]));
                assert(m.contains_key(out@[a].1) && m.contains_key(out@[b].1));
            }
        }
        out
    }

    /// Bytes of the first `n` chains.
    spec fn chain_bytes(&self, n: int) -> nat
        decreases n,
    {
        if n <= 0 {
            0
        } else {
            let ch = self.trie.chains@[n - 1];
            self.chain_bytes(n - 1) + 16 * ch.contents@.len() + 24 * ch.spans@.len() + 16
                * ch.children@.len()
        }
    }

    /// Bytes of the trie: 16 per content, 24 per run, 16 per fork.
    pub closed spec fn trie_bytes(&self) -> nat {
        self.chain_bytes(self.trie.chains@.len() as int)
    }

    /// Where nobody covers anything, no chain is in use.
    proof fn no_cover_no_chain(&self, c: int)
        requires
            self.wf(),
            forall|i: int, k: u64|
                self.spots().occupied(i) ==> !#[trigger] self.spots().blocks(i).contains_key(k),
        ensures
            !self.trie.alive(c),
        decreases self.bound() - self.trie.chains@[c].base_pos,
    {
        if self.trie.alive(c) {
            reveal(Trie::shaped);
            reveal(Trie::hung);
            reveal(Trie::bears);
            reveal(RadixTree3::backed);
            let ch = self.trie.chains@[c];
            assert(self.trie.shaped(c, self.bound()) && self.trie.bears(c));
            assert(self.trie.busy(c));
            if ch.spans@.len() > 0 {
                let run = ch.spans@[0];
                let h = run.holders@[0];
                assert(run.holders@.contains(h));
                assert(crate::spans::covers(ch.spans@, run.start as int, h));
                let s = Spot { chain: c as usize, pos: run.start };
                assert(self.trie.chains.len() == self.trie.chains@.len());
                assert(self.trie.covers(s.chain as int, s.pos as int, h));
                let k = choose|k: u64| #[trigger]
                    self.spots().blocks(h as int).contains_key(k) && self.spots().blocks(
                        h as int,
                    )[k] == s;
                assert(false);
            }
            let f = ch.children@[0];
            assert(self.trie.forks_to(c, f));
            let d = f.2 as int;
            assert(self.trie.alive(d));
            assert(self.trie.hung(d) && self.trie.shaped(d, self.bound()));
            self.no_cover_no_chain(d);
        }
    }

    /// Once no holder holds a block, the trie takes no space: whatever was stored
    /// and retired before has left nothing behind.
    pub proof fn empty_index_takes_no_space(&self)
        requires
            self.wf(),
            self@.table.pairs().len() == 0,
        ensures
            self.trie_bytes() == 0,
            self@.table.placements().len() == 0,
    {
        path_table_basics(self.trie, self.spots());
        let pairs = self@.table.pairs();
        assert forall|i: int, k: u64|
            self.spots().occupied(i) implies !#[trigger] self.spots().blocks(i).contains_key(k) by {
            if self.spots().blocks(i).contains_key(k) {
                self.view_facts();
                assert(i <= u32::MAX);
                assert(self.spots().pairs().contains((i as u32, k)));
                assert(pairs.contains((i as u32, k)));
                assert(pairs.len() > 0);
            }
        }
        assert forall|c: int| !#[trigger] self.trie.alive(c) by {
            self.no_cover_no_chain(c);
        }
        self.freed_chains_are_empty(self.trie.chains@.len() as int);
        assert(self@.table.placements() =~= Set::empty()) by {
            assert forall|q: Seq<u64>| !self@.table.placements().contains(q) by {
                if self@.table.placements().contains(q) {
                    let i = choose|i: int| #[trigger]
                        self@.table.occupied(i) && model::holds(self@.table.blocks(i), q);
                    let k = choose|k: u64| #[trigger]
                        self@.table.blocks(i).contains_key(k) && self@.table.blocks(i)[k] == q;
                    assert(self.spots().occupied(i));
                    assert(self.spots().blocks(i).contains_key(k));
                }
            }
        }
    }

    proof fn freed_chains_are_empty(&self, n: int)
        requires
            self.wf(),
            forall|c: int| !#[trigger] self.trie.alive(c),
            0 <= n <= self.trie.chains@.len(),
        ensures
            self.chain_bytes(n) == 0,
        decreases n,
    {
        if n > 0 {
            self.freed_chains_are_empty(n - 1);
            reveal(Trie::freed);
            assert(!self.trie.alive(n - 1));
            assert(!self.trie.busy(n - 1));
        }
    }

    /// Size of the index.
    pub fn stats(&self) -> (r: Stats)
        requires
            self.wf(),
        ensures
            r.holders == self@.table.residents().len(),
            r.holder_blocks == clamp(self@.table.pairs().len()),
            r.distinct_entries == clamp(self@.table.placements().len()),
            r.bytes_estimate == clamp(
                self.trie_bytes() + 24 * self@.table.pairs().len() + 128
                    * self@.table.residents().len(),
            ),
    {
        proof {
            path_table_basics(self.trie, self.spots());
            model::pairs_are_bounded(self@.table.pairs());
        }
        let holders: u64 = self.holders.live_count();
        let mut bytes: u64 = 0;
        let mut i: usize = 0;
        while i < self.trie.chains.len()
            invariant
                i <= self.trie.chains@.len(),
                bytes == clamp(self.chain_bytes(i as int)),
            decreases self.trie.chains@.len() - i,
        {
            let ch = &self.trie.chains[i];
            let own: u128 = 16 * (ch.contents.len() as u128) + 24 * (ch.spans.len() as u128) + 16 * (
            ch.children.len() as u128);
            bytes = bytes.saturating_add(clamped(own));
            i = i + 1;
        }
        let rest: u128 = 24 * self.holder_blocks_total + 128 * (holders as u128);
        Stats {
            holders,
            holder_blocks: clamped(self.holder_blocks_total),
            distinct_entries: clamped(self.distinct_entries),
            bytes_estimate: bytes.saturating_add(clamped(rest)),
        }
    }

    /// The matched part of the trie: segments (chain, from, to) that line up
    /// from position 0 on.
    fn walk(&self, q: &[ContentHash]) -> (r: Vec<(usize, u32, u32)>)
        requires
            self.wf(),
        ensures
            matched(self.trie, q@, r@),
    {
        let mut segs: Vec<(usize, u32, u32)> = Vec::new();
        let mut cur: Option<Spot> = None;
        let mut d: usize = 0;
        let ghost limit = self.bound();
        while d < q.len()
            invariant
                self.wf(),
                limit == self.bound(),
                d <= q@.len(),
                lined_up(self.trie, q@, segs@, d as int),
                cur is None <==> d == 0,
                cur is Some ==> self.trie.node(cur->0.chain as int, cur->0.pos as int)
                    && cur->0.pos + 1 == d && segs@.len() > 0 && segs@.last().0 == cur->0.chain,
                self.trie.reach(cur) == q@.take(d as int),
                d == 0 ==> segs@.len() == 0,
            ensures
                lined_up(self.trie, q@, segs@, d as int),
                d < q@.len() ==> unmatched(self.trie, q@, d as int),
                d <= q@.len(),
            decreases q@.len() - d,
        {
            proof {
                assert(q@.take(d + 1) =~= q@.take(d as int).push(q@[d as int]));
            }
            match self.trie.step(cur, q[d], Ghost(limit)) {
                None => {
                    proof {
                        assert forall|c: int|
                            !(#[trigger] self.trie.node(c, d as int) && self.trie.path(c, d as int)
                                == q@.take(d + 1)) by {
                            assert(Trie::ahead(cur) == d);
                            assert(!(self.trie.node(c, Trie::ahead(cur)) && self.trie.path(
                                c,
                                Trie::ahead(cur),
                            ) == self.trie.reach(cur).push(q@[d as int])));
                        }
                    }
                    break;
                },
                Some(s) => {
                    let ghost was = segs@;
                    proof {
                        assert(s.pos < limit) by {
                            reveal(Trie::shaped);
                            assert(self.trie.shaped(s.chain as int, limit));
                        }
                    }
                    let n: usize = segs.len();
                    if n > 0 && segs[n - 1].0 == s.chain {
                        let from: u32 = segs[n - 1].1;
                        segs[n - 1] = (s.chain, from, s.pos + 1);
                        proof {
                            assert(segs@ =~= was.update(n - 1, (s.chain, from, (d + 1) as u32)));
                            lined_up_longer(self.trie, q@, was, d as int);
                        }
                    } else {
                        segs.push((s.chain, s.pos, s.pos + 1));
                        proof {
                            assert(segs@ =~= was.push((s.chain, d as u32, (d + 1) as u32)));
                            lined_up_more(self.trie, q@, was, s.chain, d as int);
                        }
                    }
                    cur = Some(s);
                    d = d + 1;
                },
            }
        }
        segs
    }

    /// The holders of position `x` of the query are those that cover its spot.
    proof fn run_is_cover(&self, q: Seq<u64>, c: int, x: int, run: Seq<u32>)
        requires
            self.sound(),
            self.trie.node(c, x),
            0 <= x < q.len(),
            self.trie.path(c, x) == q.take(x + 1),
            crate::sorted::increasing(run),
            forall|h: u32| #[trigger] run.contains(h) <==> self.trie.covers(c, x, h),
        ensures
            crate::merge::run_at(self@.table, q, x, run),
    {
        model::at_is_prefix(q, x);
        reveal(Trie::shaped);
        assert(self.trie.shaped(c, self.bound()));
        assert(self.trie.chains.len() == self.trie.chains@.len());
        let s = Spot { chain: c as usize, pos: x as u32 };
        self.covered_is_placed(s);
        assert forall|h: u32| #[trigger] run.contains(h) <==> self@.table.occupied(h as int)
            && model::holds(self@.table.blocks(h as int), model::at::<Seq<u64>>(q, x)) by {
            assert(self.trie.covers(s.chain as int, s.pos as int, h) == self.trie.covers(c, x, h));
        }
    }

    /// Where the trie has no position for a prefix, nobody holds it.
    proof fn nobody_holds(&self, q: Seq<u64>, d: int)
        requires
            self.sound(),
            0 <= d < q.len(),
            unmatched(self.trie, q, d),
        ensures
            forall|i: int| #[trigger]
                self@.table.occupied(i) ==> !model::holds(
                    self@.table.blocks(i),
                    model::at::<Seq<u64>>(q, d),
                ),
    {
        model::at_is_prefix(q, d);
        let t = self.spots();
        path_table_basics(self.trie, t);
        assert forall|i: int| #[trigger] self@.table.occupied(i) implies !model::holds(
            self@.table.blocks(i),
            model::at::<Seq<u64>>(q, d),
        ) by {
            let m = self@.table.blocks(i);
            if model::holds(m, q.take(d + 1)) {
                let k = choose|k: u64| #[trigger] m.contains_key(k) && m[k] == q.take(d + 1);
                assert(t.blocks(i).contains_key(k));
                let s = t.blocks(i)[k];
                assert(self.trie.node(s.chain as int, s.pos as int));
                self.reach_len(Some(s));
                assert(s.pos == d);
            }
        }
    }

    /// The holders of the longest prefixes of `chain_query`, one row for each
    /// holder that holds its first block.
    pub fn overlap(
        &self,
        chain_query: &[ContentHash],
        scratch: &mut OverlapScratch,
        out: &mut Vec<Overlap>,
    )
        requires
            self.wf(),
        ensures
            model::answered(self@.table, chain_query@, final(out)@),
    {
        out.clear();
        let ghost t = self@.table;
        let ghost q = chain_query@;
        let segs = self.walk(chain_query);
        scratch.active.clear();
        scratch.next.clear();
        let mut p: u32 = 0;
        let mut i: usize = 0;
        let mut done: bool = false;
        proof {
            self.view_facts();
            path_table_basics(self.trie, self.spots());
        }
        while i < segs.len() && !done
            invariant
                self.wf(),
                t == self@.table,
                q == chain_query@,
                i <= segs@.len(),
                matched(self.trie, q, segs@),
                t.slots.len() <= u32::MAX,
                self.holders@.slots.len() == t.slots.len(),
                p == 0 <==> i == 0 && !done || p == 0 && done,
                !done ==> p == (if i == 0 {
                    0
                } else {
                    segs@[i - 1].2 as int
                }),
                p <= q.len(),
                p == 0 ==> out@.len() == 0 && scratch.active@.len() == 0,
                p > 0 ==> crate::merge::surviving(t, q, p as int, scratch.active@),
                p > 0 ==> crate::merge::settled(t, q, p as int, out@),
                done ==> forall|s: int| #[trigger]
                    t.occupied(s) ==> model::depth(t.blocks(s), q) <= p,
            decreases segs@.len() - i,
        {
            let (c, from, to): (usize, u32, u32) = segs[i];
            assert(from == p);
            while p < to && !done
                invariant
                    self.wf(),
                    t == self@.table,
                    q == chain_query@,
                    i < segs@.len(),
                    (c, from, to) == segs@[i as int],
                    matched(self.trie, q, segs@),
                    t.slots.len() <= u32::MAX,
                    self.holders@.slots.len() == t.slots.len(),
                    from <= p <= to <= q.len(),
                    p == 0 ==> out@.len() == 0 && scratch.active@.len() == 0,
                    p > 0 ==> crate::merge::surviving(t, q, p as int, scratch.active@),
                    p > 0 ==> crate::merge::settled(t, q, p as int, out@),
                    done ==> forall|s: int| #[trigger]
                        t.occupied(s) ==> model::depth(t.blocks(s), q) <= p,
                decreases to - p, (if done {
                    0int
                } else {
                    1int
                }),
            {
                proof {
                    assert forall|x: int| p <= x < to implies #[trigger] along(
                        self.trie,
                        q,
                        c,
                        x,
                    ) by {
                        assert(along(self.trie, q, segs@[i as int].0, x));
                    }
                }
                let stop_at: Option<u32> = self.merge_run(c, p, to, Ghost(q), scratch, out);
                match stop_at {
                    None => {
                        done = true;
                    },
                    Some(e) => {
                        p = e;
                        if scratch.active.len() == 0 {
                            done = true;
                            proof {
                                assert forall|s: int| #[trigger]
                                    t.occupied(s) implies model::depth(t.blocks(s), q) <= p by {
                                    if model::depth(t.blocks(s), q) >= p {
                                        assert(s == (s as u32) as int);
                                        assert(scratch.active@.contains(s as u32));
                                    }
                                }
                            }
                        }
                    },
                }
            }
            i = i + 1;
        }
        proof {
            if !done {
                if p < q.len() {
                    assert(reached(segs@) == p);
                    self.nobody_holds(q, p as int);
                }
                assert forall|s: int| #[trigger] t.occupied(s) implies model::depth(t.blocks(s), q)
                    <= p by {
                    model::depth_is_greatest(t.blocks(s), q);
                }
            }
        }
        if p > 0 {
            let ghost rows = out@;
            proof {
                path_table_basics(self.trie, self.spots());
                assert forall|x: int| 0 <= x < scratch.active@.len() implies self.holders@.occupied(
                    #[trigger] scratch.active@[x] as int,
                ) by {
                    assert(scratch.active@.contains(scratch.active@[x]));
                }
            }
            push_all(&self.holders, &scratch.active, p, out);
            proof {
                self.rows_are_rows(p, scratch.active@, out@.skip(rows.len() as int));
                crate::merge::settling(t, q, p, p + 1, scratch.active@, rows, out@);
                crate::merge::settled_is_answered(t, q, p + 1, out@);
            }
        } else {
            proof {
                assert forall|s: int| #[trigger] t.occupied(s) implies model::depth(t.blocks(s), q)
                    == 0 by {
                    model::depth_is_greatest(t.blocks(s), q);
                }
            }
        }
    }

    /// Rows tell of both tables alike.
    proof fn rows_are_rows(&self, p: u32, gone: Seq<u32>, rows: Seq<Overlap>)
        requires
            crate::merge::rows_for(self.spots(), p, gone, rows),
            forall|i: int| 0 <= i < gone.len() ==> self.spots().occupied(#[trigger] gone[i] as int),
        ensures
            crate::merge::rows_for(self@.table, p, gone, rows),
    {
        path_table_basics(self.trie, self.spots());
        assert forall|i: int| #![trigger rows[i]] 0 <= i < rows.len() implies rows[i].holder.slot()
            == gone[i] && self@.table.live(rows[i].holder) && rows[i].depth == p
            && rows[i].total_blocks == self@.table.blocks(gone[i] as int).len() by {
            assert(self.spots().occupied(gone[i] as int));
            assert(self@.table.blocks(gone[i] as int).dom() =~= self.spots().blocks(
                gone[i] as int,
            ).dom());
        }
    }

    /// Narrows the active holders over the run at position `p` of chain `c`.
    /// Returns where the run ends, within `to`; `None` if nobody covers `p`.
    fn merge_run(
        &self,
        c: usize,
        p: u32,
        to: u32,
        q: Ghost<Seq<u64>>,
        scratch: &mut OverlapScratch,
        out: &mut Vec<Overlap>,
    ) -> (r: Option<u32>)
        requires
            self.wf(),
            p < to <= q@.len(),
            forall|x: int| p <= x < to ==> #[trigger] along(self.trie, q@, c, x),
            p == 0 ==> old(out)@.len() == 0 && old(scratch).active@.len() == 0,
            p > 0 ==> crate::merge::surviving(self@.table, q@, p as int, old(scratch).active@),
            p > 0 ==> crate::merge::settled(self@.table, q@, p as int, old(out)@),
        ensures
            match r {
                None => {
                    &&& final(out)@ == old(out)@
                    &&& final(scratch).active@ == old(scratch).active@
                    &&& forall|s: int| #[trigger]
                        self@.table.occupied(s) ==> model::depth(self@.table.blocks(s), q@) <= p
                },
                Some(e) => {
                    &&& p < e <= to
                    &&& crate::merge::surviving(
                        self@.table,
                        q@,
                        e as int,
                        final(scratch).active@,
                    )
                    &&& crate::merge::settled(self@.table, q@, e as int, final(out)@)
                },
            },
    {
        let ghost t = self@.table;
        proof {
            self.view_facts();
            path_table_basics(self.trie, self.spots());
            assert(along(self.trie, q@, c, p as int));
            assert(self.trie.shaped(c as int, self.bound()));
        }
        let ch = &self.trie.chains[c];
        let found: Option<usize> = {
            proof {
                reveal(Trie::shaped);
            }
            spans::span_index(&ch.spans, p)
        };
        match found {
            None => {
                proof {
                    let nobody = Seq::<u32>::empty();
                    assert forall|h: u32| #[trigger] nobody.contains(h) <==> self.trie.covers(
                        c as int,
                        p as int,
                        h,
                    ) by {}
                    self.run_is_cover(q@, c as int, p as int, nobody);
                    assert forall|s: int| #[trigger] t.occupied(s) implies model::depth(
                        t.blocks(s),
                        q@,
                    ) <= p by {
                        model::depth_is_greatest(t.blocks(s), q@);
                        assert(s == (s as u32) as int);
                        assert(!nobody.contains(s as u32));
                    }
                }
                None
            },
            Some(i) => {
                let span = &ch.spans[i];
                let ghost run = span.holders@;
                proof {
                    reveal(Trie::shaped);
                    assert(spans::sound_span(ch.spans@[i as int]));
                }
                let stop: u32 = span.start + span.len;
                let e: u32 = if stop < to {
                    stop
                } else {
                    to
                };
                proof {
                    assert forall|x: int| p <= x < e implies #[trigger] crate::merge::run_at(
                        t,
                        q@,
                        x,
                        run,
                    ) by {
                        assert(along(self.trie, q@, c, x));
                        assert forall|h: u32| #[trigger] run.contains(h) <==> self.trie.covers(
                            c as int,
                            x,
                            h,
                        ) by {
                            spans::one_span(ch.spans@, i as int, x, h);
                        }
                        self.run_is_cover(q@, c as int, x, run);
                    }
                }
                if p == 0 {
                    scratch.active.extend_from_slice(span.holders.as_slice());
                    proof {
                        assert(scratch.active@ =~= run);
                        crate::merge::surviving_first(t, q@, e as int, run);
                        assert(out@ =~= Seq::<Overlap>::empty());
                    }
                } else {
                    let ghost rows = out@;
                    let ghost active = scratch.active@;
                    proof {
                        assert forall|x: int| 0 <= x < active.len() implies self.holders@.occupied(
                            #[trigger] active[x] as int,
                        ) by {
                            assert(active.contains(active[x]));
                        }
                    }
                    let gone = narrow(
                        &self.holders,
                        &scratch.active,
                        &span.holders,
                        p,
                        &mut scratch.next,
                        out,
                    );
                    proof {
                        crate::merge::surviving_run(
                            t,
                            q@,
                            p as int,
                            e as int,
                            active,
                            run,
                            scratch.next@,
                            gone@,
                        );
                        assert forall|x: int| 0 <= x < gone@.len() implies self.spots().occupied(
                            #[trigger] gone@[x] as int,
                        ) by {
                            assert(gone@.contains(gone@[x]));
                        }
                        self.rows_are_rows(p, gone@, out@.skip(rows.len() as int));
                        crate::merge::settling(t, q@, p, e as int, gone@, rows, out@);
                    }
                    std::mem::swap(&mut scratch.active, &mut scratch.next);
                }
                Some(e)
            },
        }
    }
}

/// The segments line up from position 0 to `d`, along positions of the trie
/// with the contents of `q`.
spec fn lined_up(trie: Trie, q: Seq<u64>, segs: Seq<(usize, u32, u32)>, d: int) -> bool {
    &&& 0 <= d <= q.len()
    &&& d == 0 <==> segs.len() == 0
    &&& segs.len() > 0 ==> segs[0].1 == 0 && segs.last().2 == d
    &&& forall|i: int| #![trigger segs[i]] 0 <= i < segs.len() ==> segs[i].1 < segs[i].2 <= d
    &&& forall|i: int| #![trigger segs[i]] 0 <= i && i + 1 < segs.len() ==> segs[i].2 == segs[i
        + 1].1
    &&& forall|i: int, x: int|
        0 <= i < segs.len() && segs[i].1 <= x < segs[i].2 ==> #[trigger] along(
            trie,
            q,
            segs[i].0,
            x,
        )
}

/// Position `x` of chain `c` has the contents of `q` up to there.
spec fn along(trie: Trie, q: Seq<u64>, c: usize, x: int) -> bool {
    trie.node(c as int, x) && trie.path(c as int, x) == q.take(x + 1)
}

/// The segments line up as far as the trie goes along with `q`.
spec fn matched(trie: Trie, q: Seq<u64>, segs: Seq<(usize, u32, u32)>) -> bool {
    &&& lined_up(trie, q, segs, reached(segs))
    &&& reached(segs) < q.len() ==> unmatched(trie, q, reached(segs))
}

/// Where the last segment ends.
spec fn reached(segs: Seq<(usize, u32, u32)>) -> int {
    if segs.len() == 0 {
        0
    } else {
        segs.last().2 as int
    }
}

/// The trie has no position for the first `d + 1` contents of `q`.
spec fn unmatched(trie: Trie, q: Seq<u64>, d: int) -> bool {
    forall|c: int| !(#[trigger] trie.node(c, d) && trie.path(c, d) == q.take(d + 1))
}

proof fn lined_up_longer(trie: Trie, q: Seq<u64>, segs: Seq<(usize, u32, u32)>, d: int)
    requires
        lined_up(trie, q, segs, d),
        segs.len() > 0,
        d < q.len(),
        d < u32::MAX,
        trie.node(segs.last().0 as int, d),
        trie.path(segs.last().0 as int, d) == q.take(d + 1),
    ensures
        lined_up(
            trie,
            q,
            segs.update(segs.len() - 1, (segs.last().0, segs.last().1, (d + 1) as u32)),
            d + 1,
        ),
{
    let n = segs.len() - 1;
    let now = segs.update(n, (segs.last().0, segs.last().1, (d + 1) as u32));
    assert forall|i: int| #![trigger now[i]] 0 <= i < now.len() implies now[i].1 < now[i].2 <= d
        + 1 by {
        assert(segs[i].1 < segs[i].2);
    }
    assert forall|i: int| #![trigger now[i]] 0 <= i && i + 1 < now.len() implies now[i].2 == now[i
        + 1].1 by {
        assert(segs[i].2 == segs[i + 1].1);
    }
    assert forall|i: int, x: int|
        0 <= i < now.len() && now[i].1 <= x < now[i].2 implies #[trigger] along(
        trie,
        q,
        now[i].0,
        x,
    ) by {
        assert(segs[i].0 == now[i].0);
        if !(i == n && x == d) {
            assert(along(trie, q, segs[i].0, x));
        }
    }
}

proof fn lined_up_more(trie: Trie, q: Seq<u64>, segs: Seq<(usize, u32, u32)>, c: usize, d: int)
    requires
        lined_up(trie, q, segs, d),
        d < q.len(),
        d < u32::MAX,
        trie.node(c as int, d),
        trie.path(c as int, d) == q.take(d + 1),
    ensures
        lined_up(trie, q, segs.push((c, d as u32, (d + 1) as u32)), d + 1),
{
    let n = segs.len() as int;
    let now = segs.push((c, d as u32, (d + 1) as u32));
    assert forall|i: int| #![trigger now[i]] 0 <= i < now.len() implies now[i].1 < now[i].2 <= d
        + 1 by {
        if i < n {
            assert(now[i] == segs[i]);
        }
    }
    assert forall|i: int| #![trigger now[i]] 0 <= i && i + 1 < now.len() implies now[i].2 == now[i
        + 1].1 by {
        assert(now[i] == segs[i]);
        if i + 1 < n {
            assert(segs[i].2 == segs[i + 1].1);
        }
    }
    assert forall|i: int, x: int|
        0 <= i < now.len() && now[i].1 <= x < now[i].2 implies #[trigger] along(
        trie,
        q,
        now[i].0,
        x,
    ) by {
        if i < n {
            assert(now[i] == segs[i]);
            assert(along(trie, q, segs[i].0, x));
        }
    }
    if n > 0 {
        assert(now[0] == segs[0]);
    }
}

} // verus!
