//! The flat core: a positional entry map with lineage-disambiguated
//! membership, and the holder table.

use crate::fx::fx_map;
use crate::fx::hashes_consistently;
use crate::holders::HolderTable;
use crate::holders::Located;
use crate::lineage::lineage_root;
use crate::lineage::lineage_step;
use crate::lineage::root_of;
use crate::lineage::step_of;
use crate::membership::Membership;
use crate::sorted::increasing;
use crate::merge::narrow;
use crate::merge::push_all;
use crate::merge::settled;
use crate::merge::settled_is_answered;
use crate::merge::settling;
use crate::merge::surviving;
use crate::merge::surviving_step;
use crate::model::block_added;
use crate::model::block_removed;
use crate::model::placed_push;
use crate::model::pruned_step;
use crate::model::taken;
use crate::model::trail_push;
use crate::model::with_blocks_twice;
use crate::model::answered;
use crate::model::at;
use crate::model::batch;
use crate::model::depth;
use crate::model::depth_is_greatest;
use crate::model::fresh;
use crate::model::holds;
use crate::model::listed;
use crate::model::placed;
use crate::model::pruned;
use crate::model::start;
use crate::model::store_error;
use crate::model::stored;
use crate::model::trail;
use crate::model::truncated;
use crate::model::unaliased;
use crate::model::pairs_are_bounded;
use crate::model::placements_are_bounded;
use crate::model::Placement;
use crate::model::TreeView;
use crate::types::clamp;
use crate::types::clamped;
use crate::types::BlockKey;
use crate::types::Config;
use crate::types::ContentHash;
use crate::types::HolderId;
use crate::types::Overlap;
use crate::types::Stats;
use crate::types::StoreError;
use crate::types::StoreOutcome;
use rustc_hash::FxHashMap;
use vstd::prelude::*;

verus! {

/// A block's placement: position, content, and the lineage fingerprint of the
/// chain up to and with it.
#[derive(Debug, Clone, Copy, PartialEq, Eq, Structural)]
pub struct BlockInfo {
    pub pos: u32,
    pub content: ContentHash,
    pub lineage: u64,
}

impl Placement for BlockInfo {
    open spec fn first(content: u64) -> Self {
        BlockInfo { pos: 0, content, lineage: root_of(content) }
    }

    open spec fn extend(self, content: u64) -> Self {
        BlockInfo {
            pos: (self.pos + 1) as u32,
            content,
            lineage: step_of(self.lineage, content),
        }
    }

    open spec fn position(self) -> int {
        self.pos as int
    }

    open spec fn content(self) -> u64 {
        self.content
    }
}

impl Located for BlockInfo {
    open spec fn at(self) -> u32 {
        self.pos
    }

    fn position_of(&self) -> (r: u32) {
        self.pos
    }
}

/// The entry of a position and a content.
pub(crate) open spec fn site(pos: u32, content: u64) -> u128 {
    (pos * 0x1_0000_0000_0000_0000 + content) as u128
}

fn site_of(pos: u32, content: u64) -> (r: u128)
    ensures
        r == site(pos, content),
{
    (pos as u128) * 0x1_0000_0000_0000_0000 + (content as u128)
}

/// Different positions or contents have different entries.
proof fn sites_differ(a: BlockInfo, b: BlockInfo)
    requires
        site(a.pos, a.content) == site(b.pos, b.content),
    ensures
        a.pos == b.pos,
        a.content == b.content,
{
}

/// The index with the flat layout.
pub struct RadixTree {
    cfg: Config,
    entries: FxHashMap<u128, Membership>,
    holders: HolderTable<BlockInfo>,
    holder_blocks_total: u128,
    distinct_lineage_entries: u128,
}

impl View for RadixTree {
    type V = TreeView<BlockInfo>;

    closed spec fn view(&self) -> TreeView<BlockInfo> {
        TreeView { limit: self.cfg.max_chain_len, table: self.holders@ }
    }
}

impl RadixTree {
    /// `h` is a member of the entry of `p`, under the lineage of `p`.
    closed spec fn entered(&self, p: BlockInfo, h: u32) -> bool {
        let k = site(p.pos, p.content);
        self.entries@.contains_key(k) && self.entries@[k].has(p.lineage, h)
    }

    /// Entries and holders tell the same.
    closed spec fn coherent(&self) -> bool {
        &&& forall|p: BlockInfo, h: u32| #[trigger]
            self.entered(p, h) <==> self@.table.occupied(h as int) && holds(
                self@.table.blocks(h as int),
                p,
            )
        &&& forall|k: u128| #[trigger]
            self.entries@.contains_key(k) ==> self.entries@[k].wf() && exists|p: BlockInfo, h: u32|
                k == site(p.pos, p.content) && #[trigger] self.entered(p, h)
    }

    /// A valid index.
    pub closed spec fn wf(&self) -> bool {
        &&& self.holders.wf()
        &&& hashes_consistently(self.entries)
        &&& forall|i: int| #[trigger]
            self@.table.occupied(i) ==> unaliased(self@.table.blocks(i))
        &&& forall|i: int, k: u64|
            self@.table.occupied(i) && #[trigger] self@.table.blocks(i).contains_key(k)
                ==> self@.table.blocks(i)[k].pos < self.cfg.max_chain_len
        &&& self.coherent()
        &&& self@.table.pairs().finite()
        &&& self.holder_blocks_total == self@.table.pairs().len()
        &&& self.distinct_lineage_entries == self@.table.placements().len()
    }

    /// What validity means to a caller.
    pub proof fn validity(&self)
        requires
            self.wf(),
        ensures
            self@.table.wf(),
            self@.table.pairs().finite(),
            self@.table.placements().finite(),
            forall|i: int| #[trigger]
                self@.table.occupied(i) ==> unaliased(self@.table.blocks(i)),
            forall|i: int, k: u64|
                self@.table.occupied(i) && #[trigger] self@.table.blocks(i).contains_key(k)
                    ==> self@.table.blocks(i)[k].pos < self@.limit,
    {
        placements_are_bounded(self@.table);
    }

    /// An index without holders.
    pub fn new(cfg: Config) -> (r: RadixTree)
        ensures
            r.wf(),
            r@.limit == cfg.max_chain_len,
            r@.table.slots.len() == 0,
            r@.table.free.len() == 0,
    {
        let r = RadixTree {
            cfg,
            entries: fx_map(),
            holders: HolderTable::new(),
            holder_blocks_total: 0,
            distinct_lineage_entries: 0,
        };
        proof {
            assert(r@.table.pairs() =~= Set::empty());
            assert(r@.table.placements() =~= Set::empty());
            assert forall|p: BlockInfo, h: u32| !#[trigger] r.entered(p, h) by {}
        }
        r
    }

    /// The live holder called `name`, created without blocks if there is none.
    /// Retired slots are used again.
    pub fn create_holder(&mut self, name: &str) -> (id: HolderId)
        requires
            old(self).wf(),
            old(self)@.table.has_room(name@),
        ensures
            final(self).wf(),
            final(self)@.limit == old(self)@.limit,
            old(self)@.table.created(name@, final(self)@.table, id),
    {
        let ghost pre = *self;
        let id = self.holders.create(name);
        proof {
            let t = pre@.table;
            if !t.has_name(name@) && t.free.len() > 0 {
                assert(t.free[t.free.len() - 1] == id.slot());
            }
            self.reseated(pre);
        }
        id
    }

    /// The holder's name.
    pub fn holder_name(&self, id: HolderId) -> (r: Option<&str>)
        ensures
            r is Some <==> self@.table.live(id),
            r is Some ==> r->0@ == self@.table.name(id.slot() as int),
    {
        self.holders.name_of(id)
    }

    /// Where the holder has a block.
    pub(crate) fn block(&self, id: HolderId, key: BlockKey) -> (r: Option<BlockInfo>)
        requires
            self.wf(),
        ensures
            r == (if self@.table.held(id).contains_key(key) {
                Some(self@.table.held(id)[key])
            } else {
                None::<BlockInfo>
            }),
    {
        if self.holders.is_live(id) {
            self.holders.get(id.parts().0, key)
        } else {
            None
        }
    }

    /// How many blocks the holder holds.
    pub fn holder_blocks(&self, id: HolderId) -> (r: u64)
        requires
            self.wf(),
        ensures
            r == self@.table.held(id).len(),
    {
        if self.holders.is_live(id) {
            self.holders.count(id.parts().0) as u64
        } else {
            0
        }
    }

    /// Holders that come or go without blocks leave the rest as it is.
    proof fn reseated(self, pre: Self)
        requires
            pre.wf(),
            self.holders.wf(),
            self.cfg == pre.cfg,
            self.entries == pre.entries,
            self.holder_blocks_total == pre.holder_blocks_total,
            self.distinct_lineage_entries == pre.distinct_lineage_entries,
            forall|j: int| #[trigger]
                self@.table.occupied(j) && pre@.table.occupied(j) ==> self@.table.blocks(j)
                    == pre@.table.blocks(j),
            forall|j: int| #[trigger]
                self@.table.occupied(j) && !pre@.table.occupied(j) ==> self@.table.blocks(j)
                    == Map::<u64, BlockInfo>::empty(),
            forall|j: int| #[trigger]
                pre@.table.occupied(j) && !self@.table.occupied(j) ==> pre@.table.blocks(j)
                    == Map::<u64, BlockInfo>::empty(),
        ensures
            self.wf(),
    {
        let t = pre@.table;
        let u = self@.table;
        assert forall|j: int, p: BlockInfo| (#[trigger] u.occupied(j) && holds(u.blocks(j), p)) == (
        t.occupied(j) && #[trigger] holds(t.blocks(j), p)) by {
            if u.occupied(j) {
            }
            if t.occupied(j) {
            }
        }
        assert forall|x: (u32, u64)| #[trigger] u.pairs().contains(x) == t.pairs().contains(x) by {
            if u.occupied(x.0 as int) {
            }
            if t.occupied(x.0 as int) {
            }
        }
        assert(u.pairs() =~= t.pairs());
        assert forall|p: BlockInfo| #[trigger] u.placements().contains(p)
            == t.placements().contains(p) by {
            if u.placements().contains(p) {
                let j = choose|j: int| #[trigger] u.occupied(j) && holds(u.blocks(j), p);
                assert(t.occupied(j) && holds(t.blocks(j), p));
            }
            if t.placements().contains(p) {
                let j = choose|j: int| #[trigger] t.occupied(j) && holds(t.blocks(j), p);
                assert(u.occupied(j) && holds(u.blocks(j), p));
            }
        }
        assert(u.placements() =~= t.placements());
        assert forall|p: BlockInfo, h: u32| #[trigger] self.entered(p, h) <==> u.occupied(h as int)
            && holds(u.blocks(h as int), p) by {
            assert(self.entered(p, h) == pre.entered(p, h));
            assert((u.occupied(h as int) && holds(u.blocks(h as int), p)) == (t.occupied(h as int)
                && holds(t.blocks(h as int), p)));
        }
        assert forall|k: u128| #[trigger] self.entries@.contains_key(k) implies exists|
            p: BlockInfo,
            h: u32,
        |
            k == site(p.pos, p.content) && #[trigger] self.entered(p, h) by {
            let (p, h) = choose|p: BlockInfo, h: u32|
                k == site(p.pos, p.content) && #[trigger] pre.entered(p, h);
            assert(self.entered(p, h));
        }
        assert forall|j: int| #[trigger] u.occupied(j) implies unaliased(u.blocks(j)) by {
            if t.occupied(j) {
            }
        }
        assert forall|j: int, k: u64|
            u.occupied(j) && #[trigger] u.blocks(j).contains_key(k) implies u.blocks(j)[k].pos
            < self.cfg.max_chain_len by {
            assert(t.occupied(j));
            assert(t.blocks(j).contains_key(k));
        }
    }

    /// Registers `key` at `info` for a holder that has neither.
    fn link(&mut self, h: u32, key: BlockKey, info: BlockInfo)
        requires
            old(self).wf(),
            old(self)@.table.occupied(h as int),
            !old(self)@.table.blocks(h as int).contains_key(key),
            !holds(old(self)@.table.blocks(h as int), info),
            info.pos < old(self)@.limit,
        ensures
            final(self).wf(),
            final(self)@.limit == old(self)@.limit,
            final(self)@.table == old(self)@.table.with_blocks(
                h as int,
                old(self)@.table.blocks(h as int).insert(key, info),
            ),
    {
        let ghost pre = *self;
        proof {
            pairs_are_bounded(self@.table.pairs());
            placements_are_bounded(self@.table);
        }
        self.holders.insert(h, key, info);
        let k: u128 = site_of(info.pos, info.content);
        let known: bool = match self.entries.remove(&k) {
            None => {
                self.entries.insert(k, Membership::One { lineage: info.lineage, holder: h });
                false
            },
            Some(m) => {
                let known: bool = m.lineage_shared_beyond(info.lineage, h);
                proof {
                    assert(!pre.entered(info, h));
                    assert(m == pre.entries@[k]);
                }
                self.entries.insert(k, m.with(info.lineage, h));
                known
            },
        };
        if !known {
            self.distinct_lineage_entries = self.distinct_lineage_entries + 1;
        }
        self.holder_blocks_total = self.holder_blocks_total + 1;
        proof {
            let t = pre@.table;
            let u = self@.table;
            let i = h as int;
            assert(u == t.with_blocks(i, t.blocks(i).insert(key, info)));
            block_added(t, i, key, info);
            assert(u.blocks(i) == t.blocks(i).insert(key, info));
            assert forall|j: int| #[trigger] u.occupied(j) == t.occupied(j) && (j != i
                && t.occupied(j) ==> u.blocks(j) == t.blocks(j)) by {}
            assert(self.entries@.dom() =~= pre.entries@.dom().insert(k));
            assert forall|p: BlockInfo, x: u32| #[trigger] self.entered(p, x) <==> pre.entered(p, x)
                || (p == info && x == h) by {
                if site(p.pos, p.content) == k {
                    sites_differ(p, info);
                }
            }
            assert forall|p: BlockInfo, x: u32| #[trigger] self.entered(p, x) <==> u.occupied(
                x as int,
            ) && holds(u.blocks(x as int), p) by {
                assert(pre.entered(p, x) <==> t.occupied(x as int) && holds(
                    t.blocks(x as int),
                    p,
                ));
                if x == h {
                    if holds(t.blocks(i), p) {
                        let y = choose|y: u64| #[trigger]
                            t.blocks(i).contains_key(y) && t.blocks(i)[y] == p;
                        assert(u.blocks(i).contains_key(y));
                    }
                    if p == info {
                        assert(u.blocks(i).contains_key(key));
                    }
                    if holds(u.blocks(i), p) {
                        let y = choose|y: u64| #[trigger]
                            u.blocks(i).contains_key(y) && u.blocks(i)[y] == p;
                        if y != key {
                            assert(t.blocks(i).contains_key(y));
                        }
                    }
                }
            }
            assert(self.entered(info, h));
            assert forall|s: u128| #[trigger] self.entries@.contains_key(
                s,
            ) implies self.entries@[s].wf() && exists|p: BlockInfo, x: u32|
                s == site(p.pos, p.content) && #[trigger] self.entered(p, x) by {
                if s != k {
                    assert(pre.entries@.contains_key(s));
                    let (p, x) = choose|p: BlockInfo, x: u32|
                        s == site(p.pos, p.content) && #[trigger] pre.entered(p, x);
                    assert(self.entered(p, x));
                }
            }
            assert(known == t.placements().contains(info)) by {
                if known {
                    let x = choose|x: u32| x != h && #[trigger] pre.entries@[k].has(info.lineage, x);
                    assert(pre.entered(info, x));
                    assert(t.occupied(x as int));
                }
                if t.placements().contains(info) {
                    let j = choose|j: int| #[trigger]
                        t.occupied(j) && holds(t.blocks(j), info);
                    assert(j == (j as u32) as int);
                    assert(pre.entered(info, j as u32));
                    assert(pre.entries@[k].has(info.lineage, j as u32));
                }
            }
            assert forall|j: int| #[trigger] u.occupied(j) implies unaliased(
                u.blocks(j),
            ) by {
                assert(t.occupied(j));
                if j == i {
                    assert forall|a: u64, b: u64| #[trigger]
                        u.blocks(i).contains_key(a) && #[trigger] u.blocks(i).contains_key(b)
                            && u.blocks(i)[a] == u.blocks(i)[b] implies a == b by {
                        if a == key && b != key {
                            assert(t.blocks(i).contains_key(b));
                        }
                        if b == key && a != key {
                            assert(t.blocks(i).contains_key(a));
                        }
                        if a != key && b != key {
                            assert(t.blocks(i).contains_key(a) && t.blocks(i).contains_key(b));
                        }
                    }
                }
            }
            assert forall|j: int, x: u64|
                u.occupied(j) && #[trigger] u.blocks(j).contains_key(x) implies u.blocks(j)[x].pos
                < self.cfg.max_chain_len by {
                assert(t.occupied(j));
                if !(j == i && x == key) {
                    assert(t.blocks(j).contains_key(x));
                }
            }
        }
    }

    /// Takes `key` from a holder, if it has it.
    fn unlink(&mut self, h: u32, key: BlockKey) -> (r: bool)
        requires
            old(self).wf(),
            old(self)@.table.occupied(h as int),
        ensures
            final(self).wf(),
            final(self)@.limit == old(self)@.limit,
            r == old(self)@.table.blocks(h as int).contains_key(key),
            final(self)@.table == old(self)@.table.with_blocks(
                h as int,
                old(self)@.table.blocks(h as int).remove(key),
            ),
    {
        let ghost pre = *self;
        let info = match self.holders.remove(h, key) {
            None => {
                proof {
                    let t = pre@.table;
                    assert(t.blocks(h as int).remove(key) =~= t.blocks(h as int));
                    assert(t.with_blocks(h as int, t.blocks(h as int)).slots =~= t.slots);
                    assert(self@.table == t);
                    self.reseated(pre);
                }
                return false;
            },
            Some(info) => info,
        };
        let k: u128 = site_of(info.pos, info.content);
        proof {
            assert(holds(pre@.table.blocks(h as int), info));
            assert(pre.entered(info, h));
            placements_are_bounded(pre@.table);
        }
        let mut shared: bool = false;
        match self.entries.remove(&k) {
            None => {},
            Some(m) => {
                shared = m.lineage_shared_beyond(info.lineage, h);
                match m.without(info.lineage, h) {
                    None => {},
                    Some(rest) => {
                        self.entries.insert(k, rest);
                    },
                }
            },
        }
        proof {
            let t = pre@.table;
            let i = h as int;
            let pm = pre.entries@[k];
            assert(shared == exists|x: u32| x != h && #[trigger] pm.has(info.lineage, x));
            assert(shared == exists|j: int|
                j != i && #[trigger] t.occupied(j) && holds(t.blocks(j), info)) by {
                if shared {
                    let x = choose|x: u32| x != h && #[trigger] pm.has(info.lineage, x);
                    assert(pre.entered(info, x));
                    assert(t.occupied(x as int));
                }
                if exists|j: int|
                    j != i && #[trigger] t.occupied(j) && holds(t.blocks(j), info) {
                    let j = choose|j: int|
                        j != i && #[trigger] t.occupied(j) && holds(t.blocks(j), info);
                    assert(j == (j as u32) as int);
                    assert(pre.entered(info, j as u32));
                    assert(pm.has(info.lineage, j as u32));
                }
            }
            block_removed(t, i, key, shared);
            assert(t.placements().len() > 0);
            assert(t.pairs().len() > 0);
        }
        if !shared {
            self.distinct_lineage_entries = self.distinct_lineage_entries - 1;
        }
        self.holder_blocks_total = self.holder_blocks_total - 1;
        proof {
            let t = pre@.table;
            let u = self@.table;
            let i = h as int;
            let pm = pre.entries@[k];
            assert(u.blocks(i) == t.blocks(i).remove(key));
            assert forall|j: int| #[trigger] u.occupied(j) == t.occupied(j) && (j != i
                && t.occupied(j) ==> u.blocks(j) == t.blocks(j)) by {}
            assert forall|p: BlockInfo, x: u32| #[trigger] self.entered(p, x) <==> pre.entered(p, x)
                && !(p == info && x == h) by {
                if site(p.pos, p.content) == k {
                    sites_differ(p, info);
                    assert(pm.has(p.lineage, x) == pre.entered(p, x));
                }
            }
            assert forall|p: BlockInfo, x: u32| #[trigger] self.entered(p, x) <==> u.occupied(
                x as int,
            ) && holds(u.blocks(x as int), p) by {
                assert(pre.entered(p, x) <==> t.occupied(x as int) && holds(
                    t.blocks(x as int),
                    p,
                ));
                if x == h {
                    if holds(t.blocks(i), p) && p != info {
                        let y = choose|y: u64| #[trigger]
                            t.blocks(i).contains_key(y) && t.blocks(i)[y] == p;
                        assert(u.blocks(i).contains_key(y));
                    }
                    if holds(u.blocks(i), p) {
                        let y = choose|y: u64| #[trigger]
                            u.blocks(i).contains_key(y) && u.blocks(i)[y] == p;
                        assert(t.blocks(i).contains_key(y));
                        assert(t.blocks(i).contains_key(key));
                    }
                }
            }
            assert forall|s: u128| #[trigger] self.entries@.contains_key(
                s,
            ) implies self.entries@[s].wf() && exists|p: BlockInfo, x: u32|
                s == site(p.pos, p.content) && #[trigger] self.entered(p, x) by {
                assert(pre.entries@.contains_key(s));
                if s != k {
                    let (p, x) = choose|p: BlockInfo, x: u32|
                        s == site(p.pos, p.content) && #[trigger] pre.entered(p, x);
                    assert(self.entered(p, x));
                } else {
                    let rest = self.entries@[k];
                    let (l, x) = choose|l: u64, x: u32| rest.has(l, x);
                    let p = BlockInfo { pos: info.pos, content: info.content, lineage: l };
                    assert(self.entered(p, x));
                }
            }
            assert forall|j: int| #[trigger] u.occupied(j) implies unaliased(
                u.blocks(j),
            ) by {
                assert(t.occupied(j));
                if j == i {
                    assert forall|a: u64, b: u64| #[trigger]
                        u.blocks(i).contains_key(a) && #[trigger] u.blocks(i).contains_key(b)
                            && u.blocks(i)[a] == u.blocks(i)[b] implies a == b by {
                        assert(t.blocks(i).contains_key(a) && t.blocks(i).contains_key(b));
                    }
                }
            }
            assert forall|j: int, x: u64|
                u.occupied(j) && #[trigger] u.blocks(j).contains_key(x) implies u.blocks(j)[x].pos
                < self.cfg.max_chain_len by {
                assert(t.occupied(j));
                assert(t.blocks(j).contains_key(x));
            }
        }
        true
    }

    /// Whether the holder already holds a block at `info`.
    fn has_block(&self, h: u32, info: BlockInfo) -> (r: bool)
        requires
            self.wf(),
            self@.table.occupied(h as int),
        ensures
            r == holds(self@.table.blocks(h as int), info),
    {
        assert(self.entered(info, h) <==> holds(self@.table.blocks(h as int), info));
        match self.entries.get(&site_of(info.pos, info.content)) {
            None => false,
            Some(m) => m.contains(info.lineage, h),
        }
    }

    /// Stores a batch of blocks that continues the chain of `parent`, or that
    /// starts a chain at position 0. On an error nothing is changed.
    pub fn store(
        &mut self,
        id: HolderId,
        parent: Option<BlockKey>,
        blocks: &[(BlockKey, ContentHash)],
    ) -> (r: Result<StoreOutcome, StoreError>)
        requires
            old(self).wf(),
        ensures
            final(self).wf(),
            match r {
                Err(e) => store_error(old(self)@, id, parent, blocks@) == Some(e) && final(self)@
                    == old(self)@,
                Ok(o) => {
                    &&& store_error(old(self)@, id, parent, blocks@) is None
                    &&& final(self)@ == stored(old(self)@, id, parent, blocks@)
                    &&& o.applied == fresh(
                        old(self)@.table.held(id),
                        batch(old(self)@.table.held(id), parent, blocks@),
                    )
                    &&& o.applied + o.duplicates == blocks@.len()
                },
            },
    {
        if !self.holders.is_live(id) {
            return Err(StoreError::UnknownHolder);
        }
        let h: u32 = id.parts().0;
        let ghost t0 = self@.table;
        let ghost m0 = t0.held(id);
        let ghost a0 = crate::model::anchor(m0, parent);
        if blocks.len() == 0 {
            proof {
                with_blocks_twice(t0, h as int, m0, m0);
            }
            return Ok(StoreOutcome { applied: 0, duplicates: 0 });
        }
        let mut prev: Option<BlockInfo> = None;
        let mut start: u32 = 0;
        match parent {
            None => {},
            Some(key) => match self.holders.get(h, key) {
                None => return Err(StoreError::ParentNotFound),
                Some(info) => {
                    assert(t0.blocks(h as int).contains_key(key));
                    start = info.pos + 1;
                    prev = Some(info);
                },
            },
        }
        if blocks.len() > (self.cfg.max_chain_len - start) as usize {
            return Err(StoreError::ChainTooLong);
        }
        let mut applied: u32 = 0;
        let mut duplicates: u32 = 0;
        let mut n: usize = 0;
        proof {
            with_blocks_twice(t0, h as int, m0, m0);
            assert(blocks@.take(0) =~= Seq::<(u64, u64)>::empty());
        }
        while n < blocks.len()
            invariant
                self.wf(),
                n <= blocks@.len(),
                start + blocks@.len() <= self@.limit,
                t0.occupied(h as int),
                h == id.slot(),
                self@.limit == old(self)@.limit,
                self@.table == t0.with_blocks(
                    h as int,
                    placed(m0, trail(a0, blocks@.take(n as int))),
                ),
                applied == fresh(m0, trail(a0, blocks@.take(n as int))),
                applied + duplicates == n,
                prev == (if n == 0 {
                    a0
                } else {
                    Some(trail(a0, blocks@.take(n as int)).last().1)
                }),
                match prev {
                    None => start + n == 0,
                    Some(b) => b.pos + 1 == start + n,
                },
            decreases blocks@.len() - n,
        {
            let (key, content): (u64, u64) = blocks[n];
            let info = match prev {
                None => BlockInfo { pos: 0, content, lineage: lineage_root(content) },
                Some(b) => BlockInfo {
                    pos: b.pos + 1,
                    content,
                    lineage: lineage_step(b.lineage, content),
                },
            };
            let ghost cur = placed(m0, trail(a0, blocks@.take(n as int)));
            proof {
                trail_push(a0, blocks@, n as int);
                placed_push(m0, trail(a0, blocks@.take(n as int)), (key, info));
                assert(info == crate::model::next(prev, content));
                with_blocks_twice(t0, h as int, cur, cur);
            }
            if self.has_block(h, info) {
                duplicates = duplicates + 1;
            } else {
                self.unlink(h, key);
                proof {
                    with_blocks_twice(t0, h as int, cur, cur.remove(key));
                    assert(!holds(cur.remove(key), info)) by {
                        if holds(cur.remove(key), info) {
                            let y = choose|y: u64| #[trigger]
                                cur.remove(key).contains_key(y) && cur.remove(key)[y] == info;
                            assert(cur.contains_key(y));
                        }
                    }
                }
                self.link(h, key, info);
                proof {
                    assert(cur.remove(key).insert(key, info) =~= cur.insert(key, info));
                    with_blocks_twice(t0, h as int, cur.remove(key), cur.insert(key, info));
                }
                applied = applied + 1;
            }
            prev = Some(info);
            n = n + 1;
        }
        assert(blocks@.take(n as int) =~= blocks@);
        Ok(StoreOutcome { applied, duplicates })
    }

    /// Takes the listed blocks from the holder; unknown keys are skipped.
    /// Returns how many were taken.
    pub fn remove(&mut self, id: HolderId, keys: &[BlockKey]) -> (r: u32)
        requires
            old(self).wf(),
        ensures
            final(self).wf(),
            final(self)@.limit == old(self)@.limit,
            !old(self)@.table.live(id) ==> final(self)@ == old(self)@ && r == 0,
            old(self)@.table.live(id) ==> final(self)@.table == old(self)@.table.with_blocks(
                id.slot() as int,
                pruned(old(self)@.table.held(id), keys@),
            ),
            r == (if taken(old(self)@.table.held(id), keys@) <= u32::MAX {
                taken(old(self)@.table.held(id), keys@) as u32
            } else {
                u32::MAX
            }),
    {
        if !self.holders.is_live(id) {
            proof {
                let m = self@.table.held(id);
                assert(pruned(m, keys@) =~= m);
            }
            return 0;
        }
        let h: u32 = id.parts().0;
        let ghost t0 = self@.table;
        let ghost m0 = t0.held(id);
        let mut removed: u32 = 0;
        let mut n: usize = 0;
        proof {
            assert(pruned(m0, keys@.take(0)) =~= m0);
            with_blocks_twice(t0, h as int, m0, m0);
        }
        while n < keys.len()
            invariant
                self.wf(),
                n <= keys@.len(),
                t0.occupied(h as int),
                self@.limit == old(self)@.limit,
                m0.dom().finite(),
                self@.table == t0.with_blocks(h as int, pruned(m0, keys@.take(n as int))),
                removed == (if taken(m0, keys@.take(n as int)) <= u32::MAX {
                    taken(m0, keys@.take(n as int)) as u32
                } else {
                    u32::MAX
                }),
            decreases keys@.len() - n,
        {
            let key: u64 = keys[n];
            let ghost cur = pruned(m0, keys@.take(n as int));
            proof {
                with_blocks_twice(t0, h as int, cur, cur.remove(key));
                pruned_step(m0, keys@, n as int);
            }
            if self.unlink(h, key) {
                removed = removed.saturating_add(1);
            }
            n = n + 1;
        }
        assert(keys@.take(n as int) =~= keys@);
        removed
    }

    /// Drops all blocks of the holder, which stays.
    pub fn clear(&mut self, id: HolderId)
        requires
            old(self).wf(),
        ensures
            final(self).wf(),
            final(self)@.limit == old(self)@.limit,
            !old(self)@.table.live(id) ==> final(self)@ == old(self)@,
            old(self)@.table.live(id) ==> final(self)@.table == old(self)@.table.with_blocks(
                id.slot() as int,
                Map::empty(),
            ),
    {
        if self.holders.is_live(id) {
            let ghost m0 = self@.table.held(id);
            let keys = self.holders.keys(id.parts().0);
            self.remove(id, keys.as_slice());
            proof {
                assert(pruned(m0, keys@) =~= Map::empty());
            }
        }
    }

    /// Drops the holder: its blocks are gone, its ids are stale, and its slot
    /// is free for the next holder.
    pub fn retire_holder(&mut self, id: HolderId)
        requires
            old(self).wf(),
        ensures
            final(self).wf(),
            final(self)@.limit == old(self)@.limit,
            !old(self)@.table.live(id) ==> final(self)@ == old(self)@,
            old(self)@.table.live(id) ==> final(self)@.table == old(self)@.table.without_holder(
                id.slot() as int,
            ),
    {
        if self.holders.is_live(id) {
            let h: u32 = id.parts().0;
            let ghost t0 = self@.table;
            self.clear(id);
            let ghost mid = *self;
            proof {
                with_blocks_twice(t0, h as int, Map::empty(), Map::empty());
            }
            self.holders.retire(h);
            proof {
                assert(self@.table.slots =~= t0.without_holder(h as int).slots);
                assert forall|j: int| j != h implies #[trigger] self@.table.occupied(j)
                    == mid@.table.occupied(j) && (mid@.table.occupied(j) ==> self@.table.blocks(j)
                    == mid@.table.blocks(j)) by {}
                self.reseated(mid);
            }
        }
    }

    /// Drops blocks from the deepest position up, ties by descending key,
    /// until `keep` are left. Returns how many were dropped.
    pub fn truncate_tail(&mut self, id: HolderId, keep: u64) -> (r: u64)
        requires
            old(self).wf(),
        ensures
            final(self).wf(),
            final(self)@.limit == old(self)@.limit,
            !old(self)@.table.live(id) ==> final(self)@ == old(self)@ && r == 0,
            old(self)@.table.live(id) ==> {
                &&& final(self)@.table == old(self)@.table.with_blocks(
                    id.slot() as int,
                    final(self)@.table.held(id),
                )
                &&& truncated(old(self)@.table.held(id), keep as int, final(self)@.table.held(id))
                &&& r == old(self)@.table.held(id).len() - final(self)@.table.held(id).len()
            },
    {
        if !self.holders.is_live(id) {
            return 0;
        }
        let h: u32 = id.parts().0;
        let ghost t0 = self@.table;
        let ghost m0 = t0.held(id);
        proof {
            with_blocks_twice(t0, h as int, m0, m0);
        }
        if self.holders.count(h) as u64 <= keep {
            return 0;
        }
        let mut rows = self.holders.ordered(h);
        let ghost all = rows@;
        let mut dropped: u64 = 0;
        let ghost mut cur = m0;
        proof {
            assert(all.take(all.len() as int) =~= all);
            assert forall|k: u64| #[trigger] m0.contains_key(k) implies exists|j: int|
                0 <= j < rows@.len() && (#[trigger] rows@[j]).1 == k by {
                let j = all.index_of((m0[k].pos, k));
                assert(all.contains((m0[k].pos, k)));
                assert(rows@[j].1 == k);
            }
        }
        while rows.len() as u64 > keep
            invariant
                self.wf(),
                t0.occupied(h as int),
                self@.limit == old(self)@.limit,
                self@.table == t0.with_blocks(h as int, cur),
                crate::holders::ordered_rows(m0, all),
                rows@.len() <= all.len(),
                rows@ == all.take(rows@.len() as int),
                keep <= rows@.len(),
                m0.dom().finite(),
                all.len() == m0.len(),
                all.len() <= usize::MAX,
                cur.submap_of(m0),
                cur.dom().finite(),
                cur.len() == rows@.len(),
                forall|k: u64| #[trigger]
                    cur.contains_key(k) ==> exists|j: int|
                        0 <= j < rows@.len() && (#[trigger] rows@[j]).1 == k,
                forall|j: int| 0 <= j < rows@.len() ==> cur.contains_key((#[trigger] rows@[j]).1),
                dropped == all.len() - rows@.len(),
            decreases rows@.len(),
        {
            let ghost was = rows@;
            match rows.pop() {
                None => {},
                Some((pos, key)) => {
                    proof {
                        assert(was[was.len() - 1] == (pos, key));
                        assert(cur.contains_key(was[was.len() - 1].1));
                        with_blocks_twice(t0, h as int, cur, cur.remove(key));
                        assert(rows@ =~= all.take(rows@.len() as int));
                        assert forall|j: int| 0 <= j < rows@.len() implies cur.remove(
                            key,
                        ).contains_key((#[trigger] rows@[j]).1) by {
                            assert(rows@[j] == was[j]);
                            assert(was[j] == all[j] && was[was.len() - 1] == all[was.len() - 1]);
                        }
                        assert forall|k: u64| #[trigger] cur.remove(key).contains_key(
                            k,
                        ) implies exists|j: int|
                            0 <= j < rows@.len() && (#[trigger] rows@[j]).1 == k by {
                            assert(cur.contains_key(k));
                            let j = choose|j: int| 0 <= j < was.len() && (#[trigger] was[j]).1 == k;
                            assert(rows@[j].1 == k);
                        }
                    }
                    self.unlink(h, key);
                    dropped = dropped + 1;
                    proof {
                        cur = cur.remove(key);
                    }
                },
            }
        }
        proof {
            with_blocks_twice(t0, h as int, cur, cur);
            assert forall|j: u64, k: u64| #[trigger]
                cur.contains_key(j) && #[trigger] m0.contains_key(k) && !cur.contains_key(
                    k,
                ) implies crate::model::ahead(m0, j, k) by {
                let x = choose|x: int| 0 <= x < rows@.len() && (#[trigger] rows@[x]).1 == j;
                assert(all.contains((m0[k].pos, k)));
                let y = all.index_of((m0[k].pos, k));
                assert(all[y].1 == k);
                if y < rows@.len() {
                    assert(rows@[y].1 == k);
                }
                assert(all[x] == rows@[x]);
                assert(crate::sorted::before(all[x], all[y]));
            }
        }
        dropped
    }

    /// The holders of a block at `info`, ascending; `None` if no block has its
    /// position and content.
    fn run_of(&self, info: BlockInfo) -> (r: Option<Vec<u32>>)
        requires
            self.wf(),
        ensures
            match r {
                None => forall|s: int| #[trigger]
                    self@.table.occupied(s) ==> !holds(self@.table.blocks(s), info),
                Some(run) => {
                    &&& increasing(run@)
                    &&& forall|s: u32| #[trigger]
                        run@.contains(s) <==> self@.table.occupied(s as int) && holds(
                            self@.table.blocks(s as int),
                            info,
                        )
                    &&& info.pos < self@.limit
                },
            },
    {
        match self.entries.get(&site_of(info.pos, info.content)) {
            None => {
                proof {
                    assert forall|s: int| #[trigger] self@.table.occupied(s) implies !holds(
                        self@.table.blocks(s),
                        info,
                    ) by {
                        assert(!self.entered(info, s as u32));
                    }
                }
                None
            },
            Some(m) => {
                let run = m.run(info.lineage);
                proof {
                    let (b, h) = choose|b: BlockInfo, h: u32|
                        site(info.pos, info.content) == site(b.pos, b.content)
                            && #[trigger] self.entered(b, h);
                    sites_differ(b, info);
                    self.entered_is_short(b, h);
                    assert forall|s: u32| #[trigger] run@.contains(s) <==> self@.table.occupied(
                        s as int,
                    ) && holds(self@.table.blocks(s as int), info) by {
                        assert(self.entered(info, s) <==> m.has(info.lineage, s));
                    }
                }
                Some(run)
            },
        }
    }

    /// The holders of the longest prefixes of `chain`, one row for each holder
    /// that holds its first block.
    pub fn overlap(&self, chain: &[ContentHash], out: &mut Vec<Overlap>)
        requires
            self.wf(),
        ensures
            answered(self@.table, chain@, final(out)@),
    {
        out.clear();
        let ghost t = self@.table;
        let ghost q = chain@;
        if chain.len() == 0 {
            return;
        }
        let mut here = BlockInfo { pos: 0, content: chain[0], lineage: lineage_root(chain[0]) };
        let mut active: Vec<u32> = match self.run_of(here) {
            None => {
                proof {
                    assert forall|s: int| #[trigger] t.occupied(s) implies depth(t.blocks(s), q)
                        == 0 by {
                        assert(!holds(t.blocks(s), here));
                    }
                }
                return;
            },
            Some(run) => run,
        };
        let mut p: usize = 1;
        let mut next: Vec<u32> = Vec::new();
        proof {
            assert forall|s: u32| #[trigger] active@.contains(s) <==> t.occupied(s as int) && depth(
                t.blocks(s as int),
                q,
            ) >= 1 by {
                if t.occupied(s as int) {
                    depth_is_greatest(t.blocks(s as int), q);
                    crate::model::depth_step(t.blocks(s as int), q, 0);
                }
            }
        }
        while p < chain.len() && active.len() > 0
            invariant
                self.wf(),
                t == self@.table,
                q == chain@,
                1 <= p <= q.len(),
                p <= self@.limit,
                at::<BlockInfo>(q, p - 1) == here,
                here.pos == p - 1,
                surviving(t, q, p as int, active@),
                settled(t, q, p as int, out@),
            ensures
                p == q.len() || active@.len() == 0 || forall|s: int| #[trigger]
                    t.occupied(s) ==> depth(t.blocks(s), q) <= p,
            decreases q.len() - p,
        {
            let block = BlockInfo {
                pos: p as u32,
                content: chain[p],
                lineage: lineage_step(here.lineage, chain[p]),
            };
            assert(at::<BlockInfo>(q, p as int) == block);
            match self.run_of(block) {
                None => {
                    proof {
                        assert forall|s: int| #[trigger] t.occupied(s) implies depth(t.blocks(s), q)
                            <= p by {
                            assert(!holds(t.blocks(s), block));
                            depth_is_greatest(t.blocks(s), q);
                        }
                    }
                    break;
                },
                Some(run) => {
                    proof {
                        assert forall|i: int| 0 <= i < active@.len() implies t.occupied(
                            #[trigger] active@[i] as int,
                        ) by {
                            assert(active@.contains(active@[i]));
                        }
                    }
                    let ghost rows = out@;
                    let gone = narrow(&self.holders, &active, &run, p as u32, &mut next, out);
                    proof {
                        surviving_step(t, q, p as int, active@, run@, next@, gone@);
                        assert forall|s: int| #[trigger] t.occupied(s) implies depth(t.blocks(s), q)
                            <= p || depth(t.blocks(s), q) >= p + 1 by {}
                        settling(t, q, p as u32, p + 1, gone@, rows, out@);
                    }
                    std::mem::swap(&mut active, &mut next);
                },
            }
            here = block;
            p = p + 1;
        }
        let ghost rows = out@;
        proof {
            assert forall|i: int| 0 <= i < active@.len() implies t.occupied(
                #[trigger] active@[i] as int,
            ) by {
                assert(active@.contains(active@[i]));
            }
        }
        push_all(&self.holders, &active, p as u32, out);
        proof {
            assert forall|s: int| #[trigger] t.occupied(s) implies depth(t.blocks(s), q) <= p by {
                depth_is_greatest(t.blocks(s), q);
                if active@.len() == 0 && depth(t.blocks(s), q) >= p {
                    assert(active@.contains(s as u32));
                }
            }
            settling(t, q, p as u32, p + 1, active@, rows, out@);
            settled_is_answered(t, q, p + 1, out@);
        }
    }

    /// Blocks stand below the chain bound.
    proof fn entered_is_short(self, p: BlockInfo, h: u32)
        requires
            self.wf(),
            self.entered(p, h),
        ensures
            p.pos < self.cfg.max_chain_len,
    {
        let m = self@.table.blocks(h as int);
        assert(holds(m, p));
        let y = choose|y: u64| #[trigger] m.contains_key(y) && m[y] == p;
        assert(self@.table.blocks(h as int).contains_key(y));
    }

    /// The holder's blocks as (position, key, content), by position, ties by
    /// key. None for an id that names no live holder.
    pub fn enumerate(&self, id: HolderId) -> (r: Vec<(u32, BlockKey, ContentHash)>)
        requires
            self.wf(),
        ensures
            listed(self@.table.held(id), r@),
    {
        let mut out: Vec<(u32, BlockKey, ContentHash)> = Vec::new();
        if !self.holders.is_live(id) {
            return out;
        }
        let h: u32 = id.parts().0;
        let ghost m = self@.table.held(id);
        let rows = self.holders.ordered(h);
        let mut i: usize = 0;
        while i < rows.len()
            invariant
                self.wf(),
                self@.table.occupied(h as int),
                m == self@.table.blocks(h as int),
                crate::holders::ordered_rows(m, rows@),
                i <= rows@.len(),
                out@.len() == i,
                forall|j: int| 0 <= j < i ==> #[trigger] out@[j] == (
                    rows@[j].0,
                    rows@[j].1,
                    m[rows@[j].1].content,
                ),
            decreases rows@.len() - i,
        {
            let (pos, key): (u32, u64) = rows[i];
            match self.holders.get(h, key) {
                Some(info) => out.push((pos, key, info.content)),
                None => {},
            }
            i = i + 1;
        }
        proof {
            assert forall|k: u64| #[trigger] m.contains_key(k) implies exists|j: int|
                0 <= j < out@.len() && (#[trigger] out@[j]).1 == k by {
                assert(rows@.contains((m[k].pos, k)));
                let j = rows@.index_of((m[k].pos, k));
                assert(out@[j].1 == k);
            }
            assert forall|a: int, b: int| 0 <= a < b < out@.len() implies crate::model::ahead(
                m,
                (#[trigger] out@[a]).1,
                (#[trigger] out@[b]).1,
            ) by {
                assert(crate::sorted::before(rows@[a], rows@[b]));
            }
        }
        out
    }

    /// Size of the index.
    pub fn stats(&self) -> (r: Stats)
        requires
            self.wf(),
        ensures
            r.holders == self@.table.residents().len(),
            r.holder_blocks == clamp(self@.table.pairs().len()),
            r.distinct_entries == clamp(self@.table.placements().len()),
            r.bytes_estimate == clamp(
                48 * sites(self@.table).len() + 72 * self@.table.pairs().len() + 128
                    * self@.table.residents().len(),
            ),
    {
        let holders: u64 = self.holders.live_count();
        let entries: usize = self.entries.len();
        proof {
            pairs_are_bounded(self@.table.pairs());
            self.entries_are_sites();
        }
        let bytes: u128 = 48 * (entries as u128) + 72 * self.holder_blocks_total + 128 * (
        holders as u128);
        Stats {
            holders,
            holder_blocks: clamped(self.holder_blocks_total),
            distinct_entries: clamped(self.distinct_lineage_entries),
            bytes_estimate: clamped(bytes),
        }
    }

    /// There is one entry per position and content that some holder holds.
    proof fn entries_are_sites(self)
        requires
            self.wf(),
        ensures
            self.entries@.dom().len() == sites(self@.table).len(),
    {
        let t = self@.table;
        let f = |x: (u32, u64)| site(x.0, x.1);
        let g = |p: BlockInfo| (p.pos, p.content);
        let s = sites(t);
        placements_are_bounded(t);
        t.placements().lemma_map_finite(g);
        assert(vstd::relations::injective_on(f, s)) by {
            assert forall|x: (u32, u64), y: (u32, u64)|
                s.contains(x) && s.contains(y) && #[trigger] f(x) == #[trigger] f(y) implies x
                == y by {
                sites_differ(
                    BlockInfo { pos: x.0, content: x.1, lineage: 0 },
                    BlockInfo { pos: y.0, content: y.1, lineage: 0 },
                );
            }
        }
        assert(s.map(f) =~= self.entries@.dom()) by {
            assert forall|k: u128| #[trigger] s.map(f).contains(k) == self.entries@.dom().contains(
                k,
            ) by {
                if s.map(f).contains(k) {
                    let x = choose|x: (u32, u64)| s.contains(x) && f(x) == k;
                    let p = choose|p: BlockInfo| t.placements().contains(p) && g(p) == x;
                    let j = choose|j: int| #[trigger] t.occupied(j) && holds(t.blocks(j), p);
                    assert(self.entered(p, j as u32));
                }
                if self.entries@.dom().contains(k) {
                    assert(self.entries@.contains_key(k));
                    let (p, h) = choose|p: BlockInfo, h: u32|
                        k == site(p.pos, p.content) && #[trigger] self.entered(p, h);
                    assert(t.occupied(h as int) && holds(t.blocks(h as int), p));
                    assert(t.placements().contains(p));
                    assert(s.contains(g(p)));
                    assert(f(g(p)) == k);
                }
            }
        }
        vstd::set_lib::lemma_map_size(s, self.entries@.dom(), f);
    }
}

/// The positions and contents at which some holder holds a block.
pub open spec fn sites(t: crate::model::TableView<BlockInfo>) -> Set<(u32, u64)> {
    t.placements().map(|p: BlockInfo| (p.pos, p.content))
}

} // verus!
