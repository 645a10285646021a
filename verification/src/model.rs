//! What an index is, whatever its layout: a table of holders, each with a map
//! from block keys to placements, and the meaning of every operation on it.

use crate::types::HolderId;
use crate::types::StoreError;
use vstd::prelude::*;

verus! {

/// Where a block stands: on which chain, and at which position of it.
pub trait Placement: Sized {
    /// The first block of a chain.
    spec fn first(content: u64) -> Self;

    /// The block after this one.
    spec fn extend(self, content: u64) -> Self;

    /// Position on the chain, from 0.
    spec fn position(self) -> int;

    /// Content of the block.
    spec fn content(self) -> u64;
}

/// A block is placed by the contents of its chain up to and with its own.
impl Placement for Seq<u64> {
    open spec fn first(content: u64) -> Self {
        seq![content]
    }

    open spec fn extend(self, content: u64) -> Self {
        self.push(content)
    }

    open spec fn position(self) -> int {
        self.len() - 1
    }

    open spec fn content(self) -> u64 {
        self.last()
    }
}

/// The placement of a position on a chain is the chain up to there.
pub proof fn at_is_prefix(q: Seq<u64>, p: int)
    requires
        0 <= p < q.len(),
    ensures
        at::<Seq<u64>>(q, p) == q.take(p + 1),
    decreases p,
{
    if p == 0 {
        assert(q.take(1) =~= seq![q[0]]);
    } else {
        at_is_prefix(q, p - 1);
        assert(q.take(p + 1) =~= q.take(p).push(q[p]));
    }
}

/// A live holder.
pub struct HolderView<P> {
    pub name: Seq<char>,
    pub blocks: Map<u64, P>,
}

/// A slot of the holder table; `state` is `None` while no holder lives in it.
pub struct SlotView<P> {
    pub generation: u64,
    pub state: Option<HolderView<P>>,
}

/// All holders. `free` lists the vacant slots, the next one to be used last.
pub struct TableView<P> {
    pub slots: Seq<SlotView<P>>,
    pub free: Seq<u32>,
}

impl<P> TableView<P> {
    /// Whether a holder lives in slot `i`.
    pub open spec fn occupied(self, i: int) -> bool {
        0 <= i < self.slots.len() && self.slots[i].state is Some
    }

    /// Whether `id` names a live holder.
    pub open spec fn live(self, id: HolderId) -> bool {
        self.occupied(id.slot() as int) && self.slots[id.slot() as int].generation == id.issue()
    }

    /// Blocks of the holder in slot `i`, which is occupied.
    pub open spec fn blocks(self, i: int) -> Map<u64, P> {
        self.slots[i].state->0.blocks
    }

    /// Name of the holder in slot `i`, which is occupied.
    pub open spec fn name(self, i: int) -> Seq<char> {
        self.slots[i].state->0.name
    }

    /// Blocks that `id` holds: none if it names no live holder.
    pub open spec fn held(self, id: HolderId) -> Map<u64, P> {
        if self.live(id) {
            self.blocks(id.slot() as int)
        } else {
            Map::empty()
        }
    }

    /// Some live holder is called `name`.
    pub open spec fn has_name(self, name: Seq<char>) -> bool {
        exists|i: int| #[trigger] self.occupied(i) && self.name(i) == name
    }

    /// The table with other blocks in the occupied slot `i`.
    pub open spec fn with_blocks(self, i: int, blocks: Map<u64, P>) -> Self {
        TableView {
            slots: self.slots.update(
                i,
                SlotView {
                    generation: self.slots[i].generation,
                    state: Some(HolderView { name: self.name(i), blocks }),
                },
            ),
            free: self.free,
        }
    }

    /// The table with a new holder, without blocks, in slot `i`.
    pub open spec fn with_holder(self, i: int, name: Seq<char>) -> Self {
        let state = Some(HolderView { name, blocks: Map::empty() });
        if i < self.slots.len() {
            TableView {
                slots: self.slots.update(
                    i,
                    SlotView { generation: self.slots[i].generation, state },
                ),
                free: self.free.drop_last(),
            }
        } else {
            TableView {
                slots: self.slots.push(SlotView { generation: 0, state }),
                free: self.free,
            }
        }
    }

    /// The table without the holder in slot `i`: its ids are stale from now
    /// on, and the slot is the next one to be used.
    pub open spec fn without_holder(self, i: int) -> Self {
        TableView {
            slots: self.slots.update(
                i,
                SlotView {
                    generation: self.slots[i].generation.wrapping_add(1),
                    state: None,
                },
            ),
            free: self.free.push(i as u32),
        }
    }

    /// The slot that a new holder goes to.
    pub open spec fn next_slot(self) -> int {
        if self.free.len() > 0 {
            self.free.last() as int
        } else {
            self.slots.len() as int
        }
    }

    /// `post` and `id` are what creating a holder called `name` gives: the
    /// live holder of that name where there is one, and a new one otherwise.
    pub open spec fn created(self, name: Seq<char>, post: Self, id: HolderId) -> bool {
        if self.has_name(name) {
            &&& post == self
            &&& self.live(id)
            &&& self.name(id.slot() as int) == name
        } else {
            &&& post == self.with_holder(self.next_slot(), name)
            &&& id.slot() == self.next_slot()
            &&& id.issue() == post.slots[id.slot() as int].generation
        }
    }

    /// There is a slot for a holder called `name`: slot indices are `u32`.
    pub open spec fn has_room(self, name: Seq<char>) -> bool {
        self.has_name(name) || self.free.len() > 0 || self.slots.len() < u32::MAX
    }

    /// The (slot, key) pairs of all blocks held.
    pub open spec fn pairs(self) -> Set<(u32, u64)> {
        Set::new(
            |x: (u32, u64)|
                self.occupied(x.0 as int) && self.blocks(x.0 as int).contains_key(x.1),
        )
    }

    /// The placements that at least one holder holds.
    pub open spec fn placements(self) -> Set<P> {
        Set::new(
            |p: P| exists|i: int| #[trigger] self.occupied(i) && holds(self.blocks(i), p),
        )
    }

    /// The occupied slots.
    pub open spec fn residents(self) -> Set<int> {
        Set::new(|i: int| self.occupied(i))
    }

    /// Names are unique, `free` lists exactly the vacant slots, each once.
    pub open spec fn wf(self) -> bool {
        &&& self.slots.len() <= u32::MAX
        &&& forall|i: int, j: int|
            #[trigger] self.occupied(i) && #[trigger] self.occupied(j) && self.name(i) == self.name(
                j,
            ) ==> i == j
        &&& forall|i: int|
            0 <= i < self.free.len() ==> (#[trigger] self.free[i]) < self.slots.len()
                && !self.occupied(self.free[i] as int)
        &&& self.free.no_duplicates()
        &&& forall|i: int|
            0 <= i < self.slots.len() && !#[trigger] self.occupied(i) ==> self.free.contains(
                i as u32,
            )
        &&& forall|i: int| #[trigger] self.occupied(i) ==> self.blocks(i).dom().finite()
    }
}

/// An index: its holders and its bound on chain lengths.
pub struct TreeView<P> {
    pub limit: u32,
    pub table: TableView<P>,
}

/// The holder of `m` holds a block at `p`, under whatever key.
pub open spec fn holds<P>(m: Map<u64, P>, p: P) -> bool {
    exists|k: u64| #[trigger] m.contains_key(k) && m[k] == p
}

/// No two keys of a holder lead to the same placement.
pub open spec fn unaliased<P>(m: Map<u64, P>) -> bool {
    forall|j: u64, k: u64|
        #[trigger] m.contains_key(j) && #[trigger] m.contains_key(k) && m[j] == m[k] ==> j == k
}

/// `m` after one block is placed. A placement that the holder already holds
/// stays as it is, under the key it has; otherwise `key` leads to `p` from now
/// on, wherever it led before.
pub open spec fn place<P>(m: Map<u64, P>, key: u64, p: P) -> Map<u64, P> {
    if holds(m, p) {
        m
    } else {
        m.insert(key, p)
    }
}

/// `m` after a batch is placed, block by block.
pub open spec fn placed<P>(m: Map<u64, P>, batch: Seq<(u64, P)>) -> Map<u64, P>
    decreases batch.len(),
{
    if batch.len() == 0 {
        m
    } else {
        place(placed(m, batch.drop_last()), batch.last().0, batch.last().1)
    }
}

/// How many blocks of a batch are not duplicates when their turn comes.
pub open spec fn fresh<P>(m: Map<u64, P>, batch: Seq<(u64, P)>) -> nat
    decreases batch.len(),
{
    if batch.len() == 0 {
        0
    } else {
        fresh(m, batch.drop_last()) + (if holds(placed(m, batch.drop_last()), batch.last().1) {
            0nat
        } else {
            1nat
        })
    }
}

/// The placement after `anchor`, or the first of a chain.
pub open spec fn next<P: Placement>(anchor: Option<P>, content: u64) -> P {
    match anchor {
        None => P::first(content),
        Some(a) => a.extend(content),
    }
}

/// Where the blocks of a batch stand that continues `anchor`.
pub open spec fn trail<P: Placement>(anchor: Option<P>, blocks: Seq<(u64, u64)>) -> Seq<(u64, P)>
    decreases blocks.len(),
{
    if blocks.len() == 0 {
        Seq::empty()
    } else {
        let init = trail(anchor, blocks.drop_last());
        let prev = if init.len() == 0 {
            anchor
        } else {
            Some(init.last().1)
        };
        init.push((blocks.last().0, next(prev, blocks.last().1)))
    }
}

/// The placement of position `p` on the chain `q`.
pub open spec fn at<P: Placement>(q: Seq<u64>, p: int) -> P
    decreases p,
{
    if p <= 0 {
        P::first(q[0])
    } else {
        at::<P>(q, p - 1).extend(q[p])
    }
}

/// How many consecutive positions of `q`, from `p` on, the holder of `m` holds,
/// counted from 0.
pub open spec fn depth_from<P: Placement>(m: Map<u64, P>, q: Seq<u64>, p: int) -> int
    decreases q.len() - p,
{
    if p < q.len() && holds(m, at::<P>(q, p)) {
        depth_from(m, q, p + 1)
    } else {
        p
    }
}

/// How many leading blocks of the chain `q` the holder of `m` holds.
pub open spec fn depth<P: Placement>(m: Map<u64, P>, q: Seq<u64>) -> int {
    depth_from(m, q, 0)
}

/// Why a store is rejected, if it is.
pub open spec fn store_error<P: Placement>(
    t: TreeView<P>,
    id: HolderId,
    parent: Option<u64>,
    blocks: Seq<(u64, u64)>,
) -> Option<StoreError> {
    if !t.table.live(id) {
        Some(StoreError::UnknownHolder)
    } else if blocks.len() == 0 {
        None
    } else if parent is Some && !t.table.held(id).contains_key(parent->0) {
        Some(StoreError::ParentNotFound)
    } else if start(t.table.held(id), parent) + blocks.len() > t.limit {
        Some(StoreError::ChainTooLong)
    } else {
        None
    }
}

/// The placement that a batch continues.
pub open spec fn anchor<P>(m: Map<u64, P>, parent: Option<u64>) -> Option<P> {
    match parent {
        None => None,
        Some(k) => Some(m[k]),
    }
}

/// The position at which a batch starts.
pub open spec fn start<P: Placement>(m: Map<u64, P>, parent: Option<u64>) -> int {
    match parent {
        None => 0,
        Some(k) => m[k].position() + 1,
    }
}

/// The batch of an accepted store, with placements.
pub open spec fn batch<P: Placement>(
    m: Map<u64, P>,
    parent: Option<u64>,
    blocks: Seq<(u64, u64)>,
) -> Seq<(u64, P)> {
    trail(anchor(m, parent), blocks)
}

/// The index after an accepted store.
pub open spec fn stored<P: Placement>(
    t: TreeView<P>,
    id: HolderId,
    parent: Option<u64>,
    blocks: Seq<(u64, u64)>,
) -> TreeView<P> {
    let m = t.table.held(id);
    TreeView {
        limit: t.limit,
        table: t.table.with_blocks(id.slot() as int, placed(m, batch(m, parent, blocks))),
    }
}

/// `m` without the listed keys.
pub open spec fn pruned<P>(m: Map<u64, P>, keys: Seq<u64>) -> Map<u64, P> {
    m.remove_keys(keys.to_set())
}

/// How many blocks of `m` the listed keys name.
pub open spec fn taken<P>(m: Map<u64, P>, keys: Seq<u64>) -> int {
    m.len() - pruned(m, keys).len()
}

/// The block under `j` comes before the one under `k`: by position, ties by
/// key.
pub open spec fn ahead<P: Placement>(m: Map<u64, P>, j: u64, k: u64) -> bool {
    m[j].position() < m[k].position() || (m[j].position() == m[k].position() && j < k)
}

/// `post` is `m` cut down to its `keep` first blocks.
pub open spec fn truncated<P: Placement>(m: Map<u64, P>, keep: int, post: Map<u64, P>) -> bool {
    &&& post.submap_of(m)
    &&& post.dom().finite()
    &&& post.len() == if m.len() <= keep {
        m.len() as int
    } else {
        keep
    }
    &&& forall|j: u64, k: u64|
        #[trigger] post.contains_key(j) && #[trigger] m.contains_key(k) && !post.contains_key(k)
            ==> ahead(m, j, k)
}

/// `rows` lists the blocks of `m` in order, each once.
pub open spec fn listed<P: Placement>(m: Map<u64, P>, rows: Seq<(u32, u64, u64)>) -> bool {
    &&& forall|i: int|
        #![trigger rows[i]]
        0 <= i < rows.len() ==> m.contains_key(rows[i].1) && rows[i].0 == m[rows[i].1].position()
            && rows[i].2 == m[rows[i].1].content()
    &&& forall|k: u64| #[trigger]
        m.contains_key(k) ==> exists|i: int| 0 <= i < rows.len() && (#[trigger] rows[i]).1 == k
    &&& forall|i: int, j: int|
        0 <= i < j < rows.len() ==> ahead(m, (#[trigger] rows[i]).1, (#[trigger] rows[j]).1)
}

/// `out` answers the query `q`: one row for each holder that holds the first
/// block of `q`, by ascending depth, ties by slot.
pub open spec fn answered<P: Placement>(
    t: TableView<P>,
    q: Seq<u64>,
    out: Seq<crate::types::Overlap>,
) -> bool {
    &&& forall|i: int| 0 <= i < out.len() ==> row_of(t, q, #[trigger] out[i])
    &&& forall|s: int| #[trigger]
        t.occupied(s) && depth(t.blocks(s), q) > 0 ==> exists|i: int|
            0 <= i < out.len() && (#[trigger] out[i]).holder.slot() == s
    &&& forall|i: int, j: int|
        0 <= i < j < out.len() ==> {
            ||| (#[trigger] out[i]).depth < (#[trigger] out[j]).depth
            ||| out[i].depth == out[j].depth && out[i].holder.slot() < out[j].holder.slot()
        }
}

/// `row` tells the truth about a holder that holds the first block of `q`.
pub open spec fn row_of<P: Placement>(
    t: TableView<P>,
    q: Seq<u64>,
    row: crate::types::Overlap,
) -> bool {
    &&& t.live(row.holder)
    &&& row.depth == depth(t.blocks(row.holder.slot() as int), q)
    &&& row.depth > 0
    &&& row.total_blocks == t.blocks(row.holder.slot() as int).len()
}

/// A block under a new key adds one pair and its placement.
pub proof fn block_added<P>(t: TableView<P>, i: int, k: u64, p: P)
    requires
        t.occupied(i),
        i <= u32::MAX,
        !t.blocks(i).contains_key(k),
    ensures
        t.with_blocks(i, t.blocks(i).insert(k, p)).pairs() =~= t.pairs().insert((i as u32, k)),
        !t.pairs().contains((i as u32, k)),
        t.with_blocks(i, t.blocks(i).insert(k, p)).placements() =~= t.placements().insert(p),
{
    let m = t.blocks(i).insert(k, p);
    let post = t.with_blocks(i, m);
    assert(post.blocks(i) == m);
    assert forall|j: int| #[trigger] post.occupied(j) == t.occupied(j) && (j != i && t.occupied(j)
        ==> post.blocks(j) == t.blocks(j)) by {}
    assert forall|x: P| #[trigger] post.placements().contains(x) == t.placements().insert(
        p,
    ).contains(x) by {
        if post.placements().contains(x) {
            let j = choose|j: int| #[trigger] post.occupied(j) && holds(post.blocks(j), x);
            let y = choose|y: u64| #[trigger] post.blocks(j).contains_key(y) && post.blocks(j)[y] == x;
            if j == i && y != k {
                assert(t.blocks(i).contains_key(y));
            }
            if j != i {
                assert(t.occupied(j));
            }
        }
        if t.placements().contains(x) {
            let j = choose|j: int| #[trigger] t.occupied(j) && holds(t.blocks(j), x);
            let y = choose|y: u64| #[trigger] t.blocks(j).contains_key(y) && t.blocks(j)[y] == x;
            assert(post.occupied(j));
            assert(post.blocks(j).contains_key(y));
        }
        if x == p {
            assert(post.occupied(i));
            assert(post.blocks(i).contains_key(k));
        }
    }
}

/// Taking a block away takes its pair away, and its placement unless another
/// holder has it too.
pub proof fn block_removed<P>(t: TableView<P>, i: int, k: u64, shared: bool)
    requires
        t.occupied(i),
        i <= u32::MAX,
        t.blocks(i).contains_key(k),
        unaliased(t.blocks(i)),
        shared == exists|j: int|
            j != i && #[trigger] t.occupied(j) && holds(t.blocks(j), t.blocks(i)[k]),
    ensures
        t.with_blocks(i, t.blocks(i).remove(k)).pairs() =~= t.pairs().remove((i as u32, k)),
        t.pairs().contains((i as u32, k)),
        t.placements().contains(t.blocks(i)[k]),
        t.with_blocks(i, t.blocks(i).remove(k)).placements() =~= if shared {
            t.placements()
        } else {
            t.placements().remove(t.blocks(i)[k])
        },
{
    let p = t.blocks(i)[k];
    let m = t.blocks(i).remove(k);
    let post = t.with_blocks(i, m);
    assert(post.blocks(i) == m);
    assert(holds(t.blocks(i), p));
    assert forall|j: int| #[trigger] post.occupied(j) == t.occupied(j) && (j != i && t.occupied(j)
        ==> post.blocks(j) == t.blocks(j)) by {}
    let want = if shared {
        t.placements()
    } else {
        t.placements().remove(p)
    };
    assert forall|x: P| #[trigger] post.placements().contains(x) == want.contains(x) by {
        if post.placements().contains(x) {
            let j = choose|j: int| #[trigger] post.occupied(j) && holds(post.blocks(j), x);
            let y = choose|y: u64| #[trigger] post.blocks(j).contains_key(y) && post.blocks(j)[y] == x;
            assert(t.occupied(j));
            assert(t.blocks(j).contains_key(y));
            if j == i {
                assert(x != p);
            }
        }
        if want.contains(x) {
            if x == p {
                let j = choose|j: int| j != i && #[trigger] t.occupied(j) && holds(t.blocks(j), p);
                assert(post.occupied(j));
                assert(holds(post.blocks(j), p));
            } else {
                let j = choose|j: int| #[trigger] t.occupied(j) && holds(t.blocks(j), x);
                let y = choose|y: u64| #[trigger] t.blocks(j).contains_key(y) && t.blocks(j)[y] == x;
                assert(post.occupied(j));
                assert(post.blocks(j).contains_key(y));
            }
        }
    }
}

/// There are no more pairs than slots and keys allow.
pub proof fn pairs_are_bounded(pairs: Set<(u32, u64)>)
    requires
        pairs.finite(),
    ensures
        pairs.len() <= 0x1_0000_0000_0000_0000_0000_0000,
{
    let f = |x: (u32, u64)| (x.0 as int) * 0x1_0000_0000_0000_0000 + (x.1 as int);
    let all = vstd::set_lib::set_int_range(0, 0x1_0000_0000_0000_0000_0000_0000);
    let image = pairs.map(f);
    vstd::set_lib::lemma_int_range(0, 0x1_0000_0000_0000_0000_0000_0000);
    assert(vstd::relations::injective(f));
    vstd::set_lib::lemma_map_size(pairs, image, f);
    assert(image.subset_of(all));
    vstd::set_lib::lemma_len_subset(image, all);
}

/// No more placements are held than pairs.
pub proof fn placements_are_bounded<P>(t: TableView<P>)
    requires
        t.pairs().finite(),
        t.slots.len() <= u32::MAX,
    ensures
        t.placements().finite(),
        t.placements().len() <= t.pairs().len(),
{
    let f = |x: (u32, u64)| t.blocks(x.0 as int)[x.1];
    let image = t.pairs().map(f);
    assert forall|p: P| #[trigger] t.placements().contains(p) == image.contains(p) by {
        if t.placements().contains(p) {
            let j = choose|j: int| #[trigger] t.occupied(j) && holds(t.blocks(j), p);
            let y = choose|y: u64| #[trigger] t.blocks(j).contains_key(y) && t.blocks(j)[y] == p;
            assert(t.pairs().contains((j as u32, y)));
            assert(f((j as u32, y)) == p);
        }
        if image.contains(p) {
            let x = choose|x: (u32, u64)| t.pairs().contains(x) && f(x) == p;
            assert(t.occupied(x.0 as int) && t.blocks(x.0 as int).contains_key(x.1));
        }
    }
    assert(t.placements() =~= image);
    t.pairs().lemma_map_finite(f);
    vstd::set_lib::lemma_map_size_bound(t.pairs(), image, f);
}

/// A batch has one placement per block, and its last block stands at the
/// batch's end.
pub proof fn trail_len<P: Placement>(a: Option<P>, blocks: Seq<(u64, u64)>)
    ensures
        trail(a, blocks).len() == blocks.len(),
    decreases blocks.len(),
{
    if blocks.len() > 0 {
        trail_len(a, blocks.drop_last());
    }
}

/// One more block of a batch.
pub proof fn trail_push<P: Placement>(a: Option<P>, blocks: Seq<(u64, u64)>, n: int)
    requires
        0 <= n < blocks.len(),
    ensures
        trail(a, blocks.take(n + 1)) == trail(a, blocks.take(n)).push(
            (
                blocks[n].0,
                next(
                    if n == 0 {
                        a
                    } else {
                        Some(trail(a, blocks.take(n)).last().1)
                    },
                    blocks[n].1,
                ),
            ),
        ),
{
    assert(blocks.take(n + 1).drop_last() =~= blocks.take(n));
    trail_len(a, blocks.take(n));
}

/// One more block is placed.
pub proof fn placed_push<P>(m: Map<u64, P>, s: Seq<(u64, P)>, x: (u64, P))
    ensures
        placed(m, s.push(x)) == place(placed(m, s), x.0, x.1),
        fresh(m, s.push(x)) == fresh(m, s) + (if holds(placed(m, s), x.1) {
            0nat
        } else {
            1nat
        }),
{
    assert(s.push(x).drop_last() =~= s);
}

/// One more key of a removal.
pub proof fn pruned_step<P>(m: Map<u64, P>, keys: Seq<u64>, n: int)
    requires
        0 <= n < keys.len(),
        m.dom().finite(),
    ensures
        pruned(m, keys.take(n + 1)) == pruned(m, keys.take(n)).remove(keys[n]),
        0 <= taken(m, keys.take(n)),
        taken(m, keys.take(n + 1)) == taken(m, keys.take(n)) + (if pruned(
            m,
            keys.take(n),
        ).contains_key(keys[n]) {
            1int
        } else {
            0int
        }),
{
    let cur = pruned(m, keys.take(n));
    assert forall|k: u64| keys.take(n + 1).contains(k) <==> keys.take(n).contains(k) || k
        == keys[n] by {
        if keys.take(n).contains(k) {
            let j = keys.take(n).index_of(k);
            assert(keys.take(n + 1)[j] == k);
        }
        assert(keys.take(n + 1)[n] == keys[n]);
        if keys.take(n + 1).contains(k) && k != keys[n] {
            let j = keys.take(n + 1).index_of(k);
            assert(keys.take(n)[j] == k);
        }
    }
    assert(pruned(m, keys.take(n + 1)) =~= cur.remove(keys[n]));
    assert(cur.dom().subset_of(m.dom()));
    vstd::set_lib::lemma_len_subset(cur.dom(), m.dom());
}

/// Replacing a holder's blocks twice is replacing them once.
pub proof fn with_blocks_twice<P>(t: TableView<P>, i: int, a: Map<u64, P>, b: Map<u64, P>)
    requires
        t.occupied(i),
    ensures
        t.with_blocks(i, a).with_blocks(i, b) == t.with_blocks(i, b),
        t.with_blocks(i, a).occupied(i),
        t.with_blocks(i, a).blocks(i) == a,
        t.with_blocks(i, t.blocks(i)) == t,
        forall|id: HolderId| t.with_blocks(i, a).live(id) == t.live(id),
{
    assert(t.with_blocks(i, a).with_blocks(i, b).slots =~= t.with_blocks(i, b).slots);
    assert(t.with_blocks(i, t.blocks(i)).slots =~= t.slots);
}

/// How a depth grows: a holder that holds the first `p` positions of `q` holds
/// one more exactly if it holds position `p`.
pub proof fn depth_step<P: Placement>(m: Map<u64, P>, q: Seq<u64>, p: int)
    requires
        0 <= p <= q.len(),
        depth(m, q) >= p,
    ensures
        depth(m, q) > p <==> p < q.len() && holds(m, at::<P>(q, p)),
{
    depth_bounds(m, q, 0);
    depth_reaches(m, q, 0, p);
    if p < q.len() && holds(m, at::<P>(q, p)) {
        depth_bounds(m, q, p + 1);
    }
}

/// A depth lies between where the count starts and the chain's length.
proof fn depth_bounds<P: Placement>(m: Map<u64, P>, q: Seq<u64>, from: int)
    requires
        0 <= from <= q.len(),
    ensures
        from <= depth_from(m, q, from) <= q.len(),
    decreases q.len() - from,
{
    if from < q.len() && holds(m, at::<P>(q, from)) {
        depth_bounds(m, q, from + 1);
    }
}

/// Counting may start anywhere below the depth.
proof fn depth_reaches<P: Placement>(m: Map<u64, P>, q: Seq<u64>, from: int, p: int)
    requires
        0 <= from <= p <= q.len(),
        depth_from(m, q, from) >= p,
    ensures
        depth_from(m, q, from) == depth_from(m, q, p),
    decreases q.len() - from,
{
    if from < p {
        depth_reaches(m, q, from + 1, p);
    }
}

/// A depth is the greatest number of leading positions all of which are held.
pub proof fn depth_is_greatest<P: Placement>(m: Map<u64, P>, q: Seq<u64>)
    ensures
        0 <= depth(m, q) <= q.len(),
        forall|p: int| 0 <= p < depth(m, q) ==> holds(m, #[trigger] at::<P>(q, p)),
        depth(m, q) < q.len() ==> !holds(m, at::<P>(q, depth(m, q))),
{
    depth_bounds(m, q, 0);
    depth_is_greatest_from(m, q, 0);
}

proof fn depth_is_greatest_from<P: Placement>(m: Map<u64, P>, q: Seq<u64>, from: int)
    requires
        0 <= from <= q.len(),
    ensures
        forall|p: int| from <= p < depth_from(m, q, from) ==> holds(m, #[trigger] at::<P>(q, p)),
        depth_from(m, q, from) < q.len() ==> !holds(m, at::<P>(q, depth_from(m, q, from))),
    decreases q.len() - from,
{
    if from < q.len() && holds(m, at::<P>(q, from)) {
        depth_is_greatest_from(m, q, from + 1);
    }
}

/// A listing of blocks is the only one.
pub proof fn listing_is_unique<P: Placement>(
    m: Map<u64, P>,
    a: Seq<(u32, u64, u64)>,
    b: Seq<(u32, u64, u64)>,
)
    requires
        listed(m, a),
        listed(m, b),
    ensures
        a == b,
{
    listing_len(m, a);
    listing_len(m, b);
    assert forall|i: int| 0 <= i < a.len() implies #[trigger] a[i] == b[i] by {
        listings_agree(m, a, b, i);
    }
    assert(a =~= b);
}

/// A listing has one row per block.
pub proof fn listing_len<P: Placement>(m: Map<u64, P>, rows: Seq<(u32, u64, u64)>)
    requires
        listed(m, rows),
    ensures
        m.dom().finite(),
        rows.len() == m.len(),
{
    let keys = rows.map_values(|r: (u32, u64, u64)| r.1);
    assert forall|i: int, j: int| 0 <= i < j < keys.len() implies keys[i] != keys[j] by {
        assert(ahead(m, rows[i].1, rows[j].1));
    }
    assert(keys.no_duplicates()) by {
        assert forall|i: int, j: int| 0 <= i < keys.len() && 0 <= j < keys.len() && i
            != j implies keys[i] != keys[j] by {
            if i < j {
            } else {
                assert(keys[j] != keys[i]);
            }
        }
    }
    assert(keys.to_set() =~= m.dom()) by {
        assert forall|k: u64| #[trigger] keys.to_set().contains(k) == m.dom().contains(k) by {
            if keys.contains(k) {
                let i = keys.index_of(k);
                assert(rows[i].1 == k);
            }
            if m.contains_key(k) {
                let i = choose|i: int| 0 <= i < rows.len() && (#[trigger] rows[i]).1 == k;
                assert(keys[i] == k);
            }
        }
    }
    keys.unique_seq_to_set();
    vstd::seq_lib::seq_to_set_is_finite(keys);
}

proof fn listings_agree<P: Placement>(
    m: Map<u64, P>,
    a: Seq<(u32, u64, u64)>,
    b: Seq<(u32, u64, u64)>,
    i: int,
)
    requires
        listed(m, a),
        listed(m, b),
        0 <= i < a.len(),
        a.len() == b.len(),
    ensures
        a[i] == b[i],
    decreases i,
{
    // The row of `a[i]` stands in `b` at `x`, and that of `b[i]` in `a` at `y`.
    let x = choose|x: int| 0 <= x < b.len() && (#[trigger] b[x]).1 == a[i].1;
    let y = choose|y: int| 0 <= y < a.len() && (#[trigger] a[y]).1 == b[i].1;
    assert(m.contains_key(a[i].1) && m.contains_key(b[i].1));
    if x < i {
        listings_agree(m, a, b, x);
        assert(ahead(m, a[x].1, a[i].1));
    } else if y < i {
        listings_agree(m, a, b, y);
        assert(ahead(m, b[y].1, b[i].1));
    } else if x > i {
        assert(ahead(m, b[i].1, b[x].1));
        if y > i {
            assert(ahead(m, a[i].1, a[y].1));
        }
    }
}

/// A finite map that is not empty has a last block.
proof fn last_exists<P: Placement>(m: Map<u64, P>) -> (k: u64)
    requires
        m.dom().finite(),
        m.len() > 0,
    ensures
        m.contains_key(k),
        forall|j: u64| #[trigger] m.contains_key(j) && j != k ==> ahead(m, j, k),
    decreases m.len(),
{
    let a = m.dom().choose();
    let n = m.remove(a);
    assert(m.dom().contains(a));
    assert(n.dom() =~= m.dom().remove(a));
    if n.len() == 0 {
        assert forall|j: u64| #[trigger] m.contains_key(j) && j != a implies ahead(m, j, a) by {
            assert(n.dom().contains(j));
        }
        a
    } else {
        let k = last_exists(n);
        assert(n.contains_key(k));
        let top = if ahead(m, k, a) {
            a
        } else {
            k
        };
        assert forall|j: u64| #[trigger] m.contains_key(j) && j != top implies ahead(m, j, top) by {
            if j != a {
                assert(n.contains_key(j));
            }
        }
        top
    }
}

/// Blocks can be cut down to any number.
pub(crate) proof fn cut_exists<P: Placement>(m: Map<u64, P>, keep: int) -> (post: Map<u64, P>)
    requires
        m.dom().finite(),
        keep >= 0,
    ensures
        truncated(m, keep, post),
    decreases m.len(),
{
    if m.len() <= keep {
        m
    } else {
        let k = last_exists(m);
        let n = m.remove(k);
        assert(n.dom() =~= m.dom().remove(k));
        let post = cut_exists(n, keep);
        assert forall|j: u64, x: u64| #[trigger]
            post.contains_key(j) && #[trigger] m.contains_key(x) && !post.contains_key(
                x,
            ) implies ahead(m, j, x) by {
            assert(post.dom().contains(j));
            assert(n.dom().contains(j));
            if x != k {
                assert(n.contains_key(x));
                assert(ahead(n, j, x));
            }
        }
        assert(post.submap_of(m)) by {
            assert forall|j: u64| #[trigger] post.dom().contains(j) implies m.dom().contains(j)
                && post[j] == m[j] by {
                assert(n.dom().contains(j));
            }
        }
        post
    }
}

/// Finitely many blocks can be listed.
pub(crate) proof fn listing_exists(m: Map<u64, crate::flat::BlockInfo>) -> (rows: Seq<(u32, u64, u64)>)
    requires
        m.dom().finite(),
    ensures
        listed(m, rows),
    decreases m.len(),
{
    if m.len() == 0 {
        assert forall|k: u64| !#[trigger] m.contains_key(k) by {
            assert(!m.dom().contains(k));
        }
        Seq::empty()
    } else {
        let k = last_exists(m);
        let n = m.remove(k);
        assert(n.dom() =~= m.dom().remove(k));
        let init = listing_exists(n);
        let rows = init.push((m[k].pos, k, m[k].content));
        assert forall|i: int|
            #![trigger rows[i]]
            0 <= i < rows.len() implies m.contains_key(rows[i].1) && rows[i].0 == m[rows[i].1].position()
            && rows[i].2 == m[rows[i].1].content() by {
            if i < init.len() {
                assert(rows[i] == init[i]);
                assert(n.contains_key(init[i].1));
            }
        }
        assert forall|x: u64| #[trigger] m.contains_key(x) implies exists|i: int|
            0 <= i < rows.len() && (#[trigger] rows[i]).1 == x by {
            if x == k {
                assert(rows[init.len() as int].1 == x);
            } else {
                assert(n.contains_key(x));
                let i = choose|i: int| 0 <= i < init.len() && (#[trigger] init[i]).1 == x;
                assert(rows[i].1 == x);
            }
        }
        assert forall|i: int, j: int| 0 <= i < j < rows.len() implies ahead(
            m,
            (#[trigger] rows[i]).1,
            (#[trigger] rows[j]).1,
        ) by {
            assert(rows[i] == init[i]);
            assert(n.contains_key(init[i].1));
            if j < init.len() {
                assert(rows[j] == init[j]);
                assert(n.contains_key(init[j].1));
                assert(ahead(n, init[i].1, init[j].1));
            }
        }
        rows
    }
}

} // verus!
