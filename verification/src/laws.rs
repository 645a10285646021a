//! Laws of the index that span its operations, whatever its layout.

use crate::model::answered;
use crate::model::at;
use crate::model::batch;
use crate::model::depth;
use crate::model::depth_is_greatest;
use crate::model::fresh;
use crate::model::holds;
use crate::model::listed;
use crate::model::place;
use crate::model::placed;
use crate::model::pruned;
use crate::model::row_of;
use crate::model::start;
use crate::model::store_error;
use crate::model::stored;
use crate::model::trail;
use crate::model::trail_len;
use crate::model::trail_push;
use crate::model::truncated;
use crate::model::unaliased;
use crate::model::Placement;
use crate::model::TableView;
use crate::model::TreeView;
use crate::types::id_is_its_parts;
use crate::types::HolderId;
use crate::types::Overlap;
use crate::flat::BlockInfo;
use crate::lineage::root_of;
use crate::lineage::roots_never_collide;
use crate::lineage::step_of;
use crate::lineage::steps_never_collide;
use vstd::prelude::*;

verus! {

/// An operation that replicas exchange.
pub enum Op {
    Store { parent: Option<u64>, blocks: Seq<(u64, u64)> },
    Remove { keys: Seq<u64> },
    Clear,
}

/// Whether a live holder's store is accepted.
pub open spec fn accepts<P: Placement>(
    limit: u32,
    m: Map<u64, P>,
    parent: Option<u64>,
    blocks: Seq<(u64, u64)>,
) -> bool {
    blocks.len() == 0 || ((parent is Some ==> m.contains_key(parent->0)) && start(m, parent)
        + blocks.len() <= limit)
}

/// What an operation does to the blocks of its holder.
pub open spec fn effect<P: Placement>(limit: u32, m: Map<u64, P>, op: Op) -> Map<u64, P> {
    match op {
        Op::Store { parent, blocks } => if accepts(limit, m, parent, blocks) {
            placed(m, batch(m, parent, blocks))
        } else {
            m
        },
        Op::Remove { keys } => pruned(m, keys),
        Op::Clear => Map::empty(),
    }
}

/// The index after an operation, as the operations' contracts have it.
pub open spec fn step<P: Placement>(t: TreeView<P>, id: HolderId, op: Op) -> TreeView<P> {
    match op {
        Op::Store { parent, blocks } => if store_error(t, id, parent, blocks) is Some {
            t
        } else {
            stored(t, id, parent, blocks)
        },
        Op::Remove { keys } => if t.table.live(id) {
            TreeView {
                limit: t.limit,
                table: t.table.with_blocks(id.slot() as int, pruned(t.table.held(id), keys)),
            }
        } else {
            t
        },
        Op::Clear => if t.table.live(id) {
            TreeView {
                limit: t.limit,
                table: t.table.with_blocks(id.slot() as int, Map::empty()),
            }
        } else {
            t
        },
    }
}

/// The index after a sequence of operations.
pub open spec fn run<P: Placement>(t: TreeView<P>, ops: Seq<(HolderId, Op)>) -> TreeView<P>
    decreases ops.len(),
{
    if ops.len() == 0 {
        t
    } else {
        step(run(t, ops.drop_last()), ops.last().0, ops.last().1)
    }
}

/// A holder's blocks after a sequence of operations of its own.
pub open spec fn history<P: Placement>(limit: u32, m: Map<u64, P>, ops: Seq<Op>) -> Map<u64, P>
    decreases ops.len(),
{
    if ops.len() == 0 {
        m
    } else {
        effect(limit, history(limit, m, ops.drop_last()), ops.last())
    }
}

/// The operations of one holder, in order.
pub open spec fn own(ops: Seq<(HolderId, Op)>, id: HolderId) -> Seq<Op>
    decreases ops.len(),
{
    if ops.len() == 0 {
        Seq::empty()
    } else if ops.last().0 == id {
        own(ops.drop_last(), id).push(ops.last().1)
    } else {
        own(ops.drop_last(), id)
    }
}

/// An operation changes the blocks of its own holder, and nothing else.
pub proof fn operations_touch_one_holder<P: Placement>(t: TreeView<P>, id: HolderId, op: Op)
    ensures
        step(t, id, op).limit == t.limit,
        step(t, id, op).table.free == t.table.free,
        step(t, id, op).table.slots.len() == t.table.slots.len(),
        forall|other: HolderId| step(t, id, op).table.live(other) == t.table.live(other),
        forall|other: HolderId|
            #![trigger step(t, id, op).table.held(other)]
            step(t, id, op).table.held(other) == if other == id && t.table.live(id) {
                effect(t.limit, t.table.held(id), op)
            } else {
                t.table.held(other)
            },
        !t.table.live(id) ==> step(t, id, op) == t,
{
    let post = step(t, id, op);
    assert forall|other: HolderId| post.table.live(other) == t.table.live(other) by {}
    assert forall|other: HolderId|
        #![trigger post.table.held(other)]
        post.table.held(other) == if other == id && t.table.live(id) {
            effect(t.limit, t.table.held(id), op)
        } else {
            t.table.held(other)
        } by {
        if t.table.live(other) && t.table.live(id) && other != id {
            if other.slot() == id.slot() {
                id_is_its_parts(other, id);
            }
        }
        if t.table.live(id) && other == id {
            match op {
                Op::Store { parent, blocks } => {
                    if blocks.len() == 0 {
                        trail_len::<P>(
                            crate::model::anchor(t.table.held(id), parent),
                            blocks,
                        );
                    }
                },
                _ => {},
            }
        }
    }
}

/// What a holder holds depends on its own operations alone, however they are
/// interleaved with those of other holders.
pub proof fn holders_are_independent<P: Placement>(
    t: TreeView<P>,
    ops: Seq<(HolderId, Op)>,
    id: HolderId,
)
    requires
        t.table.live(id),
    ensures
        run(t, ops).table.live(id),
        run(t, ops).limit == t.limit,
        run(t, ops).table.held(id) == history(t.limit, t.table.held(id), own(ops, id)),
    decreases ops.len(),
{
    if ops.len() > 0 {
        holders_are_independent(t, ops.drop_last(), id);
        let mid = run(t, ops.drop_last());
        operations_touch_one_holder(mid, ops.last().0, ops.last().1);
        assert(run(t, ops).table.held(id) == step(mid, ops.last().0, ops.last().1).table.held(id));
        if ops.last().0 == id {
            assert(own(ops, id).drop_last() =~= own(ops.drop_last(), id));
        }
    }
}

/// Two interleavings of the same operations leave the same index, and so give
/// the same answers, listings and sizes.
pub proof fn interleavings_converge<P: Placement>(
    t: TreeView<P>,
    a: Seq<(HolderId, Op)>,
    b: Seq<(HolderId, Op)>,
)
    requires
        t.table.slots.len() <= u32::MAX,
        forall|id: HolderId| own(a, id) == own(b, id),
    ensures
        run(t, a) == run(t, b),
{
    shape_is_kept(t, a);
    shape_is_kept(t, b);
    let x = run(t, a).table;
    let y = run(t, b).table;
    assert forall|i: int| 0 <= i < t.table.slots.len() implies x.slots[i] == y.slots[i] by {
        if t.table.occupied(i) {
            let id = HolderId { index: i as u32, generation: t.table.slots[i].generation };
            crate::types::parts_of(id);
            assert(t.table.live(id));
            holders_are_independent(t, a, id);
            holders_are_independent(t, b, id);
            assert(x.held(id) == x.blocks(i));
            assert(y.held(id) == y.blocks(i));
        }
    }
    assert(x.slots =~= y.slots);
}

/// Operations keep slots, generations and names.
proof fn shape_is_kept<P: Placement>(t: TreeView<P>, ops: Seq<(HolderId, Op)>)
    ensures
        run(t, ops).limit == t.limit,
        run(t, ops).table.free == t.table.free,
        run(t, ops).table.slots.len() == t.table.slots.len(),
        forall|i: int|
            #![trigger run(t, ops).table.slots[i]]
            0 <= i < t.table.slots.len() ==> run(t, ops).table.slots[i].generation
                == t.table.slots[i].generation && (run(t, ops).table.slots[i].state is Some
                <==> t.table.slots[i].state is Some) && (t.table.slots[i].state is Some ==> run(
                t,
                ops,
            ).table.slots[i].state->0.name == t.table.slots[i].state->0.name) && (
            t.table.slots[i].state is None ==> run(t, ops).table.slots[i] == t.table.slots[i]),
    decreases ops.len(),
{
    if ops.len() > 0 {
        shape_is_kept(t, ops.drop_last());
        let mid = run(t, ops.drop_last());
        let post = run(t, ops);
        assert(post == step(mid, ops.last().0, ops.last().1));
        let s = ops.last().0.slot() as int;
        if mid.table.live(ops.last().0) {
            assert(mid.table.slots[s].state is Some);
            assert forall|i: int| 0 <= i < t.table.slots.len() implies {
                &&& #[trigger] post.table.slots[i].generation == mid.table.slots[i].generation
                &&& (post.table.slots[i].state is Some <==> mid.table.slots[i].state is Some)
                &&& (mid.table.slots[i].state is Some ==> post.table.slots[i].state->0.name
                    == mid.table.slots[i].state->0.name)
                &&& (mid.table.slots[i].state is None ==> post.table.slots[i]
                    == mid.table.slots[i])
            } by {
                assert(i == s || i != s);
            }
        } else {
            assert(post == mid);
        }
    }
}

/// What a part of a map says of a key the map says too.
pub(crate) proof fn kept_as_is<P>(part: Map<u64, P>, m: Map<u64, P>, k: u64)
    requires
        part.submap_of(m),
        part.contains_key(k),
    ensures
        m.contains_key(k),
        m[k] == part[k],
{
    assert(part.dom().contains(k));
    assert(m.dom().contains(k));
}

/// The batch places every key where `f` has it.
pub open spec fn follows<P>(f: Map<u64, P>, batch: Seq<(u64, P)>) -> bool {
    forall|i: int|
        #![trigger batch[i]]
        0 <= i < batch.len() ==> f.contains_key(batch[i].0) && f[batch[i].0] == batch[i].1
}

/// The keys of a batch.
pub open spec fn keys_in<P>(batch: Seq<(u64, P)>) -> Set<u64> {
    Set::new(|k: u64| exists|i: int| 0 <= i < batch.len() && (#[trigger] batch[i]).0 == k)
}

/// Placing what `f` says of some keys, for a holder that holds nothing else,
/// adds these keys.
pub(crate) proof fn placed_by_plan<P>(f: Map<u64, P>, m: Map<u64, P>, batch: Seq<(u64, P)>)
    requires
        unaliased(f),
        m.submap_of(f),
        follows(f, batch),
    ensures
        placed(m, batch) == f.restrict(m.dom().union(keys_in(batch))),
        placed(m, batch).submap_of(f),
    decreases batch.len(),
{
    if batch.len() == 0 {
        assert(f.restrict(m.dom().union(keys_in(batch))) =~= m) by {
            assert forall|k: u64| m.dom().contains(k) implies f.dom().contains(k) && f[k] == m[k] by {}
        }
    } else {
        let init = batch.drop_last();
        let (k, p) = batch.last();
        assert(follows(f, init)) by {
            assert forall|i: int| #![trigger init[i]] 0 <= i < init.len() implies f.contains_key(
                init[i].0,
            ) && f[init[i].0] == init[i].1 by {
                assert(init[i] == batch[i]);
            }
        }
        placed_by_plan(f, m, init);
        let mid = placed(m, init);
        assert(batch[batch.len() - 1] == (k, p));
        assert(f.contains_key(k) && f[k] == p);
        assert(holds(mid, p) <==> mid.contains_key(k)) by {
            if holds(mid, p) {
                let j = choose|j: u64| #[trigger] mid.contains_key(j) && mid[j] == p;
                assert(f.contains_key(j) && f[j] == p);
            }
        }
        assert forall|x: u64| keys_in(batch).contains(x) <==> keys_in(init).contains(x) || x == k by {
            if keys_in(batch).contains(x) {
                let i = choose|i: int| 0 <= i < batch.len() && (#[trigger] batch[i]).0 == x;
                if i < init.len() {
                    assert(init[i].0 == x);
                }
            }
            if keys_in(init).contains(x) {
                let i = choose|i: int| 0 <= i < init.len() && (#[trigger] init[i]).0 == x;
                assert(batch[i].0 == x);
            }
        }
        assert(placed(m, batch) =~= f.restrict(m.dom().union(keys_in(batch))));
    }
}

/// A store that agrees with `f`: every block goes where `f` has its key, and
/// the parent stands where the batch continues.
pub open spec fn agrees<P: Placement>(f: Map<u64, P>, op: Op) -> bool {
    match op {
        Op::Store { parent, blocks } => {
            &&& parent is Some && blocks.len() > 0 ==> f.contains_key(parent->0)
            &&& follows(f, batch(f, parent, blocks))
        },
        _ => false,
    }
}

/// The stores are chain-consistent: one map says of every key where it goes,
/// and no two keys go to the same place.
pub open spec fn chain_consistent<P: Placement>(f: Map<u64, P>, ops: Seq<Op>) -> bool {
    &&& unaliased(f)
    &&& forall|i: int| 0 <= i < ops.len() ==> agrees(f, #[trigger] ops[i])
}

/// The keys that a store places.
pub open spec fn keys_of<P: Placement>(f: Map<u64, P>, op: Op) -> Set<u64> {
    match op {
        Op::Store { parent, blocks } => keys_in(batch(f, parent, blocks)),
        _ => Set::empty(),
    }
}

/// The store is accepted by the holder of `m`.
pub open spec fn lands<P: Placement>(limit: u32, m: Map<u64, P>, op: Op) -> bool {
    match op {
        Op::Store { parent, blocks } => accepts(limit, m, parent, blocks),
        _ => false,
    }
}

/// The stores among `ops` that place `key` and are accepted when their turn
/// comes.
pub open spec fn delivers<P: Placement>(
    limit: u32,
    f: Map<u64, P>,
    m: Map<u64, P>,
    ops: Seq<Op>,
    key: u64,
) -> bool {
    exists|i: int|
        0 <= i < ops.len() && lands(limit, history(limit, m, ops.take(i)), #[trigger] ops[i])
            && keys_of(f, ops[i]).contains(key)
}

/// Chain-consistent stores leave a holder with exactly the blocks that it had
/// and those that an accepted store placed, each where the plan has it. So the
/// order of stores, and how often each is repeated, shows only in which stores
/// are accepted.
pub proof fn consistent_stores_follow_the_plan<P: Placement>(
    limit: u32,
    f: Map<u64, P>,
    m: Map<u64, P>,
    ops: Seq<Op>,
)
    requires
        chain_consistent(f, ops),
        m.submap_of(f),
    ensures
        history(limit, m, ops).submap_of(f),
        forall|k: u64| #[trigger]
            history(limit, m, ops).contains_key(k) <==> m.contains_key(k) || delivers(
                limit,
                f,
                m,
                ops,
                k,
            ),
    decreases ops.len(),
{
    if ops.len() == 0 {
    } else {
        let init = ops.drop_last();
        let op = ops.last();
        assert(agrees(f, ops[ops.len() - 1]));
        assert(chain_consistent(f, init)) by {
            assert forall|i: int| 0 <= i < init.len() implies agrees(f, #[trigger] init[i]) by {
                assert(init[i] == ops[i]);
            }
        }
        consistent_stores_follow_the_plan(limit, f, m, init);
        let mid = history(limit, m, init);
        store_follows_the_plan(limit, f, mid, op);
        assert forall|k: u64| #[trigger] delivers(limit, f, m, ops, k) <==> delivers(
            limit,
            f,
            m,
            init,
            k,
        ) || (lands(limit, mid, op) && keys_of(f, op).contains(k)) by {
            if delivers(limit, f, m, ops, k) {
                let i = choose|i: int|
                    0 <= i < ops.len() && lands(
                        limit,
                        history(limit, m, ops.take(i)),
                        #[trigger] ops[i],
                    ) && keys_of(f, ops[i]).contains(k);
                if i < init.len() {
                    assert(init.take(i) =~= ops.take(i));
                    assert(init[i] == ops[i]);
                } else {
                    assert(ops.take(i) =~= init);
                }
            }
            if delivers(limit, f, m, init, k) {
                let i = choose|i: int|
                    0 <= i < init.len() && lands(
                        limit,
                        history(limit, m, init.take(i)),
                        #[trigger] init[i],
                    ) && keys_of(f, init[i]).contains(k);
                assert(init.take(i) =~= ops.take(i));
                assert(init[i] == ops[i]);
            }
            if lands(limit, mid, op) && keys_of(f, op).contains(k) {
                let n = ops.len() - 1;
                assert(ops.take(n) =~= init);
                assert(ops[n] == op);
            }
        }
        assert forall|k: u64| #[trigger] history(limit, m, ops).contains_key(k) <==> m.contains_key(
            k,
        ) || delivers(limit, f, m, ops, k) by {
            assert(history(limit, m, ops) == effect(limit, mid, op));
            assert(history(limit, m, init).contains_key(k) <==> m.contains_key(k) || delivers(
                limit,
                f,
                m,
                init,
                k,
            ));
            assert(effect(limit, mid, op).contains_key(k) <==> mid.contains_key(k) || (lands(
                limit,
                mid,
                op,
            ) && keys_of(f, op).contains(k)));
        }
    }
}

/// One chain-consistent store.
proof fn store_follows_the_plan<P: Placement>(limit: u32, f: Map<u64, P>, m: Map<u64, P>, op: Op)
    requires
        unaliased(f),
        m.submap_of(f),
        agrees(f, op),
    ensures
        effect(limit, m, op).submap_of(f),
        forall|k: u64| #[trigger]
            effect(limit, m, op).contains_key(k) <==> m.contains_key(k) || (lands(limit, m, op)
                && keys_of(f, op).contains(k)),
{
    match op {
        Op::Store { parent, blocks } => {
            if accepts(limit, m, parent, blocks) {
                if blocks.len() == 0 {
                    trail_len(crate::model::anchor(m, parent), blocks);
                    trail_len(crate::model::anchor(f, parent), blocks);
                    assert(batch(m, parent, blocks) =~= batch(f, parent, blocks));
                } else {
                    if parent is Some {
                        assert(m.dom().contains(parent->0));
                        assert(f[parent->0] == m[parent->0]);
                    }
                    assert(batch(m, parent, blocks) == batch(f, parent, blocks));
                }
                placed_by_plan(f, m, batch(m, parent, blocks));
                assert forall|k: u64| keys_in(batch(m, parent, blocks)).contains(k) implies f.contains_key(
                    k,
                ) by {
                    let b = batch(m, parent, blocks);
                    let i = choose|i: int| 0 <= i < b.len() && (#[trigger] b[i]).0 == k;
                    assert(f.contains_key(b[i].0));
                }
                assert forall|k: u64| m.contains_key(k) implies f.contains_key(k) by {
                    assert(m.dom().contains(k));
                }
            }
        },
        _ => {},
    }
}

/// Some occurrence of the store is accepted when its turn comes.
pub open spec fn lands_among<P: Placement>(
    limit: u32,
    m: Map<u64, P>,
    ops: Seq<Op>,
    op: Op,
) -> bool {
    exists|i: int|
        0 <= i < ops.len() && #[trigger] ops[i] == op && lands(
            limit,
            history(limit, m, ops.take(i)),
            ops[i],
        )
}

/// Replicas that take the same chain-consistent stores, in whatever order and
/// however often each, hold the same blocks, as long as a store that one of
/// them accepts is accepted by the other at least once too. (A store is turned
/// down only if its parent is not there yet, or if it is too long for either.)
pub proof fn stores_converge<P: Placement>(
    limit: u32,
    f: Map<u64, P>,
    m: Map<u64, P>,
    a: Seq<Op>,
    b: Seq<Op>,
)
    requires
        chain_consistent(f, a),
        chain_consistent(f, b),
        m.submap_of(f),
        forall|op: Op| #[trigger] lands_among(limit, m, a, op) <==> lands_among(limit, m, b, op),
    ensures
        history(limit, m, a) == history(limit, m, b),
{
    consistent_stores_follow_the_plan(limit, f, m, a);
    consistent_stores_follow_the_plan(limit, f, m, b);
    let x = history(limit, m, a);
    let y = history(limit, m, b);
    assert forall|k: u64| x.contains_key(k) implies y.contains_key(k) by {
        if !m.contains_key(k) {
            same_deliveries(limit, f, m, a, b, k);
        }
    }
    assert forall|k: u64| y.contains_key(k) implies x.contains_key(k) by {
        if !m.contains_key(k) {
            same_deliveries(limit, f, m, b, a, k);
        }
    }
    assert forall|k: u64| #[trigger] x.dom().contains(k) implies x[k] == y[k] by {
        assert(x.contains_key(k));
        assert(y.contains_key(k));
        kept_as_is(x, f, k);
        kept_as_is(y, f, k);
    }
    assert(x.dom() =~= y.dom()) by {
        assert forall|k: u64| x.dom().contains(k) <==> y.dom().contains(k) by {
            if x.dom().contains(k) {
                assert(x.contains_key(k));
                assert(y.contains_key(k));
            }
            if y.dom().contains(k) {
                assert(y.contains_key(k));
                assert(x.contains_key(k));
            }
        }
    }
    assert(x =~= y);
}

proof fn same_deliveries<P: Placement>(
    limit: u32,
    f: Map<u64, P>,
    m: Map<u64, P>,
    a: Seq<Op>,
    b: Seq<Op>,
    k: u64,
)
    requires
        delivers(limit, f, m, a, k),
        forall|op: Op| #[trigger] lands_among(limit, m, a, op) ==> lands_among(limit, m, b, op),
    ensures
        delivers(limit, f, m, b, k),
{
    let i = choose|i: int|
        0 <= i < a.len() && lands(limit, history(limit, m, a.take(i)), #[trigger] a[i]) && keys_of(
            f,
            a[i],
        ).contains(k);
    assert(lands_among(limit, m, a, a[i]));
    assert(lands_among(limit, m, b, a[i]));
    let j = choose|j: int|
        0 <= j < b.len() && #[trigger] b[j] == a[i] && lands(
            limit,
            history(limit, m, b.take(j)),
            b[j],
        );
    assert(keys_of(f, b[j]).contains(k));
}

/// Repeating a chain-consistent store at once changes nothing, and all its
/// blocks are duplicates.
pub proof fn replays_change_nothing<P: Placement>(
    limit: u32,
    f: Map<u64, P>,
    m: Map<u64, P>,
    parent: Option<u64>,
    blocks: Seq<(u64, u64)>,
)
    requires
        unaliased(f),
        m.submap_of(f),
        agrees(f, (Op::Store { parent, blocks })),
        accepts(limit, m, parent, blocks),
    ensures
        ({
            let post = placed(m, batch(m, parent, blocks));
            &&& accepts(limit, post, parent, blocks)
            &&& placed(post, batch(post, parent, blocks)) == post
            &&& fresh(post, batch(post, parent, blocks)) == 0
        }),
{
    let op = Op::Store { parent, blocks };
    let b = batch(f, parent, blocks);
    let post = placed(m, batch(m, parent, blocks));
    store_follows_the_plan(limit, f, m, op);
    assert(post == effect(limit, m, op));
    if blocks.len() == 0 {
        trail_len(crate::model::anchor(m, parent), blocks);
        trail_len(crate::model::anchor(f, parent), blocks);
        trail_len(crate::model::anchor(post, parent), blocks);
        assert(batch(m, parent, blocks) =~= b);
        assert(batch(post, parent, blocks) =~= b);
    } else {
        if parent is Some {
            assert(m.dom().contains(parent->0));
            assert(post.contains_key(parent->0));
            assert(post.dom().contains(parent->0));
        }
        assert(batch(m, parent, blocks) == b);
        assert(batch(post, parent, blocks) == b);
    }
    assert forall|i: int| #![trigger b[i]] 0 <= i < b.len() implies holds(post, b[i].1) by {
        assert(keys_of(f, op).contains(b[i].0));
        assert(post.contains_key(b[i].0));
        assert(post.dom().contains(b[i].0));
        assert(post[b[i].0] == b[i].1);
    }
    all_held(post, b);
}

/// Blocks that are all held are all duplicates.
proof fn all_held<P>(m: Map<u64, P>, batch: Seq<(u64, P)>)
    requires
        forall|i: int| #![trigger batch[i]] 0 <= i < batch.len() ==> holds(m, batch[i].1),
    ensures
        placed(m, batch) == m,
        fresh(m, batch) == 0,
    decreases batch.len(),
{
    if batch.len() > 0 {
        let init = batch.drop_last();
        assert forall|i: int| #![trigger init[i]] 0 <= i < init.len() implies holds(m, init[i].1) by {
            assert(init[i] == batch[i]);
        }
        all_held(m, init);
        assert(holds(m, batch[batch.len() - 1].1));
    }
}

/// Repeating a removal or a clear at once changes nothing.
pub proof fn repeated_removals_change_nothing<P: Placement>(limit: u32, m: Map<u64, P>, keys: Seq<u64>)
    ensures
        effect(limit, effect(limit, m, (Op::Remove { keys })), (Op::Remove { keys })) == effect(
            limit,
            m,
            (Op::Remove { keys }),
        ),
        effect(limit, effect(limit, m, Op::Clear), Op::Clear) == effect(limit, m, Op::Clear),
{
    assert(pruned(pruned(m, keys), keys) =~= pruned(m, keys));
}

/// No operation gives a holder two keys for one placement.
pub proof fn placements_stay_unaliased<P: Placement>(limit: u32, m: Map<u64, P>, op: Op)
    requires
        unaliased(m),
    ensures
        unaliased(effect(limit, m, op)),
{
    match op {
        Op::Store { parent, blocks } => placed_unaliased(m, batch(m, parent, blocks)),
        Op::Remove { keys } => {
            let post = pruned(m, keys);
            assert forall|j: u64, k: u64| #[trigger]
                post.contains_key(j) && #[trigger] post.contains_key(k) && post[j]
                    == post[k] implies j == k by {
                assert(m.contains_key(j) && m.contains_key(k));
            }
        },
        Op::Clear => {},
    }
}

proof fn placed_unaliased<P>(m: Map<u64, P>, batch: Seq<(u64, P)>)
    requires
        unaliased(m),
    ensures
        unaliased(placed(m, batch)),
    decreases batch.len(),
{
    if batch.len() > 0 {
        placed_unaliased(m, batch.drop_last());
        let mid = placed(m, batch.drop_last());
        let (key, p) = batch.last();
        let post = place(mid, key, p);
        if !holds(mid, p) {
            assert forall|j: u64, k: u64| #[trigger]
                post.contains_key(j) && #[trigger] post.contains_key(k) && post[j]
                    == post[k] implies j == k by {
                if j != key {
                    assert(mid.contains_key(j));
                }
                if k != key {
                    assert(mid.contains_key(k));
                }
            }
        }
    }
}

/// The placements along a chain, with the keys of its blocks.
pub(crate) proof fn trail_is_chain<P: Placement>(blocks: Seq<(u64, u64)>, i: int)
    requires
        0 <= i < blocks.len(),
    ensures
        trail::<P>(None, blocks).len() == blocks.len(),
        trail::<P>(None, blocks)[i] == (blocks[i].0, at::<P>(contents(blocks), i)),
    decreases blocks.len(),
{
    trail_len::<P>(None, blocks);
    let n = blocks.len() - 1;
    assert(blocks.take(n + 1) =~= blocks);
    assert(blocks.take(n) =~= blocks.drop_last());
    trail_push::<P>(None, blocks, n);
    trail_len::<P>(None, blocks.take(n));
    let init = trail::<P>(None, blocks.take(n));
    if i < n {
        trail_is_chain::<P>(blocks.take(n), i);
        at_depends_on_prefix::<P>(contents(blocks.take(n)), contents(blocks), i);
    } else if n > 0 {
        trail_is_chain::<P>(blocks.take(n), n - 1);
        at_depends_on_prefix::<P>(contents(blocks.take(n)), contents(blocks), n - 1);
    }
}

/// Contents of a batch.
pub open spec fn contents(blocks: Seq<(u64, u64)>) -> Seq<u64> {
    blocks.map_values(|b: (u64, u64)| b.1)
}

/// A placement depends on the chain up to its position only.
pub(crate) proof fn at_depends_on_prefix<P: Placement>(a: Seq<u64>, b: Seq<u64>, p: int)
    requires
        0 <= p,
        forall|i: int| 0 <= i <= p ==> a[i] == b[i],
    ensures
        at::<P>(a, p) == at::<P>(b, p),
    decreases p,
{
    if p > 0 {
        at_depends_on_prefix::<P>(a, b, p - 1);
    }
}

/// Depths are counted up to the first position that is not held.
pub(crate) proof fn depth_at_least<P: Placement>(m: Map<u64, P>, q: Seq<u64>, n: int)
    requires
        0 <= n <= q.len(),
        forall|p: int| 0 <= p < n ==> holds(m, #[trigger] at::<P>(q, p)),
    ensures
        depth(m, q) >= n,
{
    depth_is_greatest(m, q);
    if depth(m, q) < n {
        assert(holds(m, at::<P>(q, depth(m, q))));
    }
}

/// What a holder stored it matches: after a chain-consistent store of a whole
/// chain, a query with the chain's contents, or with any continuation of them,
/// finds all of it.
pub proof fn stored_chains_match<P: Placement>(
    limit: u32,
    f: Map<u64, P>,
    m: Map<u64, P>,
    blocks: Seq<(u64, u64)>,
    q: Seq<u64>,
)
    requires
        unaliased(f),
        m.submap_of(f),
        agrees(f, (Op::Store { parent: None, blocks })),
        blocks.len() <= limit,
        blocks.len() <= q.len(),
        q.take(blocks.len() as int) == contents(blocks),
    ensures
        depth(effect(limit, m, (Op::Store { parent: None, blocks })), q) >= blocks.len(),
{
    let op = Op::Store { parent: None, blocks };
    let post = effect(limit, m, op);
    store_follows_the_plan(limit, f, m, op);
    assert(accepts(limit, m, None, blocks));
    assert forall|p: int| 0 <= p < blocks.len() implies holds(post, #[trigger] at::<P>(q, p)) by {
        let b = batch(f, None, blocks);
        trail_is_chain::<P>(blocks, p);
        assert(b[p] == (blocks[p].0, at::<P>(contents(blocks), p)));
        assert forall|i: int| 0 <= i <= p implies q[i] == contents(blocks)[i] by {
            assert(q.take(blocks.len() as int)[i] == q[i]);
        }
        at_depends_on_prefix::<P>(q, contents(blocks), p);
        assert(keys_of(f, op).contains(b[p].0));
        assert(post.contains_key(b[p].0));
        assert(post.dom().contains(b[p].0));
        assert(post[b[p].0] == b[p].1);
    }
    depth_at_least(post, q, blocks.len() as int);
}

/// A holder matches a prefix of a chain as deep as the chain, and no deeper
/// than the prefix is long.
pub proof fn prefixes_match_alike<P: Placement>(m: Map<u64, P>, q: Seq<u64>, n: int)
    requires
        0 <= n <= q.len(),
    ensures
        depth(m, q.take(n)) == if depth(m, q) < n {
            depth(m, q)
        } else {
            n
        },
{
    let s = q.take(n);
    depth_is_greatest(m, q);
    depth_is_greatest(m, s);
    assert forall|p: int| 0 <= p < n implies #[trigger] at::<P>(s, p) == at::<P>(q, p) by {
        at_depends_on_prefix::<P>(s, q, p);
    }
    let d = if depth(m, q) < n {
        depth(m, q)
    } else {
        n
    };
    assert forall|p: int| 0 <= p < d implies holds(m, #[trigger] at::<P>(s, p)) by {
        assert(holds(m, at::<P>(q, p)));
    }
    depth_at_least(m, s, d);
    if depth(m, s) > d {
        assert(holds(m, at::<P>(s, d)));
        assert(at::<P>(s, d) == at::<P>(q, d));
    }
}

/// More blocks never match less.
pub proof fn matching_is_monotone<P: Placement>(a: Map<u64, P>, b: Map<u64, P>, q: Seq<u64>)
    requires
        a.submap_of(b),
    ensures
        depth(a, q) <= depth(b, q),
{
    depth_is_greatest(a, q);
    assert forall|p: int| 0 <= p < depth(a, q) implies holds(b, #[trigger] at::<P>(q, p)) by {
        assert(holds(a, at::<P>(q, p)));
        let k = choose|k: u64| #[trigger] a.contains_key(k) && a[k] == at::<P>(q, p);
        assert(a.dom().contains(k) && b.dom().contains(k));
        assert(b.contains_key(k));
    }
    depth_at_least(b, q, depth(a, q));
}

/// A removed block is a gap: a chain that needs it matches up to it only.
pub proof fn gaps_stop_a_match<P: Placement>(
    m: Map<u64, P>,
    keys: Seq<u64>,
    k: u64,
    q: Seq<u64>,
    p: int,
)
    requires
        unaliased(m),
        m.contains_key(k),
        keys.contains(k),
        0 <= p < q.len(),
        at::<P>(q, p) == m[k],
    ensures
        depth(pruned(m, keys), q) <= p,
{
    let post = pruned(m, keys);
    depth_is_greatest(post, q);
    if depth(post, q) > p {
        assert(holds(post, at::<P>(q, p)));
        let j = choose|j: u64| #[trigger] post.contains_key(j) && post[j] == at::<P>(q, p);
        assert(m.contains_key(j) && m.contains_key(k));
    }
}

/// `b` is right behind `a` on its chain.
pub open spec fn right_behind<P: Placement>(a: P, b: P) -> bool {
    b == a.extend(b.content()) && b.position() == a.position() + 1
}

/// Every block but a chain's first has its predecessor.
pub open spec fn prefix_closed<P: Placement>(m: Map<u64, P>) -> bool {
    forall|k: u64| #[trigger]
        m.contains_key(k) && m[k].position() > 0 ==> exists|j: u64| #[trigger]
            m.contains_key(j) && right_behind(m[j], m[k])
}

/// Cutting a holder down from the tail keeps every chain closed.
pub proof fn truncation_keeps_chains_closed<P: Placement>(
    m: Map<u64, P>,
    keep: int,
    post: Map<u64, P>,
)
    requires
        prefix_closed(m),
        truncated(m, keep, post),
    ensures
        prefix_closed(post),
{
    assert forall|k: u64| #[trigger] post.contains_key(k) && post[k].position()
        > 0 implies exists|j: u64| #[trigger] post.contains_key(j) && right_behind(
        post[j],
        post[k],
    ) by {
        kept_as_is(post, m, k);
        let j = choose|j: u64| #[trigger] m.contains_key(j) && right_behind(m[j], m[k]);
        if !post.contains_key(j) {
            assert(crate::model::ahead(m, k, j));
        }
        kept_as_is(post, m, j);
    }
}

/// A cut is a function of the blocks and the number kept.
pub proof fn truncation_is_determined<P: Placement>(
    m: Map<u64, P>,
    keep: int,
    a: Map<u64, P>,
    b: Map<u64, P>,
)
    requires
        m.dom().finite(),
        truncated(m, keep, a),
        truncated(m, keep, b),
    ensures
        a == b,
{
    cut_within(m, keep, a, b);
    cut_within(m, keep, b, a);
    assert forall|k: u64| #[trigger] a.dom().contains(k) implies a[k] == b[k] by {
        assert(b.dom().contains(k));
        assert(m.dom().contains(k));
    }
    assert(a =~= b);
}

proof fn cut_within<P: Placement>(m: Map<u64, P>, keep: int, a: Map<u64, P>, b: Map<u64, P>)
    requires
        m.dom().finite(),
        truncated(m, keep, a),
        truncated(m, keep, b),
    ensures
        a.dom().subset_of(b.dom()),
{
    assert forall|k: u64| a.dom().contains(k) implies b.dom().contains(k) by {
        if !b.dom().contains(k) {
            assert(a.contains_key(k) && m.dom().contains(k) && m.contains_key(k));
            assert(!b.contains_key(k));
            if b.dom().subset_of(a.dom()) {
                vstd::set_lib::lemma_subset_equality(b.dom(), a.dom());
                assert(false);
            }
            let j = choose|j: u64| b.dom().contains(j) && !a.dom().contains(j);
            assert(b.contains_key(j) && m.dom().contains(j) && m.contains_key(j));
            assert(!a.contains_key(j));
            assert(crate::model::ahead(m, k, j));
            assert(crate::model::ahead(m, j, k));
        }
    }
}

/// A query has one answer.
pub proof fn answers_are_determined<P: Placement>(
    t: TableView<P>,
    q: Seq<u64>,
    a: Seq<Overlap>,
    b: Seq<Overlap>,
)
    requires
        answered(t, q, a),
        answered(t, q, b),
    ensures
        a == b,
{
    answer_len(t, q, a, b);
    answer_len(t, q, b, a);
    assert forall|i: int| 0 <= i < a.len() implies #[trigger] a[i] == b[i] by {
        answers_agree(t, q, a, b, i);
    }
    assert(a =~= b);
}

/// A row of one answer stands in the other.
proof fn row_in_other<P: Placement>(
    t: TableView<P>,
    q: Seq<u64>,
    a: Seq<Overlap>,
    b: Seq<Overlap>,
    i: int,
) -> (j: int)
    requires
        answered(t, q, a),
        answered(t, q, b),
        0 <= i < a.len(),
    ensures
        0 <= j < b.len(),
        b[j] == a[i],
{
    assert(row_of(t, q, a[i]));
    let s = a[i].holder.slot() as int;
    assert(t.occupied(s));
    let j = choose|j: int| 0 <= j < b.len() && (#[trigger] b[j]).holder.slot() == s;
    assert(row_of(t, q, b[j]));
    id_is_its_parts(a[i].holder, b[j].holder);
    j
}

proof fn answer_len<P: Placement>(t: TableView<P>, q: Seq<u64>, a: Seq<Overlap>, b: Seq<Overlap>)
    requires
        answered(t, q, a),
        answered(t, q, b),
    ensures
        a.len() <= b.len(),
{
    assert(a.no_duplicates()) by {
        assert forall|i: int, j: int| 0 <= i < a.len() && 0 <= j < a.len() && i != j implies a[i]
            != a[j] by {
            if i < j {
                assert(a[i].depth < a[j].depth || a[i].holder.slot() < a[j].holder.slot());
            } else {
                assert(a[j].depth < a[i].depth || a[j].holder.slot() < a[i].holder.slot());
            }
        }
    }
    a.unique_seq_to_set();
    assert(a.to_set().subset_of(b.to_set())) by {
        assert forall|x: Overlap| a.to_set().contains(x) implies b.to_set().contains(x) by {
            let i = a.index_of(x);
            let j = row_in_other(t, q, a, b, i);
            assert(b[j] == x);
            assert(b.contains(x));
        }
    }
    vstd::seq_lib::seq_to_set_is_finite(a);
    vstd::seq_lib::seq_to_set_is_finite(b);
    vstd::set_lib::lemma_len_subset(a.to_set(), b.to_set());
    b.lemma_cardinality_of_set();
}

proof fn answers_agree<P: Placement>(
    t: TableView<P>,
    q: Seq<u64>,
    a: Seq<Overlap>,
    b: Seq<Overlap>,
    i: int,
)
    requires
        answered(t, q, a),
        answered(t, q, b),
        a.len() == b.len(),
        0 <= i < a.len(),
    ensures
        a[i] == b[i],
    decreases i,
{
    let x = row_in_other(t, q, a, b, i);
    let y = row_in_other(t, q, b, a, i);
    if x < i {
        answers_agree(t, q, a, b, x);
        assert(a[x].depth < a[i].depth || a[x].holder.slot() < a[i].holder.slot());
    } else if y < i {
        answers_agree(t, q, a, b, y);
        assert(b[y].depth < b[i].depth || b[y].holder.slot() < b[i].holder.slot());
    } else if x > i && y > i {
        assert(b[i].depth < b[x].depth || b[i].depth == b[x].depth && b[i].holder.slot()
            < b[x].holder.slot());
        assert(a[i].depth < a[y].depth || a[i].depth == a[y].depth && a[i].holder.slot()
            < a[y].holder.slot());
    }
}

/// A retired id names no holder any more, not even when its slot is used
/// again, and other ids are not affected.
pub proof fn retired_ids_are_stale<P>(
    t: TableView<P>,
    id: HolderId,
    name: Seq<char>,
    post: TableView<P>,
    new: HolderId,
)
    requires
        t.live(id),
        t.without_holder(id.slot() as int).created(name, post, new),
    ensures
        !t.without_holder(id.slot() as int).live(id),
        !post.live(id),
        new != id,
        post.live(new),
        forall|other: HolderId|
            other != id && t.live(other) ==> #[trigger] post.live(other) && post.held(other)
                == t.held(other),
{
    let mid = t.without_holder(id.slot() as int);
    let g = t.slots[id.slot() as int].generation;
    assert(g.wrapping_add(1) != g);
    assert forall|other: HolderId| other != id && t.live(other) implies other.slot()
        != id.slot() by {
        if other.slot() == id.slot() {
            id_is_its_parts(other, id);
        }
    }
    if !mid.has_name(name) {
        assert(mid.free.last() == id.slot());
        assert(post.slots[id.slot() as int].generation == g.wrapping_add(1));
    }
    assert forall|other: HolderId| other != id && t.live(other) implies #[trigger] post.live(other)
        && post.held(other) == t.held(other) by {
        assert(other.slot() != id.slot());
        assert(mid.live(other));
    }
}

/// Clearing, cutting down or retiring a holder leaves the others' blocks.
pub proof fn other_holders_keep_their_blocks<P>(
    t: TableView<P>,
    id: HolderId,
    blocks: Map<u64, P>,
    other: HolderId,
)
    requires
        t.live(id),
        t.live(other),
        other != id,
    ensures
        t.with_blocks(id.slot() as int, blocks).held(other) == t.held(other),
        t.without_holder(id.slot() as int).held(other) == t.held(other),
{
    if other.slot() == id.slot() {
        id_is_its_parts(other, id);
    }
}

/// The holder's blocks are one chain without gaps, listed by `rows`.
pub open spec fn one_chain<P: Placement>(m: Map<u64, P>, rows: Seq<(u32, u64, u64)>) -> bool {
    &&& listed(m, rows)
    &&& forall|i: int|
        #![trigger rows[i]]
        0 <= i < rows.len() ==> m[rows[i].1] == at::<P>(
            rows.map_values(|r: (u32, u64, u64)| r.2),
            i,
        )
}

/// The keys and contents of a listing.
pub open spec fn listed_blocks(rows: Seq<(u32, u64, u64)>) -> Seq<(u64, u64)> {
    rows.map_values(|r: (u32, u64, u64)| (r.1, r.2))
}

/// A listing rebuilds a holder whose blocks are one chain without gaps: stored
/// as one batch by a holder without blocks, it gives the blocks back.
pub proof fn listings_rebuild_a_chain<P: Placement>(
    limit: u32,
    m: Map<u64, P>,
    rows: Seq<(u32, u64, u64)>,
)
    requires
        one_chain(m, rows),
        unaliased(m),
        rows.len() <= limit,
    ensures
        effect(
            limit,
            Map::<u64, P>::empty(),
            (Op::Store { parent: None, blocks: listed_blocks(rows) }),
        ) == m,
{
    let none = Map::<u64, P>::empty();
    let blocks = listed_blocks(rows);
    let b = batch(none, None, blocks);
    assert(contents(blocks) =~= rows.map_values(|r: (u32, u64, u64)| r.2));
    trail_len::<P>(None, blocks);
    assert forall|i: int| #![trigger b[i]] 0 <= i < b.len() implies m.contains_key(b[i].0)
        && m[b[i].0] == b[i].1 by {
        trail_is_chain::<P>(blocks, i);
        assert(m[rows[i].1] == at::<P>(contents(blocks), i));
    }
    placed_by_plan(m, none, b);
    assert forall|k: u64| m.contains_key(k) implies keys_in(b).contains(k) by {
        let i = choose|i: int| 0 <= i < rows.len() && (#[trigger] rows[i]).1 == k;
        trail_is_chain::<P>(blocks, i);
        assert(b[i].0 == k);
    }
    assert(m.restrict(none.dom().union(keys_in(b))) =~= m);
}

/// A batch may be sent in parts, each continuing the part before it.
pub proof fn batches_may_be_split<P: Placement>(
    limit: u32,
    f: Map<u64, P>,
    m: Map<u64, P>,
    blocks: Seq<(u64, u64)>,
    n: int,
)
    requires
        unaliased(f),
        m.submap_of(f),
        agrees(f, (Op::Store { parent: None, blocks })),
        0 < n < blocks.len() <= limit,
        forall|i: int| 0 <= i < blocks.len() ==> (#[trigger] at::<P>(contents(blocks), i)).position() == i,
    ensures
        effect(
            limit,
            effect(limit, m, (Op::Store { parent: None, blocks: blocks.take(n) })),
            (Op::Store { parent: Some(blocks[n - 1].0), blocks: blocks.skip(n) }),
        ) == effect(limit, m, (Op::Store { parent: None, blocks })),
{
    let head = blocks.take(n);
    let tail = blocks.skip(n);
    let whole = trail::<P>(None, blocks);
    let first = trail::<P>(None, head);
    trail_len::<P>(None, blocks);
    trail_len::<P>(None, head);
    trail_len::<P>(Some(first.last().1), tail);
    trail_splits::<P>(blocks, n, tail.len() as int);
    assert(tail.take(tail.len() as int) =~= tail);
    assert(blocks.take(n + tail.len()) =~= blocks);
    let second = trail::<P>(Some(first.last().1), tail);
    assert(whole == first + second);
    assert(follows(f, first)) by {
        assert forall|i: int| #![trigger first[i]] 0 <= i < first.len() implies f.contains_key(
            first[i].0,
        ) && f[first[i].0] == first[i].1 by {
            assert(whole[i] == first[i]);
        }
    }
    assert(follows(f, second)) by {
        assert forall|i: int| #![trigger second[i]] 0 <= i < second.len() implies f.contains_key(
            second[i].0,
        ) && f[second[i].0] == second[i].1 by {
            assert(whole[n + i] == second[i]);
        }
    }
    let mid = placed(m, first);
    placed_by_plan(f, m, first);
    placed_by_plan(f, m, whole);
    trail_is_chain::<P>(head, n - 1);
    trail_is_chain::<P>(blocks, n - 1);
    let k = blocks[n - 1].0;
    assert(first[n - 1] == (k, at::<P>(contents(head), n - 1)));
    assert(whole[n - 1] == first[n - 1]);
    assert(f.contains_key(k) && f[k] == first[n - 1].1);
    assert(keys_in(first).contains(k)) by {
        assert(first[n - 1].0 == k);
    }
    assert(mid.contains_key(k) && mid[k] == f[k]);
    assert(mid[k] == at::<P>(contents(blocks), n - 1));
    assert(mid[k].position() == n - 1);
    assert(accepts(limit, mid, Some(k), tail));
    assert(batch(mid, Some(k), tail) == second);
    placed_by_plan(f, mid, second);
    assert forall|x: u64| keys_in(whole).contains(x) <==> keys_in(first).contains(x) || keys_in(
        second,
    ).contains(x) by {
        if keys_in(whole).contains(x) {
            let i = choose|i: int| 0 <= i < whole.len() && (#[trigger] whole[i]).0 == x;
            if i < n {
                assert(first[i].0 == x);
            } else {
                assert(second[i - n].0 == x);
            }
        }
        if keys_in(first).contains(x) {
            let i = choose|i: int| 0 <= i < first.len() && (#[trigger] first[i]).0 == x;
            assert(whole[i].0 == x);
        }
        if keys_in(second).contains(x) {
            let i = choose|i: int| 0 <= i < second.len() && (#[trigger] second[i]).0 == x;
            assert(whole[n + i].0 == x);
        }
    }
    assert forall|x: u64| m.dom().contains(x) implies f.dom().contains(x) by {}
    assert(placed(mid, second) =~= placed(m, whole));
}

/// A trail continues where its first part ends.
pub(crate) proof fn trail_splits<P: Placement>(blocks: Seq<(u64, u64)>, n: int, r: int)
    requires
        0 < n <= n + r <= blocks.len(),
    ensures
        trail::<P>(None, blocks.take(n + r)) == trail::<P>(None, blocks.take(n)) + trail::<P>(
            Some(trail::<P>(None, blocks.take(n)).last().1),
            blocks.skip(n).take(r),
        ),
    decreases r,
{
    let first = trail::<P>(None, blocks.take(n));
    let a = Some(first.last().1);
    let tail = blocks.skip(n);
    trail_len::<P>(None, blocks.take(n));
    if r == 0 {
        assert(tail.take(0) =~= Seq::empty());
        assert(first + trail::<P>(a, tail.take(0)) =~= first);
    } else {
        trail_splits::<P>(blocks, n, r - 1);
        trail_push::<P>(None, blocks, n + r - 1);
        trail_push::<P>(a, tail, r - 1);
        trail_len::<P>(a, tail.take(r - 1));
        let rest = trail::<P>(a, tail.take(r - 1));
        assert(tail[r - 1] == blocks[n + r - 1]);
        if r - 1 > 0 {
            assert((first + rest).last() == rest.last());
        } else {
            assert(rest =~= Seq::empty());
            assert((first + rest).last() == first.last());
        }
        assert(trail::<P>(None, blocks.take(n + r)) =~= first + trail::<P>(a, tail.take(r)));
    }
}

/// A chain that differs in one block is another chain from there on: no later block
/// stands where its counterpart stands.
pub proof fn one_block_makes_another_chain(q: Seq<u64>, r: Seq<u64>, i: int, p: int)
    requires
        0 <= i <= p < 0x1_0000_0000,
        forall|x: int| 0 <= x <= p && x != i ==> q[x] == r[x],
        q[i] != r[i],
    ensures
        at::<BlockInfo>(q, p) != at::<BlockInfo>(r, p),
        at::<BlockInfo>(q, p).pos == p,
        at::<BlockInfo>(q, p).content == q[p],
        at::<BlockInfo>(q, p).lineage != at::<BlockInfo>(r, p).lineage,
    decreases p,
{
    if p == 0 {
        if root_of(q[0]) == root_of(r[0]) {
            roots_never_collide(q[0], r[0]);
        }
    } else {
        let a = at::<BlockInfo>(q, p - 1).lineage;
        let b = at::<BlockInfo>(r, p - 1).lineage;
        if i < p {
            one_block_makes_another_chain(q, r, i, p - 1);
        } else {
            at_depends_on_prefix::<BlockInfo>(q, r, p - 1);
            chain_positions(q, p - 1);
        }
        if step_of(a, q[p]) == step_of(b, r[p]) {
            steps_never_collide(a, q[p], b, r[p]);
        }
    }
}

proof fn chain_positions(q: Seq<u64>, p: int)
    requires
        0 <= p < 0x1_0000_0000,
    ensures
        at::<BlockInfo>(q, p).pos == p,
    decreases p,
{
    if p > 0 {
        chain_positions(q, p - 1);
    }
}

/// The holder of one chain matches another that differs in one block up to that block
/// and no further.
pub proof fn another_chain_matches_to_the_fork(
    m: Map<u64, BlockInfo>,
    keys: Seq<u64>,
    q: Seq<u64>,
    r: Seq<u64>,
    i: int,
)
    requires
        crate::chunks::is_chain(m, keys, q),
        r.len() == q.len(),
        0 <= i < q.len(),
        forall|x: int| 0 <= x < q.len() && x != i ==> q[x] == r[x],
        q[i] != r[i],
    ensures
        depth(m, r) == i,
{
    depth_is_greatest(m, r);
    assert forall|p: int| 0 <= p < i implies holds(m, #[trigger] at::<BlockInfo>(r, p)) by {
        at_depends_on_prefix::<BlockInfo>(q, r, p);
        assert(keys.contains(keys[p]));
        assert(m.contains_key(keys[p]));
    }
    depth_at_least(m, r, i);
    if depth(m, r) > i {
        assert(holds(m, at::<BlockInfo>(r, i)));
        let k = choose|k: u64| #[trigger] m.contains_key(k) && m[k] == at::<BlockInfo>(r, i);
        let p = keys.index_of(k);
        assert(keys[p] == k);
        chain_positions(q, p);
        chain_positions(r, i);
        one_block_makes_another_chain(q, r, i, i);
    }
}

} // verus!
