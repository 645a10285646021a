//! What the operations of an index do to its holders' blocks, whatever the layout.

use crate::flat::BlockInfo;
use crate::laws::at_depends_on_prefix;
use crate::laws::depth_at_least;
use crate::lineage::lineage_of;
use crate::model::answered;
use crate::model::at;
use crate::model::batch;
use crate::model::depth;
use crate::model::depth_is_greatest;
use crate::model::fresh;
use crate::model::holds;
use crate::model::listed;
use crate::model::placed;
use crate::model::pruned;
use crate::model::row_of;
use crate::model::store_error;
use crate::model::stored;
use crate::model::taken;
use crate::model::trail;
use crate::model::trail_len;
use crate::model::truncated;
use crate::model::with_blocks_twice;
use crate::model::Placement;
use crate::model::TableView;
use crate::model::TreeView;
use crate::types::clamp;
use crate::types::HolderId;
use crate::types::Overlap;
use crate::types::StoreError;
use vstd::prelude::*;

verus! {

// ── Stores ──────────────────────────────────────────────────────────────────

/// A store is refused for an id that names nobody, for a parent that the holder does not
/// have, and for a chain that would be too long, in this order; an empty one is refused
/// for the first reason only.
pub proof fn stores_are_refused_for_cause<P: Placement>(
    t: TreeView<P>,
    id: HolderId,
    parent: Option<u64>,
    blocks: Seq<(u64, u64)>,
)
    ensures
        ({
            let m = t.table.held(id);
            let lost = parent is Some && !m.contains_key(parent->0);
            let from = if parent is Some {
                m[parent->0].position() + 1
            } else {
                0
            };
            let long = from + blocks.len() > t.limit;
            let e = store_error(t, id, parent, blocks);
            &&& e == Some(StoreError::UnknownHolder) <==> !t.table.live(id)
            &&& e == Some(StoreError::ParentNotFound) <==> t.table.live(id) && blocks.len() > 0
                && lost
            &&& e == Some(StoreError::ChainTooLong) <==> t.table.live(id) && blocks.len() > 0
                && !lost && long
        }),
{
}

/// The keys of the batch are new to the holder, and no two are the same.
pub open spec fn keys_are_new<P>(m: Map<u64, P>, blocks: Seq<(u64, u64)>) -> bool {
    &&& forall|i: int| 0 <= i < blocks.len() ==> !m.contains_key((#[trigger] blocks[i]).0)
    &&& forall|i: int, j: int|
        0 <= i < j < blocks.len() ==> (#[trigger] blocks[i]).0 != (#[trigger] blocks[j]).0
}

/// The holder has the chain `c`, and the parent is its last block; without a parent there
/// is no such chain.
pub open spec fn ends_in<P: Placement>(m: Map<u64, P>, parent: Option<u64>, c: Seq<u64>) -> bool {
    match parent {
        None => c.len() == 0,
        Some(k) => c.len() > 0 && m.contains_key(k) && depth(m, c) == c.len() && m[k] == at::<P>(
            c,
            c.len() - 1,
        ),
    }
}

/// The chain `c`, followed by the contents of the batch.
pub open spec fn extended(c: Seq<u64>, blocks: Seq<(u64, u64)>) -> Seq<u64> {
    c + Seq::new(blocks.len(), |i: int| blocks[i].1)
}

proof fn keys_add<P>(m: Map<u64, P>, b: Seq<(u64, P)>)
    requires
        m.dom().finite(),
        forall|i: int| 0 <= i < b.len() ==> !m.contains_key((#[trigger] b[i]).0),
        forall|i: int, j: int|
            0 <= i < j < b.len() ==> (#[trigger] b[i]).0 != (#[trigger] b[j]).0,
    ensures
        forall|k: u64| #[trigger]
            m.contains_key(k) ==> placed(m, b).contains_key(k) && placed(m, b)[k] == m[k],
        forall|k: u64| #[trigger]
            placed(m, b).contains_key(k) ==> m.contains_key(k) || exists|i: int|
                0 <= i < b.len() && (#[trigger] b[i]) == (k, placed(m, b)[k]),
        forall|i: int| 0 <= i < b.len() ==> holds(placed(m, b), (#[trigger] b[i]).1),
        placed(m, b).dom().finite(),
        placed(m, b).len() == m.len() + fresh(m, b),
        fresh(m, b) <= b.len(),
    decreases b.len(),
{
    if b.len() > 0 {
        let init = b.drop_last();
        let g = placed(m, init);
        let (k, p) = b.last();
        let h = placed(m, b);
        assert forall|i: int| 0 <= i < init.len() implies !m.contains_key(
            (#[trigger] init[i]).0,
        ) by {
            assert(init[i] == b[i]);
        }
        assert forall|i: int, j: int| 0 <= i < j < init.len() implies (#[trigger] init[i]).0 != (
        #[trigger] init[j]).0 by {
            assert(init[i] == b[i] && init[j] == b[j]);
        }
        keys_add(m, init);
        assert(!m.contains_key(b[b.len() - 1].0));
        assert forall|i: int| 0 <= i < init.len() implies b[i].0 != k by {
            assert(b[i].0 != b[b.len() - 1].0);
        }
        assert(!g.contains_key(k)) by {
            if g.contains_key(k) {
                let i = choose|i: int| 0 <= i < init.len() && (#[trigger] init[i]) == (k, g[k]);
                assert(b[i].0 == k);
            }
        }
        assert(!g.dom().contains(k));
        assert forall|i: int| 0 <= i < b.len() implies holds(h, (#[trigger] b[i]).1) by {
            if i < init.len() {
                assert(init[i] == b[i]);
                let x = choose|x: u64| #[trigger] g.contains_key(x) && g[x] == b[i].1;
                assert(h.contains_key(x) && h[x] == b[i].1);
            } else if !holds(g, p) {
                assert(h.contains_key(k) && h[k] == p);
            }
        }
        assert forall|x: u64| #[trigger] h.contains_key(x) && !m.contains_key(x) implies exists|
            i: int,
        |
            0 <= i < b.len() && (#[trigger] b[i]) == (x, h[x]) by {
            if g.contains_key(x) {
                let i = choose|i: int| 0 <= i < init.len() && (#[trigger] init[i]) == (x, g[x]);
                assert(b[i] == (x, h[x]));
            } else {
                assert(b[b.len() - 1] == (x, h[x]));
            }
        }
    }
}

proof fn trail_goes_on<P: Placement>(
    anchor: Option<P>,
    c: Seq<u64>,
    blocks: Seq<(u64, u64)>,
    q: Seq<u64>,
    i: int,
)
    requires
        anchor matches Some(a) ==> c.len() > 0 && a == at::<P>(c, c.len() - 1),
        anchor is None ==> c.len() == 0,
        q.len() == c.len() + blocks.len(),
        forall|x: int| 0 <= x < c.len() ==> q[x] == c[x],
        forall|x: int| 0 <= x < blocks.len() ==> q[c.len() + x] == (#[trigger] blocks[x]).1,
        0 <= i < blocks.len(),
    ensures
        trail(anchor, blocks).len() == blocks.len(),
        trail(anchor, blocks)[i] == (blocks[i].0, at::<P>(q, c.len() + i)),
    decreases blocks.len(),
{
    let init = blocks.drop_last();
    let n = blocks.len() - 1;
    trail_len(anchor, blocks);
    trail_len(anchor, init);
    let r = q.take(c.len() + n);
    assert forall|x: int| 0 <= x < init.len() implies r[c.len() + x] == (#[trigger] init[x]).1 by {
        assert(init[x] == blocks[x]);
    }
    if i < n {
        trail_goes_on(anchor, c, init, r, i);
        at_depends_on_prefix::<P>(r, q, c.len() + i);
    } else if n > 0 {
        trail_goes_on(anchor, c, init, r, n - 1);
        at_depends_on_prefix::<P>(r, q, c.len() + n - 1);
        assert(blocks[n].1 == q[c.len() + n]);
    } else {
        assert(blocks[0].1 == q[c.len() as int]);
        if c.len() > 0 {
            at_depends_on_prefix::<P>(c, q, c.len() - 1);
        }
    }
}

/// A batch under new keys continues its parent's chain: the whole chain is matched, what
/// was there stays, what comes stands where its place in the batch puts it, and as many
/// blocks come as the store says.
pub proof fn stored_chains_go_on<P: Placement>(
    t: TreeView<P>,
    id: HolderId,
    parent: Option<u64>,
    blocks: Seq<(u64, u64)>,
    c: Seq<u64>,
)
    requires
        t.table.live(id),
        t.table.held(id).dom().finite(),
        keys_are_new(t.table.held(id), blocks),
        ends_in(t.table.held(id), parent, c),
    ensures
        ({
            let m = t.table.held(id);
            let g = stored(t, id, parent, blocks).table.held(id);
            let q = extended(c, blocks);
            &&& depth(g, q) == c.len() + blocks.len()
            &&& forall|k: u64| #[trigger] m.contains_key(k) ==> g.contains_key(k) && g[k] == m[k]
            &&& forall|k: u64| #[trigger]
                g.contains_key(k) ==> m.contains_key(k) || exists|i: int|
                    0 <= i < blocks.len() && (#[trigger] blocks[i]).0 == k && g[k] == at::<P>(
                        q,
                        c.len() + i,
                    )
            &&& g.len() == m.len() + fresh(m, batch(m, parent, blocks))
            &&& fresh(m, batch(m, parent, blocks)) <= blocks.len()
            &&& (forall|p: int|
                c.len() <= p < q.len() ==> !holds(m, #[trigger] at::<P>(q, p))) && (forall|
                x: int,
                y: int,
            |
                c.len() <= x < y < q.len() ==> #[trigger] at::<P>(q, x) != #[trigger] at::<P>(q, y))
                ==> fresh(m, batch(m, parent, blocks)) == blocks.len() && forall|i: int|
                #![trigger blocks[i]]
                0 <= i < blocks.len() ==> g.contains_key(blocks[i].0) && g[blocks[i].0] == at::<P>(
                    q,
                    c.len() + i,
                )
        }),
{
    let m = t.table.held(id);
    let b = batch(m, parent, blocks);
    let g = placed(m, b);
    let q = extended(c, blocks);
    let n = blocks.len() as int;
    let a = crate::model::anchor(m, parent);
    trail_len(a, blocks);
    assert forall|i: int| 0 <= i < n implies #[trigger] b[i] == (
        blocks[i].0,
        at::<P>(q, c.len() + i),
    ) by {
        trail_goes_on(a, c, blocks, q, i);
    }
    assert forall|i: int| 0 <= i < b.len() implies !m.contains_key((#[trigger] b[i]).0) by {
        assert(!m.contains_key(blocks[i].0));
    }
    assert forall|i: int, j: int| 0 <= i < j < b.len() implies (#[trigger] b[i]).0 != (
    #[trigger] b[j]).0 by {
        assert(blocks[i].0 != blocks[j].0);
    }
    keys_add(m, b);
    with_blocks_twice(t.table, id.slot() as int, g, g);
    assert forall|k: u64| #[trigger] g.contains_key(k) && !m.contains_key(k) implies exists|i: int|
        0 <= i < blocks.len() && (#[trigger] blocks[i]).0 == k && g[k] == at::<P>(
            q,
            c.len() + i,
        ) by {
        let i = choose|i: int| 0 <= i < b.len() && (#[trigger] b[i]) == (k, g[k]);
        assert(blocks[i].0 == k);
    }
    depth_is_greatest(m, c);
    assert forall|p: int| 0 <= p < q.len() implies holds(g, #[trigger] at::<P>(q, p)) by {
        if p < c.len() {
            at_depends_on_prefix::<P>(c, q, p);
            assert(holds(m, at::<P>(c, p)));
            let k = choose|k: u64| #[trigger] m.contains_key(k) && m[k] == at::<P>(c, p);
            assert(g.contains_key(k) && g[k] == at::<P>(q, p));
        } else {
            let i = p - c.len();
            assert(b[i].1 == at::<P>(q, p));
        }
    }
    depth_at_least(g, q, q.len() as int);
    depth_is_greatest(g, q);
    if (forall|p: int| c.len() <= p < q.len() ==> !holds(m, #[trigger] at::<P>(q, p))) && (forall|
        x: int,
        y: int,
    |
        c.len() <= x < y < q.len() ==> #[trigger] at::<P>(q, x) != #[trigger] at::<P>(q, y)) {
        assert forall|i: int| 0 <= i < n implies !holds(m, (#[trigger] b[i]).1) by {
            assert(!holds(m, at::<P>(q, c.len() + i)));
        }
        assert forall|i: int, j: int| 0 <= i < j < n implies (#[trigger] b[i]).1 != (
        #[trigger] b[j]).1 by {
            assert(at::<P>(q, c.len() + i) != at::<P>(q, c.len() + j));
        }
        all_are_fresh(m, b);
        assert forall|i: int| #![trigger blocks[i]] 0 <= i < blocks.len() implies g.contains_key(
            blocks[i].0,
        ) && g[blocks[i].0] == at::<P>(q, c.len() + i) by {
            assert(b[i].0 == blocks[i].0);
        }
    }
}

proof fn all_are_fresh<P>(m: Map<u64, P>, b: Seq<(u64, P)>)
    requires
        m.dom().finite(),
        forall|i: int| 0 <= i < b.len() ==> !m.contains_key((#[trigger] b[i]).0),
        forall|i: int, j: int|
            0 <= i < j < b.len() ==> (#[trigger] b[i]).0 != (#[trigger] b[j]).0,
        forall|i: int| 0 <= i < b.len() ==> !holds(m, (#[trigger] b[i]).1),
        forall|i: int, j: int|
            0 <= i < j < b.len() ==> (#[trigger] b[i]).1 != (#[trigger] b[j]).1,
    ensures
        fresh(m, b) == b.len(),
        forall|i: int|
            #![trigger b[i]]
            0 <= i < b.len() ==> placed(m, b).contains_key(b[i].0) && placed(m, b)[b[i].0]
                == b[i].1,
    decreases b.len(),
{
    if b.len() > 0 {
        let init = b.drop_last();
        let n = b.len() - 1;
        let g = placed(m, init);
        assert forall|i: int| 0 <= i < n implies #[trigger] init[i] == b[i] by {}
        assert forall|i: int| 0 <= i < init.len() implies !m.contains_key((#[trigger] init[i]).0)
            && !holds(m, init[i].1) by {
            assert(!m.contains_key(b[i].0) && !holds(m, b[i].1));
        }
        assert forall|i: int, j: int| 0 <= i < j < init.len() implies (#[trigger] init[i]).0 != (
        #[trigger] init[j]).0 && init[i].1 != init[j].1 by {
            assert(b[i].0 != b[j].0 && b[i].1 != b[j].1);
        }
        all_are_fresh(m, init);
        keys_add(m, init);
        assert(!holds(g, b[n].1)) by {
            if holds(g, b[n].1) {
                let k = choose|k: u64| #[trigger] g.contains_key(k) && g[k] == b[n].1;
                if m.contains_key(k) {
                    assert(holds(m, b[n].1));
                } else {
                    let i = choose|i: int| 0 <= i < init.len() && (#[trigger] init[i]) == (k, g[k]);
                    assert(b[i].1 != b[n].1);
                }
            }
        }
        assert forall|i: int| #![trigger b[i]] 0 <= i < b.len() implies placed(m, b).contains_key(
            b[i].0,
        ) && placed(m, b)[b[i].0] == b[i].1 by {
            if i < n {
                assert(b[i].0 != b[n].0);
                assert(init[i] == b[i]);
            }
        }
    }
}

/// One block goes to its place: behind its parent, or first. Where the holder has that
/// place, under whatever key, nothing changes and the block is a duplicate; else its key
/// leads there from now on, and the block counts as applied.
pub proof fn one_block_goes_to_its_place<P: Placement>(
    t: TreeView<P>,
    id: HolderId,
    parent: Option<u64>,
    key: u64,
    content: u64,
)
    requires
        t.table.live(id),
    ensures
        ({
            let m = t.table.held(id);
            let p = match parent {
                None => P::first(content),
                Some(k) => m[k].extend(content),
            };
            let blocks = seq![(key, content)];
            let g = stored(t, id, parent, blocks).table.held(id);
            if exists|k: u64| #[trigger] m.contains_key(k) && m[k] == p {
                g == m && fresh(m, batch(m, parent, blocks)) == 0
            } else {
                g == m.insert(key, p) && fresh(m, batch(m, parent, blocks)) == 1
            }
        }),
        stored(t, id, parent, seq![(key, content)]).limit == t.limit,
{
    let m = t.table.held(id);
    let blocks = seq![(key, content)];
    let p = match parent {
        None => P::first(content),
        Some(k) => m[k].extend(content),
    };
    let b = batch(m, parent, blocks);
    assert(blocks.drop_last() =~= Seq::empty());
    assert(trail(crate::model::anchor(m, parent), blocks.drop_last()) =~= Seq::empty());
    assert(b =~= seq![(key, p)]);
    assert(b.drop_last() =~= Seq::empty());
    assert(placed(m, b.drop_last()) == m);
    assert(fresh(m, b.drop_last()) == 0);
    let g = placed(m, b);
    with_blocks_twice(t.table, id.slot() as int, g, g);
}

// ── Removals and cuts ───────────────────────────────────────────────────────

/// A removal takes the listed blocks and no others, and counts those that were there.
pub proof fn removals_take_the_listed<P: Placement>(m: Map<u64, P>, keys: Seq<u64>, k: u64)
    requires
        m.dom().finite(),
    ensures
        pruned(m, keys).contains_key(k) <==> m.contains_key(k) && !keys.contains(k),
        pruned(m, keys).contains_key(k) ==> pruned(m, keys)[k] == m[k],
        pruned(m, keys).len() + taken(m, keys) == m.len(),
        0 <= taken(m, keys),
        keys.no_duplicates() && (forall|i: int|
            0 <= i < keys.len() ==> m.contains_key(#[trigger] keys[i])) ==> taken(m, keys)
            == keys.len(),
        (forall|i: int| 0 <= i < keys.len() ==> !m.contains_key(#[trigger] keys[i])) ==> pruned(
            m,
            keys,
        ) == m && taken(m, keys) == 0,
{
    let post = pruned(m, keys);
    let gone = keys.to_set();
    vstd::seq_lib::seq_to_set_is_finite(keys);
    assert(post.dom() =~= m.dom().difference(gone));
    vstd::set_lib::lemma_len_subset(post.dom(), m.dom());
    if keys.no_duplicates() && forall|i: int|
        0 <= i < keys.len() ==> m.contains_key(#[trigger] keys[i]) {
        keys.unique_seq_to_set();
        assert(gone.subset_of(m.dom())) by {
            assert forall|x: u64| gone.contains(x) implies m.dom().contains(x) by {
                let i = keys.index_of(x);
                assert(m.contains_key(keys[i]));
            }
        }
        assert(m.dom() =~= post.dom().union(gone));
        assert(post.dom().disjoint(gone));
        vstd::set_lib::lemma_set_disjoint_lens(post.dom(), gone);
    }
    if forall|i: int| 0 <= i < keys.len() ==> !m.contains_key(#[trigger] keys[i]) {
        assert(post =~= m) by {
            assert forall|x: u64| m.dom().contains(x) implies !gone.contains(x) by {
                if gone.contains(x) {
                    let i = keys.index_of(x);
                    assert(!m.contains_key(keys[i]));
                }
            }
        }
    }
}

/// A cut leaves the given number of blocks, or all if there are fewer, and no block that
/// stays stands further down its chain than one that goes; of those that stand alike, the
/// lowest keys stay.
pub proof fn cuts_take_the_tail<P: Placement>(
    m: Map<u64, P>,
    keep: int,
    post: Map<u64, P>,
    j: u64,
    k: u64,
)
    requires
        m.dom().finite(),
        keep >= 0,
        truncated(m, keep, post),
    ensures
        m.len() <= keep ==> post.len() == m.len(),
        m.len() > keep ==> post.len() == keep,
        post.contains_key(j) ==> m.contains_key(j) && post[j] == m[j],
        post.contains_key(j) && m.contains_key(k) && !post.contains_key(k) ==> m[j].position()
            <= m[k].position(),
        post.contains_key(j) && m.contains_key(k) && !post.contains_key(k) && m[j].position()
            == m[k].position() ==> j < k,
        m.len() <= keep ==> post == m,
{
    if post.contains_key(j) {
        crate::laws::kept_as_is(post, m, j);
    }
    if post.contains_key(j) && m.contains_key(k) && !post.contains_key(k) {
        assert(crate::model::ahead(m, j, k));
    }
    if m.len() <= keep {
        assert(post.dom().subset_of(m.dom()));
        vstd::set_lib::lemma_subset_equality(post.dom(), m.dom());
        assert(post =~= m);
    }
}

/// A listing has every block once, with its position and its content; positions never
/// fall, and where they stay keys rise.
pub proof fn listings_are_complete<P: Placement>(
    m: Map<u64, P>,
    rows: Seq<(u32, u64, u64)>,
    i: int,
    j: int,
    k: u64,
)
    requires
        listed(m, rows),
    ensures
        0 <= i < rows.len() ==> m.contains_key(rows[i].1) && m[rows[i].1].position() == rows[i].0
            && m[rows[i].1].content() == rows[i].2,
        0 <= i < j < rows.len() ==> rows[i].0 <= rows[j].0 && rows[i].1 != rows[j].1,
        0 <= i < j < rows.len() && rows[i].0 == rows[j].0 ==> rows[i].1 < rows[j].1,
        m.contains_key(k) ==> exists|x: int| 0 <= x < rows.len() && (#[trigger] rows[x]).1 == k,
{
    if 0 <= i < j < rows.len() {
        assert(crate::model::ahead(m, rows[i].1, rows[j].1));
        assert(rows[i].0 == m[rows[i].1].position());
        assert(rows[j].0 == m[rows[j].1].position());
    }
}

// ── Holders ─────────────────────────────────────────────────────────────────

/// Creating a holder gives the one that has the name, as it is, or a new one without
/// blocks; nobody else is affected.
pub proof fn holders_have_one_name<P>(
    t: TableView<P>,
    name: Seq<char>,
    post: TableView<P>,
    id: HolderId,
    other: HolderId,
)
    requires
        t.wf(),
        t.created(name, post, id),
    ensures
        post.live(id),
        post.name(id.slot() as int) == name,
        t.has_name(name) ==> post == t,
        !t.has_name(name) ==> !t.live(id) && post.held(id) == Map::<u64, P>::empty(),
        t.live(other) ==> post.live(other) && post.held(other) == t.held(other) && post.name(
            other.slot() as int,
        ) == t.name(other.slot() as int),
        post.live(other) && other != id ==> t.live(other),
{
    if !t.has_name(name) {
        let s = t.next_slot();
        if t.free.len() > 0 {
            assert(t.free[t.free.len() - 1] == s);
        }
        assert(!t.occupied(s));
        if post.live(other) && other != id && other.slot() == id.slot() {
            crate::types::id_is_its_parts(other, id);
        }
    }
}

// ── Queries ─────────────────────────────────────────────────────────────────

/// A row says how many leading blocks of the query its holder has: those it has, the next
/// it has not. Every holder of the first block has one row; deeper ones come later, and of
/// those that match alike the one with the lower seat comes first.
pub proof fn rows_tell_depths<P: Placement>(
    t: TableView<P>,
    q: Seq<u64>,
    out: Seq<Overlap>,
    i: int,
    j: int,
    id: HolderId,
)
    requires
        answered(t, q, out),
    ensures
        0 <= i < out.len() ==> {
            let m = t.held(out[i].holder);
            let d = out[i].depth as int;
            &&& t.live(out[i].holder)
            &&& 0 < d <= q.len()
            &&& forall|p: int| 0 <= p < d ==> holds(m, #[trigger] at::<P>(q, p))
            &&& d < q.len() ==> !holds(m, at::<P>(q, d))
            &&& out[i].total_blocks == m.len()
        },
        0 <= i < j < out.len() ==> out[i].depth <= out[j].depth && out[i].holder != out[j].holder,
        0 <= i < j < out.len() && out[i].depth == out[j].depth ==> out[i].holder.slot()
            < out[j].holder.slot(),
        t.live(id) && q.len() > 0 && holds(t.held(id), at::<P>(q, 0)) ==> exists|x: int|
            0 <= x < out.len() && (#[trigger] out[x]).holder == id,
        q.len() == 0 ==> out.len() == 0,
{
    if 0 <= i < out.len() {
        assert(row_of(t, q, out[i]));
        depth_is_greatest(t.held(out[i].holder), q);
    }
    if 0 <= i < j < out.len() {
        assert(out[i].depth < out[j].depth || out[i].holder.slot() < out[j].holder.slot());
    }
    if t.live(id) && q.len() > 0 && holds(t.held(id), at::<P>(q, 0)) {
        depth_is_greatest(t.held(id), q);
        let s = id.slot() as int;
        assert(t.occupied(s));
        assert(depth(t.blocks(s), q) > 0);
        let x = choose|x: int| 0 <= x < out.len() && (#[trigger] out[x]).holder.slot() == s;
        assert(row_of(t, q, out[x]));
        crate::types::id_is_its_parts(out[x].holder, id);
    }
    if q.len() == 0 && out.len() > 0 {
        assert(row_of(t, q, out[0]));
        depth_is_greatest(t.held(out[0].holder), q);
    }
}

/// Counts are told as they are, or as the greatest number that there is.
pub proof fn counts_are_capped(n: nat, m: nat)
    ensures
        n <= u64::MAX ==> clamp(n) == n,
        clamp(n) <= n,
        m >= u64::MAX ==> clamp(m) == u64::MAX,
        n <= m ==> clamp(n) <= clamp(m),
{
}

/// A block is placed by its chain: it stands where the chain puts it, and has its content.
/// Where chains are kept whole, the place is the chain up to the block.
pub proof fn places_follow_the_chain(q: Seq<u64>, p: int)
    requires
        0 <= p < q.len() <= 0x1_0000_0000,
    ensures
        at::<Seq<u64>>(q, p) == q.take(p + 1),
        at::<Seq<u64>>(q, p).position() == p,
        at::<Seq<u64>>(q, p).content() == q[p],
        at::<BlockInfo>(q, p).position() == p,
        at::<BlockInfo>(q, p).content() == q[p],
        at::<BlockInfo>(q, p).lineage == lineage_of(q.take(p + 1)),
    decreases p,
{
    let now = q.take(p + 1);
    if p == 0 {
        assert(now =~= seq![q[0]]);
    } else {
        places_follow_the_chain(q, p - 1);
        assert(now =~= q.take(p).push(q[p]));
        assert(now.drop_last() =~= q.take(p));
    }
}

/// A holder that is retired is gone, with its name and its blocks; its seat is the next to
/// be given away.
pub proof fn retired_holders_are_gone<P>(t: TableView<P>, id: HolderId, other: HolderId)
    requires
        t.wf(),
        t.live(id),
    ensures
        ({
            let s = id.slot() as int;
            let post = t.without_holder(s);
            &&& !post.live(id)
            &&& post.held(id) == Map::<u64, P>::empty()
            &&& !post.has_name(t.name(s))
            &&& post.next_slot() == s
            &&& other.slot() != id.slot() ==> post.live(other) == t.live(other)
                && post.held(other) == t.held(other)
            &&& post.residents() == t.residents().remove(s)
        }),
{
    let s = id.slot() as int;
    let post = t.without_holder(s);
    assert(t.occupied(s));
    assert(!post.occupied(s));
    assert forall|i: int| i != s implies #[trigger] post.occupied(i) == t.occupied(i) by {}
    assert(post.residents() =~= t.residents().remove(s));
    if post.has_name(t.name(s)) {
        let i = choose|i: int| #[trigger] post.occupied(i) && post.name(i) == t.name(s);
        assert(t.occupied(i) && t.name(i) == t.name(s));
    }
}

/// Counts of an index are of what its holders have: every block of every holder once, every
/// place once however many have it, every holder once.
pub proof fn stats_count_what_is_there<P>(t: TableView<P>, i: u32, k: u64, p: P)
    ensures
        t.pairs().contains((i, k)) <==> t.occupied(i as int) && t.blocks(i as int).contains_key(k),
        t.placements().contains(p) <==> exists|s: int| #[trigger]
            t.occupied(s) && holds(t.blocks(s), p),
        t.residents().contains(i as int) <==> t.occupied(i as int),
{
}

} // verus!
