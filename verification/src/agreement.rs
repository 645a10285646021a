//! The two layouts agree: the flat one knows chains by fingerprints, the linked
//! one by their contents, and they answer alike unless fingerprints collide.

use crate::flat::BlockInfo;
use crate::laws::at_depends_on_prefix;
use crate::model::ahead;
use crate::model::anchor;
use crate::model::at;
use crate::model::at_is_prefix;
use crate::model::batch;
use crate::model::depth;
use crate::model::depth_is_greatest;
use crate::model::fresh;
use crate::model::holds;
use crate::model::placed;
use crate::model::placed_push;
use crate::model::pruned;
use crate::model::start;
use crate::model::trail;
use crate::model::trail_len;
use crate::model::trail_push;
use crate::model::truncated;
use crate::model::Placement;
use vstd::prelude::*;

verus! {

/// Where the flat layout places the end of a chain.
pub open spec fn print(path: Seq<u64>) -> BlockInfo {
    at::<BlockInfo>(path, path.len() - 1)
}

/// The two maps place the same keys alike.
pub open spec fn mirrors(flat: Map<u64, BlockInfo>, linked: Map<u64, Seq<u64>>) -> bool {
    &&& flat.dom() == linked.dom()
    &&& forall|k: u64| #[trigger]
        linked.contains_key(k) ==> 0 < linked[k].len() <= u32::MAX && flat[k] == print(linked[k])
}

/// The path is told apart from every path that the holder holds.
pub open spec fn told_apart(linked: Map<u64, Seq<u64>>, path: Seq<u64>) -> bool {
    forall|k: u64| #[trigger]
        linked.contains_key(k) && print(linked[k]) == print(path) ==> linked[k] == path
}

/// A placement that is told apart is held in both layouts or in neither.
proof fn held_alike(flat: Map<u64, BlockInfo>, linked: Map<u64, Seq<u64>>, path: Seq<u64>)
    requires
        mirrors(flat, linked),
        told_apart(linked, path),
    ensures
        holds(flat, print(path)) <==> holds(linked, path),
{
    if holds(flat, print(path)) {
        let k = choose|k: u64| #[trigger] flat.contains_key(k) && flat[k] == print(path);
        assert(linked.dom().contains(k));
        assert(linked.contains_key(k));
    }
    if holds(linked, path) {
        let k = choose|k: u64| #[trigger] linked.contains_key(k) && linked[k] == path;
        assert(flat.dom().contains(k));
        assert(flat.contains_key(k));
    }
}

/// Both layouts match a chain equally deep, unless one of its prefixes has the
/// fingerprint of another chain that the holder holds.
pub proof fn layouts_match_alike(
    flat: Map<u64, BlockInfo>,
    linked: Map<u64, Seq<u64>>,
    q: Seq<u64>,
)
    requires
        mirrors(flat, linked),
        forall|p: int| 0 < p <= q.len() ==> told_apart(linked, #[trigger] q.take(p)),
    ensures
        depth(flat, q) == depth(linked, q),
{
    depth_is_greatest(flat, q);
    depth_is_greatest(linked, q);
    assert forall|p: int| 0 <= p < q.len() implies (holds(flat, at::<BlockInfo>(q, p)) <==> holds(
        linked,
        at::<Seq<u64>>(q, p),
    )) by {
        at_is_prefix(q, p);
        at_depends_on_prefix::<BlockInfo>(q, q.take(p + 1), p);
        held_alike(flat, linked, q.take(p + 1));
    }
    let d = depth(flat, q);
    let e = depth(linked, q);
    if d < e {
        assert(holds(linked, at::<Seq<u64>>(q, d)));
        assert(holds(flat, at::<BlockInfo>(q, d)));
    }
    if e < d {
        assert(holds(flat, at::<BlockInfo>(q, e)));
        assert(holds(linked, at::<Seq<u64>>(q, e)));
    }
}

/// The fingerprint of a longer chain continues that of the shorter.
proof fn print_extends(path: Seq<u64>, content: u64)
    requires
        path.len() > 0,
    ensures
        print(path.push(content)) == print(path).extend(content),
{
    at_depends_on_prefix::<BlockInfo>(path.push(content), path, path.len() - 1);
}

/// A print stands at its chain's last position.
proof fn print_position(path: Seq<u64>)
    requires
        0 < path.len() <= 0x1_0000_0000,
    ensures
        print(path).pos == path.len() - 1,
    decreases path.len(),
{
    if path.len() > 1 {
        let init = path.drop_last();
        print_position(init);
        print_extends(init, path.last());
        assert(init.push(path.last()) =~= path);
    }
}

/// Both layouts place a batch alike.
proof fn trails_alike(
    flat: Option<BlockInfo>,
    linked: Option<Seq<u64>>,
    blocks: Seq<(u64, u64)>,
    n: int,
)
    requires
        0 <= n <= blocks.len(),
        flat is Some <==> linked is Some,
        linked is Some ==> linked->0.len() > 0 && flat->0 == print(linked->0),
    ensures
        trail(flat, blocks.take(n)).len() == n,
        trail(linked, blocks.take(n)).len() == n,
        forall|i: int|
            #![trigger trail(linked, blocks.take(n))[i]]
            0 <= i < n ==> {
                &&& trail(flat, blocks.take(n))[i].0 == trail(linked, blocks.take(n))[i].0
                &&& trail(flat, blocks.take(n))[i].1 == print(trail(linked, blocks.take(n))[i].1)
                &&& trail(linked, blocks.take(n))[i].1.len() == i + 1 + (if linked is Some {
                    linked->0.len() as int
                } else {
                    0
                })
            },
    decreases n,
{
    trail_len(flat, blocks.take(n));
    trail_len(linked, blocks.take(n));
    if n > 0 {
        trails_alike(flat, linked, blocks, n - 1);
        trail_push(flat, blocks, n - 1);
        trail_push(linked, blocks, n - 1);
        let x = trail(flat, blocks.take(n - 1));
        let y = trail(linked, blocks.take(n - 1));
        let content = blocks[n - 1].1;
        if n > 1 {
            assert(x.last().1 == print(y[n - 2].1));
            print_extends(y.last().1, content);
        } else if linked is Some {
            print_extends(linked->0, content);
        } else {
            assert(print(seq![content]) == BlockInfo::first(content));
        }
    }
}

/// Whether both layouts tell a batch's placements from what is held, and from
/// one another.
pub open spec fn batch_told_apart(linked: Map<u64, Seq<u64>>, b: Seq<(u64, Seq<u64>)>) -> bool {
    &&& forall|i: int| 0 <= i < b.len() ==> told_apart(linked, (#[trigger] b[i]).1)
    &&& forall|i: int, j: int|
        0 <= i < b.len() && 0 <= j < b.len() && print((#[trigger] b[i]).1) == print(
            (#[trigger] b[j]).1,
        ) ==> b[i].1 == b[j].1
}

/// Both layouts store alike, unless fingerprints collide: the same blocks are
/// duplicates, and the same keys move.
pub proof fn layouts_store_alike(
    flat: Map<u64, BlockInfo>,
    linked: Map<u64, Seq<u64>>,
    parent: Option<u64>,
    blocks: Seq<(u64, u64)>,
)
    requires
        mirrors(flat, linked),
        parent is Some ==> linked.contains_key(parent->0),
        start(linked, parent) + blocks.len() <= u32::MAX,
        batch_told_apart(linked, batch(linked, parent, blocks)),
    ensures
        start(flat, parent) == start(linked, parent),
        mirrors(
            placed(flat, batch(flat, parent, blocks)),
            placed(linked, batch(linked, parent, blocks)),
        ),
        fresh(flat, batch(flat, parent, blocks)) == fresh(linked, batch(linked, parent, blocks)),
{
    if parent is Some {
        print_position(linked[parent->0]);
    }
    trails_alike(
        anchor(flat, parent),
        anchor(linked, parent),
        blocks,
        blocks.len() as int,
    );
    assert(blocks.take(blocks.len() as int) =~= blocks);
    let x = batch(flat, parent, blocks);
    let y = batch(linked, parent, blocks);
    placed_alike(flat, linked, x, y, y.len() as int);
    assert(x.take(y.len() as int) =~= x);
    assert(y.take(y.len() as int) =~= y);
}

proof fn placed_alike(
    flat: Map<u64, BlockInfo>,
    linked: Map<u64, Seq<u64>>,
    x: Seq<(u64, BlockInfo)>,
    y: Seq<(u64, Seq<u64>)>,
    n: int,
)
    requires
        mirrors(flat, linked),
        batch_told_apart(linked, y),
        x.len() == y.len(),
        forall|i: int|
            #![trigger y[i]]
            0 <= i < y.len() ==> x[i].0 == y[i].0 && x[i].1 == print(y[i].1) && 0 < y[i].1.len()
                <= u32::MAX,
        0 <= n <= y.len(),
    ensures
        mirrors(placed(flat, x.take(n)), placed(linked, y.take(n))),
        fresh(flat, x.take(n)) == fresh(linked, y.take(n)),
        forall|k: u64| #[trigger]
            placed(linked, y.take(n)).contains_key(k) ==> (linked.contains_key(k) && placed(
                linked,
                y.take(n),
            )[k] == linked[k]) || exists|i: int|
                0 <= i < n && placed(linked, y.take(n))[k] == (#[trigger] y[i]).1,
    decreases n,
{
    if n == 0 {
    } else {
        placed_alike(flat, linked, x, y, n - 1);
        assert(x.take(n) =~= x.take(n - 1).push(x[n - 1]));
        assert(y.take(n) =~= y.take(n - 1).push(y[n - 1]));
        placed_push(flat, x.take(n - 1), x[n - 1]);
        placed_push(linked, y.take(n - 1), y[n - 1]);
        let f = placed(flat, x.take(n - 1));
        let l = placed(linked, y.take(n - 1));
        let path = y[n - 1].1;
        assert(told_apart(l, path)) by {
            assert forall|k: u64| #[trigger] l.contains_key(k) && print(l[k]) == print(
                path,
            ) implies l[k] == path by {
                if linked.contains_key(k) && l[k] == linked[k] {
                    assert(told_apart(linked, y[n - 1].1));
                } else {
                    let i = choose|i: int| 0 <= i < n - 1 && l[k] == (#[trigger] y[i]).1;
                    assert(print(y[i].1) == print(y[n - 1].1));
                }
            }
        }
        held_alike(f, l, path);
        let post = placed(linked, y.take(n));
        assert forall|k: u64| #[trigger] post.contains_key(k) implies (linked.contains_key(k)
            && post[k] == linked[k]) || exists|i: int|
            0 <= i < n && post[k] == (#[trigger] y[i]).1 by {
            if l.contains_key(k) && post[k] == l[k] {
                if !(linked.contains_key(k) && l[k] == linked[k]) {
                    let i = choose|i: int| 0 <= i < n - 1 && l[k] == (#[trigger] y[i]).1;
                    assert(post[k] == y[i].1);
                }
            } else {
                assert(post[k] == y[n - 1].1);
            }
        }
        assert(placed(flat, x.take(n)).dom() =~= post.dom());
    }
}

/// Both layouts remove alike.
pub proof fn layouts_remove_alike(
    flat: Map<u64, BlockInfo>,
    linked: Map<u64, Seq<u64>>,
    keys: Seq<u64>,
)
    requires
        mirrors(flat, linked),
    ensures
        mirrors(pruned(flat, keys), pruned(linked, keys)),
{
    assert(pruned(flat, keys).dom() =~= pruned(linked, keys).dom());
    assert forall|k: u64| #[trigger] pruned(linked, keys).contains_key(k) implies 0 < pruned(
        linked,
        keys,
    )[k].len() <= u32::MAX && pruned(flat, keys)[k] == print(pruned(linked, keys)[k]) by {
        assert(linked.contains_key(k));
    }
}

/// Both layouts cut down alike.
pub proof fn layouts_truncate_alike(
    flat: Map<u64, BlockInfo>,
    linked: Map<u64, Seq<u64>>,
    keep: int,
    x: Map<u64, BlockInfo>,
    y: Map<u64, Seq<u64>>,
)
    requires
        mirrors(flat, linked),
        linked.dom().finite(),
        truncated(flat, keep, x),
        truncated(linked, keep, y),
    ensures
        mirrors(x, y),
{
    assert forall|k: u64| x.dom().contains(k) implies y.dom().contains(k) by {
        cut_alike(flat, linked, keep, x, y, k);
    }
    assert(x.dom().subset_of(y.dom()));
    assert(x.dom().len() == y.dom().len());
    vstd::set_lib::lemma_subset_equality(x.dom(), y.dom());
    assert forall|k: u64| #[trigger] y.contains_key(k) implies 0 < y[k].len() <= u32::MAX && x[k]
        == print(y[k]) by {
        assert(y.dom().contains(k) && x.dom().contains(k));
        assert(linked.dom().contains(k) && flat.dom().contains(k));
        assert(linked.contains_key(k));
    }
}

proof fn cut_alike(
    flat: Map<u64, BlockInfo>,
    linked: Map<u64, Seq<u64>>,
    keep: int,
    x: Map<u64, BlockInfo>,
    y: Map<u64, Seq<u64>>,
    k: u64,
)
    requires
        mirrors(flat, linked),
        linked.dom().finite(),
        truncated(flat, keep, x),
        truncated(linked, keep, y),
        x.dom().contains(k),
    ensures
        y.dom().contains(k),
{
    if !y.dom().contains(k) {
        assert(flat.dom().contains(k));
        assert(linked.dom().contains(k) && linked.contains_key(k));
        assert(x.contains_key(k) && !y.contains_key(k));
        if y.dom().subset_of(x.dom()) {
            vstd::set_lib::lemma_subset_equality(y.dom(), x.dom());
            assert(false);
        }
        let j = choose|j: u64| y.dom().contains(j) && !x.dom().contains(j);
        assert(linked.dom().contains(j) && linked.contains_key(j));
        assert(flat.dom().contains(j) && flat.contains_key(j));
        assert(y.contains_key(j) && !x.contains_key(j));
        assert(ahead(flat, k, j));
        assert(ahead(linked, j, k));
        print_position(linked[j]);
        print_position(linked[k]);
    }
}

} // verus!
