//! Placements as publishers make them: every block keyed by the rolling hash of
//! its chain up to it. Where no two prefixes share a hash, such placements are
//! idempotent and their order is free.

use crate::engine::EngineView;
use crate::engine::KeyView;
use crate::engine::MessageView;
use crate::engine::UpdateMsg;
use crate::engine::WireEventView;
use crate::flat::BlockInfo;
use crate::laws::agrees;
use crate::model;
use crate::model::batch;
use crate::model::unaliased;
use crate::model::Placement;
use crate::replicas::agree_on;
use crate::replicas::meant_for;
use crate::replicas::placements_converge;
use crate::replicas::places;
use crate::replicas::ready;
use crate::replicas::roomy;
use crate::replicas::run;
use crate::replicas::standing;
use crate::replicas::store_of;
use crate::wire_hash::sequence_at;
use crate::wire_hash::ContentHash;
use vstd::prelude::*;

verus! {

/// The blocks of a chain, keyed by their sequence hashes.
pub open spec fn chain_blocks(c: Seq<ContentHash>) -> Seq<(u64, u64)> {
    Seq::new(c.len(), |p: int| (sequence_at(c, p), c[p].0))
}

/// Where the block at position `p` of a chain goes.
pub open spec fn place_at(c: Seq<ContentHash>, p: int) -> BlockInfo
    decreases p,
{
    if p <= 0 {
        BlockInfo::first(c[0].0)
    } else {
        place_at(c, p - 1).extend(c[p].0)
    }
}

/// The block at position `p` of chain `x` has the key.
pub open spec fn keyed(cs: Seq<Seq<ContentHash>>, x: int, p: int, key: u64) -> bool {
    0 <= x < cs.len() && 0 <= p < cs[x].len() && sequence_at(cs[x], p) == key
}

/// Two blocks end the same prefix.
pub open spec fn same_prefix(a: Seq<ContentHash>, p: int, b: Seq<ContentHash>, q: int) -> bool {
    a.take(p + 1) == b.take(q + 1)
}

/// No two prefixes of the chains share a sequence hash, or a place.
pub open spec fn collision_free(cs: Seq<Seq<ContentHash>>) -> bool {
    forall|x: int, p: int, y: int, q: int|
        #![trigger cs[x][p], cs[y][q]]
        0 <= x < cs.len() && 0 <= p < cs[x].len() && 0 <= y < cs.len() && 0 <= q < cs[y].len() && (
        sequence_at(cs[x], p) == sequence_at(cs[y], q) || place_at(cs[x], p) == place_at(cs[y], q))
            ==> same_prefix(cs[x], p, cs[y], q)
}

/// Where every block of the chains goes, by its key.
pub open spec fn plan(cs: Seq<Seq<ContentHash>>) -> Map<u64, BlockInfo> {
    Map::new(
        |k: u64| exists|x: int, p: int| keyed(cs, x, p, k),
        |k: u64|
            {
                let (x, p) = choose|x: int, p: int| keyed(cs, x, p, k);
                place_at(cs[x], p)
            },
    )
}

/// The update places whole chains out of `cs`, and does nothing else.
pub open spec fn places_chains(u: MessageView, epoch: u64, cs: Seq<Seq<ContentHash>>) -> bool {
    &&& u.epoch == epoch
    &&& u.seq == 0
    &&& u.added is None
    &&& !u.dropped
    &&& forall|i: int|
        0 <= i < u.events.len() ==> exists|x: int|
            0 <= x < cs.len() && #[trigger] u.events[i] == WireEventView::Stored(
                None,
                chain_blocks(#[trigger] cs[x]),
            )
}

/// Equal prefixes have equal hashes and places.
proof fn prefixes_decide(a: Seq<ContentHash>, p: int, b: Seq<ContentHash>, q: int)
    requires
        0 <= p < a.len(),
        0 <= q < b.len(),
        same_prefix(a, p, b, q),
    ensures
        p == q,
        sequence_at(a, p) == sequence_at(b, q),
        place_at(a, p) == place_at(b, q),
    decreases p,
{
    assert(a.take(p + 1).len() == b.take(q + 1).len());
    assert(a.take(p + 1)[p] == b.take(q + 1)[q]);
    if p > 0 {
        assert(a.take(p) =~= a.take(p + 1).drop_last());
        assert(b.take(q) =~= b.take(q + 1).drop_last());
        prefixes_decide(a, p - 1, b, q - 1);
    }
}

/// The plan has every block at its place.
proof fn plan_at(cs: Seq<Seq<ContentHash>>, x: int, p: int)
    requires
        collision_free(cs),
        0 <= x < cs.len(),
        0 <= p < cs[x].len(),
    ensures
        plan(cs).contains_key(sequence_at(cs[x], p)),
        plan(cs)[sequence_at(cs[x], p)] == place_at(cs[x], p),
{
    let k = sequence_at(cs[x], p);
    assert(keyed(cs, x, p, k));
    let (y, q) = choose|y: int, q: int| keyed(cs, y, q, k);
    assert(keyed(cs, y, q, k));
    assert(cs[x][p] == cs[x][p] && cs[y][q] == cs[y][q]);
    prefixes_decide(cs[x], p, cs[y], q);
}

/// A block of the plan stands on some chain.
proof fn plan_source(cs: Seq<Seq<ContentHash>>, k: u64) -> (r: (int, int))
    requires
        plan(cs).contains_key(k),
    ensures
        keyed(cs, r.0, r.1, k),
        plan(cs)[k] == place_at(cs[r.0], r.1),
{
    choose|x: int, p: int| keyed(cs, x, p, k)
}

/// No two keys go to one place.
proof fn plan_is_unaliased(cs: Seq<Seq<ContentHash>>)
    requires
        collision_free(cs),
    ensures
        unaliased(plan(cs)),
{
    let f = plan(cs);
    assert forall|j: u64, k: u64|
        #[trigger] f.contains_key(j) && #[trigger] f.contains_key(k) && f[j] == f[k] implies j
        == k by {
        let (x, p) = plan_source(cs, j);
        let (y, q) = plan_source(cs, k);
        assert(cs[x][p] == cs[x][p] && cs[y][q] == cs[y][q]);
        prefixes_decide(cs[x], p, cs[y], q);
    }
}

/// Every key is the hash of a block, and there are finitely many blocks.
proof fn plan_is_finite(cs: Seq<Seq<ContentHash>>)
    ensures
        plan(cs).dom().finite(),
    decreases cs.len(),
{
    if cs.len() == 0 {
        assert(plan(cs).dom() =~= Set::empty());
    } else {
        let rest = cs.drop_last();
        let c = cs.last();
        plan_is_finite(rest);
        let own = chain_blocks(c).map_values(|b: (u64, u64)| b.0).to_set();
        vstd::seq_lib::seq_to_set_is_finite(chain_blocks(c).map_values(|b: (u64, u64)| b.0));
        let all = plan(rest).dom().union(own);
        assert forall|k: u64| #[trigger] plan(cs).dom().contains(k) implies all.contains(k) by {
            let (x, p) = plan_source(cs, k);
            if x < rest.len() {
                assert(keyed(rest, x, p, k));
            } else {
                let keys = chain_blocks(c).map_values(|b: (u64, u64)| b.0);
                assert(keys[p] == k);
                assert(keys.contains(k));
            }
        }
        vstd::set_lib::lemma_set_subset_finite(all, plan(cs).dom());
    }
}

/// A batch of a whole chain has every block at its place.
proof fn chain_trail(c: Seq<ContentHash>, n: int)
    requires
        0 <= n <= c.len(),
    ensures
        model::trail::<BlockInfo>(None, chain_blocks(c).take(n)).len() == n,
        forall|i: int|
            0 <= i < n ==> #[trigger] model::trail::<BlockInfo>(None, chain_blocks(c).take(n))[i]
                == (sequence_at(c, i), place_at(c, i)),
    decreases n,
{
    if n > 0 {
        chain_trail(c, n - 1);
        let b = chain_blocks(c).take(n);
        assert(b.drop_last() =~= chain_blocks(c).take(n - 1));
        assert(b.last() == (sequence_at(c, n - 1), c[n - 1].0));
    }
}

/// Placements of the chains agree with the plan.
proof fn chains_agree(u: MessageView, epoch: u64, cs: Seq<Seq<ContentHash>>)
    requires
        collision_free(cs),
        places_chains(u, epoch, cs),
    ensures
        places(u, epoch, plan(cs)),
{
    let f = plan(cs);
    assert forall|i: int| 0 <= i < u.events.len() implies ({
        &&& (#[trigger] u.events[i]) matches WireEventView::Stored(parent, _)
        &&& parent is None
        &&& agrees(f, store_of(u.events[i]))
    }) by {
        let x = choose|x: int|
            0 <= x < cs.len() && u.events[i] == WireEventView::Stored(
                None,
                chain_blocks(#[trigger] cs[x]),
            );
        let c = cs[x];
        let b = batch(f, None, chain_blocks(c));
        chain_trail(c, c.len() as int);
        assert(chain_blocks(c).take(c.len() as int) =~= chain_blocks(c));
        assert forall|j: int| #![trigger b[j]] 0 <= j < b.len() implies f.contains_key(b[j].0)
            && f[b[j].0] == b[j].1 by {
            plan_at(cs, x, j);
        }
    }
}

/// Placements as publishers make them are idempotent and their order is free:
/// two engines that agree on a holder, and then take placements of the same
/// chains for it, in whatever order and however often each, agree on it again.
/// No two prefixes of the chains collide, and the holder has room for them.
pub proof fn chains_converge(
    d: EngineView,
    a: Seq<(UpdateMsg, u64)>,
    e: EngineView,
    b: Seq<(UpdateMsg, u64)>,
    key: KeyView,
    name: Seq<char>,
    epoch: u64,
    cs: Seq<Seq<ContentHash>>,
)
    requires
        d.wf(),
        e.wf(),
        roomy(d, a),
        roomy(e, b),
        key.block_size != 0,
        agree_on(d, e, key, name),
        collision_free(cs),
        ready(standing(d, key, name), epoch, plan(cs), d.default_capacity),
        forall|i: int|
            0 <= i < meant_for(a, key, name).len() ==> places_chains(
                #[trigger] meant_for(a, key, name)[i],
                epoch,
                cs,
            ),
        forall|u: MessageView| #[trigger]
            meant_for(a, key, name).contains(u) <==> meant_for(b, key, name).contains(u),
    ensures
        agree_on(run(d, a), run(e, b), key, name),
{
    plan_is_unaliased(cs);
    plan_is_finite(cs);
    assert forall|i: int| 0 <= i < meant_for(a, key, name).len() implies places(
        #[trigger] meant_for(a, key, name)[i],
        epoch,
        plan(cs),
    ) by {
        chains_agree(meant_for(a, key, name)[i], epoch, cs);
    }
    placements_converge(d, a, e, b, key, name, epoch, plan(cs));
}

} // verus!
