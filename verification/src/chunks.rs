//! Long chains in snapshots: a chain travels in parcels of bounded size, each under
//! the last block of the one before, and is the same chain where it arrives.

use crate::bootstrap::bootstraps;
use crate::bootstrap::bootstraps_carry_holders;
use crate::bootstrap::bootstraps_find_room;
use crate::bootstrap::portable;
use crate::engine::has_score;
use crate::engine::member_index;
use crate::engine::member_messages;
use crate::engine::cargo;
use crate::engine::new_space;
use crate::engine::parcel_message;
use crate::engine::parcel_messages;
use crate::engine::rows_of;
use crate::engine::runaway_bound;
use crate::engine::scored;
use crate::engine::scores_member;
use crate::engine::space_index;
use crate::engine::stored_run;
use crate::engine::stored_runs;
use crate::engine::tells;
use crate::engine::EngineView;
use crate::engine::HolderScore;
use crate::engine::MemberView;
use crate::engine::SpaceView;
use crate::engine::UpdateMsg;
use crate::engine::WireEventView;
use crate::flat::BlockInfo;
use crate::forest::child_is;
use crate::forest::child_row;
use crate::forest::extends;
use crate::forest::heads;
use crate::forest::joins;
use crate::forest::link;
use crate::forest::links_of;
use crate::forest::order;
use crate::forest::parent_from_is;
use crate::forest::parent_row;
use crate::forest::run;
use crate::forest::run_is_last;
use crate::forest::share_count;
use crate::forest::share_start;
use crate::forest::Link;
use crate::forest::Row;
use crate::forest::SNAPSHOT_CHUNK;
use crate::model;
use crate::model::at;
use crate::model::Placement;
use crate::replicas;
use crate::replicas::answers;
use crate::snapshots::gap_free;
use crate::snapshots::rooted;
use crate::snapshots::tenable;
use vstd::prelude::*;

verus! {

/// The blocks are one chain with the contents `q`, under `keys`.
pub open spec fn is_chain(m: Map<u64, BlockInfo>, keys: Seq<u64>, q: Seq<u64>) -> bool {
    &&& keys.len() == q.len()
    &&& q.len() <= 65_536
    &&& keys.no_duplicates()
    &&& forall|k: u64| #[trigger] m.contains_key(k) <==> keys.contains(k)
    &&& forall|p: int| 0 <= p < keys.len() ==> m[#[trigger] keys[p]] == at::<BlockInfo>(q, p)
}

/// The keys and contents of a chain from block `from` to block `to`.
pub open spec fn section(keys: Seq<u64>, q: Seq<u64>, from: int, to: int) -> Seq<(u64, u64)> {
    Seq::new((to - from) as nat, |x: int| (keys[from + x], q[from + x]))
}

proof fn block_at(q: Seq<u64>, p: int)
    requires
        0 <= p < q.len() <= 65_536,
    ensures
        at::<BlockInfo>(q, p).pos == p,
        at::<BlockInfo>(q, p).content == q[p],
    decreases p,
{
    if p > 0 {
        block_at(q, p - 1);
    }
}

/// The rows of a chain.
spec fn chain_rows(keys: Seq<u64>, q: Seq<u64>) -> Seq<Row> {
    Seq::new(q.len(), |p: int| (keys[p], at::<BlockInfo>(q, p)))
}

proof fn rows_are_chain(m: Map<u64, BlockInfo>, keys: Seq<u64>, q: Seq<u64>)
    requires
        is_chain(m, keys, q),
    ensures
        m.dom().finite(),
        m.len() == q.len(),
        rows_of(m) == chain_rows(keys, q),
{
    let dom = keys.to_set();
    vstd::seq_lib::seq_to_set_is_finite(keys);
    keys.unique_seq_to_set();
    assert(m.dom() =~= dom) by {
        assert forall|k: u64| m.dom().contains(k) <==> dom.contains(k) by {
            assert(m.contains_key(k) <==> keys.contains(k));
        }
    }
    let listing = Seq::new(q.len(), |p: int| (p as u32, keys[p], q[p]));
    assert(model::listed(m, listing)) by {
        assert forall|i: int| #![trigger listing[i]] 0 <= i < listing.len() implies m.contains_key(
            listing[i].1,
        ) && listing[i].0 == m[listing[i].1].position() && listing[i].2
            == m[listing[i].1].content() by {
            assert(keys.contains(keys[i]));
            block_at(q, i);
        }
        assert forall|k: u64| #[trigger] m.contains_key(k) implies exists|i: int|
            0 <= i < listing.len() && (#[trigger] listing[i]).1 == k by {
            let i = keys.index_of(k);
            assert(listing[i].1 == k);
        }
        assert forall|i: int, j: int| 0 <= i < j < listing.len() implies model::ahead(
            m,
            (#[trigger] listing[i]).1,
            (#[trigger] listing[j]).1,
        ) by {
            block_at(q, i);
            block_at(q, j);
        }
    }
    let other = choose|r: Seq<(u32, u64, u64)>| model::listed(m, r);
    model::listing_is_unique(m, listing, other);
    assert(rows_of(m) =~= chain_rows(keys, q));
}

/// Each block of a chain is stored under the one before.
proof fn parents_on_chain(keys: Seq<u64>, q: Seq<u64>, p: int)
    requires
        keys.len() == q.len() <= 65_536,
        0 <= p < q.len(),
    ensures
        parent_row(chain_rows(keys, q), p) == if p == 0 {
            None
        } else {
            Some(p - 1)
        },
{
    let rows = chain_rows(keys, q);
    block_at(q, p);
    if p > 0 {
        parent_from_is(rows, p, 0);
        assert(extends(rows, p - 1, p));
        let x = crate::forest::parent_from(rows, p, 0);
        if x < p {
            block_at(q, x);
            assert(extends(rows, x, p));
        }
    }
}

proof fn children_on_chain(keys: Seq<u64>, q: Seq<u64>, p: int)
    requires
        keys.len() == q.len() <= 65_536,
        0 <= p < q.len(),
    ensures
        child_row(chain_rows(keys, q), p) == p + 1,
        heads(chain_rows(keys, q), p) <==> p == 0,
{
    let rows = chain_rows(keys, q);
    parents_on_chain(keys, q, p);
    if p + 1 < q.len() {
        parents_on_chain(keys, q, p + 1);
    }
    child_is(rows, p, p + 1);
    if p > 0 {
        parents_on_chain(keys, q, p);
        child_is(rows, p - 1, p);
    }
}

proof fn run_of_chain(keys: Seq<u64>, q: Seq<u64>, p: int)
    requires
        keys.len() == q.len() <= 65_536,
        0 <= p <= q.len(),
    ensures
        run(chain_rows(keys, q), p) == Seq::new((q.len() - p) as nat, |x: int| p + x),
    decreases q.len() - p,
{
    let rows = chain_rows(keys, q);
    if p < q.len() {
        children_on_chain(keys, q, p);
        run_of_chain(keys, q, p + 1);
        assert(run(rows, p) == seq![p] + run(rows, p + 1));
    }
    assert(run(rows, p) =~= Seq::new((q.len() - p) as nat, |x: int| p + x));
}

proof fn order_of_chain(keys: Seq<u64>, q: Seq<u64>, i: int)
    requires
        keys.len() == q.len() <= 65_536,
        0 <= i <= q.len(),
    ensures
        order(chain_rows(keys, q), i) == if i == 0 {
            Seq::<int>::empty()
        } else {
            Seq::new(q.len(), |x: int| x)
        },
    decreases i,
{
    if i > 0 {
        order_of_chain(keys, q, i - 1);
        children_on_chain(keys, q, i - 1);
        run_of_chain(keys, q, 0);
        assert(order(chain_rows(keys, q), i) =~= Seq::new(q.len(), |x: int| x));
    }
}

/// A chain on its way.
spec fn chain_links(keys: Seq<u64>, q: Seq<u64>) -> Seq<Link> {
    Seq::new(
        q.len(),
        |p: int|
            Link {
                key: keys[p],
                content: q[p],
                parent: if p == 0 {
                    None
                } else {
                    Some(keys[p - 1])
                },
            },
    )
}

proof fn links_are_chain(keys: Seq<u64>, q: Seq<u64>)
    requires
        keys.len() == q.len() <= 65_536,
    ensures
        links_of(chain_rows(keys, q)) == chain_links(keys, q),
{
    let rows = chain_rows(keys, q);
    order_of_chain(keys, q, q.len() as int);
    assert forall|p: int| 0 <= p < q.len() implies #[trigger] links_of(rows)[p] == chain_links(
        keys,
        q,
    )[p] by {
        parents_on_chain(keys, q, p);
        block_at(q, p);
        assert(links_of(rows)[p] == link(rows, p));
    }
    assert(links_of(rows) =~= chain_links(keys, q));
}

/// A section of a chain is one run.
proof fn sections_are_runs(keys: Seq<u64>, q: Seq<u64>, from: int, to: int)
    requires
        keys.len() == q.len(),
        0 <= from < to <= q.len(),
    ensures
        stored_runs(chain_links(keys, q), from, to) == seq![
            WireEventView::Stored(
                if from == 0 {
                    None
                } else {
                    Some(keys[from - 1])
                },
                section(keys, q, from, to),
            ),
        ],
{
    let links = chain_links(keys, q);
    assert forall|y: int| from < y < to implies #[trigger] joins(links, y) by {}
    run_is_last(links, from, from, to);
    assert(stored_runs(links, from, from) =~= Seq::empty());
    assert(cargo(links.subrange(from, to)) =~= section(keys, q, from, to));
    assert(stored_runs(links, from, to) =~= seq![stored_run(links, from, to)]);
}

/// A chain travels in parcels: every message about a holder of one chain carries
/// the next blocks of it, as many as go into one message, under the last block of
/// the message before. Only the first has a control payload, unless the holder has
/// an event feed that cannot be told at once, and more blocks than it could keep
/// without: then a last message without blocks tells event feed and capacity.
pub proof fn chains_travel_in_parcels(space: SpaceView, m: MemberView, keys: Seq<u64>, q: Seq<u64>)
    requires
        is_chain(space.tree.table.held(m.id), keys, q),
    ensures
        ({
            let ms = member_messages(space, m);
            let n = q.len() as int;
            let count = share_count(n);
            let over = m.posture.event_fed && (m.posture.last_seq == 0 || n > SNAPSHOT_CHUNK) && n
                > runaway_bound(m.posture.capacity_blocks);
            &&& ms.len() == count + if over {
                1int
            } else {
                0
            }
            &&& forall|c: int|
                #![trigger ms[c]]
                0 <= c < count ==> {
                    let from = share_start(n, c);
                    let to = share_start(n, c + 1);
                    &&& to - from <= SNAPSHOT_CHUNK
                    &&& n > 0 ==> ms[c].events.len() > 0 && ms[c].events[0] == WireEventView::Stored(
                        if c == 0 {
                            None
                        } else {
                            Some(keys[from - 1])
                        },
                        section(keys, q, from, to),
                    )
                    &&& forall|x: int|
                        1 <= x < ms[c].events.len() ==> #[trigger] ms[c].events[x]
                            == WireEventView::Removed(Seq::empty())
                    &&& ms[c].added is Some <==> c == 0
                }
            &&& over ==> ms.last().events.len() == 0
        }),
{
    let held = space.tree.table.held(m.id);
    let links = chain_links(keys, q);
    let n = q.len() as int;
    rows_are_chain(held, keys, q);
    links_are_chain(keys, q);
    assert(links.len() == n);
    let ms = member_messages(space, m);
    let parcels = parcel_messages(space.key, m, links);
    assert(parcels.len() == share_count(n));
    assert forall|c: int| #![trigger ms[c]] 0 <= c < share_count(n) implies {
        let from = share_start(n, c);
        let to = share_start(n, c + 1);
        &&& to - from <= SNAPSHOT_CHUNK
        &&& n > 0 ==> ms[c].events.len() > 0 && ms[c].events[0] == WireEventView::Stored(
            if c == 0 {
                None
            } else {
                Some(keys[from - 1])
            },
            section(keys, q, from, to),
        )
        &&& forall|x: int|
            1 <= x < ms[c].events.len() ==> #[trigger] ms[c].events[x] == WireEventView::Removed(
                Seq::empty(),
            )
        &&& ms[c].added is Some <==> c == 0
    } by {
        assert(parcels[c] == parcel_message(space.key, m, links, c));
        assert(ms[c] == parcels[c]);
        if n > 0 {
            let from = share_start(n, c);
            let to = share_start(n, c + 1);
            sections_are_runs(keys, q, from, to);
        }
    }
}

/// One chain has no gaps, and every block its own key.
proof fn chain_is_sound(m: Map<u64, BlockInfo>, keys: Seq<u64>, q: Seq<u64>)
    requires
        is_chain(m, keys, q),
    ensures
        gap_free(m),
        model::unaliased(m),
        forall|k: u64| #[trigger] m.contains_key(k) ==> m[k].pos < 65_536,
{
    assert forall|k: u64| #[trigger] m.contains_key(k) implies rooted(m, k) && m[k].pos < 65_536 by {
        let p = keys.index_of(k);
        assert(keys[p] == k);
        block_at(q, p);
        if p > 0 {
            let a = keys[p - 1];
            assert(keys.contains(a));
            assert(m.contains_key(a));
            assert(m[a].extend(m[k].content) == m[k]);
        }
    }
    assert forall|j: u64, k: u64| #[trigger]
        m.contains_key(j) && #[trigger] m.contains_key(k) && m[j] == m[k] implies j == k by {
        let x = keys.index_of(j);
        let y = keys.index_of(k);
        assert(keys[x] == j && keys[y] == k);
        block_at(q, x);
        block_at(q, y);
    }
}

/// Whoever has a chain matches all of it.
proof fn chain_is_deep(m: Map<u64, BlockInfo>, keys: Seq<u64>, q: Seq<u64>, p: int)
    requires
        is_chain(m, keys, q),
        0 <= p <= q.len(),
    ensures
        model::depth_from(m, q, p) == q.len(),
    decreases q.len() - p,
{
    if p < q.len() {
        chain_is_deep(m, keys, q, p + 1);
        assert(keys.contains(keys[p]));
        assert(m.contains_key(keys[p]));
    }
}

/// The exact chain is reassembled: after a bootstrap, the holder of one chain
/// matches the whole chain, however many parcels it came in.
pub proof fn chains_are_reassembled(
    a: EngineView,
    fresh: EngineView,
    arrivals: Seq<(UpdateMsg, u64)>,
    i: int,
    j: int,
    keys: Seq<u64>,
    q: Seq<u64>,
    y: Seq<HolderScore>,
)
    requires
        bootstraps(a, fresh, arrivals),
        0 <= i < a.spaces.len(),
        0 <= j < a.spaces[i].members.len(),
        q.len() > 0,
        is_chain(a.spaces[i].tree.table.held(a.spaces[i].members[j].id), keys, q),
        ({
            let p = a.spaces[i].members[j].posture;
            &&& !p.dropped
            &&& p.event_fed || q.len() <= runaway_bound(p.capacity_blocks)
            &&& p.capacity_blocks == 0 ==> fresh.default_capacity == 0
        }),
        answers(replicas::run(fresh, arrivals), a.spaces[i].key, q, y),
    ensures
        exists|k: int|
            0 <= k < y.len() && (#[trigger] y[k]).holder@ == a.spaces[i].members[j].name
                && y[k].matched_blocks == q.len() && y[k].total_blocks == q.len()
                && y[k].event_fed == a.spaces[i].members[j].posture.event_fed,
{
    let space = a.spaces[i];
    let m = space.members[j];
    let held = space.tree.table.held(m.id);
    rows_are_chain(held, keys, q);
    chain_is_sound(held, keys, q);
    chain_is_deep(held, keys, q, 0);
    assert(tenable(held, m.posture, 65_536));
    assert(portable(space, m, fresh.default_capacity));
    bootstraps_carry_holders(a, fresh, arrivals, i, j);
    let post = replicas::run(fresh, arrivals);
    bootstraps_find_room(a, fresh, arrivals);
    let t = post.space(space.key);
    if space_index(post.spaces, space.key) is None {
        assert(member_index(new_space(space.key).members, m.name) is None);
    }
    let n = member_index(t.members, m.name)->0;
    assert(t.members[n].name == m.name);
    assert(has_score(t, q, n));
    assert(scored(t, q, y));
    assert(tells(t, q, n, y));
    let k = choose|k: int| 0 <= k < y.len() && scores_member(t, q, n, #[trigger] y[k]);
    assert(y[k].holder@ == m.name);
}

} // verus!
