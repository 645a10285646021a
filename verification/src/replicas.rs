//! Replicas of the engine: what an engine keeps of a holder depends on the
//! updates for that holder alone, so replicas agree however the updates of
//! different holders are interleaved.

use crate::engine::applied;
use crate::engine::cleared_for;
use crate::engine::cut;
use crate::engine::enrolled;
use crate::engine::fed;
use crate::engine::fed_all;
use crate::engine::id_for;
use crate::engine::keys_of;
use crate::engine::member_index;
use crate::engine::member_index_is;
use crate::engine::new_posture;
use crate::engine::new_space;
use crate::engine::pairs_of;
use crate::engine::reblocked;
use crate::engine::reblocked_keeps;
use crate::engine::has_score;
use crate::engine::runaway_bound;
use crate::engine::scored;
use crate::engine::scores_member;
use crate::engine::settled_parent;
use crate::engine::space_index;
use crate::engine::space_index_is;
use crate::engine::stored_within;
use crate::engine::tells;
use crate::engine::told;
use crate::engine::ApplyOutcome;
use crate::engine::EngineView;
use crate::engine::Feed;
use crate::engine::HolderScore;
use crate::engine::KeyView;
use crate::engine::MemberView;
use crate::engine::MessageView;
use crate::engine::Posture;
use crate::engine::SpaceView;
use crate::engine::UpdateMsg;
use crate::engine::WireEvent;
use crate::engine::WireEventView;
use crate::engine_laws::echoes_die;
use crate::engine_laws::is_placement;
use crate::engine_laws::kept_of;
use crate::engine_laws::postures_only_advance;
use crate::engine_laws::settled;
use crate::engine_laws::start_of;
use crate::flat::BlockInfo;
use crate::laws::accepts;
use crate::laws::agrees;
use crate::laws::chain_consistent;
use crate::laws::consistent_stores_follow_the_plan;
use crate::laws::history;
use crate::laws::lands;
use crate::laws::lands_among;
use crate::laws::stores_converge;
use crate::laws::Op;
use crate::model;
use crate::model::batch;
use crate::model::cut_exists;
use crate::model::placed;
use crate::model::pruned;
use crate::model::trail;
use crate::model::truncated;
use crate::model::unaliased;
use crate::model::with_blocks_twice;
use crate::model::Placement;
use crate::model::TreeView;
use crate::types::id_of_parts;
use crate::types::HolderId;
use vstd::prelude::*;

verus! {

/// What an engine keeps of a holder, but for when it last heard of it.
pub struct Standing {
    pub blocks: Map<u64, BlockInfo>,
    pub posture: Posture,
}

/// A posture, but for when it was last published.
pub open spec fn timeless(p: Posture) -> Posture {
    Posture { last_publish: 0, ..p }
}

/// What a keyspace keeps of the holder called `name`, if it knows it.
pub open spec fn local(space: SpaceView, name: Seq<char>) -> Option<Standing> {
    match member_index(space.members, name) {
        None => None,
        Some(j) => Some(
            Standing {
                blocks: space.tree.table.held(space.members[j].id),
                posture: timeless(space.members[j].posture),
            },
        ),
    }
}

/// What an engine keeps of the holder called `name` in the keyspace of `key`,
/// if it knows it.
pub open spec fn standing(e: EngineView, key: KeyView, name: Seq<char>) -> Option<Standing> {
    local(e.space(key), name)
}

/// The engine after updates, each with the time at which it is applied.
pub open spec fn run(e: EngineView, arrivals: Seq<(UpdateMsg, u64)>) -> EngineView
    decreases arrivals.len(),
{
    if arrivals.len() == 0 {
        e
    } else {
        run(e, arrivals.drop_last()).after(arrivals.last().0, arrivals.last().1)
    }
}

/// There is a slot for the holder of every update when its turn comes.
pub open spec fn roomy(e: EngineView, arrivals: Seq<(UpdateMsg, u64)>) -> bool
    decreases arrivals.len(),
{
    arrivals.len() == 0 || (roomy(e, arrivals.drop_last()) && run(
        e,
        arrivals.drop_last(),
    ).has_room(arrivals.last().0))
}

/// The update is for the holder called `name` in the keyspace of `key`.
pub open spec fn concerns(update: UpdateMsg, key: KeyView, name: Seq<char>) -> bool {
    update.keyspace@ == key && update.holder@ == name
}

/// The updates for one holder, in order.
pub open spec fn meant_for(
    arrivals: Seq<(UpdateMsg, u64)>,
    key: KeyView,
    name: Seq<char>,
) -> Seq<MessageView>
    decreases arrivals.len(),
{
    if arrivals.len() == 0 {
        Seq::empty()
    } else {
        let init = meant_for(arrivals.drop_last(), key, name);
        if concerns(arrivals.last().0, key, name) {
            init.push(arrivals.last().0@)
        } else {
            init
        }
    }
}

/// Other blocks for one live holder.
proof fn reblocked_holds(tree: TreeView<BlockInfo>, id: HolderId, m: Map<u64, BlockInfo>)
    requires
        tree.table.live(id),
    ensures
        reblocked(tree, id, m).table.live(id),
        reblocked(tree, id, m).table.held(id) == m,
        reblocked(tree, id, m).limit == tree.limit,
        forall|n: Map<u64, BlockInfo>| #[trigger]
            reblocked(reblocked(tree, id, m), id, n) == reblocked(tree, id, n),
        reblocked(tree, id, tree.table.held(id)) == tree,
{
    with_blocks_twice(tree.table, id.slot() as int, m, m);
    assert forall|n: Map<u64, BlockInfo>| #[trigger]
        reblocked(reblocked(tree, id, m), id, n) == reblocked(tree, id, n) by {
        with_blocks_twice(tree.table, id.slot() as int, m, n);
    }
}

/// A batch placed block by block leaves finitely many blocks.
proof fn placed_is_finite(m: Map<u64, BlockInfo>, b: Seq<(u64, BlockInfo)>)
    requires
        m.dom().finite(),
    ensures
        placed(m, b).dom().finite(),
    decreases b.len(),
{
    if b.len() > 0 {
        placed_is_finite(m, b.drop_last());
    }
}

/// What a store leaves the holder with, as a function of what it had.
spec fn grown(m: Map<u64, BlockInfo>, posture: Posture, parent: Option<u64>, blocks: Seq<(u64, u64)>) -> Map<u64, BlockInfo> {
    let g = placed(m, batch(m, parent, blocks));
    let bound = runaway_bound(posture.capacity_blocks);
    if !posture.event_fed && g.len() > bound {
        cut(g, bound as int)
    } else {
        g
    }
}

/// A store gives its holder other blocks, and does nothing else.
proof fn store_reblocks(
    tree: TreeView<BlockInfo>,
    id: HolderId,
    posture: Posture,
    parent: Option<u64>,
    blocks: Seq<(u64, u64)>,
)
    requires
        tree.table.live(id),
        tree.table.held(id).dom().finite(),
    ensures
        stored_within(tree, id, posture, parent, blocks) == reblocked(
            tree,
            id,
            grown(tree.table.held(id), posture, parent, blocks),
        ),
        grown(tree.table.held(id), posture, parent, blocks).dom().finite(),
{
    let m = tree.table.held(id);
    let g = placed(m, batch(m, parent, blocks));
    reblocked_holds(tree, id, g);
    placed_is_finite(m, batch(m, parent, blocks));
    assert(model::stored(tree, id, parent, blocks) == reblocked(tree, id, g));
    let bound = runaway_bound(posture.capacity_blocks) as int;
    let c = cut_exists(g, bound);
    assert(truncated(g, bound, cut(g, bound)));
}

/// `f` leaves every tree as `tree` but for the blocks of one holder.
pub(crate) open spec fn stems(f: TreeView<BlockInfo>, tree: TreeView<BlockInfo>, id: HolderId) -> bool {
    &&& f == reblocked(tree, id, f.table.held(id))
    &&& f.table.live(id)
    &&& f.table.held(id).dom().finite()
}

pub(crate) proof fn fed_stems(f: Feed, tree: TreeView<BlockInfo>, id: HolderId, observed: bool, event: WireEvent)
    requires
        tree.table.live(id),
        stems(f.tree, tree, id),
    ensures
        stems(fed(f, id, observed, event).tree, tree, id),
{
    let m = f.tree.table.held(id);
    let post = fed(f, id, observed, event).tree;
    reblocked_holds(tree, id, m);
    match event {
        WireEvent::Stored { parent, blocks } => {
            let posture = Posture { event_fed: f.posture.event_fed || observed, ..f.posture };
            let pairs = pairs_of(blocks@);
            let parent = settled_parent(f.tree, id, parent, pairs);
            store_reblocks(f.tree, id, posture, parent, pairs);
            let g = grown(m, posture, parent, pairs);
            reblocked_holds(tree, id, g);
            assert(reblocked(f.tree, id, g) == reblocked(tree, id, g));
        },
        WireEvent::Removed { seq_hashes } => {
            let g = pruned(m, keys_of(seq_hashes@));
            reblocked_holds(tree, id, g);
            assert(g.dom().subset_of(m.dom()));
            vstd::set_lib::lemma_set_subset_finite(m.dom(), g.dom());
            assert(post == reblocked(tree, id, g));
        },
        WireEvent::Cleared => {
            let g = Map::<u64, BlockInfo>::empty();
            reblocked_holds(tree, id, g);
            assert(post == reblocked(tree, id, g));
        },
    }
}

proof fn fed_all_stems(
    f: Feed,
    tree: TreeView<BlockInfo>,
    id: HolderId,
    observed: bool,
    events: Seq<WireEvent>,
)
    requires
        tree.table.live(id),
        stems(f.tree, tree, id),
    ensures
        stems(fed_all(f, id, observed, events).tree, tree, id),
    decreases events.len(),
{
    if events.len() > 0 {
        fed_all_stems(f, tree, id, observed, events.drop_last());
        fed_stems(
            fed_all(f, id, observed, events.drop_last()),
            tree,
            id,
            observed,
            events.last(),
        );
    }
}

/// An update gives its holder other blocks, and does nothing else to the tree.
pub(crate) proof fn applied_stems(
    tree: TreeView<BlockInfo>,
    id: HolderId,
    posture: Posture,
    update: UpdateMsg,
    now: u64,
    default_capacity: u64,
)
    requires
        tree.table.live(id),
        tree.table.held(id).dom().finite(),
    ensures
        stems(applied(tree, id, posture, update, now, default_capacity).tree, tree, id),
{
    reblocked_holds(tree, id, Map::empty());
    if update.epoch >= posture.epoch {
        fed_all_stems(
            start_of(tree, id, posture, update, now, default_capacity),
            tree,
            id,
            update.seq != 0,
            update.events@,
        );
    }
}

/// Two members have different slots.
pub(crate) proof fn seats_differ(space: SpaceView, i: int, j: int)
    requires
        space.wf(),
        0 <= i < space.members.len(),
        0 <= j < space.members.len(),
        i != j,
    ensures
        space.members[i].id.slot() != space.members[j].id.slot(),
{
    let (a, b) = if i < j {
        (i, j)
    } else {
        (j, i)
    };
    assert(space.members[a].name != space.members[b].name);
    assert(space.tree.table.name(space.members[a].id.slot() as int) == space.members[a].name);
    assert(space.tree.table.name(space.members[b].id.slot() as int) == space.members[b].name);
}

/// Other blocks and posture for one member show in that member alone.
proof fn member_replaced(
    space: SpaceView,
    j: int,
    blocks: Map<u64, BlockInfo>,
    posture: Posture,
    name: Seq<char>,
)
    requires
        space.wf(),
        0 <= j < space.members.len(),
        blocks.dom().finite(),
    ensures
        ({
            let post = space.with_member(
                j,
                reblocked(space.tree, space.members[j].id, blocks),
                posture,
            );
            &&& post.wf()
            &&& local(post, name) == if name == space.members[j].name {
                Some(Standing { blocks, posture: timeless(posture) })
            } else {
                local(space, name)
            }
        }),
{
    let id = space.members[j].id;
    let post = space.with_member(j, reblocked(space.tree, id, blocks), posture);
    reblocked_keeps(space, j, blocks, posture);
    assert(space.tree.table.live(id));
    reblocked_holds(space.tree, id, blocks);
    if name == space.members[j].name {
        assert(post.members[j].name == name);
        member_index_is(post.members, name, j);
    } else if member_index(space.members, name) is Some {
        let i = member_index(space.members, name)->0;
        assert(space.members[i].name == name);
        assert(post.members[i] == space.members[i]);
        member_index_is(post.members, name, i);
        seats_differ(space, i, j);
        assert(post.tree.table.held(space.members[i].id) == space.tree.table.held(
            space.members[i].id,
        ));
    } else {
        if member_index(post.members, name) is Some {
            let i = member_index(post.members, name)->0;
            assert(post.members[i].name == name);
            assert(space.members[i].name == name);
        }
    }
}

/// A holder that a keyspace does not know enters it without blocks; nobody else
/// notices.
pub(crate) proof fn enrolled_keeps(space: SpaceView, name: Seq<char>, fresh: Posture, other: Seq<char>)
    requires
        space.wf(),
        space.tree.table.has_room(name),
    ensures
        ({
            let post = enrolled(space, name, fresh);
            &&& post.wf()
            &&& post.key == space.key
            &&& post.tree.limit == space.tree.limit
            &&& local(post, other) == if other == name && local(space, name) is None {
                Some(Standing { blocks: Map::empty(), posture: timeless(fresh) })
            } else {
                local(space, other)
            }
        }),
{
    if member_index(space.members, name) is None {
        let post = enrolled(space, name, fresh);
        let t = space.tree.table;
        let u = post.tree.table;
        let slot = t.next_slot();
        let last = space.members.len() as int;
        if t.has_name(name) {
            let i = choose|i: int| #[trigger] t.occupied(i) && t.name(i) == name;
            let k = choose|k: int|
                0 <= k < space.members.len() && (#[trigger] space.members[k]).id.slot() == i;
            assert(space.members[k].name == name);
            assert(false);
        }
        if t.free.len() > 0 {
            assert(!t.occupied(t.free[t.free.len() - 1] as int));
        }
        assert(0 <= slot < u32::MAX && !t.occupied(slot));
        assert(u == t.with_holder(slot, name));
        let id = id_of_parts(slot as u32, u.slots[slot].generation);
        assert(id.slot() == slot as u32 && id.issue() == u.slots[slot].generation);
        let got = id_for(slot as u32, u.slots[slot].generation);
        assert(got.slot() == slot as u32 && got.issue() == u.slots[slot].generation);
        assert forall|i: int| #[trigger] u.occupied(i) <==> t.occupied(i) || i == slot by {}
        assert forall|i: int| t.occupied(i) implies #[trigger] u.slots[i] == t.slots[i] by {}
        assert(u.slots[slot].state == Some(
            model::HolderView { name, blocks: Map::<u64, BlockInfo>::empty() },
        ));
        assert(u.wf()) by {
            assert forall|a: int, b: int| #[trigger]
                u.occupied(a) && #[trigger] u.occupied(b) && u.name(a) == u.name(
                    b,
                ) implies a == b by {
                if a != slot {
                    assert(t.occupied(a));
                    assert(u.slots[a] == t.slots[a]);
                }
                if b != slot {
                    assert(t.occupied(b));
                    assert(u.slots[b] == t.slots[b]);
                }
            }
            assert forall|i: int| 0 <= i < u.free.len() implies (#[trigger] u.free[i])
                < u.slots.len() && !u.occupied(u.free[i] as int) by {
                assert(u.free[i] == t.free[i]);
                assert(!t.occupied(t.free[i] as int));
                if t.free.len() > 0 {
                    assert(t.free[i] != t.free[t.free.len() - 1]);
                }
            }
            assert forall|i: int| 0 <= i < u.slots.len() && !#[trigger] u.occupied(
                i,
            ) implies u.free.contains(i as u32) by {
                assert(!t.occupied(i));
                assert(t.free.contains(i as u32));
                let x = choose|x: int| 0 <= x < t.free.len() && t.free[x] == i as u32;
                assert(x != t.free.len() - 1);
                assert(u.free[x] == i as u32);
            }
            assert forall|i: int| #[trigger] u.occupied(i) implies u.blocks(i).dom().finite() by {
                if i != slot {
                    assert(t.occupied(i));
                    assert(u.slots[i] == t.slots[i]);
                }
            }
        }
        assert forall|i: int| 0 <= i < last implies (#[trigger] post.members[i])
            == space.members[i] && u.live(space.members[i].id) && u.held(space.members[i].id)
            == t.held(space.members[i].id) && u.name(space.members[i].id.slot() as int)
            == space.members[i].name by {
            assert(t.live(space.members[i].id));
            assert(t.occupied(space.members[i].id.slot() as int));
            assert(u.slots[space.members[i].id.slot() as int]
                == t.slots[space.members[i].id.slot() as int]);
        }
        assert(post.members[last].id == got);
        assert(u.live(got));
        assert forall|i: int, j: int| 0 <= i < j < post.members.len() implies (
        #[trigger] post.members[i]).name != (#[trigger] post.members[j]).name by {
            assert(post.members[i] == space.members[i]);
            if j < last {
                assert(post.members[j] == space.members[j]);
            }
        }
        assert forall|s: int| #[trigger] u.occupied(s) implies exists|i: int|
            0 <= i < post.members.len() && (#[trigger] post.members[i]).id.slot() == s by {
            if s == slot {
                assert(post.members[last].id.slot() == s);
            } else {
                assert(t.occupied(s));
                let i = choose|i: int|
                    0 <= i < space.members.len() && (#[trigger] space.members[i]).id.slot() == s;
                assert(post.members[i].id.slot() == s);
            }
        }
        if other == name {
            member_index_is(post.members, name, last);
        } else if member_index(space.members, other) is Some {
            let i = member_index(space.members, other)->0;
            assert(post.members[i] == space.members[i]);
            member_index_is(post.members, other, i);
        } else if member_index(post.members, other) is Some {
            let i = member_index(post.members, other)->0;
            assert(post.members[i].name == other);
            assert(i < last);
            assert(space.members[i].name == other);
        }
    }
}

/// A keyspace on first contact is valid.
pub(crate) proof fn new_space_is_valid(key: KeyView)
    requires
        key.block_size != 0,
    ensures
        new_space(key).wf(),
{
}

/// What one update does to what an engine keeps of each holder: the update's
/// own holder gets what the update gives it, and no other holder notices.
pub(crate) proof fn arrival(e: EngineView, update: UpdateMsg, now: u64, key: KeyView, name: Seq<char>)
    requires
        e.wf(),
        e.has_room(update),
    ensures
        ({
            let post = e.after(update, now);
            let space = e.admitted(update, now);
            let id = space.members[member_index(space.members, update.holder@)->0].id;
            let f = e.feed(update, now);
            &&& post.wf()
            &&& post.default_capacity == e.default_capacity
            &&& post.space(key).tree.limit == e.space(key).tree.limit
            &&& update.keyspace.block_size != 0 ==> {
                &&& space.wf()
                &&& member_index(space.members, update.holder@) is Some
                &&& space.tree.table.live(id)
                &&& space.tree.table.held(id).dom().finite()
                &&& space.tree.limit == e.space(update.keyspace@).tree.limit
            }
            &&& standing(post, key, name) == if update.keyspace.block_size != 0 && concerns(
                update,
                key,
                name,
            ) {
                Some(Standing { blocks: f.tree.table.held(id), posture: timeless(f.posture) })
            } else {
                standing(e, key, name)
            }
        }),
{
    let post = e.after(update, now);
    if update.keyspace.block_size != 0 {
        let own = update.keyspace@;
        let known = space_index(e.spaces, own);
        if known is None {
            new_space_is_valid(own);
        } else {
            assert(e.spaces[known->0].wf());
        }
        let before = e.space(own);
        assert(before.wf());
        assert(before.key == own);
        let fresh = new_posture(update.epoch, now, e.default_capacity);
        let space = e.admitted(update, now);
        enrolled_keeps(before, update.holder@, fresh, name);
        enrolled_keeps(before, update.holder@, fresh, update.holder@);
        assert(local(space, update.holder@) is Some);
        let j = member_index(space.members, update.holder@)->0;
        assert(space.members[j].name == update.holder@);
        let id = space.members[j].id;
        assert(space.tree.table.live(id));
        assert(space.tree.table.occupied(id.slot() as int));
        let f = e.feed(update, now);
        applied_stems(
            space.tree,
            id,
            space.members[j].posture,
            update,
            now,
            e.default_capacity,
        );
        let done = space.with_member(j, f.tree, f.posture);
        member_replaced(space, j, f.tree.table.held(id), f.posture, name);
        assert(done.wf());
        assert(done.key == own);
        assert(done.tree.limit == before.tree.limit);
        let i = match known {
            Some(i) => i,
            None => e.spaces.len() as int,
        };
        assert(post.spaces[i] == done);
        assert forall|a: int| 0 <= a < e.spaces.len() && a != i implies (#[trigger] post.spaces[a])
            == e.spaces[a] && post.spaces[a].key != own by {
            if e.spaces[a].key == own {
                space_index_is(e.spaces, own, a);
            }
        }
        assert(post.wf()) by {
            assert forall|a: int| 0 <= a < post.spaces.len() implies (
            #[trigger] post.spaces[a]).wf() by {
                if a != i {
                    assert(post.spaces[a] == e.spaces[a]);
                }
            }
            assert forall|a: int, b: int| 0 <= a < b < post.spaces.len() implies (
            #[trigger] post.spaces[a]).key != (#[trigger] post.spaces[b]).key by {
                if a != i {
                    assert(post.spaces[a] == e.spaces[a]);
                }
                if b != i {
                    assert(post.spaces[b] == e.spaces[b]);
                }
            }
        }
        if key == own {
            space_index_is(post.spaces, key, i);
        } else if space_index(e.spaces, key) is Some {
            let a = space_index(e.spaces, key)->0;
            assert(e.spaces[a].key == key);
            assert(post.spaces[a] == e.spaces[a]);
            space_index_is(post.spaces, key, a);
        } else if space_index(post.spaces, key) is Some {
            let a = space_index(post.spaces, key)->0;
            assert(post.spaces[a].key == key);
            assert(e.spaces[a].key == key);
        }
    }
}

/// Two updates in the middle of their events that have come to the same.
pub(crate) open spec fn alike(f: Feed, i: HolderId, g: Feed, j: HolderId) -> bool {
    &&& f.tree.limit == g.tree.limit
    &&& f.tree.table.live(i)
    &&& g.tree.table.live(j)
    &&& f.tree.table.held(i) == g.tree.table.held(j)
    &&& f.tree.table.held(i).dom().finite()
    &&& timeless(f.posture) == timeless(g.posture)
    &&& f.outcome == g.outcome
}

proof fn fed_alike(
    f: Feed,
    i: HolderId,
    g: Feed,
    j: HolderId,
    observed: bool,
    x: WireEvent,
    y: WireEvent,
)
    requires
        alike(f, i, g, j),
        x@ == y@,
    ensures
        alike(fed(f, i, observed, x), i, fed(g, j, observed, y), j),
{
    let m = f.tree.table.held(i);
    reblocked_holds(f.tree, i, m);
    reblocked_holds(g.tree, j, m);
    fed_stems(f, f.tree, i, observed, x);
    fed_stems(g, g.tree, j, observed, y);
    match x {
        WireEvent::Stored { parent, blocks } => {
            let (parent2, blocks2) = match y {
                WireEvent::Stored { parent, blocks } => (parent, blocks),
                _ => (parent, blocks),
            };
            let p = Posture { event_fed: f.posture.event_fed || observed, ..f.posture };
            let q = Posture { event_fed: g.posture.event_fed || observed, ..g.posture };
            let pairs = pairs_of(blocks@);
            assert(pairs == pairs_of(blocks2@));
            let up = settled_parent(f.tree, i, parent, pairs);
            assert(up == settled_parent(g.tree, j, parent2, pairs));
            store_reblocks(f.tree, i, p, up, pairs);
            store_reblocks(g.tree, j, q, up, pairs);
            assert(grown(m, p, up, pairs) == grown(m, q, up, pairs));
            reblocked_holds(f.tree, i, grown(m, p, up, pairs));
            reblocked_holds(g.tree, j, grown(m, p, up, pairs));
        },
        WireEvent::Removed { seq_hashes } => {
            let hashes2 = match y {
                WireEvent::Removed { seq_hashes } => seq_hashes,
                _ => seq_hashes,
            };
            let keys = keys_of(seq_hashes@);
            assert(keys == keys_of(hashes2@));
            reblocked_holds(f.tree, i, pruned(m, keys));
            reblocked_holds(g.tree, j, pruned(m, keys));
        },
        WireEvent::Cleared => {
            reblocked_holds(f.tree, i, Map::empty());
            reblocked_holds(g.tree, j, Map::empty());
        },
    }
}

proof fn fed_all_alike(
    f: Feed,
    i: HolderId,
    g: Feed,
    j: HolderId,
    observed: bool,
    xs: Seq<WireEvent>,
    ys: Seq<WireEvent>,
)
    requires
        alike(f, i, g, j),
        xs.map_values(|e: WireEvent| e@) == ys.map_values(|e: WireEvent| e@),
    ensures
        alike(fed_all(f, i, observed, xs), i, fed_all(g, j, observed, ys), j),
    decreases xs.len(),
{
    let vx = xs.map_values(|e: WireEvent| e@);
    let vy = ys.map_values(|e: WireEvent| e@);
    assert(vx.len() == xs.len() && vy.len() == ys.len());
    if xs.len() > 0 {
        let n = xs.len() - 1;
        assert(xs.drop_last().map_values(|e: WireEvent| e@) =~= vx.drop_last());
        assert(ys.drop_last().map_values(|e: WireEvent| e@) =~= vy.drop_last());
        assert(vx[n] == xs[n]@ && vy[n] == ys[n]@);
        fed_all_alike(f, i, g, j, observed, xs.drop_last(), ys.drop_last());
        fed_alike(
            fed_all(f, i, observed, xs.drop_last()),
            i,
            fed_all(g, j, observed, ys.drop_last()),
            j,
            observed,
            xs.last(),
            ys.last(),
        );
    }
}

/// What an update does to its holder depends on what the holder has and on what
/// the update says, not on the rest of the tree, on the holder's id or on the
/// time.
pub(crate) proof fn applied_alike(
    s: TreeView<BlockInfo>,
    i: HolderId,
    p: Posture,
    u: UpdateMsg,
    now: u64,
    t: TreeView<BlockInfo>,
    j: HolderId,
    q: Posture,
    v: UpdateMsg,
    later: u64,
    default_capacity: u64,
)
    requires
        s.limit == t.limit,
        s.table.live(i),
        t.table.live(j),
        s.table.held(i) == t.table.held(j),
        s.table.held(i).dom().finite(),
        timeless(p) == timeless(q),
        u@ == v@,
    ensures
        alike(
            applied(s, i, p, u, now, default_capacity),
            i,
            applied(t, j, q, v, later, default_capacity),
            j,
        ),
{
    reblocked_holds(s, i, Map::empty());
    reblocked_holds(t, j, Map::empty());
    if u.epoch >= p.epoch {
        let f = start_of(s, i, p, u, now, default_capacity);
        let g = start_of(t, j, q, v, later, default_capacity);
        assert(timeless(f.posture) == timeless(g.posture));
        assert(alike(f, i, g, j));
        fed_all_alike(f, i, g, j, u.seq != 0, u.events@, v.events@);
    }
}

/// Two engines with the same configuration that keep the same of a holder.
pub open spec fn agree_on(d: EngineView, e: EngineView, key: KeyView, name: Seq<char>) -> bool {
    &&& d.default_capacity == e.default_capacity
    &&& d.space(key).tree.limit == e.space(key).tree.limit
    &&& standing(d, key, name) == standing(e, key, name)
}

/// Engines that keep the same of a holder answer an update for it alike, and
/// keep the same of it afterwards, whatever else they keep, and whenever it
/// reaches them.
pub proof fn updates_are_local(
    d: EngineView,
    u: UpdateMsg,
    now: u64,
    e: EngineView,
    v: UpdateMsg,
    later: u64,
)
    requires
        d.wf(),
        e.wf(),
        d.has_room(u),
        e.has_room(v),
        u@ == v@,
        agree_on(d, e, u.keyspace@, u.holder@),
    ensures
        agree_on(d.after(u, now), e.after(v, later), u.keyspace@, u.holder@),
        d.answer(u, now) == e.answer(v, later),
{
    let key = u.keyspace@;
    let name = u.holder@;
    arrival(d, u, now, key, name);
    arrival(e, v, later, key, name);
    assert(v.keyspace@ == key && v.holder@ == name);
    if u.keyspace.block_size != 0 {
        let s = d.admitted(u, now);
        let t = e.admitted(v, later);
        let a = s.members[member_index(s.members, name)->0];
        let b = t.members[member_index(t.members, name)->0];
        let p = new_posture(u.epoch, now, d.default_capacity);
        let q = new_posture(v.epoch, later, e.default_capacity);
        if space_index(d.spaces, key) is None {
            new_space_is_valid(key);
        }
        if space_index(e.spaces, key) is None {
            new_space_is_valid(key);
        }
        enrolled_keeps(d.space(key), name, p, name);
        enrolled_keeps(e.space(key), name, q, name);
        assert(local(s, name) == local(t, name));
        applied_alike(
            s.tree,
            a.id,
            a.posture,
            u,
            now,
            t.tree,
            b.id,
            b.posture,
            v,
            later,
            d.default_capacity,
        );
    }
}

/// Updates keep an engine valid.
pub(crate) proof fn run_keeps(e: EngineView, arrivals: Seq<(UpdateMsg, u64)>, key: KeyView)
    requires
        e.wf(),
        roomy(e, arrivals),
    ensures
        run(e, arrivals).wf(),
        run(e, arrivals).default_capacity == e.default_capacity,
        run(e, arrivals).space(key).tree.limit == e.space(key).tree.limit,
    decreases arrivals.len(),
{
    if arrivals.len() > 0 {
        run_keeps(e, arrivals.drop_last(), key);
        arrival(
            run(e, arrivals.drop_last()),
            arrivals.last().0,
            arrivals.last().1,
            key,
            Seq::empty(),
        );
    }
}

/// Replicas converge: two engines that agree on a holder, and then take the
/// same updates for it in the same order, agree on it again, however the updates
/// of other holders come in between, and whenever each arrives.
pub proof fn replicas_converge(
    d: EngineView,
    a: Seq<(UpdateMsg, u64)>,
    e: EngineView,
    b: Seq<(UpdateMsg, u64)>,
    key: KeyView,
    name: Seq<char>,
)
    requires
        d.wf(),
        e.wf(),
        roomy(d, a),
        roomy(e, b),
        agree_on(d, e, key, name),
        meant_for(a, key, name) == meant_for(b, key, name),
    ensures
        agree_on(run(d, a), run(e, b), key, name),
    decreases a.len() + b.len(),
{
    if a.len() > 0 && !concerns(a.last().0, key, name) {
        replicas_converge(d, a.drop_last(), e, b, key, name);
        run_keeps(d, a.drop_last(), key);
        arrival(run(d, a.drop_last()), a.last().0, a.last().1, key, name);
    } else if b.len() > 0 && !concerns(b.last().0, key, name) {
        replicas_converge(d, a, e, b.drop_last(), key, name);
        run_keeps(e, b.drop_last(), key);
        arrival(run(e, b.drop_last()), b.last().0, b.last().1, key, name);
    } else if a.len() > 0 && b.len() > 0 {
        let x = meant_for(a.drop_last(), key, name);
        let y = meant_for(b.drop_last(), key, name);
        assert(x.push(a.last().0@) == y.push(b.last().0@));
        assert(x =~= x.push(a.last().0@).drop_last());
        assert(y =~= y.push(b.last().0@).drop_last());
        assert(x.push(a.last().0@).last() == a.last().0@);
        assert(y.push(b.last().0@).last() == b.last().0@);
        replicas_converge(d, a.drop_last(), e, b.drop_last(), key, name);
        run_keeps(d, a.drop_last(), key);
        run_keeps(e, b.drop_last(), key);
        updates_are_local(
            run(d, a.drop_last()),
            a.last().0,
            a.last().1,
            run(e, b.drop_last()),
            b.last().0,
            b.last().1,
        );
    } else if a.len() > 0 {
        assert(meant_for(a, key, name).len() > 0);
    } else if b.len() > 0 {
        assert(meant_for(b, key, name).len() > 0);
    }
}

/// `r` answers the query `q` in the keyspace of `key`.
pub open spec fn answers(e: EngineView, key: KeyView, q: Seq<u64>, r: Seq<HolderScore>) -> bool {
    match space_index(e.spaces, key) {
        None => r.len() == 0,
        Some(i) => scored(e.spaces[i], q, r),
    }
}

/// The two scores tell the same of the same holder.
pub open spec fn same_score(a: HolderScore, b: HolderScore) -> bool {
    &&& a.holder@ == b.holder@
    &&& a.matched_blocks == b.matched_blocks
    &&& a.total_blocks == b.total_blocks
    &&& a.event_fed == b.event_fed
}

/// The score is among `y`.
pub open spec fn score_among(score: HolderScore, y: Seq<HolderScore>) -> bool {
    exists|j: int| 0 <= j < y.len() && same_score(score, #[trigger] y[j])
}

/// Every score of `x` is among `y`.
pub open spec fn scores_within(x: Seq<HolderScore>, y: Seq<HolderScore>) -> bool {
    forall|i: int| 0 <= i < x.len() ==> score_among(#[trigger] x[i], y)
}

proof fn one_score(a: SpaceView, b: SpaceView, q: Seq<u64>, score: HolderScore, y: Seq<HolderScore>)
    requires
        a.wf(),
        b.wf(),
        forall|name: Seq<char>| #[trigger] local(a, name) == local(b, name),
        told(a, q, score),
        scored(b, q, y),
    ensures
        score_among(score, y),
{
    let m = choose|m: int| #[trigger] has_score(a, q, m) && scores_member(a, q, m, score);
    let name = a.members[m].name;
    member_index_is(a.members, name, m);
    assert(local(a, name) == local(b, name));
    assert(local(a, name) is Some);
    let n = member_index(b.members, name)->0;
    assert(b.members[n].name == name);
    assert(timeless(a.members[m].posture) == timeless(b.members[n].posture));
    assert(has_score(b, q, n));
    assert(tells(b, q, n, y));
    let j = choose|j: int| 0 <= j < y.len() && scores_member(b, q, n, #[trigger] y[j]);
    assert(same_score(score, y[j]));
}

proof fn one_way(
    d: EngineView,
    e: EngineView,
    key: KeyView,
    q: Seq<u64>,
    x: Seq<HolderScore>,
    y: Seq<HolderScore>,
)
    requires
        d.wf(),
        e.wf(),
        forall|name: Seq<char>| #[trigger] standing(d, key, name) == standing(e, key, name),
        answers(d, key, q, x),
        answers(e, key, q, y),
    ensures
        scores_within(x, y),
{
    assert forall|i: int| 0 <= i < x.len() implies score_among(#[trigger] x[i], y) by {
        let a = d.space(key);
        let b = e.space(key);
        assert(told(a, q, x[i]));
        assert forall|name: Seq<char>| #[trigger] local(a, name) == local(b, name) by {
            assert(standing(d, key, name) == standing(e, key, name));
        }
        if space_index(e.spaces, key) is None {
            let m = choose|m: int| #[trigger] has_score(a, q, m) && scores_member(a, q, m, x[i]);
            member_index_is(a.members, a.members[m].name, m);
            assert(local(a, a.members[m].name) is Some);
            assert(local(b, a.members[m].name) is None);
        } else {
            one_score(a, b, q, x[i], y);
        }
    }
}

/// Replicas that agree on every holder of a keyspace answer its queries with the
/// same scores. (Holders that match equally deep may come in another order.)
pub proof fn replicas_answer_alike(
    d: EngineView,
    e: EngineView,
    key: KeyView,
    q: Seq<u64>,
    x: Seq<HolderScore>,
    y: Seq<HolderScore>,
)
    requires
        d.wf(),
        e.wf(),
        forall|name: Seq<char>| #[trigger] standing(d, key, name) == standing(e, key, name),
        answers(d, key, q, x),
        answers(e, key, q, y),
    ensures
        scores_within(x, y),
        scores_within(y, x),
{
    one_way(d, e, key, q, x, y);
    one_way(e, d, key, q, y, x);
}

/// The batch was counted: the holder's epoch is past it, or its watermark is at
/// least its number.
pub open spec fn counted(s: Option<Standing>, epoch: u64, seq: u64) -> bool {
    match s {
        None => false,
        Some(s) => s.posture.epoch > epoch || (s.posture.epoch == epoch && s.posture.last_seq
            >= seq),
    }
}

/// A batch that was counted stays so.
proof fn counted_stays(
    e: EngineView,
    arrivals: Seq<(UpdateMsg, u64)>,
    key: KeyView,
    name: Seq<char>,
    epoch: u64,
    seq: u64,
)
    requires
        e.wf(),
        roomy(e, arrivals),
        counted(standing(e, key, name), epoch, seq),
    ensures
        counted(standing(run(e, arrivals), key, name), epoch, seq),
    decreases arrivals.len(),
{
    if arrivals.len() > 0 {
        let (u, now) = arrivals.last();
        let mid = run(e, arrivals.drop_last());
        counted_stays(e, arrivals.drop_last(), key, name, epoch, seq);
        run_keeps(e, arrivals.drop_last(), key);
        arrival(mid, u, now, key, name);
        if concerns(u, key, name) && u.keyspace.block_size != 0 {
            let space = mid.admitted(u, now);
            let m = space.members[member_index(space.members, name)->0];
            assert(space == mid.space(key));
            postures_only_advance(space.tree, m.id, m.posture, u, now, mid.default_capacity);
        }
    }
}

/// A batch counts once: after a sequenced update was applied, and whatever
/// arrived since, the same events come again to no effect on any holder.
pub proof fn batches_count_once(
    e: EngineView,
    u: UpdateMsg,
    now: u64,
    since: Seq<(UpdateMsg, u64)>,
    again: UpdateMsg,
    later: u64,
    key: KeyView,
    name: Seq<char>,
)
    requires
        e.wf(),
        e.has_room(u),
        roomy(e.after(u, now), since),
        run(e.after(u, now), since).has_room(again),
        u.seq != 0,
        concerns(again, u.keyspace@, u.holder@),
        again.epoch == u.epoch,
        again.seq == u.seq,
        again.added is None,
        !again.dropped,
    ensures
        ({
            let pre = run(e.after(u, now), since);
            &&& standing(pre.after(again, later), key, name) == standing(pre, key, name)
            &&& u.keyspace.block_size != 0 ==> pre.answer(again, later).0 == ApplyOutcome::Deduped
            &&& !pre.answer(again, later).2
        }),
{
    let own = u.keyspace@;
    let who = u.holder@;
    arrival(e, u, now, own, who);
    let first = e.after(u, now);
    run_keeps(first, since, key);
    let pre = run(first, since);
    arrival(pre, again, later, key, name);
    arrival(pre, again, later, own, who);
    if u.keyspace.block_size != 0 {
        let space = e.admitted(u, now);
        let m = space.members[member_index(space.members, who)->0];
        watermark_reaches(space.tree, m.id, m.posture, u, now, e.default_capacity);
        assert(counted(standing(first, own, who), u.epoch, u.seq));
        counted_stays(first, since, own, who, u.epoch, u.seq);
        let s = pre.admitted(again, later);
        assert(local(pre.space(own), who) is Some);
        assert(s == pre.space(own));
        let n = s.members[member_index(s.members, who)->0];
        let f = pre.feed(again, later);
        assert(f.tree == s.tree);
        assert(timeless(f.posture) == timeless(n.posture));
    }
}

/// A sequenced update leaves the holder at its batch number, or past it.
proof fn watermark_reaches(
    tree: TreeView<BlockInfo>,
    id: HolderId,
    posture: Posture,
    u: UpdateMsg,
    now: u64,
    default_capacity: u64,
)
    requires
        u.seq != 0,
    ensures
        ({
            let p = applied(tree, id, posture, u, now, default_capacity).posture;
            p.epoch > u.epoch || (p.epoch == u.epoch && p.last_seq >= u.seq)
        }),
{
    crate::engine_laws::events_keep_posture(
        start_of(tree, id, posture, u, now, default_capacity),
        id,
        u.seq != 0,
        u.events@,
    );
}

/// The member that an update is for, as the update meets it.
pub open spec fn recipient(e: EngineView, u: UpdateMsg, now: u64) -> MemberView {
    let space = e.admitted(u, now);
    space.members[member_index(space.members, u.holder@)->0]
}

/// The placement settles with its holder: see `settled`.
pub open spec fn settles(e: EngineView, u: UpdateMsg, now: u64, blocks: Seq<(u64, u64)>) -> bool {
    let m = recipient(e, u, now);
    let tree = cleared_for(e.admitted(u, now).tree, m.id, m.posture, u);
    let b = trail::<BlockInfo>(None, blocks);
    let g = placed(tree.table.held(m.id), b);
    blocks.len() <= tree.limit ==> settled(g, kept_of(g, m.posture), b)
}

/// An echo dies in one hop: a placement that was just applied and comes again is
/// answered with the same watermark and no change, and no tree, and nothing that
/// the engine keeps of any holder, is different afterwards. (See `settled` for
/// the placements that are set aside.)
pub proof fn echoes_change_nothing(
    e: EngineView,
    u: UpdateMsg,
    blocks: Seq<(u64, u64)>,
    now: u64,
    later: u64,
    key: KeyView,
    name: Seq<char>,
)
    requires
        e.wf(),
        e.has_room(u),
        u.keyspace.block_size != 0,
        is_placement(u, blocks),
        u.epoch >= recipient(e, u, now).posture.epoch,
        !recipient(e, u, now).posture.event_fed,
        settles(e, u, now, blocks),
    ensures
        ({
            let once = e.after(u, now);
            let twice = once.after(u, later);
            &&& e.answer(u, now).0 == ApplyOutcome::Applied
            &&& once.answer(u, later) == (ApplyOutcome::Applied, e.answer(u, now).1, false)
            &&& twice.space(key).tree == once.space(key).tree
            &&& standing(twice, key, name) == standing(once, key, name)
        }),
{
    let own = u.keyspace@;
    let who = u.holder@;
    let once = e.after(u, now);
    arrival(e, u, now, own, who);
    let space = e.admitted(u, now);
    let j = member_index(space.members, who)->0;
    let m = space.members[j];
    echoes_die(
        space.tree,
        m.id,
        m.posture,
        u,
        blocks,
        now,
        later,
        e.default_capacity,
    );
    let f = e.feed(u, now);
    let done = space.with_member(j, f.tree, f.posture);
    let i = match space_index(e.spaces, own) {
        Some(i) => i,
        None => e.spaces.len() as int,
    };
    assert(once.spaces[i] == done);
    assert(done.key == own) by {
        if space_index(e.spaces, own) is Some {
            assert(e.spaces[i].key == own);
        }
    }
    space_index_is(once.spaces, own, i);
    assert(once.space(own) == done);
    assert(done.members[j].name == who) by {
        assert(space.members[j].name == who);
    }
    member_index_is(done.members, who, j);
    assert(once.admitted(u, later) == done);
    assert(done.members[j].id == m.id);
    assert(once.has_room(u)) by {
        assert(done.tree.table.live(done.members[j].id));
        assert(done.tree.table.occupied(m.id.slot() as int));
    }
    arrival(once, u, later, key, name);
    let g = once.feed(u, later);
    assert(g.tree == f.tree);
    let twice = once.after(u, later);
    assert(twice.spaces[i].tree == f.tree);
    assert(twice.spaces[i].key == own);
    if key == own {
        space_index_is(twice.spaces, key, i);
    } else if space_index(once.spaces, key) is Some {
        let a = space_index(once.spaces, key)->0;
        assert(once.spaces[a].key == key);
        assert(twice.spaces[a] == once.spaces[a]);
        space_index_is(twice.spaces, key, a);
    } else if space_index(twice.spaces, key) is Some {
        let a = space_index(twice.spaces, key)->0;
        assert(twice.spaces[a].key == key);
        assert(once.spaces[a].key == key);
    }
}

/// The store that an event asks for.
pub open spec fn store_of(event: WireEventView) -> Op {
    match event {
        WireEventView::Stored(parent, blocks) => Op::Store { parent, blocks },
        WireEventView::Removed(keys) => Op::Remove { keys },
        WireEventView::Cleared => Op::Clear,
    }
}

/// The stores that an update asks for.
pub open spec fn stores_of(u: MessageView) -> Seq<Op> {
    u.events.map_values(|e: WireEventView| store_of(e))
}

/// The stores that updates ask for, in order.
pub open spec fn all_stores(us: Seq<MessageView>) -> Seq<Op>
    decreases us.len(),
{
    if us.len() == 0 {
        Seq::empty()
    } else {
        all_stores(us.drop_last()) + stores_of(us.last())
    }
}

/// The update places whole chains, each from its first block, and does nothing
/// else; each block goes where `f` has it.
pub open spec fn places(u: MessageView, epoch: u64, f: Map<u64, BlockInfo>) -> bool {
    &&& u.epoch == epoch
    &&& u.seq == 0
    &&& u.added is None
    &&& !u.dropped
    &&& forall|i: int|
        0 <= i < u.events.len() ==> {
            &&& (#[trigger] u.events[i]) matches WireEventView::Stored(parent, _)
            &&& parent is None
            &&& agrees(f, store_of(u.events[i]))
        }
}

/// The holder is ready for placements of an epoch: it holds no block but where
/// `f` has it, takes placements, and has room for all of `f`.
pub open spec fn ready(
    s: Option<Standing>,
    epoch: u64,
    f: Map<u64, BlockInfo>,
    default_capacity: u64,
) -> bool {
    match s {
        None => f.len() <= runaway_bound(default_capacity),
        Some(s) => {
            &&& s.blocks.submap_of(f)
            &&& s.posture.epoch == epoch
            &&& !s.posture.event_fed
            &&& f.len() <= runaway_bound(s.posture.capacity_blocks)
        },
    }
}

/// A submap of a finite map is no larger.
proof fn submap_is_smaller(m: Map<u64, BlockInfo>, f: Map<u64, BlockInfo>)
    requires
        f.dom().finite(),
        m.submap_of(f),
    ensures
        m.dom().finite(),
        m.len() <= f.len(),
{
    assert(m.dom().subset_of(f.dom())) by {
        assert forall|k: u64| m.dom().contains(k) implies f.dom().contains(k) by {}
    }
    vstd::set_lib::lemma_set_subset_finite(f.dom(), m.dom());
    vstd::set_lib::lemma_len_subset(m.dom(), f.dom());
}

/// Placements do to a holder's blocks what their stores do.
proof fn placements_store(
    s: Feed,
    id: HolderId,
    events: Seq<WireEvent>,
    u: MessageView,
    f: Map<u64, BlockInfo>,
)
    requires
        s.tree.table.live(id),
        s.tree.table.held(id).submap_of(f),
        !s.posture.event_fed,
        f.dom().finite(),
        unaliased(f),
        f.len() <= runaway_bound(s.posture.capacity_blocks),
        u.events == events.map_values(|e: WireEvent| e@),
        places(u, u.epoch, f),
    ensures
        ({
            let post = fed_all(s, id, false, events);
            let m = s.tree.table.held(id);
            &&& post.tree.table.live(id)
            &&& post.tree.limit == s.tree.limit
            &&& post.tree.table.held(id) == history(s.tree.limit, m, stores_of(u))
            &&& post.tree.table.held(id).submap_of(f)
            &&& post.posture == s.posture
        }),
    decreases events.len(),
{
    let m = s.tree.table.held(id);
    let limit = s.tree.limit;
    let ops = stores_of(u);
    assert(u.events.len() == events.len());
    if events.len() > 0 {
        let n = events.len() - 1;
        let init = events.drop_last();
        let v = MessageView { events: u.events.drop_last(), ..u };
        assert(v.events =~= init.map_values(|e: WireEvent| e@));
        assert(places(v, v.epoch, f)) by {
            assert forall|i: int| 0 <= i < v.events.len() implies {
                &&& (#[trigger] v.events[i]) matches WireEventView::Stored(parent, _)
                &&& parent is None
                &&& agrees(f, store_of(v.events[i]))
            } by {
                assert(v.events[i] == u.events[i]);
            }
        }
        placements_store(s, id, init, v, f);
        assert(stores_of(v) =~= ops.drop_last());
        assert(ops.last() == store_of(u.events[n]));
        assert(u.events[n] == events[n]@);
        let mid = fed_all(s, id, false, init);
        let h = mid.tree.table.held(id);
        let pairs = match u.events[n] {
            WireEventView::Stored(_, pairs) => pairs,
            _ => Seq::empty(),
        };
        let one = seq![ops.last()];
        assert(one.drop_last() =~= Seq::empty());
        assert(history(limit, h, one.drop_last()) == h);
        assert(history(limit, h, one) == history(limit, m, ops));
        assert(chain_consistent(f, one)) by {
            assert forall|i: int| 0 <= i < one.len() implies agrees(f, #[trigger] one[i]) by {}
        }
        consistent_stores_follow_the_plan(limit, f, h, one);
        submap_is_smaller(h, f);
        submap_is_smaller(history(limit, h, one), f);
        reblocked_holds(mid.tree, id, history(limit, h, one));
        if accepts(limit, h, None, pairs) {
            assert(model::store_error(mid.tree, id, None, pairs) is None);
            store_reblocks(mid.tree, id, mid.posture, None, pairs);
            assert(grown(h, mid.posture, None, pairs) == history(limit, h, one));
        } else {
            assert(model::store_error(mid.tree, id, None, pairs) is Some);
        }
    } else {
        assert(ops =~= Seq::empty());
    }
}

/// The blocks of a standing, and the posture on first contact.
spec fn blocks_of(s: Option<Standing>) -> Map<u64, BlockInfo> {
    match s {
        None => Map::empty(),
        Some(s) => s.blocks,
    }
}

spec fn posture_of(s: Option<Standing>, epoch: u64, default_capacity: u64) -> Posture {
    match s {
        None => timeless(new_posture(epoch, 0, default_capacity)),
        Some(s) => s.posture,
    }
}

/// A history goes on where another left off.
proof fn history_goes_on(limit: u32, m: Map<u64, BlockInfo>, a: Seq<Op>, b: Seq<Op>)
    ensures
        history(limit, m, a + b) == history(limit, history(limit, m, a), b),
    decreases b.len(),
{
    if b.len() == 0 {
        assert(a + b =~= a);
    } else {
        history_goes_on(limit, m, a, b.drop_last());
        assert((a + b).drop_last() =~= a + b.drop_last());
    }
}

/// What a run of placements leaves an engine with.
proof fn placements_follow(
    e: EngineView,
    a: Seq<(UpdateMsg, u64)>,
    key: KeyView,
    name: Seq<char>,
    epoch: u64,
    f: Map<u64, BlockInfo>,
)
    requires
        e.wf(),
        roomy(e, a),
        key.block_size != 0,
        unaliased(f),
        f.dom().finite(),
        ready(standing(e, key, name), epoch, f, e.default_capacity),
        forall|i: int|
            0 <= i < meant_for(a, key, name).len() ==> places(
                #[trigger] meant_for(a, key, name)[i],
                epoch,
                f,
            ),
    ensures
        ({
            let us = meant_for(a, key, name);
            let s = standing(e, key, name);
            let post = standing(run(e, a), key, name);
            let m = history(e.space(key).tree.limit, blocks_of(s), all_stores(us));
            &&& m.submap_of(f)
            &&& post == if us.len() == 0 {
                s
            } else {
                Some(
                    Standing { blocks: m, posture: posture_of(s, epoch, e.default_capacity) },
                )
            }
        }),
    decreases a.len(),
{
    let us = meant_for(a, key, name);
    let s = standing(e, key, name);
    let limit = e.space(key).tree.limit;
    if a.len() > 0 {
        let init = a.drop_last();
        let (u, now) = a.last();
        let was = meant_for(init, key, name);
        assert forall|i: int| 0 <= i < was.len() implies places(#[trigger] was[i], epoch, f) by {
            assert(us[i] == was[i]);
        }
        placements_follow(e, init, key, name, epoch, f);
        run_keeps(e, init, key);
        let mid = run(e, init);
        arrival(mid, u, now, key, name);
        if concerns(u, key, name) {
            assert(us[us.len() - 1] == u@);
            assert(places(u@, epoch, f));
            assert(us.drop_last() =~= was);
            let fresh = new_posture(u.epoch, now, mid.default_capacity);
            if space_index(mid.spaces, key) is None {
                new_space_is_valid(key);
            }
            enrolled_keeps(mid.space(key), name, fresh, name);
            let space = mid.admitted(u, now);
            let m = space.members[member_index(space.members, name)->0];
            let h = history(limit, blocks_of(s), all_stores(was));
            assert(blocks_of(standing(mid, key, name)) == h) by {
                if was.len() == 0 {
                    assert(all_stores(was) =~= Seq::empty());
                }
            }
            assert(space.tree.table.held(m.id) == h);
            assert(timeless(m.posture) == posture_of(s, epoch, e.default_capacity));
            let start = start_of(space.tree, m.id, m.posture, u, now, mid.default_capacity);
            placements_store(start, m.id, u.events@, u@, f);
            assert(mid.feed(u, now) == fed_all(start, m.id, false, u.events@));
            history_goes_on(limit, blocks_of(s), all_stores(was), stores_of(u@));
        }
    } else {
        assert(all_stores(us) =~= Seq::empty());
    }
}

/// The stores of updates that place chains agree with the plan, and start at a
/// first block.
proof fn stores_are_placements(us: Seq<MessageView>, epoch: u64, f: Map<u64, BlockInfo>)
    requires
        forall|i: int| 0 <= i < us.len() ==> places(#[trigger] us[i], epoch, f),
    ensures
        forall|i: int|
            0 <= i < all_stores(us).len() ==> {
                &&& agrees(f, #[trigger] all_stores(us)[i])
                &&& all_stores(us)[i] matches Op::Store { parent, .. }
                &&& parent is None
            },
    decreases us.len(),
{
    if us.len() > 0 {
        let init = us.drop_last();
        assert forall|i: int| 0 <= i < init.len() implies places(#[trigger] init[i], epoch, f) by {
            assert(us[i] == init[i]);
        }
        stores_are_placements(init, epoch, f);
        let u = us[us.len() - 1];
        assert(places(u, epoch, f));
        let old_ops = all_stores(init);
        assert forall|i: int| 0 <= i < all_stores(us).len() implies {
            &&& agrees(f, #[trigger] all_stores(us)[i])
            &&& all_stores(us)[i] matches Op::Store { parent, .. }
            &&& parent is None
        } by {
            if i < old_ops.len() {
                assert(all_stores(us)[i] == old_ops[i]);
            } else {
                let k = i - old_ops.len();
                assert(all_stores(us)[i] == stores_of(u)[k]);
                assert(stores_of(u)[k] == store_of(u.events[k]));
            }
        }
    }
}

/// A store is among those of updates that hold one that asks for it.
proof fn stores_carry_over(xs: Seq<MessageView>, ys: Seq<MessageView>, i: int) -> (j: int)
    requires
        forall|u: MessageView| #[trigger] xs.contains(u) ==> ys.contains(u),
        0 <= i < all_stores(xs).len(),
    ensures
        0 <= j < all_stores(ys).len(),
        all_stores(ys)[j] == all_stores(xs)[i],
    decreases xs.len(),
{
    let init = xs.drop_last();
    let ops = all_stores(init);
    if i < ops.len() {
        assert forall|u: MessageView| #[trigger] init.contains(u) implies ys.contains(u) by {
            let x = choose|x: int| 0 <= x < init.len() && init[x] == u;
            assert(xs[x] == u);
            assert(xs.contains(u));
        }
        assert(all_stores(xs)[i] == ops[i]);
        stores_carry_over(init, ys, i)
    } else {
        let u = xs[xs.len() - 1];
        assert(xs.contains(u));
        let y = choose|y: int| 0 <= y < ys.len() && ys[y] == u;
        assert(all_stores(xs)[i] == stores_of(u)[i - ops.len()]);
        store_found(ys, y, i - ops.len())
    }
}

/// A store of one of several updates is among theirs.
proof fn store_found(ys: Seq<MessageView>, y: int, k: int) -> (j: int)
    requires
        0 <= y < ys.len(),
        0 <= k < stores_of(ys[y]).len(),
    ensures
        0 <= j < all_stores(ys).len(),
        all_stores(ys)[j] == stores_of(ys[y])[k],
    decreases ys.len(),
{
    let init = ys.drop_last();
    if y == ys.len() - 1 {
        let j = all_stores(init).len() + k;
        assert(all_stores(ys)[j] == stores_of(ys[y])[k]);
        j
    } else {
        assert(init[y] == ys[y]);
        let j = store_found(init, y, k);
        assert(all_stores(ys)[j] == all_stores(init)[j]);
        j
    }
}

proof fn landings_carry_over(
    limit: u32,
    f: Map<u64, BlockInfo>,
    m: Map<u64, BlockInfo>,
    epoch: u64,
    xs: Seq<MessageView>,
    ys: Seq<MessageView>,
    op: Op,
)
    requires
        forall|i: int| 0 <= i < xs.len() ==> places(#[trigger] xs[i], epoch, f),
        forall|u: MessageView| #[trigger] xs.contains(u) ==> ys.contains(u),
        lands_among(limit, m, all_stores(xs), op),
    ensures
        lands_among(limit, m, all_stores(ys), op),
{
    stores_are_placements(xs, epoch, f);
    let a = all_stores(xs);
    let b = all_stores(ys);
    let i = choose|i: int|
        0 <= i < a.len() && #[trigger] a[i] == op && lands(limit, history(limit, m, a.take(i)), a[i]);
    let j = stores_carry_over(xs, ys, i);
    assert(agrees(f, a[i]));
    assert(b[j] == op);
    assert(lands(limit, history(limit, m, b.take(j)), b[j]));
}

/// Placements are idempotent and their order is free: two engines that agree on
/// a holder, and then take the same placements for it, in whatever order and
/// however often each, agree on it again. The placements are chain-consistent
/// (`f` says of every block where it goes), and within the holder's bound.
pub proof fn placements_converge(
    d: EngineView,
    a: Seq<(UpdateMsg, u64)>,
    e: EngineView,
    b: Seq<(UpdateMsg, u64)>,
    key: KeyView,
    name: Seq<char>,
    epoch: u64,
    f: Map<u64, BlockInfo>,
)
    requires
        d.wf(),
        e.wf(),
        roomy(d, a),
        roomy(e, b),
        key.block_size != 0,
        agree_on(d, e, key, name),
        unaliased(f),
        f.dom().finite(),
        ready(standing(d, key, name), epoch, f, d.default_capacity),
        forall|i: int|
            0 <= i < meant_for(a, key, name).len() ==> places(
                #[trigger] meant_for(a, key, name)[i],
                epoch,
                f,
            ),
        forall|u: MessageView| #[trigger]
            meant_for(a, key, name).contains(u) <==> meant_for(b, key, name).contains(u),
    ensures
        agree_on(run(d, a), run(e, b), key, name),
{
    let xs = meant_for(a, key, name);
    let ys = meant_for(b, key, name);
    let limit = d.space(key).tree.limit;
    let m = blocks_of(standing(d, key, name));
    assert forall|i: int| 0 <= i < ys.len() implies places(#[trigger] ys[i], epoch, f) by {
        assert(ys.contains(ys[i]));
        assert(xs.contains(ys[i]));
        let j = choose|j: int| 0 <= j < xs.len() && xs[j] == ys[i];
        assert(places(xs[j], epoch, f));
    }
    placements_follow(d, a, key, name, epoch, f);
    placements_follow(e, b, key, name, epoch, f);
    run_keeps(d, a, key);
    run_keeps(e, b, key);
    stores_are_placements(xs, epoch, f);
    stores_are_placements(ys, epoch, f);
    assert(m.submap_of(f));
    assert forall|op: Op| #[trigger]
        lands_among(limit, m, all_stores(xs), op) <==> lands_among(
            limit,
            m,
            all_stores(ys),
            op,
        ) by {
        if lands_among(limit, m, all_stores(xs), op) {
            landings_carry_over(limit, f, m, epoch, xs, ys, op);
        }
        if lands_among(limit, m, all_stores(ys), op) {
            landings_carry_over(limit, f, m, epoch, ys, xs, op);
        }
    }
    stores_converge(limit, f, m, all_stores(xs), all_stores(ys));
    if xs.len() > 0 {
        assert(xs.contains(xs[0]));
        assert(ys.len() > 0);
    }
    if ys.len() > 0 {
        assert(ys.contains(ys[0]));
        assert(xs.contains(ys[0]));
        assert(xs.len() > 0);
    }
}

} // verus!
