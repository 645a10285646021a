//! What updates do, told by what an engine keeps of a holder before and after,
//! and by what queries are answered.

use crate::engine::applied;
use crate::engine::cut;
use crate::engine::fed_all;
use crate::engine::has_score;
use crate::engine::keys_of;
use crate::engine::member_index;
use crate::engine::member_index_is;
use crate::engine::new_posture;
use crate::engine::new_space;
use crate::engine::pairs_of;
use crate::engine::runaway_bound;
use crate::engine::scored;
use crate::engine::scores_member;
use crate::engine::space_index;
use crate::engine::swept;
use crate::engine::tells;
use crate::engine::told;
use crate::engine::ApplyOutcome;
use crate::engine::EngineView;
use crate::engine::Feed;
use crate::engine::HolderScore;
use crate::engine::KeyView;
use crate::engine::MemberView;
use crate::engine::Posture;
use crate::engine::SpaceView;
use crate::engine::UpdateMsg;
use crate::engine::WireBlock;
use crate::engine::WireEvent;
use crate::engine_laws::start_of;
use crate::flat::BlockInfo;
use crate::laws::contents;
use crate::laws::depth_at_least;
use crate::model;
use crate::model::at;
use crate::model::batch;
use crate::model::cut_exists;
use crate::model::depth;
use crate::model::depth_is_greatest;
use crate::model::holds;
use crate::model::placed;
use crate::model::trail;
use crate::model::trail_len;
use crate::model::with_blocks_twice;
use crate::model::Placement;
use crate::model::TreeView;
use crate::replicas::answers;
use crate::replicas::applied_stems;
use crate::replicas::arrival;
use crate::replicas::enrolled_keeps;
use crate::replicas::local;
use crate::replicas::new_space_is_valid;
use crate::replicas::standing;
use crate::replicas::timeless;
use crate::replicas::Standing;
use crate::types::HolderId;
use vstd::prelude::*;

verus! {

/// The update can be applied: the engine is valid and has room, and the keyspace
/// has blocks.
pub open spec fn applies(e: EngineView, u: UpdateMsg) -> bool {
    &&& e.wf()
    &&& e.has_room(u)
    &&& u.keyspace.block_size != 0
}

/// What the engine keeps of the update's holder.
pub open spec fn before(e: EngineView, u: UpdateMsg) -> Option<Standing> {
    standing(e, u.keyspace@, u.holder@)
}

/// What the engine keeps of the update's holder afterwards.
pub open spec fn after(e: EngineView, u: UpdateMsg, now: u64) -> Standing {
    standing(e.after(u, now), u.keyspace@, u.holder@)->0
}

/// The update is of an epoch that is past.
pub open spec fn outdated(s: Option<Standing>, u: UpdateMsg) -> bool {
    s matches Some(s) && u.epoch < s.posture.epoch
}

/// The update's batch came before.
pub open spec fn repeated(s: Option<Standing>, u: UpdateMsg) -> bool {
    s matches Some(s) && u.epoch == s.posture.epoch && 0 < u.seq <= s.posture.last_seq
}

/// The update's events count.
pub open spec fn counted_in(s: Option<Standing>, u: UpdateMsg) -> bool {
    !outdated(s, u) && !repeated(s, u)
}

/// The holder has an event feed before the update's events.
pub open spec fn fed_before(s: Option<Standing>, u: UpdateMsg) -> bool {
    ||| s matches Some(s) && s.posture.event_fed
    ||| u.added matches Some(a) && a.event_fed
}

/// The blocks that the update's events meet.
pub open spec fn met_blocks(s: Option<Standing>, u: UpdateMsg) -> Map<u64, BlockInfo> {
    match s {
        None => Map::empty(),
        Some(s) => if u.epoch > s.posture.epoch {
            Map::empty()
        } else {
            s.blocks
        },
    }
}

/// The capacity of the holder from the update on.
pub open spec fn room_for(e: EngineView, u: UpdateMsg) -> u64 {
    match u.added {
        Some(a) => if a.capacity_blocks == 0 {
            e.default_capacity
        } else {
            a.capacity_blocks
        },
        None => match before(e, u) {
            Some(s) => s.posture.capacity_blocks,
            None => e.default_capacity,
        },
    }
}

/// Twice the capacity, as far as numbers go.
pub open spec fn twice(capacity: u64) -> int {
    if 2 * capacity > u64::MAX {
        u64::MAX as int
    } else {
        2 * capacity
    }
}

/// A holder as the update meets it.
struct Seat {
    tree: TreeView<BlockInfo>,
    id: HolderId,
    posture: Posture,
}

proof fn arrived(e: EngineView, u: UpdateMsg, now: u64) -> (r: Seat)
    requires
        applies(e, u),
    ensures
        r.tree.table.live(r.id),
        r.tree.table.held(r.id).dom().finite(),
        r.tree.limit == e.space(u.keyspace@).tree.limit,
        match before(e, u) {
            None => r.tree.table.held(r.id) == Map::<u64, BlockInfo>::empty() && timeless(r.posture)
                == timeless(new_posture(u.epoch, now, e.default_capacity)),
            Some(s) => r.tree.table.held(r.id) == s.blocks && timeless(r.posture) == s.posture,
        },
        e.after(u, now).wf(),
        ({
            let f = applied(r.tree, r.id, r.posture, u, now, e.default_capacity);
            &&& standing(e.after(u, now), u.keyspace@, u.holder@) == Some(
                Standing { blocks: f.tree.table.held(r.id), posture: timeless(f.posture) },
            )
            &&& f == e.feed(u, now)
            &&& f.tree.table.live(r.id)
            &&& f.tree.table.held(r.id).dom().finite()
        }),
        ({
            let space = e.admitted(u, now);
            let m = space.members[member_index(space.members, u.holder@)->0];
            r.tree == space.tree && r.id == m.id && r.posture == m.posture
        }),
{
    let key = u.keyspace@;
    let name = u.holder@;
    arrival(e, u, now, key, name);
    if space_index(e.spaces, key) is None {
        new_space_is_valid(key);
    }
    let p = new_posture(u.epoch, now, e.default_capacity);
    enrolled_keeps(e.space(key), name, p, name);
    let space = e.admitted(u, now);
    let m = space.members[member_index(space.members, name)->0];
    applied_stems(space.tree, m.id, m.posture, u, now, e.default_capacity);
    Seat { tree: space.tree, id: m.id, posture: m.posture }
}

/// What the events of an update meet.
proof fn met_by_events(e: EngineView, u: UpdateMsg, now: u64) -> (r: (Seat, Feed))
    requires
        applies(e, u),
        counted_in(before(e, u), u),
    ensures
        r.1.tree.table.live(r.0.id),
        r.1.tree.table.held(r.0.id) == met_blocks(before(e, u), u),
        r.1.tree.table.held(r.0.id).dom().finite(),
        r.1.tree.limit == e.space(u.keyspace@).tree.limit,
        r.1.posture.event_fed == fed_before(before(e, u), u),
        r.1.posture.capacity_blocks == room_for(e, u),
        r.1.outcome == ApplyOutcome::Applied,
        e.after(u, now).wf(),
        ({
            let f = fed_all(r.1, r.0.id, u.seq != 0, u.events@);
            &&& standing(e.after(u, now), u.keyspace@, u.holder@) == Some(
                Standing { blocks: f.tree.table.held(r.0.id), posture: timeless(f.posture) },
            )
            &&& f == e.feed(u, now)
        }),
{
    let s = arrived(e, u, now);
    let f = start_of(s.tree, s.id, s.posture, u, now, e.default_capacity);
    with_blocks_twice(s.tree.table, s.id.slot() as int, Map::empty(), Map::empty());
    (s, f)
}

/// Events leave a holder in its place.
proof fn events_keep_seat(f: Feed, id: HolderId, observed: bool, events: Seq<WireEvent>)
    requires
        f.tree.table.live(id),
        f.tree.table.held(id).dom().finite(),
    ensures
        fed_all(f, id, observed, events).tree.table.live(id),
        fed_all(f, id, observed, events).tree.table.held(id).dom().finite(),
    decreases events.len(),
{
    if events.len() > 0 {
        events_keep_seat(f, id, observed, events.drop_last());
        let mid = fed_all(f, id, observed, events.drop_last());
        let m = mid.tree.table.held(id);
        with_blocks_twice(mid.tree.table, id.slot() as int, m, m);
        crate::replicas::fed_stems(mid, mid.tree, id, observed, events.last());
    }
}

// ── Clears and removals ─────────────────────────────────────────────────────

/// A holder without blocks has no score.
proof fn no_blocks_no_score(
    e: EngineView,
    key: KeyView,
    name: Seq<char>,
    q: Seq<u64>,
    r: Seq<HolderScore>,
)
    requires
        e.wf(),
        answers(e, key, q, r),
        standing(e, key, name) matches Some(s) ==> s.blocks == Map::<u64, BlockInfo>::empty(),
    ensures
        forall|i: int| 0 <= i < r.len() ==> (#[trigger] r[i]).holder@ != name,
{
    assert forall|i: int| 0 <= i < r.len() implies (#[trigger] r[i]).holder@ != name by {
        let s = e.space(key);
        assert(told(s, q, r[i]));
        let m = choose|m: int| #[trigger] has_score(s, q, m) && scores_member(s, q, m, r[i]);
        if r[i].holder@ == name {
            assert(s.wf());
            member_index_is(s.members, name, m);
            depth_is_greatest(s.tree.table.held(s.members[m].id), q);
            assert(holds(s.tree.table.held(s.members[m].id), at::<BlockInfo>(q, 0)));
        }
    }
}

/// A clear leaves nothing: after an update whose last event clears, the holder has
/// no blocks, whatever it held and whatever else the update did, and no query
/// scores it.
pub proof fn clears_leave_nothing(
    e: EngineView,
    u: UpdateMsg,
    now: u64,
    q: Seq<u64>,
    r: Seq<HolderScore>,
)
    requires
        applies(e, u),
        counted_in(before(e, u), u),
        u.events@.len() > 0,
        u.events@.last() is Cleared,
    ensures
        standing(e.after(u, now), u.keyspace@, u.holder@) is Some,
        after(e, u, now).blocks == Map::<u64, BlockInfo>::empty(),
        answers(e.after(u, now), u.keyspace@, q, r) ==> forall|i: int|
            0 <= i < r.len() ==> (#[trigger] r[i]).holder@ != u.holder@,
{
    let (s, f) = met_by_events(e, u, now);
    let init = u.events@.drop_last();
    events_keep_seat(f, s.id, u.seq != 0, init);
    let mid = fed_all(f, s.id, u.seq != 0, init);
    with_blocks_twice(mid.tree.table, s.id.slot() as int, Map::empty(), Map::empty());
    if answers(e.after(u, now), u.keyspace@, q, r) {
        no_blocks_no_score(e.after(u, now), u.keyspace@, u.holder@, q, r);
    }
}

/// A higher epoch leaves nothing of the lower ones: whatever the holder has
/// afterwards, the update's own events brought.
pub proof fn higher_epochs_bring_their_own(e: EngineView, u: UpdateMsg, now: u64, k: u64)
    requires
        applies(e, u),
        before(e, u) matches Some(s) && u.epoch > s.posture.epoch,
        after(e, u, now).blocks.contains_key(k),
    ensures
        exists|i: int| 0 <= i < u.events@.len() && brings(#[trigger] u.events@[i], k),
{
    let (s, f) = met_by_events(e, u, now);
    keys_are_brought(f, s.id, u.seq != 0, u.events@, k);
}

/// The event stores a block under the key.
pub open spec fn brings(event: WireEvent, k: u64) -> bool {
    event matches WireEvent::Stored { parent, blocks } && exists|j: int|
        0 <= j < blocks@.len() && (#[trigger] blocks@[j]).seq_hash.0 == k
}

proof fn keys_are_brought(f: Feed, id: HolderId, observed: bool, events: Seq<WireEvent>, k: u64)
    requires
        f.tree.table.live(id),
        f.tree.table.held(id).dom().finite(),
        fed_all(f, id, observed, events).tree.table.held(id).contains_key(k),
    ensures
        f.tree.table.held(id).contains_key(k) || exists|i: int|
            0 <= i < events.len() && brings(#[trigger] events[i], k),
    decreases events.len(),
{
    if events.len() > 0 {
        let init = events.drop_last();
        let mid = fed_all(f, id, observed, init);
        events_keep_seat(f, id, observed, init);
        let n = events.len() - 1;
        if mid.tree.table.held(id).contains_key(k) {
            keys_are_brought(f, id, observed, init, k);
            if !f.tree.table.held(id).contains_key(k) {
                let i = choose|i: int| 0 <= i < init.len() && brings(#[trigger] init[i], k);
                assert(events[i] == init[i]);
            }
        } else {
            crate::engine::fed_shrinks(mid, id, observed, events.last());
            let m = mid.tree.table.held(id);
            assert(crate::engine::named(events.last()).contains(k));
            match events.last() {
                WireEvent::Stored { parent, blocks } => {
                    let j = choose|j: int|
                        0 <= j < blocks@.len() && (#[trigger] blocks@[j]).seq_hash.0 == k;
                    assert(brings(events[n], k));
                },
                WireEvent::Removed { seq_hashes } => {
                    let keys = keys_of(seq_hashes@);
                    with_blocks_twice(
                        mid.tree.table,
                        id.slot() as int,
                        model::pruned(m, keys),
                        model::pruned(m, keys),
                    );
                },
                WireEvent::Cleared => {},
            }
        }
    }
}

/// The event removes the block under the key.
pub open spec fn removes(event: WireEvent, k: u64) -> bool {
    event matches WireEvent::Removed { seq_hashes } && exists|i: int|
        0 <= i < seq_hashes@.len() && (#[trigger] seq_hashes@[i]).0 == k
}

/// A removal takes what it names and nothing else: no block that it names is left,
/// and every other block stays where it was. Whoever removes has an event feed.
pub proof fn removals_take_what_they_name(e: EngineView, u: UpdateMsg, now: u64)
    requires
        applies(e, u),
        counted_in(before(e, u), u),
        u.events@.len() == 1,
        u.events@[0] is Removed,
    ensures
        after(e, u, now).posture.event_fed,
        forall|k: u64| #[trigger]
            after(e, u, now).blocks.contains_key(k) <==> met_blocks(before(e, u), u).contains_key(
                k,
            ) && !removes(u.events@[0], k),
        forall|k: u64| #[trigger]
            after(e, u, now).blocks.contains_key(k) ==> after(e, u, now).blocks[k] == met_blocks(
                before(e, u),
                u,
            )[k],
{
    let (s, f) = met_by_events(e, u, now);
    let m = f.tree.table.held(s.id);
    assert(u.events@.drop_last() =~= Seq::empty());
    assert(fed_all(f, s.id, u.seq != 0, u.events@.drop_last()) == f);
    match u.events@[0] {
        WireEvent::Removed { seq_hashes } => {
            let keys = keys_of(seq_hashes@);
            let g = model::pruned(m, keys);
            with_blocks_twice(f.tree.table, s.id.slot() as int, g, g);
            assert forall|k: u64| keys.to_set().contains(k) <==> removes(u.events@[0], k) by {
                if keys.contains(k) {
                    let i = keys.index_of(k);
                    assert(seq_hashes@[i].0 == k);
                }
                if removes(u.events@[0], k) {
                    let i = choose|i: int|
                        0 <= i < seq_hashes@.len() && (#[trigger] seq_hashes@[i]).0 == k;
                    assert(keys[i] == k);
                }
            }
        },
        _ => {},
    }
}

/// What an update removes last is gone, whatever it did before.
pub proof fn last_removals_hold(e: EngineView, u: UpdateMsg, now: u64, k: u64)
    requires
        applies(e, u),
        counted_in(before(e, u), u),
        u.events@.len() > 0,
        removes(u.events@.last(), k),
    ensures
        !after(e, u, now).blocks.contains_key(k),
{
    let (s, f) = met_by_events(e, u, now);
    let init = u.events@.drop_last();
    events_keep_seat(f, s.id, u.seq != 0, init);
    let mid = fed_all(f, s.id, u.seq != 0, init);
    let m = mid.tree.table.held(s.id);
    match u.events@.last() {
        WireEvent::Removed { seq_hashes } => {
            let keys = keys_of(seq_hashes@);
            let g = model::pruned(m, keys);
            with_blocks_twice(mid.tree.table, s.id.slot() as int, g, g);
            let i = choose|i: int| 0 <= i < seq_hashes@.len() && (#[trigger] seq_hashes@[i]).0 == k;
            assert(keys[i] == k);
            assert(keys.to_set().contains(k));
        },
        _ => {},
    }
}

// ── Stores ──────────────────────────────────────────────────────────────────

/// The keys of the batch are new: no two are the same, and the holder has none.
pub open spec fn new_keys(m: Map<u64, BlockInfo>, blocks: Seq<WireBlock>) -> bool {
    &&& forall|i: int| 0 <= i < blocks.len() ==> !m.contains_key((#[trigger] blocks[i]).seq_hash.0)
    &&& forall|i: int, j: int|
        0 <= i < j < blocks.len() ==> (#[trigger] blocks[i]).seq_hash.0 != (
        #[trigger] blocks[j]).seq_hash.0
}

/// The holder has the chain `c`, whose last block is the parent. A parent that it
/// does not have is none at all.
pub open spec fn continues(
    m: Map<u64, BlockInfo>,
    parent: Option<u64>,
    c: Seq<u64>,
) -> bool {
    if parent is Some && m.contains_key(parent->0) {
        c.len() > 0 && depth(m, c) == c.len() && m[parent->0] == at::<BlockInfo>(c, c.len() - 1)
    } else {
        c.len() == 0
    }
}

/// The contents of the batch, in order.
pub open spec fn content_chain(blocks: Seq<WireBlock>) -> Seq<u64> {
    Seq::new(blocks.len(), |i: int| blocks[i].content_hash.0)
}

/// A batch under new keys adds to what is there.
proof fn new_keys_add(m: Map<u64, BlockInfo>, b: Seq<(u64, BlockInfo)>)
    requires
        forall|i: int| 0 <= i < b.len() ==> !m.contains_key((#[trigger] b[i]).0),
        forall|i: int, j: int|
            0 <= i < j < b.len() ==> (#[trigger] b[i]).0 != (#[trigger] b[j]).0,
    ensures
        forall|k: u64| #[trigger]
            m.contains_key(k) ==> placed(m, b).contains_key(k) && placed(m, b)[k] == m[k],
        forall|k: u64| #[trigger]
            placed(m, b).contains_key(k) ==> m.contains_key(k) || exists|i: int|
                0 <= i < b.len() && (#[trigger] b[i]) == (k, placed(m, b)[k]),
        forall|i: int| 0 <= i < b.len() ==> holds(placed(m, b), (#[trigger] b[i]).1),
    decreases b.len(),
{
    if b.len() > 0 {
        let init = b.drop_last();
        let g = placed(m, init);
        let (k, p) = b.last();
        let h = placed(m, b);
        assert forall|i: int| 0 <= i < init.len() implies !m.contains_key(
            (#[trigger] init[i]).0,
        ) by {
            assert(init[i] == b[i]);
        }
        assert forall|i: int, j: int| 0 <= i < j < init.len() implies (#[trigger] init[i]).0 != (
        #[trigger] init[j]).0 by {
            assert(init[i] == b[i] && init[j] == b[j]);
        }
        new_keys_add(m, init);
        assert(!m.contains_key(b[b.len() - 1].0));
        assert forall|i: int| 0 <= i < init.len() implies b[i].0 != k by {
            assert(b[i].0 != b[b.len() - 1].0);
        }
        assert(!g.contains_key(k)) by {
            if g.contains_key(k) {
                let i = choose|i: int| 0 <= i < init.len() && (#[trigger] init[i]) == (k, g[k]);
                assert(b[i].0 == k);
            }
        }
        assert forall|i: int| 0 <= i < b.len() implies holds(h, (#[trigger] b[i]).1) by {
            if i < init.len() {
                assert(init[i] == b[i]);
                let x = choose|x: u64| #[trigger] g.contains_key(x) && g[x] == b[i].1;
                assert(h.contains_key(x) && h[x] == b[i].1);
            } else if !holds(g, p) {
                assert(h.contains_key(k) && h[k] == p);
            }
        }
        assert forall|x: u64| #[trigger] h.contains_key(x) && !m.contains_key(x) implies exists|
            i: int,
        |
            0 <= i < b.len() && (#[trigger] b[i]) == (x, h[x]) by {
            if g.contains_key(x) {
                let i = choose|i: int| 0 <= i < init.len() && (#[trigger] init[i]) == (x, g[x]);
                assert(b[i] == (x, h[x]));
            } else {
                assert(b[b.len() - 1] == (x, h[x]));
            }
        }
    }
}

/// Where a batch stands that continues the chain `c`.
proof fn trail_continues(
    anchor: Option<BlockInfo>,
    c: Seq<u64>,
    blocks: Seq<(u64, u64)>,
    q: Seq<u64>,
    i: int,
)
    requires
        anchor matches Some(a) ==> c.len() > 0 && a == at::<BlockInfo>(c, c.len() - 1),
        anchor is None ==> c.len() == 0,
        q.len() == c.len() + blocks.len(),
        forall|x: int| 0 <= x < c.len() ==> q[x] == c[x],
        forall|x: int| 0 <= x < blocks.len() ==> q[c.len() + x] == (#[trigger] blocks[x]).1,
        0 <= i < blocks.len(),
    ensures
        trail(anchor, blocks).len() == blocks.len(),
        trail(anchor, blocks)[i] == (blocks[i].0, at::<BlockInfo>(q, c.len() + i)),
    decreases blocks.len(),
{
    let init = blocks.drop_last();
    let n = blocks.len() - 1;
    trail_len(anchor, blocks);
    trail_len(anchor, init);
    let r = q.take(c.len() + n);
    assert forall|x: int| 0 <= x < init.len() implies r[c.len() + x] == (#[trigger] init[x]).1 by {
        assert(init[x] == blocks[x]);
    }
    if i < n {
        trail_continues(anchor, c, init, r, i);
        crate::laws::at_depends_on_prefix::<BlockInfo>(r, q, c.len() + i);
    } else if n > 0 {
        trail_continues(anchor, c, init, r, n - 1);
        crate::laws::at_depends_on_prefix::<BlockInfo>(r, q, c.len() + n - 1);
        assert(blocks[n].1 == q[c.len() + n]);
    } else {
        assert(blocks[0].1 == q[c.len() as int]);
        if c.len() > 0 {
            crate::laws::at_depends_on_prefix::<BlockInfo>(c, q, c.len() - 1);
        }
    }
}

/// One stored batch, before any cut.
proof fn batch_lands(
    m: Map<u64, BlockInfo>,
    parent: Option<u64>,
    wire: Seq<WireBlock>,
    c: Seq<u64>,
)
    requires
        new_keys(m, wire),
        parent is Some ==> m.contains_key(parent->0),
        continues(m, parent, c),
    ensures
        ({
            let g = placed(m, batch(m, parent, pairs_of(wire)));
            &&& forall|k: u64| #[trigger] m.contains_key(k) ==> g.contains_key(k) && g[k] == m[k]
            &&& forall|k: u64| #[trigger]
                g.contains_key(k) ==> m.contains_key(k) || exists|i: int|
                    0 <= i < wire.len() && (#[trigger] wire[i]).seq_hash.0 == k && g[k]
                        == at::<BlockInfo>(c + content_chain(wire), c.len() + i)
            &&& depth(g, c + content_chain(wire)) == c.len() + wire.len()
        }),
{
    let pairs = pairs_of(wire);
    let b = batch(m, parent, pairs);
    let g = placed(m, b);
    let q = c + content_chain(wire);
    let n = wire.len() as int;
    let a = model::anchor(m, parent);
    trail_len(a, pairs);
    assert forall|i: int| 0 <= i < n implies #[trigger] b[i] == (
        wire[i].seq_hash.0,
        at::<BlockInfo>(q, c.len() + i),
    ) by {
        trail_continues(a, c, pairs, q, i);
    }
    assert forall|i: int| 0 <= i < b.len() implies !m.contains_key((#[trigger] b[i]).0) by {
        assert(!m.contains_key(wire[i].seq_hash.0));
    }
    assert forall|i: int, j: int| 0 <= i < j < b.len() implies (#[trigger] b[i]).0 != (
    #[trigger] b[j]).0 by {
        assert(wire[i].seq_hash.0 != wire[j].seq_hash.0);
    }
    new_keys_add(m, b);
    assert forall|k: u64| #[trigger] g.contains_key(k) && !m.contains_key(k) implies exists|i: int|
        0 <= i < wire.len() && (#[trigger] wire[i]).seq_hash.0 == k && g[k] == at::<BlockInfo>(
            q,
            c.len() + i,
        ) by {
        let i = choose|i: int| 0 <= i < b.len() && (#[trigger] b[i]) == (k, g[k]);
        assert(wire[i].seq_hash.0 == k);
    }
    depth_is_greatest(m, c);
    assert forall|p: int| 0 <= p < q.len() implies holds(g, #[trigger] at::<BlockInfo>(q, p)) by {
        if p < c.len() {
            crate::laws::at_depends_on_prefix::<BlockInfo>(c, q, p);
            assert(holds(m, at::<BlockInfo>(c, p)));
            let k = choose|k: u64| #[trigger] m.contains_key(k) && m[k] == at::<BlockInfo>(c, p);
            assert(g.contains_key(k) && g[k] == at::<BlockInfo>(q, p));
        } else {
            let i = p - c.len();
            assert(b[i].1 == at::<BlockInfo>(q, p));
        }
    }
    depth_at_least(g, q, q.len() as int);
    depth_is_greatest(g, q);
}

/// The update stores one batch and does nothing else.
pub open spec fn stores_batch(u: UpdateMsg, parent: Option<u64>, blocks: Seq<WireBlock>) -> bool {
    &&& u.events@.len() == 1
    &&& u.events@[0] matches WireEvent::Stored { parent: up, blocks: own }
    &&& own@ == blocks
    &&& match up {
        None => parent is None,
        Some(h) => parent == Some(h.0),
    }
}

/// The parent that a batch goes under.
spec fn under(m: Map<u64, BlockInfo>, parent: Option<u64>) -> Option<u64> {
    if parent is Some && m.contains_key(parent->0) {
        parent
    } else {
        None
    }
}

/// One batch on its way in.
proof fn one_store(
    f: Feed,
    id: HolderId,
    observed: bool,
    events: Seq<WireEvent>,
    parent: Option<u64>,
    wire: Seq<WireBlock>,
)
    requires
        f.tree.table.live(id),
        f.tree.table.held(id).dom().finite(),
        events.len() == 1,
        events[0] matches WireEvent::Stored { parent: up, blocks } && blocks@ == wire && match up {
            None => parent is None,
            Some(h) => parent == Some(h.0),
        },
        observed || !f.posture.event_fed,
    ensures
        ({
            let m = f.tree.table.held(id);
            let up = under(m, parent);
            let from = model::start(m, up);
            let g = placed(m, batch(m, up, pairs_of(wire)));
            let bound = runaway_bound(f.posture.capacity_blocks) as int;
            let post = fed_all(f, id, observed, events);
            &&& post.outcome == f.outcome
            &&& post.posture == Posture { event_fed: f.posture.event_fed || observed, ..f.posture }
            &&& g.dom().finite()
            &&& model::truncated(g, bound, cut(g, bound))
            &&& wire.len() > 0 ==> post.tree.table.held(id) == if from + wire.len() > f.tree.limit {
                m
            } else if !observed && g.len() > bound {
                cut(g, bound)
            } else {
                g
            }
        }),
{
    let m = f.tree.table.held(id);
    let pairs = pairs_of(wire);
    assert(events.drop_last() =~= Seq::empty());
    assert(fed_all(f, id, observed, events.drop_last()) == f);
    let up = under(m, parent);
    let b = batch(m, up, pairs);
    let g = placed(m, b);
    let bound = runaway_bound(f.posture.capacity_blocks) as int;
    placed_len(m, b);
    let x = cut_exists(g, bound);
    with_blocks_twice(f.tree.table, id.slot() as int, g, g);
    with_blocks_twice(f.tree.table, id.slot() as int, g, cut(g, bound));
    with_blocks_twice(f.tree.table, id.slot() as int, m, m);
    assert(pairs.len() == wire.len());
}

/// Blocks that a worker reports, or that are placed where there is room, are there:
/// the batch continues its parent's chain, or starts one where the holder does not
/// have the parent; queries for the whole chain match all of it, and no block that
/// was there is lost or moved.
pub proof fn stored_batches_are_found(
    e: EngineView,
    u: UpdateMsg,
    now: u64,
    parent: Option<u64>,
    blocks: Seq<WireBlock>,
    c: Seq<u64>,
    r: Seq<HolderScore>,
)
    requires
        applies(e, u),
        counted_in(before(e, u), u),
        stores_batch(u, parent, blocks),
        blocks.len() > 0,
        u.seq != 0 || !fed_before(before(e, u), u),
        u.seq != 0 || met_blocks(before(e, u), u).len() + blocks.len() <= twice(room_for(e, u)),
        new_keys(met_blocks(before(e, u), u), blocks),
        continues(met_blocks(before(e, u), u), parent, c),
        c.len() + blocks.len() <= e.space(u.keyspace@).tree.limit,
    ensures
        ({
            let m = met_blocks(before(e, u), u);
            let post = after(e, u, now);
            let q = c + content_chain(blocks);
            &&& e.answer(u, now).0 == ApplyOutcome::Applied
            &&& depth(post.blocks, q) == c.len() + blocks.len()
            &&& forall|k: u64| #[trigger]
                m.contains_key(k) ==> post.blocks.contains_key(k) && post.blocks[k] == m[k]
            &&& forall|k: u64| #[trigger]
                post.blocks.contains_key(k) ==> m.contains_key(k) || exists|i: int|
                    0 <= i < blocks.len() && (#[trigger] blocks[i]).seq_hash.0 == k
                        && post.blocks[k] == at::<BlockInfo>(q, c.len() + i)
            &&& post.posture.event_fed == (u.seq != 0 || fed_before(before(e, u), u))
            &&& answers(e.after(u, now), u.keyspace@, q, r) && !post.posture.dropped ==> exists|
                i: int,
            |
                0 <= i < r.len() && (#[trigger] r[i]).holder@ == u.holder@ && r[i].matched_blocks
                    == c.len() + blocks.len() && r[i].total_blocks == post.blocks.len()
        }),
{
    let q = c + content_chain(blocks);
    let post = after(e, u, now);
    let m = met_blocks(before(e, u), u);
    let up = under(m, parent);
    batch_arrives(e, u, now, parent, blocks, c);
    batch_lands(m, up, blocks, c);
    if answers(e.after(u, now), u.keyspace@, q, r) && !post.posture.dropped {
        standing_is_told(e.after(u, now), u.keyspace@, u.holder@, q, r);
        let i = choose|i: int|
            0 <= i < r.len() && (#[trigger] r[i]).holder@ == u.holder@ && r[i].matched_blocks
                == depth(post.blocks, q) && r[i].total_blocks == post.blocks.len();
        assert(r[i].holder@ == u.holder@);
    }
}

proof fn batch_arrives(
    e: EngineView,
    u: UpdateMsg,
    now: u64,
    parent: Option<u64>,
    blocks: Seq<WireBlock>,
    c: Seq<u64>,
)
    requires
        applies(e, u),
        counted_in(before(e, u), u),
        stores_batch(u, parent, blocks),
        blocks.len() > 0,
        u.seq != 0 || !fed_before(before(e, u), u),
        u.seq != 0 || met_blocks(before(e, u), u).len() + blocks.len() <= twice(room_for(e, u)),
        continues(met_blocks(before(e, u), u), parent, c),
        c.len() + blocks.len() <= e.space(u.keyspace@).tree.limit,
    ensures
        ({
            let m = met_blocks(before(e, u), u);
            let post = after(e, u, now);
            &&& e.answer(u, now).0 == ApplyOutcome::Applied
            &&& e.after(u, now).wf()
            &&& standing(e.after(u, now), u.keyspace@, u.holder@) == Some(post)
            &&& post.blocks == placed(m, batch(m, under(m, parent), pairs_of(blocks)))
            &&& post.posture.event_fed == (u.seq != 0 || fed_before(before(e, u), u))
        }),
{
    let (s, f) = met_by_events(e, u, now);
    let id = s.id;
    let m = f.tree.table.held(id);
    let observed = u.seq != 0;
    let up = under(m, parent);
    let b = batch(m, up, pairs_of(blocks));
    let g = placed(m, b);
    one_store(f, id, observed, u.events@, parent, blocks);
    if c.len() > 0 {
        chain_position(c, c.len() - 1);
    }
    placed_len(m, b);
    trail_len(model::anchor(m, up), pairs_of(blocks));
    assert(pairs_of(blocks).len() == blocks.len());
    if !observed {
        assert(g.len() <= twice(room_for(e, u)));
    }
}

/// Positions count up.
proof fn chain_position(q: Seq<u64>, p: int)
    requires
        0 <= p < 0x1_0000_0000,
    ensures
        at::<BlockInfo>(q, p).pos == p,
    decreases p,
{
    if p > 0 {
        chain_position(q, p - 1);
    }
}

/// A batch adds no more blocks than it has.
proof fn placed_len(m: Map<u64, BlockInfo>, b: Seq<(u64, BlockInfo)>)
    requires
        m.dom().finite(),
    ensures
        placed(m, b).dom().finite(),
        placed(m, b).len() <= m.len() + b.len(),
    decreases b.len(),
{
    if b.len() > 0 {
        placed_len(m, b.drop_last());
    }
}

/// A holder that is not dropped and matches has its score in every answer.
proof fn standing_is_told(
    e: EngineView,
    key: KeyView,
    name: Seq<char>,
    q: Seq<u64>,
    r: Seq<HolderScore>,
)
    requires
        e.wf(),
        answers(e, key, q, r),
        standing(e, key, name) matches Some(s) && !s.posture.dropped && depth(s.blocks, q) > 0,
    ensures
        exists|i: int|
            0 <= i < r.len() && (#[trigger] r[i]).holder@ == name && r[i].matched_blocks == depth(
                standing(e, key, name)->0.blocks,
                q,
            ) && r[i].total_blocks == standing(e, key, name)->0.blocks.len() && r[i].event_fed
                == standing(e, key, name)->0.posture.event_fed,
{
    let s = e.space(key);
    if space_index(e.spaces, key) is None {
        assert(member_index(new_space(key).members, name) is None);
    }
    let m = member_index(s.members, name)->0;
    assert(s.members[m].name == name);
    assert(has_score(s, q, m));
    assert(scored(s, q, r));
    assert(tells(s, q, m, r));
    let i = choose|i: int| 0 <= i < r.len() && scores_member(s, q, m, #[trigger] r[i]);
    assert(r[i].holder@ == name);
}

/// The place of the block with the given content under the parent.
pub open spec fn place_under(
    m: Map<u64, BlockInfo>,
    parent: Option<u64>,
    content: u64,
) -> BlockInfo {
    if parent is Some && m.contains_key(parent->0) {
        m[parent->0].extend(content)
    } else {
        BlockInfo::first(content)
    }
}

/// A block goes to its place: behind its parent, or first where the holder does not
/// have the parent. If the holder has that place already, nothing changes; if not,
/// the block's key leads there from now on, wherever it led before, and no other key
/// is touched.
pub proof fn blocks_go_to_their_place(
    e: EngineView,
    u: UpdateMsg,
    now: u64,
    parent: Option<u64>,
    block: WireBlock,
)
    requires
        applies(e, u),
        counted_in(before(e, u), u),
        stores_batch(u, parent, seq![block]),
        u.seq != 0,
        ({
            let m = met_blocks(before(e, u), u);
            place_under(m, parent, block.content_hash.0).pos < e.space(u.keyspace@).tree.limit
                && (parent is Some && m.contains_key(parent->0) ==> m[parent->0].pos < u32::MAX)
        }),
    ensures
        ({
            let m = met_blocks(before(e, u), u);
            let p = place_under(m, parent, block.content_hash.0);
            let post = after(e, u, now).blocks;
            let key = block.seq_hash.0;
            if exists|k: u64| #[trigger] m.contains_key(k) && m[k] == p {
                post == m
            } else {
                &&& post.contains_key(key) && post[key] == p
                &&& forall|k: u64|
                    k != key ==> #[trigger] post.contains_key(k) == m.contains_key(k) && (
                    m.contains_key(k) ==> post[k] == m[k])
            }
        }),
{
    let (s, f) = met_by_events(e, u, now);
    let id = s.id;
    let m = f.tree.table.held(id);
    let pairs = pairs_of(seq![block]);
    assert(pairs =~= seq![(block.seq_hash.0, block.content_hash.0)]);
    assert(u.events@.drop_last() =~= Seq::empty());
    assert(fed_all(f, id, true, u.events@.drop_last()) == f);
    let up = if parent is Some && m.contains_key(parent->0) {
        parent
    } else {
        None
    };
    let p = place_under(m, parent, block.content_hash.0);
    let b = batch(m, up, pairs);
    assert(pairs.drop_last() =~= Seq::empty());
    assert(trail(model::anchor(m, up), pairs.drop_last()) =~= Seq::empty());
    assert(b =~= seq![(block.seq_hash.0, p)]);
    assert(b.drop_last() =~= Seq::empty());
    assert(placed(m, b.drop_last()) == m);
    let g = placed(m, b);
    with_blocks_twice(f.tree.table, id.slot() as int, g, g);
    assert(after(e, u, now).blocks == g);
}

/// A batch that would reach past the longest chain is left out whole.
pub proof fn overlong_batches_store_nothing(
    e: EngineView,
    u: UpdateMsg,
    now: u64,
    parent: Option<u64>,
    blocks: Seq<WireBlock>,
)
    requires
        applies(e, u),
        counted_in(before(e, u), u),
        stores_batch(u, parent, blocks),
        ({
            let m = met_blocks(before(e, u), u);
            let from = if parent is Some && m.contains_key(parent->0) {
                m[parent->0].pos + 1
            } else {
                0
            };
            from + blocks.len() > e.space(u.keyspace@).tree.limit && blocks.len() > 0
        }),
    ensures
        after(e, u, now).blocks == met_blocks(before(e, u), u),
{
    let (s, f) = met_by_events(e, u, now);
    assert(u.events@.drop_last() =~= Seq::empty());
    assert(fed_all(f, s.id, u.seq != 0, u.events@.drop_last()) == f);
    assert(pairs_of(blocks).len() == blocks.len());
}

/// A holder without an event feed stays within twice its capacity whenever something
/// was placed; what is cut off is never before what stays, and nothing is cut off
/// that fits.
pub proof fn placements_stay_within_bounds(
    e: EngineView,
    u: UpdateMsg,
    now: u64,
    parent: Option<u64>,
    blocks: Seq<WireBlock>,
)
    requires
        applies(e, u),
        counted_in(before(e, u), u),
        stores_batch(u, parent, blocks),
        u.seq == 0,
        !fed_before(before(e, u), u),
        met_blocks(before(e, u), u).len() <= twice(room_for(e, u)),
    ensures
        ({
            let m = met_blocks(before(e, u), u);
            let post = after(e, u, now).blocks;
            &&& post.len() <= twice(room_for(e, u))
            &&& forall|j: u64, k: u64|
                #![trigger post.contains_key(j), m.contains_key(k)]
                post.contains_key(j) && m.contains_key(k) && !post.contains_key(k) && !brings(
                    u.events@[0],
                    k,
                ) ==> post[j].pos <= m[k].pos && post.len() == twice(room_for(e, u))
        }),
{
    let m = met_blocks(before(e, u), u);
    let post = after(e, u, now).blocks;
    let g = placed(m, batch(m, under(m, parent), pairs_of(blocks)));
    placement_arrives(e, u, now, parent, blocks);
    assert forall|j: u64, k: u64|
        #![trigger post.contains_key(j), m.contains_key(k)]
        post.contains_key(j) && m.contains_key(k) && !post.contains_key(k) && !brings(
            u.events@[0],
            k,
        ) implies post[j].pos <= m[k].pos && post.len() == twice(room_for(e, u)) by {
        unnamed_blocks_stay(m, under(m, parent), blocks, k);
        assert(g.contains_key(k));
        assert(model::truncated(g, twice(room_for(e, u)), post));
        crate::laws::kept_as_is(post, g, j);
        assert(model::ahead(g, j, k));
    }
}

proof fn unnamed_blocks_stay(
    m: Map<u64, BlockInfo>,
    up: Option<u64>,
    blocks: Seq<WireBlock>,
    k: u64,
)
    requires
        m.contains_key(k),
        forall|i: int| 0 <= i < blocks.len() ==> (#[trigger] blocks[i]).seq_hash.0 != k,
    ensures
        placed(m, batch(m, up, pairs_of(blocks))).contains_key(k),
        placed(m, batch(m, up, pairs_of(blocks)))[k] == m[k],
{
    let pairs = pairs_of(blocks);
    let b = batch(m, up, pairs);
    trail_len(model::anchor(m, up), pairs);
    assert forall|i: int| 0 <= i < b.len() implies (#[trigger] b[i]).0 != k by {
        crate::engine::trail_keys(model::anchor(m, up), pairs, i);
        assert(blocks[i].seq_hash.0 == pairs[i].0);
    }
    crate::engine::placed_names(m, b, k);
}

/// What a placement leaves: all there was and all it brought, cut down where that is
/// too much.
proof fn placement_arrives(
    e: EngineView,
    u: UpdateMsg,
    now: u64,
    parent: Option<u64>,
    blocks: Seq<WireBlock>,
)
    requires
        applies(e, u),
        counted_in(before(e, u), u),
        stores_batch(u, parent, blocks),
        u.seq == 0,
        !fed_before(before(e, u), u),
        met_blocks(before(e, u), u).len() <= twice(room_for(e, u)),
    ensures
        ({
            let m = met_blocks(before(e, u), u);
            let post = after(e, u, now).blocks;
            let g = placed(m, batch(m, under(m, parent), pairs_of(blocks)));
            let bound = twice(room_for(e, u));
            &&& post == m || post == g || (g.len() > bound && model::truncated(g, bound, post))
            &&& post.len() <= bound
        }),
{
    let (s, f) = met_by_events(e, u, now);
    one_store(f, s.id, false, u.events@, parent, blocks);
    if blocks.len() == 0 {
        empty_batches_do_nothing(f, s.id, u.events@);
    }
}

/// A batch without blocks changes no block.
proof fn empty_batches_do_nothing(f: Feed, id: HolderId, events: Seq<WireEvent>)
    requires
        f.tree.table.live(id),
        f.tree.table.held(id).dom().finite(),
        f.tree.table.held(id).len() <= twice(f.posture.capacity_blocks),
        events.len() == 1,
        events[0] matches WireEvent::Stored { parent, blocks } && blocks@.len() == 0,
    ensures
        fed_all(f, id, false, events).tree.table.held(id) == f.tree.table.held(id),
{
    let m = f.tree.table.held(id);
    assert(events.drop_last() =~= Seq::empty());
    assert(fed_all(f, id, false, events.drop_last()) == f);
    with_blocks_twice(f.tree.table, id.slot() as int, m, m);
    match events[0] {
        WireEvent::Stored { parent, blocks } => {
            let pairs = pairs_of(blocks@);
            let up = crate::engine::settled_parent(f.tree, id, parent, pairs);
            trail_len(model::anchor(m, up), pairs);
            assert(batch(m, up, pairs) =~= Seq::empty());
            assert(placed(m, batch(m, up, pairs)) == m);
        },
        _ => {},
    }
}

// ── Postures and answers to updates ─────────────────────────────────────────

/// The event shows that there is an event feed: it removes, or it stores under a
/// batch number.
pub open spec fn shows_feed(u: UpdateMsg, i: int) -> bool {
    0 <= i < u.events@.len() && (u.events@[i] is Removed || (u.seq != 0
        && u.events@[i] is Stored))
}

/// Some event before the `n`th removes.
spec fn removed_before(events: Seq<WireEvent>, n: int) -> bool {
    exists|j: int| 0 <= j < n && (#[trigger] events[j]) is Removed
}

proof fn events_tell_feed(f: Feed, id: HolderId, observed: bool, events: Seq<WireEvent>)
    ensures
        ({
            let post = fed_all(f, id, observed, events);
            &&& post.posture == Posture { event_fed: post.posture.event_fed, ..f.posture }
            &&& post.posture.event_fed <==> f.posture.event_fed || exists|i: int|
                0 <= i < events.len() && ((#[trigger] events[i]) is Removed || (observed
                    && events[i] is Stored))
            &&& f.outcome == ApplyOutcome::Applied ==> post.outcome == if !observed && exists|
                i: int,
            |
                0 <= i < events.len() && (#[trigger] events[i]) is Stored && (f.posture.event_fed
                    || removed_before(events, i)) {
                ApplyOutcome::FeedRejected
            } else {
                ApplyOutcome::Applied
            }
        }),
    decreases events.len(),
{
    if events.len() > 0 {
        let init = events.drop_last();
        let n = events.len() - 1;
        let mid = fed_all(f, id, observed, init);
        let post = fed_all(f, id, observed, events);
        events_tell_feed(f, id, observed, init);
        assert forall|i: int| 0 <= i < n implies #[trigger] events[i] == init[i] by {}
        assert forall|i: int| 0 <= i <= n implies removed_before(events, i) == removed_before(
            init,
            i,
        ) by {
            if removed_before(events, i) {
                let j = choose|j: int| 0 <= j < i && (#[trigger] events[j]) is Removed;
                assert(init[j] is Removed);
            }
            if removed_before(init, i) {
                let j = choose|j: int| 0 <= j < i && (#[trigger] init[j]) is Removed;
                assert(events[j] is Removed);
            }
        }
        let tells = |i: int|
            0 <= i < events.len() && (events[i] is Removed || (observed && events[i] is Stored));
        if mid.posture.event_fed && !f.posture.event_fed {
            let i = choose|i: int|
                0 <= i < init.len() && ((#[trigger] init[i]) is Removed || (observed
                    && init[i] is Stored));
            assert(events[i] is Removed || (observed && events[i] is Stored));
        }
        if !observed {
            assert(mid.posture.event_fed <==> f.posture.event_fed || removed_before(init, n)) by {
                if mid.posture.event_fed && !f.posture.event_fed {
                    let i = choose|i: int|
                        0 <= i < init.len() && ((#[trigger] init[i]) is Removed || (observed
                            && init[i] is Stored));
                    assert(init[i] is Removed);
                }
                if removed_before(init, n) {
                    let j = choose|j: int| 0 <= j < n && (#[trigger] init[j]) is Removed;
                    assert(init[j] is Removed);
                }
            }
            if exists|i: int|
                0 <= i < init.len() && (#[trigger] init[i]) is Stored && (f.posture.event_fed
                    || removed_before(init, i)) {
                let i = choose|i: int|
                    0 <= i < init.len() && (#[trigger] init[i]) is Stored && (f.posture.event_fed
                        || removed_before(init, i));
                assert(events[i] is Stored && (f.posture.event_fed || removed_before(events, i)));
            }
            if exists|i: int|
                0 <= i < events.len() && (#[trigger] events[i]) is Stored && (f.posture.event_fed
                    || removed_before(events, i)) {
                let i = choose|i: int|
                    0 <= i < events.len() && (#[trigger] events[i]) is Stored
                        && (f.posture.event_fed || removed_before(events, i));
                if i < n {
                    assert(init[i] is Stored && (f.posture.event_fed || removed_before(init, i)));
                }
            }
        }
        assert(events[n] == events.last());
    }
}

/// What an update makes of a holder's posture. A past epoch changes nothing. Else the
/// epoch is the update's; the watermark is the highest batch number of the epoch; a
/// control payload sets the capacity, brings a dropped holder back, and may tell of an
/// event feed, which events tell of too; and a holder stays what it was otherwise.
pub proof fn postures_follow_updates(e: EngineView, u: UpdateMsg, now: u64)
    requires
        applies(e, u),
    ensures
        standing(e.after(u, now), u.keyspace@, u.holder@) is Some,
        outdated(before(e, u), u) ==> Some(after(e, u, now)) == before(e, u),
        !outdated(before(e, u), u) ==> {
            let p = after(e, u, now).posture;
            &&& p.epoch == u.epoch
            &&& p.capacity_blocks == room_for(e, u)
            &&& p.dropped <==> u.dropped || (u.added is None && (before(e, u) matches Some(s)
                && s.posture.dropped))
            &&& p.last_seq == match before(e, u) {
                Some(s) => if s.posture.epoch == u.epoch && s.posture.last_seq > u.seq {
                    s.posture.last_seq
                } else {
                    u.seq
                },
                None => u.seq,
            }
            &&& p.event_fed <==> fed_before(before(e, u), u) || (!repeated(before(e, u), u)
                && exists|i: int| #[trigger] shows_feed(u, i))
        },
        repeated(before(e, u), u) ==> after(e, u, now).blocks == before(e, u)->0.blocks,
{
    let s = arrived(e, u, now);
    if !outdated(before(e, u), u) {
        let f = start_of(s.tree, s.id, s.posture, u, now, e.default_capacity);
        events_tell_feed(f, s.id, u.seq != 0, u.events@);
        if exists|i: int|
            0 <= i < u.events@.len() && ((#[trigger] u.events@[i]) is Removed || (u.seq != 0
                && u.events@[i] is Stored)) {
            let i = choose|i: int|
                0 <= i < u.events@.len() && ((#[trigger] u.events@[i]) is Removed || (u.seq != 0
                    && u.events@[i] is Stored));
            assert(shows_feed(u, i));
        }
        if exists|i: int| #[trigger] shows_feed(u, i) {
            let i = choose|i: int| #[trigger] shows_feed(u, i);
            assert(u.events@[i] is Removed || (u.seq != 0 && u.events@[i] is Stored));
        }
    }
}

/// The event is a placement for a holder that has an event feed by then.
pub open spec fn bounces(s: Option<Standing>, u: UpdateMsg, i: int) -> bool {
    &&& u.seq == 0
    &&& 0 <= i < u.events@.len()
    &&& u.events@[i] is Stored
    &&& fed_before(s, u) || exists|j: int| 0 <= j < i && (#[trigger] u.events@[j]) is Removed
}

/// What an update is answered: the watermark is the holder's, a batch of the past is
/// deduplicated, a placement for an event feed is refused, all else is applied; and
/// an update that is told to change something did so, as one that is told not to did
/// not.
pub proof fn answers_tell_what_happened(e: EngineView, u: UpdateMsg, now: u64)
    requires
        applies(e, u),
    ensures
        ({
            let r = e.answer(u, now);
            let s = before(e, u);
            let t = after(e, u, now);
            &&& r.1 == t.posture.last_seq
            &&& r.0 == if outdated(s, u) || repeated(s, u) {
                ApplyOutcome::Deduped
            } else if exists|i: int| #[trigger] bounces(s, u, i) {
                ApplyOutcome::FeedRejected
            } else {
                ApplyOutcome::Applied
            }
            &&& r.2 <==> match s {
                None => true,
                Some(s) => {
                    ||| t.blocks != s.blocks
                    ||| t.posture.epoch != s.posture.epoch
                    ||| t.posture.capacity_blocks != s.posture.capacity_blocks
                    ||| t.posture.dropped != s.posture.dropped
                    ||| t.posture.event_fed != s.posture.event_fed
                },
            }
        }),
{
    let seat = arrived(e, u, now);
    let s = before(e, u);
    if !outdated(s, u) && !repeated(s, u) {
        let f = start_of(seat.tree, seat.id, seat.posture, u, now, e.default_capacity);
        events_tell_feed(f, seat.id, u.seq != 0, u.events@);
        if exists|i: int| #[trigger] bounces(s, u, i) {
            let i = choose|i: int| #[trigger] bounces(s, u, i);
            assert(u.events@[i] is Stored && (f.posture.event_fed || removed_before(u.events@, i)));
        }
        if u.seq == 0 && exists|i: int|
            0 <= i < u.events@.len() && (#[trigger] u.events@[i]) is Stored && (f.posture.event_fed
                || removed_before(u.events@, i)) {
            let i = choose|i: int|
                0 <= i < u.events@.len() && (#[trigger] u.events@[i]) is Stored
                    && (f.posture.event_fed || removed_before(u.events@, i));
            assert(bounces(s, u, i));
        }
    }
}

/// A keyspace without a block size takes nothing.
pub proof fn keyspaces_need_blocks(e: EngineView, u: UpdateMsg, now: u64)
    requires
        u.keyspace.block_size == 0,
    ensures
        e.after(u, now) == e,
        e.answer(u, now) == (ApplyOutcome::KeyspaceMismatch, 0u64, false),
{
}

/// An update is for one holder of one keyspace: no other holder of its keyspace, and
/// no holder of another keyspace, notices.
pub proof fn others_do_not_notice(
    e: EngineView,
    u: UpdateMsg,
    now: u64,
    key: KeyView,
    name: Seq<char>,
)
    requires
        applies(e, u),
        key != u.keyspace@ || name != u.holder@,
    ensures
        standing(e.after(u, now), key, name) == standing(e, key, name),
{
    arrival(e, u, now, key, name);
}

/// A holder published at the time of its last update that was not of a past epoch.
pub proof fn updates_keep_holders_fresh(e: EngineView, u: UpdateMsg, now: u64)
    requires
        applies(e, u),
        !outdated(before(e, u), u),
    ensures
        ({
            let s = e.after(u, now).space(u.keyspace@);
            let j = member_index(s.members, u.holder@);
            j is Some && s.members[j->0].posture.last_publish == now
        }),
{
    let seat = arrived(e, u, now);
    let f = start_of(seat.tree, seat.id, seat.posture, u, now, e.default_capacity);
    events_tell_feed(f, seat.id, u.seq != 0, u.events@);
    let post = e.after(u, now);
    let key = u.keyspace@;
    let space = e.admitted(u, now);
    let j = member_index(space.members, u.holder@)->0;
    let fd = e.feed(u, now);
    let done = space.with_member(j, fd.tree, fd.posture);
    let i = match space_index(e.spaces, key) {
        Some(i) => i,
        None => e.spaces.len() as int,
    };
    assert(post.spaces[i] == done);
    if space_index(e.spaces, key) is None {
        new_space_is_valid(key);
    }
    enrolled_keeps(
        e.space(key),
        u.holder@,
        new_posture(u.epoch, now, e.default_capacity),
        u.holder@,
    );
    assert(done.key == key);
    crate::engine::space_index_is(post.spaces, key, i);
    assert(space.members[j].name == u.holder@);
    assert(done.members[j].name == u.holder@);
    assert(post.spaces[i].wf());
    member_index_is(done.members, u.holder@, j);
}

// ── Sweeps ──────────────────────────────────────────────────────────────────

/// What a sweep does to a holder. One that published within the idle time is left
/// alone. Of those that did not, a dropped one is gone, one without an event feed
/// loses its blocks and nothing else, and one with an event feed is left alone. Nobody
/// comes.
pub proof fn sweeps_take_the_idle(
    pre: SpaceView,
    post: SpaceView,
    now: u64,
    ttl: u64,
    i: int,
)
    requires
        pre.wf(),
        post.wf(),
        swept(pre, post, now, ttl),
        0 <= i < pre.members.len(),
    ensures
        ({
            let m = pre.members[i];
            let held = pre.tree.table.held(m.id);
            local(post, m.name) == if now - m.posture.last_publish <= ttl {
                local(pre, m.name)
            } else if m.posture.dropped {
                None
            } else if m.posture.event_fed {
                local(pre, m.name)
            } else {
                Some(Standing { blocks: Map::empty(), posture: timeless(m.posture) })
            }
        }),
        forall|name: Seq<char>| #[trigger] local(pre, name) is None ==> local(post, name) is None,
{
    let m = pre.members[i];
    let keep = |m: MemberView| !crate::engine::expires(m.posture, now, ttl);
    member_index_is(pre.members, m.name, i);
    pre.members.filter_lemma(keep);
    if keep(m) {
        assert(post.members.contains(m));
        let j = post.members.index_of(m);
        member_index_is(post.members, m.name, j);
    } else if member_index(post.members, m.name) is Some {
        let j = member_index(post.members, m.name)->0;
        swept_was_there(pre.members, keep, j);
        let x = choose|x: int| 0 <= x < pre.members.len() && pre.members[x] == post.members[j];
        assert(pre.members[x].name == m.name);
        member_index_is(pre.members, m.name, x);
        assert(keep(post.members[j]));
    }
    assert forall|name: Seq<char>| #[trigger] local(pre, name) is None implies local(
        post,
        name,
    ) is None by {
        if member_index(post.members, name) is Some {
            let j = member_index(post.members, name)->0;
            swept_was_there(pre.members, keep, j);
            let x = choose|x: int| 0 <= x < pre.members.len() && pre.members[x] == post.members[j];
            member_index_is(pre.members, name, x);
        }
    }
}

/// Who is kept was there.
proof fn swept_was_there(members: Seq<MemberView>, keep: spec_fn(MemberView) -> bool, j: int)
    requires
        0 <= j < members.filter(keep).len(),
    ensures
        exists|x: int| 0 <= x < members.len() && members[x] == members.filter(keep)[j],
    decreases members.len(),
{
    reveal(Seq::filter);
    let init = members.drop_last();
    let f = init.filter(keep);
    if j < f.len() {
        swept_was_there(init, keep, j);
        let x = choose|x: int| 0 <= x < init.len() && init[x] == f[j];
        assert(members[x] == members.filter(keep)[j]);
    } else {
        assert(members[members.len() - 1] == members.filter(keep)[j]);
    }
}

// ── Queries ─────────────────────────────────────────────────────────────────

/// What a query is answered. Every score is of a holder that is known and not
/// dropped, and says how many leading blocks of the chain it has: those it has, the
/// next it has not. Every such holder that has the first block has its score, once;
/// deeper ones come first.
pub proof fn scores_are_depths(
    e: EngineView,
    key: KeyView,
    q: Seq<u64>,
    r: Seq<HolderScore>,
)
    requires
        e.wf(),
        answers(e, key, q, r),
    ensures
        forall|i: int|
            #![trigger r[i]]
            0 <= i < r.len() ==> {
                let s = standing(e, key, r[i].holder@);
                let d = r[i].matched_blocks as int;
                &&& s is Some && !s->0.posture.dropped
                &&& 0 < d <= q.len()
                &&& forall|p: int| 0 <= p < d ==> holds(s->0.blocks, #[trigger] at::<BlockInfo>(q, p))
                &&& d < q.len() ==> !holds(s->0.blocks, at::<BlockInfo>(q, d))
                &&& r[i].total_blocks == s->0.blocks.len()
                &&& r[i].event_fed == s->0.posture.event_fed
            },
        forall|name: Seq<char>|
            #![trigger standing(e, key, name)]
            standing(e, key, name) is Some && !standing(e, key, name)->0.posture.dropped && q.len()
                > 0 && holds(standing(e, key, name)->0.blocks, at::<BlockInfo>(q, 0)) ==> exists|
                i: int,
            |
                0 <= i < r.len() && (#[trigger] r[i]).holder@ == name,
        forall|i: int, j: int|
            0 <= i < j < r.len() ==> (#[trigger] r[i]).matched_blocks >= (
            #[trigger] r[j]).matched_blocks && r[i].holder@ != r[j].holder@,
{
    let s = e.space(key);
    if space_index(e.spaces, key) is None {
        assert forall|name: Seq<char>| #[trigger] standing(e, key, name) is None by {
            assert(member_index(new_space(key).members, name) is None);
        }
    } else {
        assert(s.wf());
        assert forall|i: int| #![trigger r[i]] 0 <= i < r.len() implies {
            let t = standing(e, key, r[i].holder@);
            let d = r[i].matched_blocks as int;
            &&& t is Some && !t->0.posture.dropped
            &&& 0 < d <= q.len()
            &&& forall|p: int| 0 <= p < d ==> holds(t->0.blocks, #[trigger] at::<BlockInfo>(q, p))
            &&& d < q.len() ==> !holds(t->0.blocks, at::<BlockInfo>(q, d))
            &&& r[i].total_blocks == t->0.blocks.len()
            &&& r[i].event_fed == t->0.posture.event_fed
        } by {
            assert(told(s, q, r[i]));
            let m = choose|m: int| #[trigger] has_score(s, q, m) && scores_member(s, q, m, r[i]);
            member_index_is(s.members, r[i].holder@, m);
            depth_is_greatest(s.tree.table.held(s.members[m].id), q);
        }
        assert forall|name: Seq<char>|
            #![trigger standing(e, key, name)]
            standing(e, key, name) is Some && !standing(e, key, name)->0.posture.dropped && q.len()
                > 0 && holds(
                standing(e, key, name)->0.blocks,
                at::<BlockInfo>(q, 0),
            ) implies exists|i: int| 0 <= i < r.len() && (#[trigger] r[i]).holder@ == name by {
            let m = member_index(s.members, name)->0;
            assert(s.members[m].name == name);
            let held = s.tree.table.held(s.members[m].id);
            depth_is_greatest(held, q);
            assert(has_score(s, q, m));
            assert(tells(s, q, m, r));
            let i = choose|i: int| 0 <= i < r.len() && scores_member(s, q, m, #[trigger] r[i]);
            assert(r[i].holder@ == name);
        }
        assert forall|i: int, j: int| 0 <= i < j < r.len() implies (
        #[trigger] r[i]).matched_blocks >= (#[trigger] r[j]).matched_blocks && r[i].holder@
            != r[j].holder@ by {
            assert(crate::engine::ranked(s, r[i], r[j]));
            assert(told(s, q, r[i]) && told(s, q, r[j]));
            let a = choose|m: int| #[trigger] has_score(s, q, m) && scores_member(s, q, m, r[i]);
            let b = choose|m: int| #[trigger] has_score(s, q, m) && scores_member(s, q, m, r[j]);
            if r[i].holder@ == r[j].holder@ {
                member_index_is(s.members, r[i].holder@, a);
                member_index_is(s.members, r[j].holder@, b);
            }
        }
    }
}

/// Holders that match equally deep come in the order of their seats: of two, the one whose
/// seat has the lower number comes first.
pub proof fn equal_depths_go_by_seat(
    e: EngineView,
    i: int,
    q: Seq<u64>,
    r: Seq<HolderScore>,
    a: int,
    b: int,
    m: int,
    n: int,
)
    requires
        e.wf(),
        0 <= i < e.spaces.len(),
        answers(e, e.spaces[i].key, q, r),
        0 <= a < b < r.len(),
        r[a].matched_blocks == r[b].matched_blocks,
        0 <= m < e.spaces[i].members.len(),
        0 <= n < e.spaces[i].members.len(),
        e.spaces[i].members[m].name == r[a].holder@,
        e.spaces[i].members[n].name == r[b].holder@,
    ensures
        e.spaces[i].members[m].id.slot() < e.spaces[i].members[n].id.slot(),
{
    let s = e.spaces[i];
    assert(s.wf());
    crate::engine::space_index_is(e.spaces, s.key, i);
    assert(crate::engine::ranked(s, r[a], r[b]));
    member_index_is(s.members, r[a].holder@, m);
    member_index_is(s.members, r[b].holder@, n);
}

} // verus!
