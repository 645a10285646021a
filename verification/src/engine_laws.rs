//! Laws of the engine that span updates.

use crate::engine::altered;
use crate::engine::applied;
use crate::engine::braced;
use crate::engine::clamp_usize;
use crate::engine::cleared_for;
use crate::engine::count_of;
use crate::engine::cut;
use crate::engine::cut_is_cut;
use crate::engine::entries_of;
use crate::engine::fed;
use crate::engine::fed_all;
use crate::engine::keys_of;
use crate::engine::member_index;
use crate::engine::members_of;
use crate::engine::pairs_of;
use crate::engine::placed_stays_finite;
use crate::engine::reblocked;
use crate::engine::runaway_bound;
use crate::engine::settled_parent;
use crate::engine::ApplyOutcome;
use crate::engine::EngineView;
use crate::engine::Feed;
use crate::engine::MemberView;
use crate::engine::Posture;
use crate::engine::SpaceView;
use crate::engine::UpdateMsg;
use crate::engine::WireEvent;
use crate::engine::WireEventView;
use crate::flat::BlockInfo;
use crate::laws::kept_as_is;
use crate::laws::trail_is_chain;
use crate::model;
use crate::model::at;
use crate::model::batch;
use crate::model::cut_exists;
use crate::model::holds;
use crate::model::placed;
use crate::model::pruned;
use crate::model::trail;
use crate::model::trail_len;
use crate::model::truncated;
use crate::model::with_blocks_twice;
use crate::model::TreeView;
use crate::types::id_is_its_parts;
use crate::types::HolderId;
use vstd::prelude::*;

verus! {

/// The update neither clears the holder nor lowers the epoch.
pub open spec fn current(posture: Posture, update: UpdateMsg) -> bool {
    update.epoch == posture.epoch
}

/// What an update's events meet.
pub open spec fn start_of(
    tree: TreeView<BlockInfo>,
    id: HolderId,
    posture: Posture,
    update: UpdateMsg,
    now: u64,
    default_capacity: u64,
) -> Feed {
    Feed {
        tree: cleared_for(tree, id, posture, update),
        posture: braced(posture, update, now, default_capacity),
        outcome: ApplyOutcome::Applied,
    }
}

/// An update of a lower epoch changes nothing at all.
pub proof fn stale_epochs_are_dropped(
    tree: TreeView<BlockInfo>,
    id: HolderId,
    posture: Posture,
    update: UpdateMsg,
    now: u64,
    default_capacity: u64,
)
    requires
        update.epoch < posture.epoch,
    ensures
        applied(tree, id, posture, update, now, default_capacity) == (Feed {
            tree,
            posture,
            outcome: ApplyOutcome::Deduped,
        }),
        !altered(
            tree,
            id,
            posture,
            applied(tree, id, posture, update, now, default_capacity),
        ),
{
}

/// An update of a higher epoch starts from nothing: what it leaves does not
/// depend on the blocks that the holder had.
pub proof fn higher_epochs_start_over(
    tree: TreeView<BlockInfo>,
    id: HolderId,
    posture: Posture,
    update: UpdateMsg,
    now: u64,
    default_capacity: u64,
    other: Map<u64, BlockInfo>,
)
    requires
        tree.table.live(id),
        update.epoch > posture.epoch,
    ensures
        applied(tree, id, posture, update, now, default_capacity) == applied(
            reblocked(tree, id, other),
            id,
            posture,
            update,
            now,
            default_capacity,
        ),
        applied(tree, id, posture, update, now, default_capacity).posture.epoch == update.epoch,
        altered(
            tree,
            id,
            posture,
            applied(tree, id, posture, update, now, default_capacity),
        ),
        update.events@.len() == 0 ==> applied(
            tree,
            id,
            posture,
            update,
            now,
            default_capacity,
        ).tree.table.held(id).len() == 0,
{
    with_blocks_twice(tree.table, id.slot() as int, other, Map::empty());
    let f = applied(tree, id, posture, update, now, default_capacity);
    let start = start_of(tree, id, posture, update, now, default_capacity);
    let observed = update.seq != 0;
    assert(f == fed_all(start, id, observed, update.events@));
    events_keep_posture(start, id, observed, update.events@);
    if update.events@.len() == 0 {
        assert(f.tree.table.held(id) =~= Map::empty());
    }
}

/// Events change a holder's posture in one way only: they may make it
/// event-fed.
pub(crate) proof fn events_keep_posture(
    f: Feed,
    id: HolderId,
    observed: bool,
    events: Seq<WireEvent>,
)
    ensures
        ({
            let post = fed_all(f, id, observed, events);
            &&& post.posture == Posture { event_fed: post.posture.event_fed, ..f.posture }
            &&& f.posture.event_fed ==> post.posture.event_fed
        }),
    decreases events.len(),
{
    if events.len() > 0 {
        events_keep_posture(f, id, observed, events.drop_last());
    }
}

/// Epochs never fall, watermarks never fall within an epoch, and a holder that
/// is event-fed stays so.
pub proof fn postures_only_advance(
    tree: TreeView<BlockInfo>,
    id: HolderId,
    posture: Posture,
    update: UpdateMsg,
    now: u64,
    default_capacity: u64,
)
    ensures
        ({
            let post = applied(tree, id, posture, update, now, default_capacity).posture;
            &&& post.epoch >= posture.epoch
            &&& post.epoch == posture.epoch ==> post.last_seq >= posture.last_seq
            &&& posture.event_fed ==> post.event_fed
        }),
{
    events_keep_posture(
        start_of(tree, id, posture, update, now, default_capacity),
        id,
        update.seq != 0,
        update.events@,
    );
}

/// A batch number at or below the watermark is dropped, whatever the update
/// holds: blocks and watermark stay as they are, and without a control payload
/// nothing changes that others see.
pub proof fn old_batches_are_dropped(
    tree: TreeView<BlockInfo>,
    id: HolderId,
    posture: Posture,
    update: UpdateMsg,
    now: u64,
    default_capacity: u64,
)
    requires
        current(posture, update),
        0 < update.seq <= posture.last_seq,
    ensures
        ({
            let f = applied(tree, id, posture, update, now, default_capacity);
            &&& f.tree == tree
            &&& f.outcome == ApplyOutcome::Deduped
            &&& f.posture.last_seq == posture.last_seq
            &&& update.added is None && !update.dropped ==> !altered(tree, id, posture, f)
        }),
{
}

/// A sequenced update that comes twice counts once.
pub proof fn repeated_batches_count_once(
    tree: TreeView<BlockInfo>,
    id: HolderId,
    posture: Posture,
    update: UpdateMsg,
    now: u64,
    later: u64,
    default_capacity: u64,
)
    requires
        update.seq != 0,
    ensures
        ({
            let once = applied(tree, id, posture, update, now, default_capacity);
            let twice = applied(once.tree, id, once.posture, update, later, default_capacity);
            &&& twice.tree == once.tree
            &&& twice.outcome == ApplyOutcome::Deduped
            &&& twice.posture.last_seq == once.posture.last_seq
            &&& !altered(once.tree, id, once.posture, twice)
        }),
{
    events_keep_posture(
        start_of(tree, id, posture, update, now, default_capacity),
        id,
        update.seq != 0,
        update.events@,
    );
}

/// A holder with an event feed takes no placements: an unsequenced update whose
/// events all store leaves its blocks as they are, and says so, also where the
/// update itself is what tells of the event feed.
pub proof fn event_fed_holders_take_no_placements(
    tree: TreeView<BlockInfo>,
    id: HolderId,
    posture: Posture,
    update: UpdateMsg,
    now: u64,
    default_capacity: u64,
)
    requires
        current(posture, update),
        posture.event_fed || (update.added matches Some(a) && a.event_fed),
        update.seq == 0,
        forall|i: int| 0 <= i < update.events@.len() ==> (#[trigger] update.events@[i]) is Stored,
    ensures
        ({
            let f = applied(tree, id, posture, update, now, default_capacity);
            &&& f.tree == tree
            &&& f.outcome == if update.events@.len() == 0 {
                ApplyOutcome::Applied
            } else {
                ApplyOutcome::FeedRejected
            }
            &&& update.added is None && !update.dropped ==> !altered(tree, id, posture, f)
        }),
{
    let start = start_of(tree, id, posture, update, now, default_capacity);
    placements_bounce(start, id, update.events@);
}

proof fn placements_bounce(f: Feed, id: HolderId, events: Seq<WireEvent>)
    requires
        f.posture.event_fed,
        forall|i: int| 0 <= i < events.len() ==> (#[trigger] events[i]) is Stored,
    ensures
        fed_all(f, id, false, events) == (Feed {
            outcome: if events.len() == 0 {
                f.outcome
            } else {
                ApplyOutcome::FeedRejected
            },
            ..f
        }),
    decreases events.len(),
{
    if events.len() > 0 {
        let init = events.drop_last();
        assert forall|i: int| 0 <= i < init.len() implies (#[trigger] init[i]) is Stored by {
            assert(init[i] == events[i]);
        }
        placements_bounce(f, id, init);
        assert(events[events.len() - 1] is Stored);
    }
}

/// An update that reports no change left the holder's blocks, and its epoch,
/// capacity, drop mark and feed, as they were: only what changes anything is
/// relayed, and nothing that does is held back.
pub proof fn silence_means_no_change(e: EngineView, update: UpdateMsg, now: u64)
    requires
        !e.answer(update, now).2,
        update.keyspace.block_size != 0,
    ensures
        ({
            let space = e.admitted(update, now);
            let m = space.members[member_index(space.members, update.holder@)->0];
            let f = e.feed(update, now);
            &&& space == e.space(update.keyspace@)
            &&& f.tree.table.held(m.id) == space.tree.table.held(m.id)
            &&& f.posture.epoch == m.posture.epoch
            &&& f.posture.capacity_blocks == m.posture.capacity_blocks
            &&& f.posture.dropped == m.posture.dropped
            &&& f.posture.event_fed == m.posture.event_fed
        }),
{
}

/// The update is one placement: it stores one whole chain, and nothing else.
pub open spec fn is_placement(update: UpdateMsg, blocks: Seq<(u64, u64)>) -> bool {
    &&& update.seq == 0
    &&& update.added is None
    &&& !update.dropped
    &&& update@.events == seq![WireEventView::Stored(None, blocks)]
}

/// The batch has settled: each of its blocks is still in `kept`, or is in `grown`
/// under its own key.
pub open spec fn settled(
    grown: Map<u64, BlockInfo>,
    kept: Map<u64, BlockInfo>,
    b: Seq<(u64, BlockInfo)>,
) -> bool {
    forall|i: int|
        #![trigger b[i]]
        0 <= i < b.len() ==> holds(kept, b[i].1) || (grown.contains_key(b[i].0) && grown[b[i].0]
            == b[i].1)
}

/// The holder's blocks and those of the batch do not contradict each other: no
/// key is in two places, and no place has two keys.
pub open spec fn compatible(m: Map<u64, BlockInfo>, b: Seq<(u64, BlockInfo)>) -> bool {
    &&& forall|i: int, k: u64|
        #![trigger b[i], m.contains_key(k)]
        0 <= i < b.len() && m.contains_key(k) ==> (k == b[i].0 <==> m[k] == b[i].1)
    &&& forall|i: int, j: int|
        0 <= i < j < b.len() ==> (#[trigger] b[i]).0 != (#[trigger] b[j]).0
}

/// What a store of a batch leaves of a holder without an event feed.
pub open spec fn kept_of(g: Map<u64, BlockInfo>, posture: Posture) -> Map<u64, BlockInfo> {
    let bound = runaway_bound(posture.capacity_blocks);
    if g.len() > bound {
        cut(g, bound as int)
    } else {
        g
    }
}

/// The first blocks of a part that has them are its first blocks.
proof fn cut_again(g: Map<u64, BlockInfo>, part: Map<u64, BlockInfo>, keep: int)
    requires
        g.dom().finite(),
        0 <= keep < g.len(),
        cut(g, keep).submap_of(part),
        part.submap_of(g),
    ensures
        truncated(g, keep, cut(g, keep)),
        part.dom().finite(),
        part.len() > keep ==> cut(part, keep) == cut(g, keep),
        part.len() <= keep ==> part == cut(g, keep),
{
    let c = cut(g, keep);
    let w = cut_exists(g, keep);
    assert(truncated(g, keep, c));
    assert(part.dom().subset_of(g.dom())) by {
        assert forall|k: u64| part.dom().contains(k) implies g.dom().contains(k) by {}
    }
    vstd::set_lib::lemma_set_subset_finite(g.dom(), part.dom());
    assert(c.dom().subset_of(part.dom())) by {
        assert forall|k: u64| c.dom().contains(k) implies part.dom().contains(k) by {}
    }
    vstd::set_lib::lemma_len_subset(c.dom(), part.dom());
    if part.len() <= keep {
        vstd::set_lib::lemma_subset_equality(c.dom(), part.dom());
        assert(part =~= c);
    } else {
        assert(truncated(part, keep, c)) by {
            assert forall|j: u64, k: u64| #[trigger]
                c.contains_key(j) && #[trigger] part.contains_key(k) && !c.contains_key(
                    k,
                ) implies model::ahead(part, j, k) by {
                assert(c.dom().contains(j) && part.dom().contains(k));
                assert(part.dom().contains(j));
                assert(g.contains_key(k));
                assert(model::ahead(g, j, k));
            }
        }
        cut_is_cut(part, keep, c);
    }
}

/// A settled batch that comes again changes nothing.
proof fn settled_batches_stay(
    m: Map<u64, BlockInfo>,
    b: Seq<(u64, BlockInfo)>,
    posture: Posture,
)
    requires
        m.dom().finite(),
        settled(placed(m, b), kept_of(placed(m, b), posture), b),
    ensures
        ({
            let kept = kept_of(placed(m, b), posture);
            kept_of(placed(kept, b), posture) == kept
        }),
{
    let g = placed(m, b);
    placed_stays_finite(m, b);
    let bound = runaway_bound(posture.capacity_blocks) as int;
    let kept = kept_of(g, posture);
    let part = placed(kept, b);
    if g.len() > bound {
        let w = cut_exists(g, bound);
        assert(truncated(g, bound, kept));
        settled_grows(g, kept, b, b.len() as int);
        assert(b.take(b.len() as int) =~= b);
        cut_again(g, part, bound);
        assert(kept.len() == bound);
    } else {
        assert(kept == g);
        settled_grows(g, kept, b, b.len() as int);
        assert(b.take(b.len() as int) =~= b);
        assert(part =~= g);
    }
}

proof fn settled_grows(
    g: Map<u64, BlockInfo>,
    kept: Map<u64, BlockInfo>,
    b: Seq<(u64, BlockInfo)>,
    n: int,
)
    requires
        kept.submap_of(g),
        settled(g, kept, b),
        0 <= n <= b.len(),
    ensures
        kept.submap_of(placed(kept, b.take(n))),
        placed(kept, b.take(n)).submap_of(g),
    decreases n,
{
    if n == 0 {
        assert(b.take(0) =~= Seq::empty());
    } else {
        settled_grows(g, kept, b, n - 1);
        assert(b.take(n).drop_last() =~= b.take(n - 1));
        let h = placed(kept, b.take(n - 1));
        let (k, p) = b[n - 1];
        assert(b.take(n).last() == b[n - 1]);
        if holds(kept, p) {
            let x = choose|x: u64| #[trigger] kept.contains_key(x) && kept[x] == p;
            kept_as_is(kept, h, x);
        } else if !holds(h, p) {
            let post = h.insert(k, p);
            assert forall|x: u64| #[trigger] kept.dom().contains(x) implies post.dom().contains(x)
                && post[x] == kept[x] by {
                kept_as_is(kept, g, x);
                kept_as_is(kept, h, x);
                if x == k {
                    assert(kept.contains_key(x));
                }
            }
            assert forall|x: u64| #[trigger] post.dom().contains(x) implies g.dom().contains(x)
                && post[x] == g[x] by {
                if x != k {
                    kept_as_is(h, g, x);
                } else {
                    assert(b[n - 1] == (k, p));
                }
            }
        }
    }
}

/// An echo dies in one hop: a placement that comes again at once changes nothing
/// and says so, whatever the bound cut off. (A placement that has not settled is
/// set aside: it took a key away from its own chain, or the bound cut off a block
/// that another key had.)
pub proof fn echoes_die(
    tree: TreeView<BlockInfo>,
    id: HolderId,
    posture: Posture,
    update: UpdateMsg,
    blocks: Seq<(u64, u64)>,
    now: u64,
    later: u64,
    default_capacity: u64,
)
    requires
        tree.table.live(id),
        tree.table.held(id).dom().finite(),
        is_placement(update, blocks),
        update.epoch >= posture.epoch,
        !posture.event_fed,
        ({
            let g = placed(
                cleared_for(tree, id, posture, update).table.held(id),
                trail::<BlockInfo>(None, blocks),
            );
            blocks.len() <= tree.limit ==> settled(
                g,
                kept_of(g, posture),
                trail::<BlockInfo>(None, blocks),
            )
        }),
    ensures
        ({
            let once = applied(tree, id, posture, update, now, default_capacity);
            let twice = applied(once.tree, id, once.posture, update, later, default_capacity);
            &&& once.outcome == ApplyOutcome::Applied
            &&& twice == (Feed { posture: Posture { last_publish: later, ..once.posture }, ..once })
            &&& !altered(once.tree, id, once.posture, twice)
        }),
{
    let start = start_of(tree, id, posture, update, now, default_capacity);
    with_blocks_twice(tree.table, id.slot() as int, Map::empty(), Map::empty());
    let e = update.events@[0];
    assert(update.events@.len() == update@.events.len());
    assert(update@.events[0] == e@);
    assert(update.events@.drop_last() =~= Seq::empty());
    let once = applied(tree, id, posture, update, now, default_capacity);
    assert(fed_all(start, id, false, update.events@.drop_last()) == start);
    assert(once == fed(start, id, false, e));
    placement_fed(start, id, e, blocks);
    let again = start_of(once.tree, id, once.posture, update, later, default_capacity);
    let twice = applied(once.tree, id, once.posture, update, later, default_capacity);
    assert(fed_all(again, id, false, update.events@.drop_last()) == again);
    assert(twice == fed(again, id, false, e));
    placement_fed(again, id, e, blocks);
    if blocks.len() <= tree.limit {
        let m = start.tree.table.held(id);
        let b = trail::<BlockInfo>(None, blocks);
        settled_batches_stay(m, b, posture);
        with_blocks_twice(
            once.tree.table,
            id.slot() as int,
            once.tree.table.held(id),
            once.tree.table.held(id),
        );
    }
}

/// What a placement does to a holder that takes it.
proof fn placement_fed(f: Feed, id: HolderId, e: WireEvent, blocks: Seq<(u64, u64)>)
    requires
        f.tree.table.live(id),
        f.tree.table.held(id).dom().finite(),
        !f.posture.event_fed,
        e@ == WireEventView::Stored(None, blocks),
    ensures
        ({
            let post = fed(f, id, false, e);
            let g = placed(f.tree.table.held(id), trail::<BlockInfo>(None, blocks));
            &&& post.posture == f.posture
            &&& post.outcome == f.outcome
            &&& blocks.len() > f.tree.limit ==> post.tree == f.tree
            &&& blocks.len() <= f.tree.limit ==> post.tree == reblocked(
                f.tree,
                id,
                kept_of(g, f.posture),
            )
            &&& post.tree.table.live(id)
            &&& blocks.len() <= f.tree.limit ==> post.tree.table.held(id) == kept_of(g, f.posture)
            &&& post.tree.table.held(id).dom().finite()
        }),
{
    let m = f.tree.table.held(id);
    let b = trail::<BlockInfo>(None, blocks);
    let g = placed(m, b);
    let bound = runaway_bound(f.posture.capacity_blocks) as int;
    placed_stays_finite(m, b);
    let w = cut_exists(g, bound);
    assert(truncated(g, bound, cut(g, bound)));
    with_blocks_twice(f.tree.table, id.slot() as int, g, cut(g, bound));
    with_blocks_twice(f.tree.table, id.slot() as int, cut(g, bound), g);
    match e {
        WireEvent::Stored { parent, blocks: wire } => {
            assert(pairs_of(wire@) == blocks);
            assert(batch(m, None, blocks) == b);
            if blocks.len() == 0 {
                trail_len::<BlockInfo>(None, blocks);
            }
        },
        _ => {},
    }
}

/// Positions of a chain within the range of positions.
proof fn position_on_chain(q: Seq<u64>, p: int)
    requires
        0 <= p < 0x1_0000_0000,
    ensures
        at::<BlockInfo>(q, p).pos == p,
    decreases p,
{
    if p > 0 {
        position_on_chain(q, p - 1);
    }
}

/// A placement that does not contradict what the holder has settles.
pub proof fn compatible_placements_settle(
    m: Map<u64, BlockInfo>,
    blocks: Seq<(u64, u64)>,
    posture: Posture,
)
    requires
        blocks.len() <= u32::MAX,
        compatible(m, trail::<BlockInfo>(None, blocks)),
    ensures
        ({
            let b = trail::<BlockInfo>(None, blocks);
            settled(placed(m, b), kept_of(placed(m, b), posture), b)
        }),
{
    let b = trail::<BlockInfo>(None, blocks);
    let g = placed(m, b);
    trail_len::<BlockInfo>(None, blocks);
    assert forall|i: int, j: int| 0 <= i < j < b.len() implies (#[trigger] b[i]).1 != (
    #[trigger] b[j]).1 by {
        trail_is_chain::<BlockInfo>(blocks, i);
        trail_is_chain::<BlockInfo>(blocks, j);
        position_on_chain(crate::laws::contents(blocks), i);
        position_on_chain(crate::laws::contents(blocks), j);
    }
    assert forall|i: int| #![trigger b[i]] 0 <= i < b.len() implies g.contains_key(b[i].0)
        && g[b[i].0] == b[i].1 by {
        compatible_lands(m, b, b.len() as int, i);
        assert(b.take(b.len() as int) =~= b);
    }
}

/// The blocks of a compatible batch stand under their keys, and no others come.
proof fn compatible_lands(m: Map<u64, BlockInfo>, b: Seq<(u64, BlockInfo)>, n: int, i: int)
    requires
        compatible(m, b),
        forall|x: int, y: int| 0 <= x < y < b.len() ==> (#[trigger] b[x]).1 != (#[trigger] b[y]).1,
        0 <= n <= b.len(),
    ensures
        0 <= i < n ==> placed(m, b.take(n)).contains_key(b[i].0) && placed(m, b.take(n))[b[i].0]
            == b[i].1,
        forall|k: u64| #[trigger]
            placed(m, b.take(n)).contains_key(k) ==> (m.contains_key(k) && m[k] == placed(
                m,
                b.take(n),
            )[k]) || exists|x: int| 0 <= x < n && (#[trigger] b[x]) == (k, placed(m, b.take(n))[k]),
    decreases n,
{
    if n > 0 {
        compatible_lands(m, b, n - 1, i);
        assert(b.take(n).drop_last() =~= b.take(n - 1));
        assert(b.take(n).last() == b[n - 1]);
        let h = placed(m, b.take(n - 1));
        let (k, p) = b[n - 1];
        if holds(h, p) {
            let x = choose|x: u64| #[trigger] h.contains_key(x) && h[x] == p;
            if m.contains_key(x) && m[x] == p {
                assert(b[n - 1] == (k, p));
                assert(x == k);
            } else {
                let y = choose|y: int| 0 <= y < n - 1 && (#[trigger] b[y]) == (x, p);
                compatible_lands(m, b, n - 1, y);
                assert(b[y].1 != b[n - 1].1);
            }
        }
        if 0 <= i < n - 1 {
            assert(b[i].0 != b[n - 1].0);
        }
        assert(b[n - 1] == (k, p));
    } else {
        assert(b.take(0) =~= Seq::empty());
    }
}

/// An update touches its own holder only.
pub proof fn updates_touch_one_holder(
    tree: TreeView<BlockInfo>,
    id: HolderId,
    posture: Posture,
    update: UpdateMsg,
    now: u64,
    default_capacity: u64,
    other: HolderId,
)
    requires
        tree.table.live(id),
        other != id,
    ensures
        ({
            let f = applied(tree, id, posture, update, now, default_capacity);
            &&& f.tree.table.live(other) == tree.table.live(other)
            &&& f.tree.table.held(other) == tree.table.held(other)
        }),
{
    apart(tree, id, Map::empty(), other);
    if update.epoch >= posture.epoch {
        events_touch_one_holder(
            start_of(tree, id, posture, update, now, default_capacity),
            id,
            update.seq != 0,
            update.events@,
            other,
        );
    }
}

/// Other blocks for one holder leave the others'.
proof fn apart(tree: TreeView<BlockInfo>, id: HolderId, m: Map<u64, BlockInfo>, other: HolderId)
    requires
        tree.table.live(id),
        other != id,
    ensures
        reblocked(tree, id, m).table.live(id),
        reblocked(tree, id, m).table.held(id) == m,
        reblocked(tree, id, m).table.live(other) == tree.table.live(other),
        reblocked(tree, id, m).table.held(other) == tree.table.held(other),
{
    if tree.table.live(other) && other.slot() == id.slot() {
        id_is_its_parts(other, id);
    }
}

proof fn events_touch_one_holder(
    f: Feed,
    id: HolderId,
    observed: bool,
    events: Seq<WireEvent>,
    other: HolderId,
)
    requires
        f.tree.table.live(id),
        other != id,
    ensures
        fed_all(f, id, observed, events).tree.table.live(id),
        fed_all(f, id, observed, events).tree.table.live(other) == f.tree.table.live(other),
        fed_all(f, id, observed, events).tree.table.held(other) == f.tree.table.held(other),
    decreases events.len(),
{
    if events.len() > 0 {
        events_touch_one_holder(f, id, observed, events.drop_last(), other);
        let mid = fed_all(f, id, observed, events.drop_last());
        let m = mid.tree.table.held(id);
        match events.last() {
            WireEvent::Stored { parent, blocks } => {
                let pairs = pairs_of(blocks@);
                let parent = settled_parent(mid.tree, id, parent, pairs);
                let grown = model::stored(mid.tree, id, parent, pairs);
                let next = placed(m, batch(m, parent, pairs));
                assert(grown == reblocked(mid.tree, id, next));
                apart(mid.tree, id, next, other);
                apart(
                    grown,
                    id,
                    cut(next, runaway_bound(mid.posture.capacity_blocks) as int),
                    other,
                );
            },
            WireEvent::Removed { seq_hashes } => {
                apart(mid.tree, id, pruned(m, keys_of(seq_hashes@)), other);
            },
            WireEvent::Cleared => {
                apart(mid.tree, id, Map::empty(), other);
            },
        }
    }
}


/// The places of members whose posture is so.
pub open spec fn so_placed(members: Seq<MemberView>, so: spec_fn(Posture) -> bool) -> Set<int> {
    Set::new(|i: int| 0 <= i < members.len() && so(members[i].posture))
}

/// Every member whose posture is so counts once, whichever keyspace it is in; a keyspace
/// more counts for what it has.
pub proof fn members_count_once(
    members: Seq<MemberView>,
    spaces: Seq<SpaceView>,
    space: SpaceView,
    so: spec_fn(Posture) -> bool,
)
    ensures
        so_placed(members, so).finite(),
        count_of(members, so) == so_placed(members, so).len(),
        members_of(Seq::empty(), so) == 0,
        members_of(spaces.push(space), so) == members_of(spaces, so) + so_placed(
            space.members,
            so,
        ).len(),
        members_of(spaces, |p: Posture| true) >= members_of(spaces, so),
        count_of(members, |p: Posture| true) == members.len(),
{
    assert(spaces.push(space).drop_last() =~= spaces);
    places_are_counted(members, so);
    places_are_counted(space.members, so);
    all_are_counted(members);
    some_are_counted(spaces, so);
}

proof fn places_are_counted(members: Seq<MemberView>, so: spec_fn(Posture) -> bool)
    ensures
        so_placed(members, so).finite(),
        count_of(members, so) == so_placed(members, so).len(),
    decreases members.len(),
{
    let all = so_placed(members, so);
    if members.len() == 0 {
        assert(all =~= Set::empty());
    } else {
        let init = members.drop_last();
        let n = members.len() - 1;
        places_are_counted(init, so);
        let before = so_placed(init, so);
        if so(members[n].posture) {
            assert(all =~= before.insert(n));
        } else {
            assert(all =~= before);
        }
    }
}

proof fn all_are_counted(members: Seq<MemberView>)
    ensures
        count_of(members, |p: Posture| true) == members.len(),
    decreases members.len(),
{
    if members.len() > 0 {
        all_are_counted(members.drop_last());
    }
}

proof fn some_are_counted(spaces: Seq<SpaceView>, so: spec_fn(Posture) -> bool)
    ensures
        members_of(spaces, |p: Posture| true) >= members_of(spaces, so),
    decreases spaces.len(),
{
    if spaces.len() > 0 {
        some_are_counted(spaces.drop_last(), so);
        fewer_are_so(spaces.last().members, so);
    }
}

proof fn fewer_are_so(members: Seq<MemberView>, so: spec_fn(Posture) -> bool)
    ensures
        count_of(members, |p: Posture| true) >= count_of(members, so),
    decreases members.len(),
{
    if members.len() > 0 {
        fewer_are_so(members.drop_last(), so);
    }
}

/// Blocks count once per keyspace, however many holders have them; a number that is too
/// large for the machine is told as the greatest that there is.
pub proof fn blocks_count_once(spaces: Seq<SpaceView>, space: SpaceView, n: nat)
    ensures
        entries_of(Seq::empty()) == 0,
        space.tree.table.placements().len() <= u64::MAX ==> entries_of(spaces.push(space))
            == entries_of(spaces) + space.tree.table.placements().len(),
        n <= usize::MAX ==> clamp_usize(n) == n,
        n > usize::MAX ==> clamp_usize(n) == usize::MAX,
{
    assert(spaces.push(space).drop_last() =~= spaces);
}

} // verus!
