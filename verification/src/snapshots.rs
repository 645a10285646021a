//! What a snapshot carries: the messages about a holder leave an engine that does
//! not know it with the same blocks and the same posture.

use crate::engine::applied;
use crate::engine::braced;
use crate::engine::cargo;
use crate::engine::closing_message;
use crate::engine::crowded;
use crate::engine::keys_of;
use crate::engine::cleared_for;
use crate::engine::fed;
use crate::engine::fed_all;
use crate::engine::member_messages;
use crate::engine::message_views;
use crate::engine::met;
use crate::engine::new_posture;
use crate::engine::pairs_of;
use crate::engine::parcel_message;
use crate::engine::parcel_messages;
use crate::engine::rows_of;
use crate::engine::runaway_bound;
use crate::engine::settled_parent;
use crate::engine::stored_run;
use crate::engine::stored_runs;
use crate::engine::stored_within;
use crate::engine::told_late;
use crate::engine::ApplyOutcome;
use crate::engine::Feed;
use crate::engine::MemberView;
use crate::engine::Posture;
use crate::engine::SpaceView;
use crate::engine::UpdateMsg;
use crate::engine::WireEvent;
use crate::engine::WireEventView;
use crate::flat::BlockInfo;
use crate::forest::extends;
use crate::forest::joins;
use crate::forest::last_run;
use crate::forest::last_run_is;
use crate::forest::link;
use crate::forest::links_of;
use crate::forest::order;
use crate::forest::parent_from;
use crate::forest::parent_from_is;
use crate::forest::parent_is_earlier;
use crate::forest::parent_row;
use crate::forest::parents_come_first;
use crate::forest::every_row_comes;
use crate::forest::share_count;
use crate::forest::share_start;
use crate::forest::Link;
use crate::laws::follows;
use crate::laws::keys_in;
use crate::laws::placed_by_plan;
use crate::model;
use crate::model::anchor;
use crate::model::batch;
use crate::model::placed;
use crate::model::trail;
use crate::model::trail_len;
use crate::model::unaliased;
use crate::model::with_blocks_twice;
use crate::model::Placement;
use crate::model::TreeView;
use crate::types::HolderId;
use vstd::prelude::*;

verus! {

/// A holder in the middle of a sequence of updates.
pub struct Journey {
    pub tree: TreeView<BlockInfo>,
    pub posture: Posture,
}

/// A holder after a sequence of updates.
pub open spec fn applied_all(
    s: Journey,
    id: HolderId,
    updates: Seq<UpdateMsg>,
    now: u64,
    default_capacity: u64,
) -> Journey
    decreases updates.len(),
{
    if updates.len() == 0 {
        s
    } else {
        let mid = applied_all(s, id, updates.drop_last(), now, default_capacity);
        let f = applied(mid.tree, id, mid.posture, updates.last(), now, default_capacity);
        Journey { tree: f.tree, posture: f.posture }
    }
}

/// The block starts a chain, or continues one that is there.
pub open spec fn rooted(m: Map<u64, BlockInfo>, k: u64) -> bool {
    ||| m[k] == BlockInfo::first(m[k].content)
    ||| exists|a: u64| #[trigger] m.contains_key(a) && m[a].extend(m[k].content) == m[k]
}

/// There are no gaps: every block starts a chain, or continues one that is there.
pub open spec fn gap_free(m: Map<u64, BlockInfo>) -> bool {
    forall|k: u64| #[trigger] m.contains_key(k) ==> rooted(m, k)
}

/// The holder's blocks are what an engine can hold of it: no place has two keys,
/// positions are within the limit, and there are no more blocks than can be counted,
/// and without an event feed no more than the bound lets stay.
pub open spec fn tenable(m: Map<u64, BlockInfo>, posture: Posture, limit: u32) -> bool {
    &&& m.dom().finite()
    &&& unaliased(m)
    &&& forall|k: u64| #[trigger] m.contains_key(k) ==> m[k].pos < limit
    &&& m.len() <= if posture.event_fed {
        u64::MAX
    } else {
        runaway_bound(posture.capacity_blocks)
    }
}

/// A snapshot carries a member to another engine: where the holder is new, the
/// member's messages leave it with the same blocks, however many chains and
/// messages they are, and with the same posture, but for the time of the last
/// publication. (The watermark goes with an event feed only.)
pub proof fn snapshots_carry_members(
    space: SpaceView,
    m: MemberView,
    tree: TreeView<BlockInfo>,
    id: HolderId,
    updates: Seq<UpdateMsg>,
    now: u64,
    default_capacity: u64,
)
    requires
        tenable(space.tree.table.held(m.id), m.posture, tree.limit),
        gap_free(space.tree.table.held(m.id)),
        m.posture.capacity_blocks == 0 ==> default_capacity == 0,
        tree.table.live(id),
        tree.table.held(id) == Map::<u64, BlockInfo>::empty(),
        message_views(updates) == member_messages(space, m),
    ensures
        ({
            let post = applied_all(
                Journey { tree, posture: new_posture(m.posture.epoch, now, default_capacity) },
                id,
                updates,
                now,
                default_capacity,
            );
            &&& post.tree.table.held(id) == space.tree.table.held(m.id)
            &&& post.posture == (Posture {
                last_publish: now,
                last_seq: if m.posture.event_fed {
                    m.posture.last_seq
                } else {
                    0
                },
                ..m.posture
            })
        }),
{
    let held = space.tree.table.held(m.id);
    let rows = rows_of(held);
    let links = links_of(rows);
    let n = links.len() as int;
    let fresh = Journey { tree, posture: new_posture(m.posture.epoch, now, default_capacity) };
    assert(message_views(updates).len() == updates.len());
    assert(updates.len() == total(m.posture, links));
    links_are_sound(held);
    messages_apply(space, m, fresh, id, updates, updates.len() as int, now, default_capacity);
    assert(updates.take(updates.len() as int) =~= updates);
    assert(part_of(held, links, n) =~= held) by {
        assert forall|k: u64| #[trigger] held.contains_key(k) implies sent(links, n).contains(k) by {
            let t = choose|t: int| 0 <= t < n && (#[trigger] links[t]).key == k;
            assert(links[t].key == k);
        }
    }
}

/// The keys of the first `t` links.
spec fn sent(links: Seq<Link>, t: int) -> Set<u64> {
    Set::new(|k: u64| exists|x: int| 0 <= x < t && (#[trigger] links[x]).key == k)
}

/// The blocks of the first `t` links.
spec fn part_of(held: Map<u64, BlockInfo>, links: Seq<Link>, t: int) -> Map<u64, BlockInfo> {
    held.restrict(sent(links, t))
}

/// Link `t` goes where the holder has it.
spec fn fits(held: Map<u64, BlockInfo>, links: Seq<Link>, t: int) -> bool {
    let l = links[t];
    &&& held.contains_key(l.key)
    &&& held[l.key].content == l.content
    &&& match l.parent {
        None => held[l.key] == BlockInfo::first(l.content),
        Some(p) => held.contains_key(p) && held[p].extend(l.content) == held[l.key] && sent(
            links,
            t,
        ).contains(p),
    }
}

/// The links of a holder without gaps go where they belong, and all go.
spec fn sound(held: Map<u64, BlockInfo>, links: Seq<Link>) -> bool {
    &&& forall|t: int| 0 <= t < links.len() ==> #[trigger] fits(held, links, t)
    &&& forall|k: u64| #[trigger]
        held.contains_key(k) ==> exists|t: int| 0 <= t < links.len() && (#[trigger] links[t]).key == k
}

proof fn links_are_sound(held: Map<u64, BlockInfo>)
    requires
        held.dom().finite(),
        gap_free(held),
        forall|k: u64| #[trigger] held.contains_key(k) ==> held[k].pos < u32::MAX,
    ensures
        sound(held, links_of(rows_of(held))),
        held.len() <= links_of(rows_of(held)).len(),
{
    let rows = rows_of(held);
    let links = links_of(rows);
    let w = model::listing_exists(held);
    let listing = choose|r: Seq<(u32, u64, u64)>| model::listed(held, r);
    assert(model::listed(held, listing));
    let n = rows.len() as int;
    let o = order(rows, n);
    assert(links.len() == o.len());
    assert forall|i: int| 0 <= i < n implies held.contains_key((#[trigger] rows[i]).0) && rows[i].1
        == held[rows[i].0] by {
        assert(held.contains_key(listing[i].1));
    }
    assert forall|t: int| 0 <= t < links.len() implies #[trigger] fits(held, links, t) by {
        parents_come_first(rows, n, t);
        let i = o[t];
        assert(links[t] == link(rows, i));
        parent_is_earlier(rows, i);
        let k = rows[i].0;
        assert(rooted(held, k));
        parent_from_is(rows, i, 0);
        if rows[i].1.pos == 0 {
            if held[k] != BlockInfo::first(held[k].content) {
                let a = choose|a: u64| #[trigger] held.contains_key(a) && held[a].extend(
                    held[k].content,
                ) == held[k];
                assert(held[a].pos < u32::MAX);
                assert(false);
            }
        } else {
            let a = choose|a: u64| #[trigger] held.contains_key(a) && held[a].extend(
                held[k].content,
            ) == held[k];
            let j = choose|j: int| 0 <= j < listing.len() && (#[trigger] listing[j]).1 == a;
            assert(rows[j] == (a, held[a]));
            assert(j < i) by {
                assert(held[a].pos + 1 == held[k].pos);
                if i < j {
                    assert(model::ahead(held, listing[i].1, listing[j].1));
                }
            }
            assert(extends(rows, j, i));
            let p = parent_from(rows, i, 0);
            assert(p <= j) by {
                if j < p {
                    assert(!extends(rows, j, i));
                }
            }
            assert(parent_row(rows, i) == Some(p));
            assert(extends(rows, p, i));
            let x = choose|x: int| 0 <= x < t && #[trigger] o[x] == p;
            assert(links[x] == link(rows, o[x]));
            assert(links[x].key == rows[p].0);
        }
    }
    assert forall|k: u64| #[trigger] held.contains_key(k) implies exists|t: int|
        0 <= t < links.len() && (#[trigger] links[t]).key == k by {
        let i = choose|i: int| 0 <= i < listing.len() && (#[trigger] listing[i]).1 == k;
        assert(rows[i].0 == k);
        let t = every_row_comes(rows, i);
        crate::forest::order_grows(rows, i + 1, n);
        assert(o[t] == i);
        assert(links[t] == link(rows, i));
    }
    let keys = links.map_values(|l: Link| l.key);
    assert(held.dom().subset_of(keys.to_set())) by {
        assert forall|k: u64| held.dom().contains(k) implies keys.to_set().contains(k) by {
            assert(held.contains_key(k));
            let t = choose|t: int| 0 <= t < links.len() && (#[trigger] links[t]).key == k;
            assert(keys[t] == k);
        }
    }
    keys.lemma_cardinality_of_set();
    vstd::seq_lib::seq_to_set_is_finite(keys);
    vstd::set_lib::lemma_len_subset(held.dom(), keys.to_set());
}

/// How many messages tell of a member.
spec fn total(p: Posture, links: Seq<Link>) -> int {
    share_count(links.len() as int) + if crowded(p, links) {
        1int
    } else {
        0
    }
}

/// The posture after `c` messages.
spec fn posture_after(p: Posture, links: Seq<Link>, c: int, fresh: Posture) -> Posture {
    if c == 0 {
        fresh
    } else {
        let done = c == total(p, links);
        Posture {
            last_publish: fresh.last_publish,
            last_seq: if p.event_fed && done {
                p.last_seq
            } else {
                0
            },
            event_fed: p.event_fed && done,
            capacity_blocks: if crowded(p, links) && !done {
                u64::MAX
            } else {
                p.capacity_blocks
            },
            ..p
        }
    }
}

proof fn messages_apply(
    space: SpaceView,
    m: MemberView,
    s: Journey,
    id: HolderId,
    updates: Seq<UpdateMsg>,
    c: int,
    now: u64,
    default_capacity: u64,
)
    requires
        tenable(space.tree.table.held(m.id), m.posture, s.tree.limit),
        sound(
            space.tree.table.held(m.id),
            links_of(rows_of(space.tree.table.held(m.id))),
        ),
        space.tree.table.held(m.id).len() <= links_of(rows_of(space.tree.table.held(m.id))).len(),
        m.posture.capacity_blocks == 0 ==> default_capacity == 0,
        s.tree.table.live(id),
        s.tree.table.held(id) == Map::<u64, BlockInfo>::empty(),
        s.posture == new_posture(m.posture.epoch, now, default_capacity),
        message_views(updates) == member_messages(space, m),
        0 <= c <= updates.len(),
    ensures
        ({
            let held = space.tree.table.held(m.id);
            let links = links_of(rows_of(held));
            let post = applied_all(s, id, updates.take(c), now, default_capacity);
            &&& post.tree.limit == s.tree.limit
            &&& post.tree.table.live(id)
            &&& post.tree.table.held(id) == part_of(held, links, share_start(links.len() as int, c))
            &&& post.posture == posture_after(m.posture, links, c, s.posture)
        }),
    decreases c,
{
    let held = space.tree.table.held(m.id);
    let links = links_of(rows_of(held));
    if c == 0 {
        assert(updates.take(0) =~= Seq::empty());
        assert(part_of(held, links, 0) =~= Map::empty());
    } else {
        messages_apply(space, m, s, id, updates, c - 1, now, default_capacity);
        assert(updates.take(c).drop_last() =~= updates.take(c - 1));
        assert(updates.take(c).last() == updates[c - 1]);
        let u = updates[c - 1];
        assert(message_views(updates)[c - 1] == u@);
        assert(message_views(updates).len() == updates.len());
        let mid = applied_all(s, id, updates.take(c - 1), now, default_capacity);
        let parcels = parcel_messages(space.key, m, links);
        if c - 1 < parcels.len() {
            assert(parcels[c - 1] == parcel_message(space.key, m, links, c - 1));
            message_applies(
                space,
                m,
                held,
                links,
                mid,
                s.posture,
                id,
                u,
                c - 1,
                now,
                default_capacity,
            );
        } else {
            assert(u@ == closing_message(space.key, m));
            assert(u@.events.len() == u.events@.len());
            assert(u.events@ =~= Seq::empty());
            assert(met(mid.posture, u) == mid.posture);
            assert(cleared_for(mid.tree, id, mid.posture, u) == mid.tree);
            assert(share_start(links.len() as int, c - 1) == links.len());
            assert(applied(mid.tree, id, mid.posture, u, now, default_capacity).tree == mid.tree);
        }
    }
}

/// The posture that the events of message `c` with blocks meet.
spec fn posture_amid(p: Posture, links: Seq<Link>, c: int, seq: u64, fresh: Posture) -> Posture {
    Posture {
        last_publish: fresh.last_publish,
        last_seq: seq,
        event_fed: p.event_fed && !told_late(p, links),
        capacity_blocks: if crowded(p, links) {
            u64::MAX
        } else {
            p.capacity_blocks
        },
        ..p
    }
}

/// What a message with blocks does before its events.
proof fn message_braces(
    space: SpaceView,
    m: MemberView,
    links: Seq<Link>,
    mid: Posture,
    fresh: Posture,
    u: UpdateMsg,
    c: int,
    now: u64,
    default_capacity: u64,
)
    requires
        m.posture.capacity_blocks == 0 ==> default_capacity == 0,
        fresh == new_posture(m.posture.epoch, now, default_capacity),
        0 <= c < share_count(links.len() as int),
        mid == posture_after(m.posture, links, c, fresh),
        u@ == parcel_message(space.key, m, links, c),
    ensures
        met(mid, u) == mid,
        u.epoch == mid.epoch,
        mid.last_seq == 0,
        braced(mid, u, now, default_capacity) == posture_amid(m.posture, links, c, u.seq, fresh),
{
    assert(c < total(m.posture, links));
}

/// One message with blocks of a member.
proof fn message_applies(
    space: SpaceView,
    m: MemberView,
    held: Map<u64, BlockInfo>,
    links: Seq<Link>,
    mid: Journey,
    fresh: Posture,
    id: HolderId,
    u: UpdateMsg,
    c: int,
    now: u64,
    default_capacity: u64,
)
    requires
        tenable(held, m.posture, mid.tree.limit),
        sound(held, links),
        held.len() <= links.len(),
        m.posture.capacity_blocks == 0 ==> default_capacity == 0,
        mid.tree.table.live(id),
        mid.tree.table.held(id) == part_of(held, links, share_start(links.len() as int, c)),
        fresh == new_posture(m.posture.epoch, now, default_capacity),
        0 <= c < share_count(links.len() as int),
        mid.posture == posture_after(m.posture, links, c, fresh),
        u@ == parcel_message(space.key, m, links, c),
    ensures
        ({
            let f = applied(mid.tree, id, mid.posture, u, now, default_capacity);
            &&& f.tree.limit == mid.tree.limit
            &&& f.tree.table.live(id)
            &&& f.tree.table.held(id) == part_of(held, links, share_start(links.len() as int, c + 1))
            &&& f.posture == posture_after(m.posture, links, c + 1, fresh)
        }),
{
    let p = m.posture;
    let n = links.len() as int;
    message_braces(space, m, links, mid.posture, fresh, u, c, now, default_capacity);
    let events = u.events@;
    let views = u@.events;
    assert(views.len() == events.len());
    let start = Feed {
        tree: mid.tree,
        posture: posture_amid(p, links, c, u.seq, fresh),
        outcome: ApplyOutcome::Applied,
    };
    let observed = u.seq != 0;
    let f = fed_all(start, id, observed, events);
    assert(f == applied(mid.tree, id, mid.posture, u, now, default_capacity));
    let from = share_start(n, c);
    let to = share_start(n, c + 1);
    let runs = stored_runs(links, from, to);
    assert(runaway_bound(u64::MAX) == u64::MAX);
    if views.len() > runs.len() {
        let init = events.drop_last();
        assert(init.map_values(|e: WireEvent| e@) =~= runs) by {
            assert forall|x: int| 0 <= x < runs.len() implies init[x]@ == #[trigger] runs[x] by {
                assert(views[x] == events[x]@);
            }
        }
        runs_land(held, links, start, id, observed, init, from, to);
        assert(views[runs.len() as int] == events.last()@);
        empty_removal(fed_all(start, id, observed, init), id, observed, events.last());
    } else {
        assert(events.map_values(|e: WireEvent| e@) =~= runs);
        runs_land(held, links, start, id, observed, events, from, to);
    }
}

/// Some runs are stored, one after the other.
proof fn runs_land(
    held: Map<u64, BlockInfo>,
    links: Seq<Link>,
    f: Feed,
    id: HolderId,
    observed: bool,
    events: Seq<WireEvent>,
    from: int,
    to: int,
)
    requires
        held.dom().finite(),
        unaliased(held),
        forall|k: u64| #[trigger] held.contains_key(k) ==> held[k].pos < f.tree.limit,
        sound(held, links),
        f.tree.table.live(id),
        0 <= from <= to <= links.len(),
        f.tree.table.held(id) == part_of(held, links, from),
        from < to ==> observed || !f.posture.event_fed,
        from < to ==> observed || held.len() <= runaway_bound(f.posture.capacity_blocks),
        events.map_values(|e: WireEvent| e@) == stored_runs(links, from, to),
    ensures
        ({
            let g = fed_all(f, id, observed, events);
            &&& g.tree.limit == f.tree.limit
            &&& g.tree.table.live(id)
            &&& g.tree.table.held(id) == part_of(held, links, to)
            &&& g.posture == (Posture {
                event_fed: f.posture.event_fed || (from < to && observed),
                ..f.posture
            })
        }),
    decreases to - from,
{
    let views = events.map_values(|e: WireEvent| e@);
    if from < to {
        let x = last_run(links, from, to);
        last_run_is(links, from, to);
        let init = events.drop_last();
        assert(views.last() == events.last()@);
        assert(init.map_values(|e: WireEvent| e@) =~= stored_runs(links, from, x)) by {
            assert(views.drop_last() =~= stored_runs(links, from, x));
        }
        runs_land(held, links, f, id, observed, init, from, x);
        let mid = fed_all(f, id, observed, init);
        run_lands(held, links, mid, id, observed, events.last(), x, to);
    } else {
        assert(events.len() == views.len());
        assert(events =~= Seq::empty());
    }
}

/// A removal of nothing tells that there is an event feed.
proof fn empty_removal(f: Feed, id: HolderId, observed: bool, e: WireEvent)
    requires
        f.tree.table.live(id),
        e@ == WireEventView::Removed(Seq::empty()),
    ensures
        fed(f, id, observed, e).tree.limit == f.tree.limit,
        fed(f, id, observed, e).tree.table.live(id),
        fed(f, id, observed, e).tree.table.held(id) == f.tree.table.held(id),
        fed(f, id, observed, e).posture == (Posture { event_fed: true, ..f.posture }),
{
    let m = f.tree.table.held(id);
    match e {
        WireEvent::Removed { seq_hashes } => {
            assert(model::pruned(m, keys_of(seq_hashes@)) =~= m);
            with_blocks_twice(f.tree.table, id.slot() as int, m, m);
        },
        _ => {},
    }
}

/// The trail of a run.
proof fn run_trail(
    held: Map<u64, BlockInfo>,
    links: Seq<Link>,
    from: int,
    to: int,
    limit: u32,
)
    requires
        sound(held, links),
        forall|k: u64| #[trigger] held.contains_key(k) ==> held[k].pos < limit,
        0 <= from < to <= links.len(),
        forall|x: int| from < x < to ==> #[trigger] joins(links, x),
    ensures
        ({
            let up = links[from].parent;
            let part = part_of(held, links, from);
            let b = trail(anchor(part, up), cargo(links.subrange(from, to)));
            &&& b.len() == to - from
            &&& forall|i: int|
                #![trigger b[i]]
                0 <= i < to - from ==> b[i].0 == links[from + i].key && b[i].1
                    == held[links[from + i].key] && b[i].1.pos == model::start(part, up) + i
            &&& up is Some ==> part.contains_key(up->0)
        }),
    decreases to - from,
{
    let up = links[from].parent;
    let part = part_of(held, links, from);
    let load = cargo(links.subrange(from, to));
    let b = trail(anchor(part, up), load);
    trail_len(anchor(part, up), load);
    assert(fits(held, links, from));
    if up is Some {
        assert(part.contains_key(up->0));
        assert(held[up->0].pos < limit);
    }
    let init = cargo(links.subrange(from, to - 1));
    assert(load.drop_last() =~= init);
    assert(load.last() == (links[to - 1].key, links[to - 1].content));
    let a = trail(anchor(part, up), init);
    trail_len(anchor(part, up), init);
    assert(fits(held, links, to - 1));
    if to - 1 > from {
        run_trail(held, links, from, to - 1, limit);
        assert(joins(links, to - 1));
        assert(a.last() == a[to - 2 - from]);
        assert(held.contains_key(links[to - 2].key));
        assert(b.last() == (links[to - 1].key, held[links[to - 1].key]));
        assert forall|i: int| #![trigger b[i]] 0 <= i < to - from implies b[i].0 == links[from
            + i].key && b[i].1 == held[links[from + i].key] && b[i].1.pos == model::start(part, up)
            + i by {
            if i < to - 1 - from {
                assert(b[i] == a[i]);
            }
        }
    } else {
        assert(init.len() == 0);
        assert(b[0] == b.last());
    }
}

/// One run is stored.
proof fn run_lands(
    held: Map<u64, BlockInfo>,
    links: Seq<Link>,
    f: Feed,
    id: HolderId,
    observed: bool,
    e: WireEvent,
    from: int,
    to: int,
)
    requires
        held.dom().finite(),
        unaliased(held),
        forall|k: u64| #[trigger] held.contains_key(k) ==> held[k].pos < f.tree.limit,
        sound(held, links),
        f.tree.table.live(id),
        0 <= from < to <= links.len(),
        forall|x: int| from < x < to ==> #[trigger] joins(links, x),
        f.tree.table.held(id) == part_of(held, links, from),
        observed || !f.posture.event_fed,
        observed || held.len() <= runaway_bound(f.posture.capacity_blocks),
        e@ == stored_run(links, from, to),
    ensures
        ({
            let g = fed(f, id, observed, e);
            &&& g.tree.limit == f.tree.limit
            &&& g.tree.table.live(id)
            &&& g.tree.table.held(id) == part_of(held, links, to)
            &&& g.posture == (Posture { event_fed: f.posture.event_fed || observed, ..f.posture })
        }),
{
    run_trail(held, links, from, to, f.tree.limit);
    let part = part_of(held, links, from);
    let up = links[from].parent;
    let pairs = cargo(links.subrange(from, to));
    let b = batch(part, up, pairs);
    assert(b == trail(anchor(part, up), pairs));
    assert(follows(held, b)) by {
        assert forall|i: int| #![trigger b[i]] 0 <= i < b.len() implies held.contains_key(b[i].0)
            && held[b[i].0] == b[i].1 by {
            assert(fits(held, links, from + i));
        }
    }
    placed_by_plan(held, part, b);
    assert(b[to - from - 1].1.pos < f.tree.limit) by {
        assert(fits(held, links, to - 1));
    }
    assert forall|k: u64| held.dom().contains(k) implies (part.dom().contains(k) || keys_in(
        b,
    ).contains(k) <==> sent(links, to).contains(k)) by {
        if sent(links, to).contains(k) {
            let x = choose|x: int| 0 <= x < to && (#[trigger] links[x]).key == k;
            if x < from {
                assert(sent(links, from).contains(k));
            } else {
                assert(b[x - from].0 == k);
            }
        }
        if part.dom().contains(k) {
            let x = choose|x: int| 0 <= x < from && (#[trigger] links[x]).key == k;
            assert(links[x].key == k);
        }
        if keys_in(b).contains(k) {
            let i = choose|i: int| 0 <= i < b.len() && (#[trigger] b[i]).0 == k;
            assert(links[from + i].key == k);
        }
    }
    assert(placed(part, b) =~= part_of(held, links, to));
    assert(placed(part, b).dom().subset_of(held.dom()));
    vstd::set_lib::lemma_len_subset(placed(part, b).dom(), held.dom());
    with_blocks_twice(f.tree.table, id.slot() as int, placed(part, b), placed(part, b));
    match e {
        WireEvent::Stored { parent, blocks: wire } => {
            let posture = Posture { event_fed: f.posture.event_fed || observed, ..f.posture };
            assert(pairs_of(wire@) == pairs);
            assert(model::store_error(f.tree, id, up, pairs) is None);
            assert(settled_parent(f.tree, id, parent, pairs) == up);
            assert(stored_within(f.tree, id, posture, up, pairs) == model::stored(
                f.tree,
                id,
                up,
                pairs,
            ));
        },
        _ => {},
    }
}

} // verus!
