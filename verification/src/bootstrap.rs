//! Bootstrap: an engine without keyspaces that takes all messages of another
//! engine's snapshot, in order, keeps of its holders what that one keeps.

use crate::engine::closing_message;
use crate::engine::enrolled;
use crate::engine::has_score;
use crate::engine::member_index;
use crate::engine::member_index_is;
use crate::engine::member_messages;
use crate::engine::message_views;
use crate::engine::new_posture;
use crate::engine::new_space;
use crate::engine::parcel_message;
use crate::engine::parcel_messages;
use crate::engine::rows_of;
use crate::engine::scored;
use crate::engine::scores_member;
use crate::engine::snapshot_of;
use crate::engine::space_index;
use crate::engine::space_index_is;
use crate::engine::space_messages;
use crate::engine::tells;
use crate::engine::told;
use crate::engine::EngineView;
use crate::engine::HolderScore;
use crate::engine::KeyView;
use crate::engine::MemberView;
use crate::engine::MessageView;
use crate::engine::Posture;
use crate::engine::SpaceView;
use crate::engine::UpdateMsg;
use crate::flat::BlockInfo;
use crate::forest::links_of;
use crate::forest::share_count;
use crate::model::TreeView;
use crate::replicas::answers;
use crate::replicas::applied_alike;
use crate::replicas::applied_stems;
use crate::replicas::arrival;
use crate::replicas::concerns;
use crate::replicas::enrolled_keeps;
use crate::replicas::local;
use crate::replicas::new_space_is_valid;
use crate::replicas::roomy;
use crate::replicas::run;
use crate::replicas::run_keeps;
use crate::replicas::same_score;
use crate::replicas::score_among;
use crate::replicas::seats_differ;
use crate::replicas::scores_within;
use crate::replicas::standing;
use crate::replicas::timeless;
use crate::replicas::Standing;
use crate::snapshots::applied_all;
use crate::snapshots::gap_free;
use crate::snapshots::snapshots_carry_members;
use crate::snapshots::tenable;
use crate::snapshots::Journey;
use crate::types::HolderId;
use vstd::prelude::*;

verus! {

/// The updates that arrive, without their times.
pub open spec fn updates_of(arrivals: Seq<(UpdateMsg, u64)>) -> Seq<UpdateMsg> {
    arrivals.map_values(|x: (UpdateMsg, u64)| x.0)
}

/// What a snapshot carries of a posture: all but the time of the last publication,
/// and the watermark with an event feed only.
pub open spec fn carried(p: Posture) -> Posture {
    Posture {
        last_seq: if p.event_fed {
            p.last_seq
        } else {
            0
        },
        ..timeless(p)
    }
}

/// A snapshot carries the member whole: its blocks have no gaps, and an engine of
/// the given default capacity can hold them.
pub open spec fn portable(space: SpaceView, m: MemberView, default_capacity: u64) -> bool {
    let held = space.tree.table.held(m.id);
    &&& tenable(held, m.posture, 65_536)
    &&& gap_free(held)
    &&& m.posture.capacity_blocks == 0 ==> default_capacity == 0
}

/// The engine `fresh`, which has no keyspaces, takes the snapshot of `a`.
pub open spec fn bootstraps(
    a: EngineView,
    fresh: EngineView,
    arrivals: Seq<(UpdateMsg, u64)>,
) -> bool {
    &&& a.wf()
    &&& fresh.spaces.len() == 0
    &&& message_views(updates_of(arrivals)) == snapshot_of(a.spaces)
}

// ── Whose messages are whose ────────────────────────────────────────────────

/// The message is about the holder.
spec fn is_about(m: MessageView, key: KeyView, name: Seq<char>) -> bool {
    m.key == key && m.holder == name
}

/// The messages about the holder, in order.
spec fn about(ms: Seq<MessageView>, key: KeyView, name: Seq<char>) -> Seq<MessageView>
    decreases ms.len(),
{
    if ms.len() == 0 {
        Seq::empty()
    } else if is_about(ms.last(), key, name) {
        about(ms.drop_last(), key, name).push(ms.last())
    } else {
        about(ms.drop_last(), key, name)
    }
}

proof fn about_sum(a: Seq<MessageView>, b: Seq<MessageView>, key: KeyView, name: Seq<char>)
    ensures
        about(a + b, key, name) == about(a, key, name) + about(b, key, name),
    decreases b.len(),
{
    if b.len() == 0 {
        assert(a + b =~= a);
    } else {
        assert((a + b).drop_last() =~= a + b.drop_last());
        assert((a + b).last() == b.last());
        about_sum(a, b.drop_last(), key, name);
    }
}

proof fn about_all(ms: Seq<MessageView>, key: KeyView, name: Seq<char>)
    requires
        forall|i: int| 0 <= i < ms.len() ==> is_about(#[trigger] ms[i], key, name),
    ensures
        about(ms, key, name) == ms,
    decreases ms.len(),
{
    if ms.len() > 0 {
        assert forall|i: int| 0 <= i < ms.drop_last().len() implies is_about(
            #[trigger] ms.drop_last()[i],
            key,
            name,
        ) by {
            assert(is_about(ms[i], key, name));
        }
        about_all(ms.drop_last(), key, name);
        assert(is_about(ms[ms.len() - 1], key, name));
        assert(ms.drop_last().push(ms.last()) =~= ms);
    }
}

proof fn about_none(ms: Seq<MessageView>, key: KeyView, name: Seq<char>)
    requires
        forall|i: int| 0 <= i < ms.len() ==> !is_about(#[trigger] ms[i], key, name),
    ensures
        about(ms, key, name) == Seq::<MessageView>::empty(),
    decreases ms.len(),
{
    if ms.len() > 0 {
        assert forall|i: int| 0 <= i < ms.drop_last().len() implies !is_about(
            #[trigger] ms.drop_last()[i],
            key,
            name,
        ) by {
            assert(!is_about(ms[i], key, name));
        }
        about_none(ms.drop_last(), key, name);
        assert(!is_about(ms[ms.len() - 1], key, name));
    }
}

/// The messages about a member say so.
proof fn members_sign(space: SpaceView, m: MemberView)
    ensures
        member_messages(space, m).len() > 0,
        forall|i: int|
            #![trigger member_messages(space, m)[i]]
            0 <= i < member_messages(space, m).len() ==> is_about(
                member_messages(space, m)[i],
                space.key,
                m.name,
            ) && member_messages(space, m)[i].epoch == m.posture.epoch,
{
    let links = links_of(rows_of(space.tree.table.held(m.id)));
    let parcels = parcel_messages(space.key, m, links);
    let all = member_messages(space, m);
    assert(parcels.len() == share_count(links.len() as int));
    assert forall|i: int| #![trigger all[i]] 0 <= i < all.len() implies is_about(
        all[i],
        space.key,
        m.name,
    ) && all[i].epoch == m.posture.epoch by {
        if i < parcels.len() {
            assert(all[i] == parcel_message(space.key, m, links, i));
        } else {
            assert(all[i] == closing_message(space.key, m));
        }
    }
}

/// Of the messages of a keyspace, those about a holder are the ones of its member.
proof fn space_about(space: SpaceView, n: int, key: KeyView, name: Seq<char>)
    requires
        space.wf(),
        0 <= n <= space.members.len(),
    ensures
        about(space_messages(space, n), key, name) == match member_index(space.members, name) {
            Some(j) => if key == space.key && j < n {
                member_messages(space, space.members[j])
            } else {
                Seq::empty()
            },
            None => Seq::empty(),
        },
    decreases n,
{
    if n > 0 {
        let m = space.members[n - 1];
        let own = member_messages(space, m);
        space_about(space, n - 1, key, name);
        about_sum(space_messages(space, n - 1), own, key, name);
        members_sign(space, m);
        if key == space.key && name == m.name {
            member_index_is(space.members, name, n - 1);
            about_all(own, key, name);
            assert(Seq::<MessageView>::empty() + own =~= own);
        } else {
            assert forall|i: int| 0 <= i < own.len() implies !is_about(
                #[trigger] own[i],
                key,
                name,
            ) by {
                assert(is_about(own[i], space.key, m.name));
            }
            about_none(own, key, name);
            let before = about(space_messages(space, n - 1), key, name);
            assert(before + Seq::<MessageView>::empty() =~= before);
            if member_index(space.members, name) is Some {
                let j = member_index(space.members, name)->0;
                assert(space.members[j].name == name);
            }
        }
    }
}

/// Of the messages of a snapshot, those about a holder are the ones of its member.
proof fn snapshot_about(a: EngineView, n: int, key: KeyView, name: Seq<char>)
    requires
        a.wf(),
        0 <= n <= a.spaces.len(),
    ensures
        about(snapshot_of(a.spaces.take(n)), key, name) == match space_index(a.spaces, key) {
            Some(i) => match member_index(a.spaces[i].members, name) {
                Some(j) => if i < n {
                    member_messages(a.spaces[i], a.spaces[i].members[j])
                } else {
                    Seq::empty()
                },
                None => Seq::empty(),
            },
            None => Seq::empty(),
        },
    decreases n,
{
    if n > 0 {
        let space = a.spaces[n - 1];
        let all = space_messages(space, space.members.len() as int);
        assert(a.spaces.take(n).drop_last() =~= a.spaces.take(n - 1));
        assert(a.spaces.take(n).last() == space);
        snapshot_about(a, n - 1, key, name);
        about_sum(snapshot_of(a.spaces.take(n - 1)), all, key, name);
        assert(space.wf());
        space_about(space, space.members.len() as int, key, name);
        let own = about(all, key, name);
        let before = about(snapshot_of(a.spaces.take(n - 1)), key, name);
        if key == space.key {
            space_index_is(a.spaces, key, n - 1);
            assert(before =~= Seq::empty());
            assert(before + own =~= own);
        } else {
            assert(own =~= Seq::empty());
            assert(before + own =~= before);
            if space_index(a.spaces, key) is Some {
                assert(a.spaces[space_index(a.spaces, key)->0].key == key);
            }
        }
    }
}

// ── What a holder has from its messages ─────────────────────────────────────

/// The updates for one holder, in order.
spec fn own(arrivals: Seq<(UpdateMsg, u64)>, key: KeyView, name: Seq<char>) -> Seq<UpdateMsg>
    decreases arrivals.len(),
{
    if arrivals.len() == 0 {
        Seq::empty()
    } else {
        let init = own(arrivals.drop_last(), key, name);
        if concerns(arrivals.last().0, key, name) {
            init.push(arrivals.last().0)
        } else {
            init
        }
    }
}

proof fn own_are_about(arrivals: Seq<(UpdateMsg, u64)>, key: KeyView, name: Seq<char>)
    ensures
        message_views(own(arrivals, key, name)) == about(
            message_views(updates_of(arrivals)),
            key,
            name,
        ),
    decreases arrivals.len(),
{
    let all = message_views(updates_of(arrivals));
    if arrivals.len() == 0 {
        assert(all =~= Seq::empty());
        assert(message_views(own(arrivals, key, name)) =~= Seq::empty());
    } else {
        let init = arrivals.drop_last();
        own_are_about(init, key, name);
        assert(all.drop_last() =~= message_views(updates_of(init)));
        assert(all.last() == arrivals.last().0@);
        if concerns(arrivals.last().0, key, name) {
            assert(message_views(own(arrivals, key, name)) =~= message_views(
                own(init, key, name),
            ).push(arrivals.last().0@));
        }
    }
}

/// Updates leave the holder in its place.
proof fn journey_stays(
    s: Journey,
    id: HolderId,
    updates: Seq<UpdateMsg>,
    now: u64,
    default_capacity: u64,
)
    requires
        s.tree.table.live(id),
        s.tree.table.held(id).dom().finite(),
    ensures
        ({
            let t = applied_all(s, id, updates, now, default_capacity).tree;
            &&& t.limit == s.tree.limit
            &&& t.table.live(id)
            &&& t.table.held(id).dom().finite()
        }),
    decreases updates.len(),
{
    if updates.len() > 0 {
        journey_stays(s, id, updates.drop_last(), now, default_capacity);
        let mid = applied_all(s, id, updates.drop_last(), now, default_capacity);
        applied_stems(mid.tree, id, mid.posture, updates.last(), now, default_capacity);
    }
}

/// An engine without keyspaces keeps of a holder what its updates give it, whatever
/// comes in between, and whenever each arrives.
proof fn own_updates_decide(
    fresh: EngineView,
    arrivals: Seq<(UpdateMsg, u64)>,
    key: KeyView,
    name: Seq<char>,
    tree: TreeView<BlockInfo>,
    id: HolderId,
)
    requires
        fresh.spaces.len() == 0,
        roomy(fresh, arrivals),
        key.block_size != 0,
        tree.limit == 65_536,
        tree.table.live(id),
        tree.table.held(id) == Map::<u64, BlockInfo>::empty(),
    ensures
        ({
            let us = own(arrivals, key, name);
            let capacity = fresh.default_capacity;
            let s = Journey { tree, posture: new_posture(us[0].epoch, 0, capacity) };
            let post = applied_all(s, id, us, 0, capacity);
            standing(run(fresh, arrivals), key, name) == if us.len() == 0 {
                None
            } else {
                Some(
                    Standing {
                        blocks: post.tree.table.held(id),
                        posture: timeless(post.posture),
                    },
                )
            }
        }),
    decreases arrivals.len(),
{
    let capacity = fresh.default_capacity;
    if arrivals.len() == 0 {
        assert(space_index(fresh.spaces, key) is None);
        assert(member_index(new_space(key).members, name) is None);
    } else {
        let init = arrivals.drop_last();
        let (u, t) = arrivals.last();
        let before = run(fresh, init);
        own_updates_decide(fresh, init, key, name, tree, id);
        run_keeps(fresh, init, key);
        assert(fresh.space(key) == new_space(key));
        arrival(before, u, t, key, name);
        if concerns(u, key, name) {
            let us = own(init, key, name);
            let all = own(arrivals, key, name);
            assert(all.drop_last() =~= us);
            assert(all.last() == u);
            if us.len() > 0 {
                assert(all[0] == us[0]);
            }
            let s = Journey { tree, posture: new_posture(all[0].epoch, 0, capacity) };
            let mid = applied_all(s, id, us, 0, capacity);
            journey_stays(s, id, us, 0, capacity);
            let p = new_posture(u.epoch, t, capacity);
            if space_index(before.spaces, key) is None {
                new_space_is_valid(key);
            }
            enrolled_keeps(before.space(key), name, p, name);
            let space = before.admitted(u, t);
            let m = space.members[member_index(space.members, name)->0];
            applied_alike(
                space.tree,
                m.id,
                m.posture,
                u,
                t,
                mid.tree,
                id,
                mid.posture,
                u,
                0,
                capacity,
            );
        }
    }
}

// ── There is room ───────────────────────────────────────────────────────────

/// The names of members.
spec fn names_of(members: Seq<MemberView>) -> Seq<Seq<char>> {
    members.map_values(|m: MemberView| m.name)
}

/// The slots of members.
spec fn slots_of(members: Seq<MemberView>) -> Seq<int> {
    members.map_values(|m: MemberView| m.id.slot() as int)
}

/// A keyspace has no more members than slots, and without free slots no fewer.
proof fn members_fill_slots(space: SpaceView)
    requires
        space.wf(),
    ensures
        names_of(space.members).no_duplicates(),
        names_of(space.members).to_set().finite(),
        names_of(space.members).to_set().len() == space.members.len(),
        space.members.len() <= space.tree.table.slots.len(),
        space.tree.table.free.len() == 0 ==> space.members.len() == space.tree.table.slots.len(),
{
    let names = names_of(space.members);
    let seats = slots_of(space.members);
    let t = space.tree.table;
    let all = vstd::set_lib::set_int_range(0, t.slots.len() as int);
    vstd::set_lib::lemma_int_range(0, t.slots.len() as int);
    assert forall|i: int, j: int| 0 <= i < j < names.len() implies names[i] != names[j] by {
        assert(space.members[i].name != space.members[j].name);
    }
    assert(names.no_duplicates());
    names.unique_seq_to_set();
    vstd::seq_lib::seq_to_set_is_finite(names);
    assert forall|i: int, j: int| 0 <= i < j < seats.len() implies seats[i] != seats[j] by {
        seats_differ(space, i, j);
    }
    assert(seats.no_duplicates());
    seats.unique_seq_to_set();
    vstd::seq_lib::seq_to_set_is_finite(seats);
    assert(seats.to_set().subset_of(all)) by {
        assert forall|x: int| seats.to_set().contains(x) implies all.contains(x) by {
            let i = seats.index_of(x);
            assert(t.live(space.members[i].id));
        }
    }
    vstd::set_lib::lemma_len_subset(seats.to_set(), all);
    if t.free.len() == 0 {
        assert(all.subset_of(seats.to_set())) by {
            assert forall|x: int| all.contains(x) implies seats.to_set().contains(x) by {
                assert(t.occupied(x)) by {
                    if !t.occupied(x) {
                        assert(t.free.contains(x as u32));
                    }
                }
                let i = choose|i: int|
                    0 <= i < space.members.len() && (#[trigger] space.members[i]).id.slot() == x;
                assert(seats[i] == x);
            }
        }
        vstd::set_lib::lemma_len_subset(all, seats.to_set());
    }
}

/// Whom some of a snapshot's messages are about is a member.
proof fn about_members(
    a: EngineView,
    arrivals: Seq<(UpdateMsg, u64)>,
    n: int,
    key: KeyView,
    name: Seq<char>,
)
    requires
        a.wf(),
        message_views(updates_of(arrivals)) == snapshot_of(a.spaces),
        0 <= n <= arrivals.len(),
        own(arrivals.take(n), key, name).len() > 0,
    ensures
        space_index(a.spaces, key) is Some,
        names_of(a.space(key).members).to_set().contains(name),
{
    let all = message_views(updates_of(arrivals));
    let part = message_views(updates_of(arrivals.take(n)));
    own_are_about(arrivals.take(n), key, name);
    assert(message_views(own(arrivals.take(n), key, name)).len() == own(
        arrivals.take(n),
        key,
        name,
    ).len());
    assert(all =~= part + all.skip(n));
    about_sum(part, all.skip(n), key, name);
    snapshot_about(a, a.spaces.len() as int, key, name);
    assert(a.spaces.take(a.spaces.len() as int) =~= a.spaces);
    assert(about(all, key, name).len() > 0);
    let members = a.space(key).members;
    let j = member_index(members, name)->0;
    assert(members[j].name == name);
    assert(names_of(members)[j] == name);
}

/// An engine without keyspaces has room for whatever another one holds.
proof fn snapshots_find_room(
    a: EngineView,
    fresh: EngineView,
    arrivals: Seq<(UpdateMsg, u64)>,
    n: int,
)
    requires
        bootstraps(a, fresh, arrivals),
        0 <= n <= arrivals.len(),
    ensures
        roomy(fresh, arrivals.take(n)),
    decreases n,
{
    if n > 0 {
        let init = arrivals.take(n - 1);
        let u = arrivals[n - 1].0;
        let key = u.keyspace@;
        snapshots_find_room(a, fresh, arrivals, n - 1);
        assert(arrivals.take(n).drop_last() =~= init);
        assert(arrivals.take(n).last() == arrivals[n - 1]);
        let e = run(fresh, init);
        run_keeps(fresh, init, key);
        assert(own(arrivals.take(n), key, u.holder@) == own(init, key, u.holder@).push(u));
        about_members(a, arrivals, n, key, u.holder@);
        let home = a.space(key);
        assert(home.wf());
        assert(home.key == key);
        new_space_is_valid(key);
        let space = e.space(key);
        assert(space.wf());
        let t = space.tree.table;
        if !e.has_room(u) {
            members_fill_slots(home);
            members_fill_slots(space);
            let here = names_of(space.members).to_set();
            let there = names_of(home.members).to_set();
            assert forall|name: Seq<char>| here.contains(name) implies there.contains(name) && name
                != u.holder@ by {
                let i = names_of(space.members).index_of(name);
                assert(space.members[i].name == name);
                assert(t.live(space.members[i].id));
                member_index_is(space.members, name, i);
                empty_seat(fresh, init, key, name);
                about_members(a, arrivals, n - 1, key, name);
                assert(t.occupied(space.members[i].id.slot() as int));
            }
            assert(here.insert(u.holder@).subset_of(there));
            vstd::set_lib::lemma_len_subset(here.insert(u.holder@), there);
            assert(false);
        }
    }
}

/// Whom no update is for, an engine without keyspaces does not come to know.
proof fn empty_seat(
    fresh: EngineView,
    arrivals: Seq<(UpdateMsg, u64)>,
    key: KeyView,
    name: Seq<char>,
)
    requires
        fresh.spaces.len() == 0,
        roomy(fresh, arrivals),
        key.block_size != 0,
    ensures
        standing(run(fresh, arrivals), key, name) is Some <==> own(arrivals, key, name).len() > 0,
{
    new_space_is_valid(key);
    let p = new_posture(0, 0, fresh.default_capacity);
    let home = enrolled(new_space(key), name, p);
    enrolled_keeps(new_space(key), name, p, name);
    let seat = home.members[member_index(home.members, name)->0];
    assert(member_index(new_space(key).members, name) is None);
    assert(local(home, name) == Some(Standing { blocks: Map::empty(), posture: timeless(p) }));
    assert(home.tree.table.live(seat.id));
    own_updates_decide(fresh, arrivals, key, name, home.tree, seat.id);
}

/// A bootstrap stays valid: the new engine has a slot for the holder of every
/// message when its turn comes.
pub proof fn bootstraps_find_room(
    a: EngineView,
    fresh: EngineView,
    arrivals: Seq<(UpdateMsg, u64)>,
)
    requires
        bootstraps(a, fresh, arrivals),
    ensures
        roomy(fresh, arrivals),
        run(fresh, arrivals).wf(),
{
    snapshots_find_room(a, fresh, arrivals, arrivals.len() as int);
    assert(arrivals.take(arrivals.len() as int) =~= arrivals);
    run_keeps(fresh, arrivals, arrivals[0].0.keyspace@);
}

// ── What is kept ────────────────────────────────────────────────────────────

/// A bootstrap carries holders: of every holder that a snapshot carries whole the
/// new engine keeps the same blocks and the same posture, but for the time of the
/// last publication. (The watermark goes with an event feed only.)
pub proof fn bootstraps_carry_holders(
    a: EngineView,
    fresh: EngineView,
    arrivals: Seq<(UpdateMsg, u64)>,
    i: int,
    j: int,
)
    requires
        bootstraps(a, fresh, arrivals),
        0 <= i < a.spaces.len(),
        0 <= j < a.spaces[i].members.len(),
        portable(a.spaces[i], a.spaces[i].members[j], fresh.default_capacity),
    ensures
        standing(run(fresh, arrivals), a.spaces[i].key, a.spaces[i].members[j].name) == Some(
            Standing {
                blocks: a.spaces[i].tree.table.held(a.spaces[i].members[j].id),
                posture: carried(a.spaces[i].members[j].posture),
            },
        ),
{
    let space = a.spaces[i];
    let m = space.members[j];
    let key = space.key;
    let name = m.name;
    let us = own(arrivals, key, name);
    let capacity = fresh.default_capacity;
    assert(space.wf());
    space_index_is(a.spaces, key, i);
    member_index_is(space.members, name, j);
    snapshot_about(a, a.spaces.len() as int, key, name);
    assert(a.spaces.take(a.spaces.len() as int) =~= a.spaces);
    own_are_about(arrivals, key, name);
    members_sign(space, m);
    assert(message_views(us) == member_messages(space, m));
    assert(message_views(us).len() == us.len());
    assert(message_views(us)[0] == us[0]@);
    assert(us[0].epoch == m.posture.epoch);
    new_space_is_valid(key);
    let p = new_posture(m.posture.epoch, 0, capacity);
    let home = enrolled(new_space(key), name, p);
    enrolled_keeps(new_space(key), name, p, name);
    let seat = home.members[member_index(home.members, name)->0];
    assert(member_index(new_space(key).members, name) is None);
    assert(local(home, name) == Some(Standing { blocks: Map::empty(), posture: timeless(p) }));
    assert(home.tree.table.live(seat.id));
    bootstraps_find_room(a, fresh, arrivals);
    own_updates_decide(fresh, arrivals, key, name, home.tree, seat.id);
    snapshots_carry_members(space, m, home.tree, seat.id, us, 0, capacity);
}

/// A bootstrap brings no other holders: what the one engine does not know, the other
/// does not know either.
pub proof fn bootstraps_bring_nobody_else(
    a: EngineView,
    fresh: EngineView,
    arrivals: Seq<(UpdateMsg, u64)>,
    key: KeyView,
    name: Seq<char>,
)
    requires
        bootstraps(a, fresh, arrivals),
        key.block_size != 0,
    ensures
        standing(run(fresh, arrivals), key, name) is Some <==> standing(a, key, name) is Some,
{
    let us = own(arrivals, key, name);
    snapshot_about(a, a.spaces.len() as int, key, name);
    assert(a.spaces.take(a.spaces.len() as int) =~= a.spaces);
    own_are_about(arrivals, key, name);
    assert(message_views(us).len() == us.len());
    if space_index(a.spaces, key) is Some {
        let space = a.space(key);
        if member_index(space.members, name) is Some {
            members_sign(space, space.members[member_index(space.members, name)->0]);
        }
    } else {
        assert(member_index(new_space(key).members, name) is None);
    }
    bootstraps_find_room(a, fresh, arrivals);
    empty_seat(fresh, arrivals, key, name);
}

// ── What is answered ────────────────────────────────────────────────────────

/// The two standings show the same to queries.
spec fn shows_alike(x: Option<Standing>, y: Option<Standing>) -> bool {
    match (x, y) {
        (Some(s), Some(t)) => {
            &&& s.blocks == t.blocks
            &&& s.posture.dropped == t.posture.dropped
            &&& s.posture.event_fed == t.posture.event_fed
        },
        _ => false,
    }
}

/// A score of a holder that both show alike is in both answers.
proof fn score_shows(
    d: EngineView,
    e: EngineView,
    key: KeyView,
    q: Seq<u64>,
    score: HolderScore,
    x: Seq<HolderScore>,
    y: Seq<HolderScore>,
)
    requires
        d.wf(),
        e.wf(),
        answers(d, key, q, x),
        answers(e, key, q, y),
        x.contains(score),
        shows_alike(standing(d, key, score.holder@), standing(e, key, score.holder@)),
    ensures
        score_among(score, y),
{
    let s = d.space(key);
    let t = e.space(key);
    let name = score.holder@;
    assert(told(s, q, score));
    let m = choose|m: int| #[trigger] has_score(s, q, m) && scores_member(s, q, m, score);
    assert(s.wf());
    member_index_is(s.members, name, m);
    if space_index(e.spaces, key) is None {
        assert(member_index(new_space(key).members, name) is None);
    }
    let n = member_index(t.members, name)->0;
    assert(t.members[n].name == name);
    assert(has_score(t, q, n));
    assert(scored(t, q, y));
    assert(tells(t, q, n, y));
    let j = choose|j: int| 0 <= j < y.len() && scores_member(t, q, n, #[trigger] y[j]);
    assert(same_score(score, y[j]));
}

/// A bootstrap reproduces answers: for every chain, the two engines give the same
/// score, or none, to a holder that the snapshot carries whole.
pub proof fn bootstraps_reproduce_scores(
    a: EngineView,
    fresh: EngineView,
    arrivals: Seq<(UpdateMsg, u64)>,
    i: int,
    j: int,
    q: Seq<u64>,
    x: Seq<HolderScore>,
    y: Seq<HolderScore>,
)
    requires
        bootstraps(a, fresh, arrivals),
        0 <= i < a.spaces.len(),
        0 <= j < a.spaces[i].members.len(),
        portable(a.spaces[i], a.spaces[i].members[j], fresh.default_capacity),
        answers(a, a.spaces[i].key, q, x),
        answers(run(fresh, arrivals), a.spaces[i].key, q, y),
    ensures
        forall|k: int|
            0 <= k < x.len() && (#[trigger] x[k]).holder@ == a.spaces[i].members[j].name
                ==> score_among(x[k], y),
        forall|k: int|
            0 <= k < y.len() && (#[trigger] y[k]).holder@ == a.spaces[i].members[j].name
                ==> score_among(y[k], x),
{
    let space = a.spaces[i];
    let m = space.members[j];
    let key = space.key;
    let post = run(fresh, arrivals);
    assert(space.wf());
    space_index_is(a.spaces, key, i);
    member_index_is(space.members, m.name, j);
    bootstraps_carry_holders(a, fresh, arrivals, i, j);
    bootstraps_find_room(a, fresh, arrivals);
    assert forall|k: int|
        0 <= k < x.len() && (#[trigger] x[k]).holder@ == m.name implies score_among(x[k], y) by {
        score_shows(a, post, key, q, x[k], x, y);
    }
    assert forall|k: int|
        0 <= k < y.len() && (#[trigger] y[k]).holder@ == m.name implies score_among(y[k], x) by {
        score_shows(post, a, key, q, y[k], y, x);
    }
}

/// Every score is there again.
#[verifier::spinoff_prover]
#[verifier::rlimit(40)]
proof fn scores_come_along(
    a: EngineView,
    fresh: EngineView,
    arrivals: Seq<(UpdateMsg, u64)>,
    key: KeyView,
    q: Seq<u64>,
    x: Seq<HolderScore>,
    y: Seq<HolderScore>,
)
    requires
        bootstraps(a, fresh, arrivals),
        key.block_size != 0,
        forall|j: int|
            0 <= j < a.space(key).members.len() ==> portable(
                a.space(key),
                #[trigger] a.space(key).members[j],
                fresh.default_capacity,
            ),
        answers(a, key, q, x),
        answers(run(fresh, arrivals), key, q, y),
    ensures
        scores_within(x, y),
{
    assert forall|k: int| 0 <= k < x.len() implies score_among(#[trigger] x[k], y) by {
        let i = space_index(a.spaces, key)->0;
        let s = a.spaces[i];
        assert(told(s, q, x[k]));
        let m = choose|m: int| #[trigger] has_score(s, q, m) && scores_member(s, q, m, x[k]);
        assert(portable(a.space(key), a.space(key).members[m], fresh.default_capacity));
        bootstraps_reproduce_scores(a, fresh, arrivals, i, m, q, x, y);
    }
}

/// No score is new.
#[verifier::spinoff_prover]
#[verifier::rlimit(40)]
proof fn scores_come_from_before(
    a: EngineView,
    fresh: EngineView,
    arrivals: Seq<(UpdateMsg, u64)>,
    key: KeyView,
    q: Seq<u64>,
    x: Seq<HolderScore>,
    y: Seq<HolderScore>,
)
    requires
        bootstraps(a, fresh, arrivals),
        key.block_size != 0,
        forall|j: int|
            0 <= j < a.space(key).members.len() ==> portable(
                a.space(key),
                #[trigger] a.space(key).members[j],
                fresh.default_capacity,
            ),
        answers(a, key, q, x),
        answers(run(fresh, arrivals), key, q, y),
    ensures
        scores_within(y, x),
{
    let post = run(fresh, arrivals);
    bootstraps_find_room(a, fresh, arrivals);
    assert forall|k: int| 0 <= k < y.len() implies score_among(#[trigger] y[k], x) by {
        let t = post.space(key);
        let name = y[k].holder@;
        assert(told(t, q, y[k]));
        let n = choose|n: int| #[trigger] has_score(t, q, n) && scores_member(t, q, n, y[k]);
        assert(t.wf());
        member_index_is(t.members, name, n);
        bootstraps_bring_nobody_else(a, fresh, arrivals, key, name);
        if space_index(a.spaces, key) is None {
            assert(member_index(new_space(key).members, name) is None);
        }
        let i = space_index(a.spaces, key)->0;
        let m = member_index(a.spaces[i].members, name)->0;
        assert(a.spaces[i].members[m].name == name);
        assert(portable(a.space(key), a.space(key).members[m], fresh.default_capacity));
        bootstraps_reproduce_scores(a, fresh, arrivals, i, m, q, x, y);
    }
}

/// A bootstrap reproduces answers: where the snapshot carries all holders of a
/// keyspace whole, the two engines answer its queries with the same scores.
/// (Holders that match equally deep may come in another order.)
pub proof fn bootstraps_reproduce_answers(
    a: EngineView,
    fresh: EngineView,
    arrivals: Seq<(UpdateMsg, u64)>,
    key: KeyView,
    q: Seq<u64>,
    x: Seq<HolderScore>,
    y: Seq<HolderScore>,
)
    requires
        bootstraps(a, fresh, arrivals),
        key.block_size != 0,
        forall|j: int|
            0 <= j < a.space(key).members.len() ==> portable(
                a.space(key),
                #[trigger] a.space(key).members[j],
                fresh.default_capacity,
            ),
        answers(a, key, q, x),
        answers(run(fresh, arrivals), key, q, y),
    ensures
        scores_within(x, y),
        scores_within(y, x),
{
    scores_come_along(a, fresh, arrivals, key, q, x, y);
    scores_come_from_before(a, fresh, arrivals, key, q, x, y);
}

} // verus!
