//! The index engine: one tree per keyspace, with epoch-scoped holder state,
//! feed authority, and overlap queries.
//!
//! Event feeds are sequenced per holder and epoch, and deduplicated by their
//! sequence. Placement feeds are unsequenced and idempotent by content. A
//! higher epoch clears what lower ones left; lower epochs are dropped. A holder
//! with an event feed takes no placements.

use crate::flat::BlockInfo;
use crate::flat::RadixTree;
use crate::forest;
use crate::forest::Link;
use crate::forest::Row;
use crate::model;
use crate::model::TableView;
use crate::model::TreeView;
use crate::text::same_text;
use crate::types;
use crate::types::Config;
use crate::types::HolderId;
use crate::types::Overlap;
use crate::types::StoreError;
use crate::wire_hash;
use crate::wire_hash::ContentHash;
use crate::wire_hash::SequenceHash;
use vstd::prelude::*;

verus! {

/// One block on the wire: its identity on the chain, and its content.
#[derive(Debug, Clone, Copy, PartialEq, Eq, Structural)]
pub struct WireBlock {
    pub seq_hash: SequenceHash,
    pub content_hash: ContentHash,
}

/// A cache transition within one update.
#[derive(Debug, Clone, PartialEq, Eq)]
pub enum WireEvent {
    Stored { parent: Option<SequenceHash>, blocks: Vec<WireBlock> },
    Removed { seq_hashes: Vec<SequenceHash> },
    Cleared,
}

/// Membership and capacity control.
#[derive(Debug, Clone, Copy, PartialEq, Eq, Structural)]
pub struct AddedControl {
    pub capacity_blocks: u64,
    pub event_fed: bool,
}

/// One published update.
#[derive(Debug, Clone, PartialEq, Eq)]
pub struct UpdateMsg {
    pub keyspace: KeyspaceKey,
    pub holder: String,
    pub epoch: u64,
    /// 0 if unsequenced (placement or control), else the holder's batch number.
    pub seq: u64,
    pub events: Vec<WireEvent>,
    pub added: Option<AddedControl>,
    pub dropped: bool,
}

/// What became of an update.
#[derive(Debug, Clone, Copy, PartialEq, Eq, Structural)]
pub enum ApplyOutcome {
    Applied,
    /// Dropped as a duplicate: a stale sequence number or a stale epoch.
    Deduped,
    /// A placement dropped because the holder has an event feed.
    FeedRejected,
    /// The keyspace has no valid block size.
    KeyspaceMismatch,
}

#[derive(Debug, Clone, Copy, PartialEq, Eq, Hash, Structural)]
pub enum SymbolKind {
    Tokens,
    Bytes,
}

#[derive(Debug, Clone, PartialEq, Eq, Hash)]
pub struct KeyspaceKey {
    pub model: String,
    pub symbol_kind: SymbolKind,
    pub block_size: u32,
}

/// One holder's score in a query's answer.
#[derive(Debug, Clone, PartialEq, Eq)]
pub struct HolderScore {
    pub holder: String,
    pub matched_blocks: u32,
    pub total_blocks: u64,
    pub event_fed: bool,
}

pub struct EngineConfig {
    /// Idle time, in nanoseconds, after which a holder without an event feed
    /// loses its blocks.
    pub inferred_ttl: u64,
    /// Capacity, in blocks, of holders that declared none.
    pub default_capacity_blocks: u64,
}

impl Default for EngineConfig {
    fn default() -> (r: EngineConfig)
        ensures
            r.inferred_ttl == 180_000_000_000,
            r.default_capacity_blocks == u64::MAX,
    {
        EngineConfig { inferred_ttl: 180_000_000_000, default_capacity_blocks: u64::MAX }
    }
}

/// What the engine knows of a holder beside its blocks.
#[derive(Debug, Clone, Copy, PartialEq, Eq, Structural)]
pub struct Posture {
    pub epoch: u64,
    pub last_seq: u64,
    pub event_fed: bool,
    pub capacity_blocks: u64,
    pub dropped: bool,
    /// When the holder last published, in nanoseconds.
    pub last_publish: u64,
}

/// A keyspace as plain values.
pub struct KeyView {
    pub model: Seq<char>,
    pub symbol_kind: SymbolKind,
    pub block_size: u32,
}

impl View for KeyspaceKey {
    type V = KeyView;

    open spec fn view(&self) -> KeyView {
        KeyView {
            model: self.model@,
            symbol_kind: self.symbol_kind,
            block_size: self.block_size,
        }
    }
}

/// A holder of a keyspace.
pub struct MemberView {
    pub name: Seq<char>,
    pub id: HolderId,
    pub posture: Posture,
}

/// A keyspace with its tree and holders, in the order of their first contact.
pub struct SpaceView {
    pub key: KeyView,
    pub tree: TreeView<BlockInfo>,
    pub members: Seq<MemberView>,
}

/// Block keys and contents of a wire batch.
pub open spec fn pairs_of(blocks: Seq<WireBlock>) -> Seq<(u64, u64)> {
    blocks.map_values(|b: WireBlock| (b.seq_hash.0, b.content_hash.0))
}

/// Block keys of a wire removal.
pub open spec fn keys_of(hashes: Seq<SequenceHash>) -> Seq<u64> {
    hashes.map_values(|h: SequenceHash| h.0)
}

/// `m` cut down to its `keep` first blocks.
pub open spec fn cut(m: Map<u64, BlockInfo>, keep: int) -> Map<u64, BlockInfo> {
    choose|post: Map<u64, BlockInfo>| model::truncated(m, keep, post)
}

/// The tree with other blocks for one holder.
pub open spec fn reblocked(
    tree: TreeView<BlockInfo>,
    id: HolderId,
    blocks: Map<u64, BlockInfo>,
) -> TreeView<BlockInfo> {
    TreeView { limit: tree.limit, table: tree.table.with_blocks(id.slot() as int, blocks) }
}

/// An update in the middle of its events.
pub struct Feed {
    pub tree: TreeView<BlockInfo>,
    pub posture: Posture,
    pub outcome: ApplyOutcome,
}

/// The parent that a batch is stored under: its own, or none if the holder does
/// not have it.
pub open spec fn settled_parent(
    tree: TreeView<BlockInfo>,
    id: HolderId,
    parent: Option<SequenceHash>,
    blocks: Seq<(u64, u64)>,
) -> Option<u64> {
    let own = match parent {
        None => None,
        Some(p) => Some(p.0),
    };
    if model::store_error(tree, id, own, blocks) == Some(StoreError::ParentNotFound) {
        None
    } else {
        own
    }
}

/// Twice the capacity: past it a holder without an event feed is cut down.
pub open spec fn runaway_bound(capacity: u64) -> u64 {
    types::clamp((2 * capacity) as nat)
}

/// The tree after a batch that was not rejected.
pub open spec fn stored_within(
    tree: TreeView<BlockInfo>,
    id: HolderId,
    posture: Posture,
    parent: Option<u64>,
    blocks: Seq<(u64, u64)>,
) -> TreeView<BlockInfo> {
    let grown = model::stored(tree, id, parent, blocks);
    let bound = runaway_bound(posture.capacity_blocks);
    if !posture.event_fed && grown.table.held(id).len() > bound {
        reblocked(grown, id, cut(grown.table.held(id), bound as int))
    } else {
        grown
    }
}

/// One event of an update. `observed` if the update is sequenced: it is part of an
/// event feed, not inferred.
pub open spec fn fed(f: Feed, id: HolderId, observed: bool, event: WireEvent) -> Feed {
    match event {
        WireEvent::Stored { parent, blocks } => {
            if !observed && f.posture.event_fed {
                Feed { outcome: ApplyOutcome::FeedRejected, ..f }
            } else {
                let posture = Posture { event_fed: f.posture.event_fed || observed, ..f.posture };
                let pairs = pairs_of(blocks@);
                let parent = settled_parent(f.tree, id, parent, pairs);
                if model::store_error(f.tree, id, parent, pairs) is Some {
                    Feed { posture, ..f }
                } else {
                    Feed {
                        tree: stored_within(f.tree, id, posture, parent, pairs),
                        posture,
                        outcome: f.outcome,
                    }
                }
            }
        },
        WireEvent::Removed { seq_hashes } => {
            let m = f.tree.table.held(id);
            Feed {
                tree: reblocked(f.tree, id, model::pruned(m, keys_of(seq_hashes@))),
                posture: Posture { event_fed: true, ..f.posture },
                outcome: f.outcome,
            }
        },
        WireEvent::Cleared => Feed { tree: reblocked(f.tree, id, Map::empty()), ..f },
    }
}

/// The events of an update, in order.
pub open spec fn fed_all(f: Feed, id: HolderId, observed: bool, events: Seq<WireEvent>) -> Feed
    decreases events.len(),
{
    if events.len() == 0 {
        f
    } else {
        fed(fed_all(f, id, observed, events.drop_last()), id, observed, events.last())
    }
}

/// An update's control payload.
pub open spec fn controlled(p: Posture, update: UpdateMsg, now: u64, default_capacity: u64) -> Posture {
    let published = Posture { last_publish: now, ..p };
    let added = match update.added {
        None => published,
        Some(a) => Posture {
            capacity_blocks: if a.capacity_blocks == 0 {
                default_capacity
            } else {
                a.capacity_blocks
            },
            event_fed: published.event_fed || a.event_fed,
            dropped: false,
            ..published
        },
    };
    Posture { dropped: added.dropped || update.dropped, ..added }
}

/// The posture that an update meets: a higher epoch starts over.
pub open spec fn met(posture: Posture, update: UpdateMsg) -> Posture {
    if update.epoch > posture.epoch {
        Posture { epoch: update.epoch, last_seq: 0, ..posture }
    } else {
        posture
    }
}

/// The posture that an update's events meet.
pub open spec fn braced(posture: Posture, update: UpdateMsg, now: u64, default_capacity: u64) -> Posture {
    let p = met(posture, update);
    Posture {
        last_seq: if update.seq > p.last_seq {
            update.seq
        } else {
            p.last_seq
        },
        ..controlled(p, update, now, default_capacity)
    }
}

/// The tree that an update's events meet.
pub open spec fn cleared_for(
    tree: TreeView<BlockInfo>,
    id: HolderId,
    posture: Posture,
    update: UpdateMsg,
) -> TreeView<BlockInfo> {
    if update.epoch > posture.epoch {
        reblocked(tree, id, Map::empty())
    } else {
        tree
    }
}

/// What an update does to a holder that the keyspace knows.
pub open spec fn applied(
    tree: TreeView<BlockInfo>,
    id: HolderId,
    posture: Posture,
    update: UpdateMsg,
    now: u64,
    default_capacity: u64,
) -> Feed {
    if update.epoch < posture.epoch {
        Feed { tree, posture, outcome: ApplyOutcome::Deduped }
    } else {
        let p = met(posture, update);
        let start = Feed {
            tree: cleared_for(tree, id, posture, update),
            posture: braced(posture, update, now, default_capacity),
            outcome: ApplyOutcome::Applied,
        };
        if update.seq != 0 && update.seq <= p.last_seq {
            Feed { outcome: ApplyOutcome::Deduped, ..start }
        } else {
            fed_all(start, id, update.seq != 0, update.events@)
        }
    }
}

/// What others see of a holder changed: its blocks, its epoch, its capacity,
/// whether it is dropped, or whether it has an event feed.
pub open spec fn altered(
    tree: TreeView<BlockInfo>,
    id: HolderId,
    posture: Posture,
    f: Feed,
) -> bool {
    ||| f.tree.table.held(id) != tree.table.held(id)
    ||| f.posture.epoch != posture.epoch
    ||| f.posture.capacity_blocks != posture.capacity_blocks
    ||| f.posture.dropped != posture.dropped
    ||| f.posture.event_fed != posture.event_fed
}

/// The blocks that events name.
pub open spec fn touched(events: Seq<WireEvent>) -> Set<u64>
    decreases events.len(),
{
    if events.len() == 0 {
        Set::empty()
    } else {
        touched(events.drop_last()).union(named(events.last()))
    }
}

/// The blocks that an event names.
pub open spec fn named(event: WireEvent) -> Set<u64> {
    match event {
        WireEvent::Stored { parent, blocks } => Set::new(
            |k: u64|
                exists|i: int| 0 <= i < blocks@.len() && (#[trigger] blocks@[i]).seq_hash.0 == k,
        ),
        WireEvent::Removed { seq_hashes } => Set::new(
            |k: u64| exists|i: int| 0 <= i < seq_hashes@.len() && (#[trigger] seq_hashes@[i]).0 == k,
        ),
        WireEvent::Cleared => Set::empty(),
    }
}

/// `post` has nothing of the keys outside `keys` that `m` does not have.
pub(crate) open spec fn shrinks_outside(m: Map<u64, BlockInfo>, post: Map<u64, BlockInfo>, keys: Set<u64>) -> bool {
    &&& post.dom().finite()
    &&& forall|k: u64| #[trigger]
        post.contains_key(k) && !keys.contains(k) ==> m.contains_key(k) && m[k] == post[k]
}

/// A batch comes under its own keys only.
pub(crate) proof fn placed_names(m: Map<u64, BlockInfo>, b: Seq<(u64, BlockInfo)>, k: u64)
    requires
        forall|i: int| 0 <= i < b.len() ==> (#[trigger] b[i]).0 != k,
    ensures
        model::placed(m, b).contains_key(k) == m.contains_key(k),
        m.contains_key(k) ==> model::placed(m, b)[k] == m[k],
    decreases b.len(),
{
    if b.len() > 0 {
        let init = b.drop_last();
        assert forall|i: int| 0 <= i < init.len() implies (#[trigger] init[i]).0 != k by {
            assert(b[i] == init[i]);
        }
        placed_names(m, init, k);
        assert(b[b.len() - 1].0 != k);
    }
}

/// Cutting down gives one result.
proof fn cut_is_unique(
    m: Map<u64, BlockInfo>,
    keep: int,
    a: Map<u64, BlockInfo>,
    b: Map<u64, BlockInfo>,
)
    requires
        m.dom().finite(),
        model::truncated(m, keep, a),
        model::truncated(m, keep, b),
    ensures
        a == b,
{
    assert(a.dom().len() == b.dom().len());
    if exists|k: u64| a.contains_key(k) && !b.contains_key(k) {
        let k = choose|k: u64| a.contains_key(k) && !b.contains_key(k);
        if b.dom().subset_of(a.dom()) {
            vstd::set_lib::lemma_subset_equality(b.dom(), a.dom());
            assert(a.dom().contains(k));
            assert(false);
        }
        let j = choose|j: u64| b.dom().contains(j) && !a.dom().contains(j);
        assert(b.contains_key(j) && m.contains_key(j));
        assert(m.contains_key(k));
        assert(model::ahead(m, k, j));
        assert(model::ahead(m, j, k));
        assert(false);
    }
    assert(a.dom().subset_of(b.dom())) by {
        assert forall|k: u64| a.dom().contains(k) implies b.dom().contains(k) by {
            assert(a.contains_key(k));
        }
    }
    vstd::set_lib::lemma_subset_equality(a.dom(), b.dom());
    assert forall|k: u64| #[trigger] a.dom().contains(k) implies a[k] == b[k] by {
        assert(b.dom().contains(k));
        assert(m.dom().contains(k));
        assert(a[k] == m[k] && b[k] == m[k]);
    }
    assert(a =~= b);
}

/// A cut made by a tree is the cut.
pub(crate) proof fn cut_is_cut(m: Map<u64, BlockInfo>, keep: int, post: Map<u64, BlockInfo>)
    requires
        m.dom().finite(),
        model::truncated(m, keep, post),
    ensures
        post == cut(m, keep),
{
    cut_is_unique(m, keep, post, cut(m, keep));
}

struct Member {
    name: String,
    id: HolderId,
    posture: Posture,
}

struct Space {
    key: KeyspaceKey,
    tree: RadixTree,
    members: Vec<Member>,
}

spec fn member_view(m: Member) -> MemberView {
    MemberView { name: m.name@, id: m.id, posture: m.posture }
}

impl View for Space {
    type V = SpaceView;

    closed spec fn view(&self) -> SpaceView {
        SpaceView {
            key: self.key@,
            tree: self.tree@,
            members: Seq::new(self.members@.len(), |i: int| member_view(self.members@[i])),
        }
    }
}

impl SpaceView {
    /// The members are the holders of the tree, each once.
    pub open spec fn wf(self) -> bool {
        &&& self.key.block_size != 0
        &&& self.tree.table.wf()
        &&& forall|i: int|
            0 <= i < self.members.len() ==> self.tree.table.live((#[trigger] self.members[i]).id)
                && self.tree.table.name(self.members[i].id.slot() as int) == self.members[i].name
        &&& forall|i: int, j: int|
            0 <= i < j < self.members.len() ==> (#[trigger] self.members[i]).name != (
            #[trigger] self.members[j]).name
        &&& forall|s: int| #[trigger]
            self.tree.table.occupied(s) ==> exists|i: int|
                0 <= i < self.members.len() && (#[trigger] self.members[i]).id.slot() == s
    }

    /// The keyspace with another tree and posture for member `j`.
    pub open spec fn with_member(self, j: int, tree: TreeView<BlockInfo>, posture: Posture) -> Self {
        SpaceView {
            key: self.key,
            tree,
            members: self.members.update(
                j,
                MemberView { name: self.members[j].name, id: self.members[j].id, posture },
            ),
        }
    }
}

/// Other blocks for one holder leave holders and names as they are.
pub(crate) proof fn reblocked_keeps(space: SpaceView, j: int, blocks: Map<u64, BlockInfo>, posture: Posture)
    requires
        space.wf(),
        0 <= j < space.members.len(),
        blocks.dom().finite(),
    ensures
        space.with_member(j, reblocked(space.tree, space.members[j].id, blocks), posture).wf(),
{
    let id = space.members[j].id;
    let t = space.tree.table;
    let u = t.with_blocks(id.slot() as int, blocks);
    let post = space.with_member(j, reblocked(space.tree, id, blocks), posture);
    assert(t.live(id));
    assert forall|i: int| #[trigger] u.occupied(i) == t.occupied(i) && (t.occupied(i) ==> u.name(i)
        == t.name(i)) by {}
    assert forall|i: int| 0 <= i < post.members.len() implies post.tree.table.live(
        (#[trigger] post.members[i]).id,
    ) && post.tree.table.name(post.members[i].id.slot() as int) == post.members[i].name by {
        assert(t.live(space.members[i].id));
    }
    assert forall|a: int, b: int| 0 <= a < b < post.members.len() implies (
    #[trigger] post.members[a]).name != (#[trigger] post.members[b]).name by {
        assert(space.members[a].name != space.members[b].name);
    }
    assert forall|s: int| #[trigger] post.tree.table.occupied(s) implies exists|i: int|
        0 <= i < post.members.len() && (#[trigger] post.members[i]).id.slot() == s by {
        assert(t.occupied(s));
        let i = choose|i: int|
            0 <= i < space.members.len() && (#[trigger] space.members[i]).id.slot() == s;
        assert(post.members[i].id.slot() == s);
    }
    assert(u.wf()) by {
        assert forall|a: int, b: int| #[trigger]
            u.occupied(a) && #[trigger] u.occupied(b) && u.name(a) == u.name(b) implies a == b by {
            assert(t.occupied(a) && t.occupied(b));
        }
        assert forall|i: int| 0 <= i < u.free.len() implies (#[trigger] u.free[i]) < u.slots.len()
            && !u.occupied(u.free[i] as int) by {
            assert(!t.occupied(t.free[i] as int));
        }
        assert forall|i: int| 0 <= i < u.slots.len() && !#[trigger] u.occupied(
            i,
        ) implies u.free.contains(i as u32) by {
            assert(!t.occupied(i));
        }
        assert forall|i: int| #[trigger] u.occupied(i) implies u.blocks(i).dom().finite() by {
            assert(t.occupied(i));
        }
    }
}

impl Space {
    spec fn wf(&self) -> bool {
        self.tree.wf() && self@.wf()
    }

    /// The events of an update, fed to one holder.
    fn feed(&mut self, j: usize, observed: bool, events: &Vec<WireEvent>) -> (r: ApplyOutcome)
        requires
            old(self).wf(),
            j < old(self)@.members.len(),
        ensures
            final(self).wf(),
            ({
                let m = old(self)@.members[j as int];
                let f = fed_all(
                    Feed {
                        tree: old(self)@.tree,
                        posture: m.posture,
                        outcome: ApplyOutcome::Applied,
                    },
                    m.id,
                    observed,
                    events@,
                );
                &&& final(self)@ == old(self)@.with_member(j as int, f.tree, f.posture)
                &&& r == f.outcome
            }),
    {
        let ghost first = self@;
        let id = self.members[j].id;
        let mut outcome = ApplyOutcome::Applied;
        let mut n: usize = 0;
        let ghost start = Feed {
            tree: self@.tree,
            posture: self@.members[j as int].posture,
            outcome: ApplyOutcome::Applied,
        };
        proof {
            assert(events@.take(0) =~= Seq::<WireEvent>::empty());
            assert(first.with_member(j as int, start.tree, start.posture).members =~= first.members);
        }
        while n < events.len()
            invariant
                self.wf(),
                j < self@.members.len(),
                first.members.len() == self@.members.len(),
                n <= events@.len(),
                id == first.members[j as int].id,
                ({
                    let f = fed_all(start, id, observed, events@.take(n as int));
                    &&& self@ == first.with_member(j as int, f.tree, f.posture)
                    &&& outcome == f.outcome
                }),
            decreases events@.len() - n,
        {
            let ghost f = fed_all(start, id, observed, events@.take(n as int));
            let ghost pre = self@;
            proof {
                assert(events@.take(n + 1).drop_last() =~= events@.take(n as int));
                assert(events@.take(n + 1).last() == events@[n as int]);
                assert(self@.members[j as int].id == id);
                assert(self@.tree.table.live(id));
            }
            match &events[n] {
                WireEvent::Stored { parent, blocks } => {
                    if !observed && self.members[j].posture.event_fed {
                        outcome = ApplyOutcome::FeedRejected;
                    } else {
                        self.store(j, observed, *parent, blocks);
                    }
                },
                WireEvent::Removed { seq_hashes } => {
                    self.unstore(j, seq_hashes);
                },
                WireEvent::Cleared => {
                    self.tree.clear(id);
                    proof {
                        reblocked_keeps(
                            pre,
                            j as int,
                            Map::empty(),
                            pre.members[j as int].posture,
                        );
                        assert(self@.members =~= pre.with_member(
                            j as int,
                            self@.tree,
                            pre.members[j as int].posture,
                        ).members);
                    }
                },
            }
            proof {
                let g = fed(f, id, observed, events@[n as int]);
                assert(self@.members =~= first.with_member(j as int, g.tree, g.posture).members);
            }
            n = n + 1;
        }
        assert(events@.take(n as int) =~= events@);
        outcome
    }

    /// A batch of a feed that the holder takes.
    fn store(
        &mut self,
        j: usize,
        observed: bool,
        parent: Option<SequenceHash>,
        blocks: &Vec<WireBlock>,
    )
        requires
            old(self).wf(),
            j < old(self)@.members.len(),
            observed || !old(self)@.members[j as int].posture.event_fed,
        ensures
            final(self).wf(),
            ({
                let m = old(self)@.members[j as int];
                let tree = old(self)@.tree;
                let posture = Posture {
                    event_fed: m.posture.event_fed || observed,
                    ..m.posture
                };
                let pairs = pairs_of(blocks@);
                let up = settled_parent(tree, m.id, parent, pairs);
                final(self)@ == old(self)@.with_member(
                    j as int,
                    if model::store_error(tree, m.id, up, pairs) is Some {
                        tree
                    } else {
                        stored_within(tree, m.id, posture, up, pairs)
                    },
                    posture,
                )
            }),
    {
        let ghost pre = self@;
        let id = self.members[j].id;
        let mut pairs: Vec<(u64, u64)> = Vec::new();
        let mut n: usize = 0;
        while n < blocks.len()
            invariant
                n <= blocks@.len(),
                pairs@ == pairs_of(blocks@).take(n as int),
            decreases blocks@.len() - n,
        {
            pairs.push((blocks[n].seq_hash.0, blocks[n].content_hash.0));
            n = n + 1;
            proof {
                assert(pairs@ =~= pairs_of(blocks@).take(n as int));
            }
        }
        assert(pairs@ =~= pairs_of(blocks@));
        if observed {
            self.members[j].posture.event_fed = true;
        }
        let ghost posture = self.members@[j as int].posture;
        let ghost tree = pre.tree;
        let up: Option<u64> = match parent {
            None => None,
            Some(p) => Some(p.0),
        };
        proof {
            assert(self@.members =~= pre.with_member(j as int, tree, posture).members);
            assert(pre.members[j as int].id == id);
            assert(tree.table.live(id));
            reblocked_keeps(pre, j as int, tree.table.held(id), posture);
            model::with_blocks_twice(
                tree.table,
                id.slot() as int,
                tree.table.held(id),
                tree.table.held(id),
            );
        }
        let mut stored = self.tree.store(id, up, pairs.as_slice());
        let mut anchor = up;
        match stored {
            Err(StoreError::ParentNotFound) => {
                stored = self.tree.store(id, None, pairs.as_slice());
                anchor = None;
            },
            _ => {},
        }
        match stored {
            Err(e) => {
                proof {
                    assert(self@ == pre.with_member(j as int, tree, posture));
                }
            },
            Ok(o) => {
                let ghost grown = model::stored(tree, id, anchor, pairs@);
                proof {
                    assert(self.tree@ == grown);
                    self.tree.validity();
                    model::with_blocks_twice(
                        tree.table,
                        id.slot() as int,
                        grown.table.held(id),
                        grown.table.held(id),
                    );
                    reblocked_keeps(pre, j as int, grown.table.held(id), posture);
                    assert(self@ == pre.with_member(j as int, grown, posture));
                }
                if !self.members[j].posture.event_fed {
                    let capacity: u64 = self.members[j].posture.capacity_blocks;
                    let bound: u64 = bound_of(capacity);
                    if self.tree.holder_blocks(id) > bound {
                        self.tree.truncate_tail(id, bound);
                        proof {
                            let m = grown.table.held(id);
                            cut_is_cut(m, bound as int, self.tree@.table.held(id));
                            assert(self.tree@ == reblocked(grown, id, cut(m, bound as int)));
                            model::with_blocks_twice(
                                tree.table,
                                id.slot() as int,
                                m,
                                cut(m, bound as int),
                            );
                            assert(self.tree@ == reblocked(tree, id, cut(m, bound as int)));
                            self.tree.validity();
                            reblocked_keeps(pre, j as int, cut(m, bound as int), posture);
                            assert(self@ == pre.with_member(j as int, self.tree@, posture));
                        }
                    }
                }
            },
        }
    }

    /// A removal from an event feed.
    fn unstore(&mut self, j: usize, hashes: &Vec<SequenceHash>)
        requires
            old(self).wf(),
            j < old(self)@.members.len(),
        ensures
            final(self).wf(),
            ({
                let m = old(self)@.members[j as int];
                let held = old(self)@.tree.table.held(m.id);
                final(self)@ == old(self)@.with_member(
                    j as int,
                    reblocked(old(self)@.tree, m.id, model::pruned(held, keys_of(hashes@))),
                    Posture { event_fed: true, ..m.posture },
                )
            }),
    {
        let ghost pre = self@;
        let id = self.members[j].id;
        let mut keys: Vec<u64> = Vec::new();
        let mut n: usize = 0;
        while n < hashes.len()
            invariant
                n <= hashes@.len(),
                keys@ == keys_of(hashes@).take(n as int),
            decreases hashes@.len() - n,
        {
            keys.push(hashes[n].0);
            n = n + 1;
            proof {
                assert(keys@ =~= keys_of(hashes@).take(n as int));
            }
        }
        assert(keys@ =~= keys_of(hashes@));
        self.members[j].posture.event_fed = true;
        let ghost posture = self.members@[j as int].posture;
        proof {
            assert(pre.members[j as int].id == id);
            assert(pre.tree.table.live(id));
        }
        self.tree.remove(id, keys.as_slice());
        proof {
            let m = pre.tree.table.held(id);
            let rest = model::pruned(m, keys@);
            self.tree.validity();
            assert(rest.dom().subset_of(m.dom()));
            vstd::set_lib::lemma_len_subset(rest.dom(), m.dom());
            reblocked_keeps(pre, j as int, rest, posture);
            assert(self@.members =~= pre.with_member(j as int, self.tree@, posture).members);
        }
    }

    /// What an update does to a holder that the keyspace knows.
    fn take(&mut self, j: usize, update: &UpdateMsg, now: u64, default_capacity: u64) -> (r:
        ApplyOutcome)
        requires
            old(self).wf(),
            j < old(self)@.members.len(),
        ensures
            final(self).wf(),
            ({
                let m = old(self)@.members[j as int];
                let f = applied(
                    old(self)@.tree,
                    m.id,
                    m.posture,
                    *update,
                    now,
                    default_capacity,
                );
                &&& final(self)@ == old(self)@.with_member(j as int, f.tree, f.posture)
                &&& r == f.outcome
            }),
    {
        let ghost pre = self@;
        let id = self.members[j].id;
        let mut posture = self.members[j].posture;
        proof {
            assert(pre.members[j as int].id == id);
            assert(pre.tree.table.live(id));
            assert(pre.with_member(j as int, pre.tree, posture).members =~= pre.members);
        }
        if update.epoch < posture.epoch {
            return ApplyOutcome::Deduped;
        }
        if update.epoch > posture.epoch {
            self.tree.clear(id);
            posture.epoch = update.epoch;
            posture.last_seq = 0;
        }
        assert(posture == met(pre.members[j as int].posture, *update));
        let sequenced: bool = update.seq != 0;
        let stale: bool = sequenced && update.seq <= posture.last_seq;
        posture.last_publish = now;
        match &update.added {
            None => {},
            Some(added) => {
                posture.capacity_blocks = if added.capacity_blocks == 0 {
                    default_capacity
                } else {
                    added.capacity_blocks
                };
                if added.event_fed {
                    posture.event_fed = true;
                }
                posture.dropped = false;
            },
        }
        if update.dropped {
            posture.dropped = true;
        }
        if sequenced && !stale {
            posture.last_seq = update.seq;
        }
        self.members[j].posture = posture;
        proof {
            let was = pre.members[j as int].posture;
            if update.epoch > was.epoch {
                reblocked_keeps(pre, j as int, Map::empty(), posture);
            } else {
                reblocked_keeps(pre, j as int, pre.tree.table.held(id), posture);
                model::with_blocks_twice(
                    pre.tree.table,
                    id.slot() as int,
                    pre.tree.table.held(id),
                    pre.tree.table.held(id),
                );
            }
            assert(self@.members =~= pre.with_member(j as int, self.tree@, posture).members);
            assert(self@ == pre.with_member(j as int, self.tree@, posture));
            assert(self.tree@ == cleared_for(pre.tree, id, was, *update));
            assert(posture == braced(was, *update, now, default_capacity));
        }
        if stale {
            return ApplyOutcome::Deduped;
        }
        let ghost mid = self@;
        let outcome = self.feed(j, sequenced, &update.events);
        proof {
            let f = applied(
                pre.tree,
                id,
                pre.members[j as int].posture,
                *update,
                now,
                default_capacity,
            );
            let g = fed_all(
                Feed {
                    tree: mid.tree,
                    posture: mid.members[j as int].posture,
                    outcome: ApplyOutcome::Applied,
                },
                id,
                sequenced,
                update.events@,
            );
            assert(mid.members[j as int].posture == posture);
            assert(f == g);
            assert(self@ == mid.with_member(j as int, g.tree, g.posture));
            assert(mid.with_member(j as int, f.tree, f.posture).members =~= pre.with_member(
                j as int,
                f.tree,
                f.posture,
            ).members);
        }
        outcome
    }

    /// Where a holder has the listed blocks.
    fn sightings(&self, id: HolderId, keys: &Vec<u64>) -> (r: Vec<Option<BlockInfo>>)
        requires
            self.wf(),
        ensures
            seen(self@.tree.table.held(id), keys@, r@),
    {
        let mut r: Vec<Option<BlockInfo>> = Vec::new();
        let mut i: usize = 0;
        while i < keys.len()
            invariant
                self.wf(),
                i <= keys@.len(),
                seen(self@.tree.table.held(id), keys@.take(i as int), r@),
            decreases keys@.len() - i,
        {
            let b = self.tree.block(id, keys[i]);
            r.push(b);
            i = i + 1;
            proof {
                let k = keys@.take(i as int);
                assert forall|x: int| 0 <= x < k.len() implies #[trigger] r@[x] == sight(
                    self@.tree.table.held(id),
                    k[x],
                ) by {
                    if x < i - 1 {
                        assert(k[x] == keys@.take(i - 1)[x]);
                    }
                }
            }
        }
        assert(keys@.take(i as int) =~= keys@);
        r
    }

    /// Applies an update to a holder that the keyspace knows. Returns what became
    /// of it, the watermark, and whether anything changed that others see.
    fn apply(&mut self, j: usize, update: &UpdateMsg, now: u64, default_capacity: u64) -> (r: (
        ApplyOutcome,
        u64,
        bool,
    ))
        requires
            old(self).wf(),
            j < old(self)@.members.len(),
        ensures
            final(self).wf(),
            ({
                let m = old(self)@.members[j as int];
                let f = applied(
                    old(self)@.tree,
                    m.id,
                    m.posture,
                    *update,
                    now,
                    default_capacity,
                );
                &&& final(self)@ == old(self)@.with_member(j as int, f.tree, f.posture)
                &&& r == (
                    f.outcome,
                    f.posture.last_seq,
                    altered(old(self)@.tree, m.id, m.posture, f),
                )
            }),
    {
        let ghost pre = self@;
        let id = self.members[j].id;
        let was = self.members[j].posture;
        let keys = named_blocks(&update.events);
        let before = self.sightings(id, &keys);
        let blocks: u64 = self.tree.holder_blocks(id);
        proof {
            assert(pre.members[j as int].id == id);
            assert(pre.tree.table.live(id));
            self.tree.validity();
            assert(pre.tree.table.occupied(id.slot() as int));
        }
        let outcome = self.take(j, update, now, default_capacity);
        let after = self.sightings(id, &keys);
        assert(self@.members.len() == pre.members.len());
        let is = self.members[j].posture;
        let moved: bool = blocks != self.tree.holder_blocks(id) || !same_sightings(&before, &after);
        proof {
            let f = applied(pre.tree, id, was, *update, now, default_capacity);
            let m = pre.tree.table.held(id);
            let post = f.tree.table.held(id);
            assert(self@.tree == f.tree);
            assert(self@.members[j as int].posture == f.posture);
            applied_shrinks(pre.tree, id, was, *update, now, default_capacity);
            unmoved(m, post, touched(update.events@), keys@, before@, after@);
        }
        (
            outcome,
            is.last_seq,
            moved || is.epoch != was.epoch || is.capacity_blocks != was.capacity_blocks
                || is.dropped != was.dropped || is.event_fed != was.event_fed,
        )
    }
}

/// Where a holder has a block.
spec fn sight(m: Map<u64, BlockInfo>, k: u64) -> Option<BlockInfo> {
    if m.contains_key(k) {
        Some(m[k])
    } else {
        None
    }
}

/// Where a holder has the listed blocks.
spec fn seen(m: Map<u64, BlockInfo>, keys: Seq<u64>, r: Seq<Option<BlockInfo>>) -> bool {
    &&& r.len() == keys.len()
    &&& forall|i: int| 0 <= i < keys.len() ==> #[trigger] r[i] == sight(m, keys[i])
}

fn same_sightings(a: &Vec<Option<BlockInfo>>, b: &Vec<Option<BlockInfo>>) -> (r: bool)
    requires
        a@.len() == b@.len(),
    ensures
        r == (a@ == b@),
{
    let mut i: usize = 0;
    while i < a.len()
        invariant
            i <= a@.len(),
            a@.len() == b@.len(),
            forall|x: int| 0 <= x < i ==> #[trigger] a@[x] == b@[x],
        decreases a@.len() - i,
    {
        let same: bool = match (a[i], b[i]) {
            (Some(x), Some(y)) => x == y,
            (None, None) => true,
            _ => false,
        };
        if !same {
            assert(a@[i as int] != b@[i as int]);
            return false;
        }
        i = i + 1;
    }
    assert(a@ =~= b@);
    true
}

/// What the events name, maybe more than once.
fn named_blocks(events: &Vec<WireEvent>) -> (r: Vec<u64>)
    ensures
        r@.to_set() == touched(events@),
{
    let mut r: Vec<u64> = Vec::new();
    let mut n: usize = 0;
    proof {
        assert(events@.take(0) =~= Seq::<WireEvent>::empty());
        assert(r@.to_set() =~= Set::<u64>::empty());
    }
    while n < events.len()
        invariant
            n <= events@.len(),
            r@.to_set() == touched(events@.take(n as int)),
        decreases events@.len() - n,
    {
        let ghost base = r@;
        match &events[n] {
            WireEvent::Stored { parent, blocks } => {
                let mut i: usize = 0;
                while i < blocks.len()
                    invariant
                        i <= blocks@.len(),
                        r@.len() == base.len() + i,
                        forall|x: int| 0 <= x < base.len() ==> r@[x] == base[x],
                        forall|x: int|
                            0 <= x < i ==> r@[base.len() + x] == (#[trigger] blocks@[x]).seq_hash.0,
                    decreases blocks@.len() - i,
                {
                    r.push(blocks[i].seq_hash.0);
                    i = i + 1;
                }
                proof {
                    names_added(base, r@, blocks@.map_values(|b: WireBlock| b.seq_hash.0));
                    let own = blocks@.map_values(|b: WireBlock| b.seq_hash.0);
                    assert forall|k: u64| own.to_set().contains(k) <==> named(
                        events@[n as int],
                    ).contains(k) by {
                        if own.contains(k) {
                            let x = choose|x: int| 0 <= x < own.len() && own[x] == k;
                            assert(blocks@[x].seq_hash.0 == k);
                        }
                        if named(events@[n as int]).contains(k) {
                            let x = choose|x: int|
                                0 <= x < blocks@.len() && (#[trigger] blocks@[x]).seq_hash.0 == k;
                            assert(own[x] == k);
                        }
                    }
                    assert(own.to_set() =~= named(events@[n as int]));
                }
            },
            WireEvent::Removed { seq_hashes } => {
                let mut i: usize = 0;
                while i < seq_hashes.len()
                    invariant
                        i <= seq_hashes@.len(),
                        r@.len() == base.len() + i,
                        forall|x: int| 0 <= x < base.len() ==> r@[x] == base[x],
                        forall|x: int|
                            0 <= x < i ==> r@[base.len() + x] == (#[trigger] seq_hashes@[x]).0,
                    decreases seq_hashes@.len() - i,
                {
                    r.push(seq_hashes[i].0);
                    i = i + 1;
                }
                proof {
                    let own = seq_hashes@.map_values(|h: SequenceHash| h.0);
                    names_added(base, r@, own);
                    assert forall|k: u64| own.to_set().contains(k) <==> named(
                        events@[n as int],
                    ).contains(k) by {
                        if own.contains(k) {
                            let x = choose|x: int| 0 <= x < own.len() && own[x] == k;
                            assert(seq_hashes@[x].0 == k);
                        }
                        if named(events@[n as int]).contains(k) {
                            let x = choose|x: int|
                                0 <= x < seq_hashes@.len() && (#[trigger] seq_hashes@[x]).0 == k;
                            assert(own[x] == k);
                        }
                    }
                    assert(own.to_set() =~= named(events@[n as int]));
                }
            },
            WireEvent::Cleared => {
                assert(base.to_set().union(Set::empty()) =~= base.to_set());
            },
        }
        proof {
            let t = events@.take(n + 1);
            assert(t.drop_last() =~= events@.take(n as int));
            assert(t.last() == events@[n as int]);
        }
        n = n + 1;
    }
    assert(events@.take(n as int) =~= events@);
    r
}

proof fn names_added(base: Seq<u64>, r: Seq<u64>, own: Seq<u64>)
    requires
        r.len() == base.len() + own.len(),
        forall|x: int| 0 <= x < base.len() ==> r[x] == base[x],
        forall|x: int| 0 <= x < own.len() ==> r[base.len() + x] == #[trigger] own[x],
    ensures
        r.to_set() == base.to_set().union(own.to_set()),
{
    assert(r =~= base + own);
    assert forall|k: u64| r.to_set().contains(k) <==> base.to_set().union(own.to_set()).contains(
        k,
    ) by {
        if r.contains(k) {
            let x = choose|x: int| 0 <= x < r.len() && r[x] == k;
            if x < base.len() {
                assert(base[x] == k);
            } else {
                assert(own[x - base.len()] == k);
            }
        }
        if base.contains(k) {
            let x = choose|x: int| 0 <= x < base.len() && base[x] == k;
            assert(r[x] == k);
        }
        if own.contains(k) {
            let x = choose|x: int| 0 <= x < own.len() && own[x] == k;
            assert(r[base.len() + x] == k);
        }
    }
    assert(r.to_set() =~= base.to_set().union(own.to_set()));
}

/// Where nothing that was named moved, and no block less is there, nothing moved.
proof fn unmoved(
    m: Map<u64, BlockInfo>,
    post: Map<u64, BlockInfo>,
    touched: Set<u64>,
    keys: Seq<u64>,
    before: Seq<Option<BlockInfo>>,
    after: Seq<Option<BlockInfo>>,
)
    requires
        m.dom().finite(),
        shrinks_outside(m, post, touched),
        keys.to_set() == touched,
        seen(m, keys, before),
        seen(post, keys, after),
    ensures
        (m.len() == post.len() && before == after) <==> m == post,
{
    if m == post {
        assert(before =~= after);
    }
    if m.len() == post.len() && before == after {
        assert forall|k: u64| #[trigger] post.contains_key(k) implies m.contains_key(k) && m[k]
            == post[k] by {
            if touched.contains(k) {
                assert(keys.contains(k));
                let i = choose|i: int| 0 <= i < keys.len() && keys[i] == k;
                assert(before[i] == sight(m, k) && after[i] == sight(post, k));
            }
        }
        assert(post.dom().subset_of(m.dom())) by {
            assert forall|k: u64| post.dom().contains(k) implies m.dom().contains(k) by {
                assert(post.contains_key(k));
            }
        }
        vstd::set_lib::lemma_subset_equality(post.dom(), m.dom());
        assert(m =~= post);
    }
}

/// An event leaves what it does not name, or takes it away.
pub(crate) proof fn fed_shrinks(f: Feed, id: HolderId, observed: bool, event: WireEvent)
    requires
        f.tree.table.live(id),
        f.tree.table.held(id).dom().finite(),
    ensures
        ({
            let post = fed(f, id, observed, event).tree.table;
            &&& post.live(id)
            &&& shrinks_outside(f.tree.table.held(id), post.held(id), named(event))
        }),
{
    let m = f.tree.table.held(id);
    let slot = id.slot() as int;
    model::with_blocks_twice(f.tree.table, slot, m, m);
    match event {
        WireEvent::Stored { parent, blocks } => {
            let pairs = pairs_of(blocks@);
            let up = settled_parent(f.tree, id, parent, pairs);
            let b = model::batch(m, up, pairs);
            let g = model::placed(m, b);
            model::trail_len(model::anchor(m, up), pairs);
            model::with_blocks_twice(f.tree.table, slot, g, g);
            placed_stays_finite(m, b);
            let bound = runaway_bound(f.posture.capacity_blocks) as int;
            let c = model::cut_exists(g, bound);
            let d = cut(g, bound);
            assert(model::truncated(g, bound, d));
            model::with_blocks_twice(f.tree.table, slot, g, d);
            assert forall|k: u64| #[trigger] g.contains_key(k) && !named(event).contains(
                k,
            ) implies m.contains_key(k) && m[k] == g[k] by {
                assert forall|i: int| 0 <= i < b.len() implies (#[trigger] b[i]).0 != k by {
                    trail_keys(model::anchor(m, up), pairs, i);
                    assert(blocks@[i].seq_hash.0 == pairs[i].0);
                }
                placed_names(m, b, k);
            }
            assert forall|k: u64| #[trigger] d.contains_key(k) && !named(event).contains(
                k,
            ) implies m.contains_key(k) && m[k] == d[k] by {
                assert(d.dom().contains(k));
                assert(g.contains_key(k));
            }
        },
        WireEvent::Removed { seq_hashes } => {
            let g = model::pruned(m, keys_of(seq_hashes@));
            assert(g.dom().subset_of(m.dom()));
            vstd::set_lib::lemma_set_subset_finite(m.dom(), g.dom());
            model::with_blocks_twice(f.tree.table, slot, g, g);
        },
        WireEvent::Cleared => {
            model::with_blocks_twice(f.tree.table, slot, Map::empty(), Map::empty());
        },
    }
}

pub(crate) proof fn placed_stays_finite(m: Map<u64, BlockInfo>, b: Seq<(u64, BlockInfo)>)
    requires
        m.dom().finite(),
    ensures
        model::placed(m, b).dom().finite(),
    decreases b.len(),
{
    if b.len() > 0 {
        placed_stays_finite(m, b.drop_last());
    }
}

/// The keys of a trail are those of its blocks.
pub(crate) proof fn trail_keys(anchor: Option<BlockInfo>, blocks: Seq<(u64, u64)>, i: int)
    requires
        0 <= i < blocks.len(),
    ensures
        model::trail(anchor, blocks).len() == blocks.len(),
        model::trail(anchor, blocks)[i].0 == blocks[i].0,
    decreases blocks.len(),
{
    model::trail_len(anchor, blocks);
    model::trail_len(anchor, blocks.drop_last());
    if i < blocks.len() - 1 {
        trail_keys(anchor, blocks.drop_last(), i);
    }
}

proof fn fed_all_shrinks(f: Feed, id: HolderId, observed: bool, events: Seq<WireEvent>)
    requires
        f.tree.table.live(id),
        f.tree.table.held(id).dom().finite(),
    ensures
        ({
            let post = fed_all(f, id, observed, events).tree.table;
            &&& post.live(id)
            &&& shrinks_outside(f.tree.table.held(id), post.held(id), touched(events))
        }),
    decreases events.len(),
{
    if events.len() > 0 {
        let mid = fed_all(f, id, observed, events.drop_last());
        fed_all_shrinks(f, id, observed, events.drop_last());
        fed_shrinks(mid, id, observed, events.last());
    }
}

/// An update leaves what it does not name, or takes it away.
proof fn applied_shrinks(
    tree: TreeView<BlockInfo>,
    id: HolderId,
    posture: Posture,
    update: UpdateMsg,
    now: u64,
    default_capacity: u64,
)
    requires
        tree.table.live(id),
        tree.table.held(id).dom().finite(),
    ensures
        shrinks_outside(
            tree.table.held(id),
            applied(tree, id, posture, update, now, default_capacity).tree.table.held(id),
            touched(update.events@),
        ),
{
    if update.epoch >= posture.epoch {
        let start = Feed {
            tree: cleared_for(tree, id, posture, update),
            posture: braced(posture, update, now, default_capacity),
            outcome: ApplyOutcome::Applied,
        };
        model::with_blocks_twice(tree.table, id.slot() as int, Map::empty(), Map::empty());
        fed_all_shrinks(start, id, update.seq != 0, update.events@);
    }
}

/// The id with the given parts.
pub open spec fn id_for(slot: u32, issue: u64) -> HolderId {
    choose|id: HolderId| id.slot() == slot && id.issue() == issue
}

/// An id is the one with its parts.
proof fn id_for_parts(id: HolderId)
    ensures
        id == id_for(id.slot(), id.issue()),
{
    types::id_is_its_parts(id, id_for(id.slot(), id.issue()));
}

/// Where a keyspace stands in the list.
pub open spec fn space_index(spaces: Seq<SpaceView>, key: KeyView) -> Option<int> {
    if exists|i: int| 0 <= i < spaces.len() && (#[trigger] spaces[i]).key == key {
        Some(choose|i: int| 0 <= i < spaces.len() && (#[trigger] spaces[i]).key == key)
    } else {
        None
    }
}

/// Where a holder stands in the list.
pub open spec fn member_index(members: Seq<MemberView>, name: Seq<char>) -> Option<int> {
    if exists|i: int| 0 <= i < members.len() && (#[trigger] members[i]).name == name {
        Some(choose|i: int| 0 <= i < members.len() && (#[trigger] members[i]).name == name)
    } else {
        None
    }
}

/// A keyspace on first contact.
pub open spec fn new_space(key: KeyView) -> SpaceView {
    SpaceView {
        key,
        tree: TreeView {
            limit: 65_536,
            table: TableView { slots: Seq::empty(), free: Seq::empty() },
        },
        members: Seq::empty(),
    }
}

/// A holder's posture on first contact.
pub open spec fn new_posture(epoch: u64, now: u64, default_capacity: u64) -> Posture {
    Posture {
        epoch,
        last_seq: 0,
        event_fed: false,
        capacity_blocks: default_capacity,
        dropped: false,
        last_publish: now,
    }
}

/// The keyspace with a holder called `name`.
pub open spec fn enrolled(space: SpaceView, name: Seq<char>, fresh: Posture) -> SpaceView {
    if member_index(space.members, name) is Some {
        space
    } else {
        let slot = space.tree.table.next_slot();
        let table = space.tree.table.with_holder(slot, name);
        SpaceView {
            key: space.key,
            tree: TreeView { limit: space.tree.limit, table },
            members: space.members.push(
                MemberView {
                    name,
                    id: id_for(slot as u32, table.slots[slot].generation),
                    posture: fresh,
                },
            ),
        }
    }
}

/// All keyspaces.
pub struct EngineView {
    pub inferred_ttl: u64,
    pub default_capacity: u64,
    pub spaces: Seq<SpaceView>,
}

impl EngineView {
    /// Keyspaces are valid, and each stands there once.
    pub open spec fn wf(self) -> bool {
        &&& forall|i: int| 0 <= i < self.spaces.len() ==> (#[trigger] self.spaces[i]).wf()
        &&& forall|i: int, j: int|
            0 <= i < j < self.spaces.len() ==> (#[trigger] self.spaces[i]).key != (
            #[trigger] self.spaces[j]).key
    }

    /// The keyspace of `key`: the one there is, or a new one.
    pub open spec fn space(self, key: KeyView) -> SpaceView {
        match space_index(self.spaces, key) {
            Some(i) => self.spaces[i],
            None => new_space(key),
        }
    }

    /// There is a slot for the update's holder: slot indices are `u32`.
    pub open spec fn has_room(self, update: UpdateMsg) -> bool {
        self.space(update.keyspace@).tree.table.has_room(update.holder@)
    }

    /// The update's keyspace with the update's holder in it.
    pub open spec fn admitted(self, update: UpdateMsg, now: u64) -> SpaceView {
        enrolled(
            self.space(update.keyspace@),
            update.holder@,
            new_posture(update.epoch, now, self.default_capacity),
        )
    }

    /// What the update does to its holder.
    pub open spec fn feed(self, update: UpdateMsg, now: u64) -> Feed {
        let space = self.admitted(update, now);
        let m = space.members[member_index(space.members, update.holder@)->0];
        applied(space.tree, m.id, m.posture, update, now, self.default_capacity)
    }

    /// The engine after the update.
    pub open spec fn after(self, update: UpdateMsg, now: u64) -> EngineView {
        if update.keyspace.block_size == 0 {
            self
        } else {
            let space = self.admitted(update, now);
            let f = self.feed(update, now);
            let done = space.with_member(
                member_index(space.members, update.holder@)->0,
                f.tree,
                f.posture,
            );
            EngineView {
                spaces: match space_index(self.spaces, update.keyspace@) {
                    Some(i) => self.spaces.update(i, done),
                    None => self.spaces.push(done),
                },
                ..self
            }
        }
    }

    /// The update's holder is new, or what others see of it changes.
    pub open spec fn changes(self, update: UpdateMsg, now: u64) -> bool {
        let space = self.admitted(update, now);
        let m = space.members[member_index(space.members, update.holder@)->0];
        ||| member_index(self.space(update.keyspace@).members, update.holder@) is None
        ||| altered(space.tree, m.id, m.posture, self.feed(update, now))
    }

    /// What the update is answered: outcome, watermark, and whether anything
    /// changed that others see.
    pub open spec fn answer(self, update: UpdateMsg, now: u64) -> (ApplyOutcome, u64, bool) {
        if update.keyspace.block_size == 0 {
            (ApplyOutcome::KeyspaceMismatch, 0, false)
        } else {
            let f = self.feed(update, now);
            (f.outcome, f.posture.last_seq, self.changes(update, now))
        }
    }
}

/// There is one index for a keyspace.
pub(crate) proof fn space_index_is(spaces: Seq<SpaceView>, key: KeyView, i: int)
    requires
        forall|a: int, b: int|
            0 <= a < b < spaces.len() ==> (#[trigger] spaces[a]).key != (#[trigger] spaces[b]).key,
        0 <= i < spaces.len(),
        spaces[i].key == key,
    ensures
        space_index(spaces, key) == Some(i),
{
    let j = space_index(spaces, key)->0;
    assert(spaces[j].key == key);
    assert(i == j || i < j || j < i);
}

/// There is one index for a holder.
pub(crate) proof fn member_index_is(members: Seq<MemberView>, name: Seq<char>, i: int)
    requires
        forall|a: int, b: int|
            0 <= a < b < members.len() ==> (#[trigger] members[a]).name != (
            #[trigger] members[b]).name,
        0 <= i < members.len(),
        members[i].name == name,
    ensures
        member_index(members, name) == Some(i),
{
    let j = member_index(members, name)->0;
    assert(members[j].name == name);
    assert(i == j || i < j || j < i);
}

fn copy_key(key: &KeyspaceKey) -> (r: KeyspaceKey)
    ensures
        r@ == key@,
{
    KeyspaceKey {
        model: key.model.clone(),
        symbol_kind: key.symbol_kind,
        block_size: key.block_size,
    }
}

fn same_key(a: &KeyspaceKey, b: &KeyspaceKey) -> (r: bool)
    ensures
        r == (a@ == b@),
{
    a.block_size == b.block_size && a.symbol_kind == b.symbol_kind && a.model == b.model
}

impl Space {
    /// Where the holder called `name` stands.
    fn find(&self, name: &str) -> (r: Option<usize>)
        requires
            self@.wf(),
        ensures
            match r {
                Some(j) => j < self@.members.len() && self@.members[j as int].name == name@
                    && member_index(self@.members, name@) == Some(j as int),
                None => member_index(self@.members, name@) is None,
            },
    {
        let mut j: usize = 0;
        while j < self.members.len()
            invariant
                self@.wf(),
                j <= self.members@.len(),
                forall|x: int| 0 <= x < j ==> (#[trigger] self@.members[x]).name != name@,
            decreases self.members@.len() - j,
        {
            if same_text(self.members[j].name.as_str(), name) {
                proof {
                    member_index_is(self@.members, name@, j as int);
                }
                return Some(j);
            }
            assert(self@.members[j as int].name == self.members@[j as int].name@);
            j = j + 1;
        }
        None
    }

    /// The holder called `name`, enrolled if the keyspace does not know it.
    fn enroll(&mut self, name: &str, fresh: Posture) -> (j: usize)
        requires
            old(self).wf(),
            old(self)@.tree.table.has_room(name@),
        ensures
            final(self).wf(),
            final(self)@ == enrolled(old(self)@, name@, fresh),
            member_index(final(self)@.members, name@) == Some(j as int),
            j < final(self)@.members.len(),
    {
        match self.find(name) {
            Some(j) => {
                return j;
            },
            None => {},
        }
        let ghost pre = self@;
        let id = self.tree.create_holder(name);
        self.members.push(Member { name: name.to_owned(), id, posture: fresh });
        proof {
            let t = pre.tree.table;
            let u = self@.tree.table;
            assert(!t.has_name(name@)) by {
                if t.has_name(name@) {
                    let i = choose|i: int| #[trigger] t.occupied(i) && t.name(i) == name@;
                    let x = choose|x: int|
                        0 <= x < pre.members.len() && (#[trigger] pre.members[x]).id.slot() == i;
                    assert(pre.members[x].name == name@);
                }
            }
            id_for_parts(id);
            self.tree.validity();
            let slot = t.next_slot();
            if t.free.len() > 0 {
                assert(t.free[t.free.len() - 1] == slot);
            }
            assert(!t.occupied(slot));
            assert forall|i: int| i != slot implies #[trigger] u.occupied(i) == t.occupied(i) && (
            t.occupied(i) ==> u.name(i) == t.name(i)) by {}
            assert(u.occupied(slot) && u.name(slot) == name@);
            let post = enrolled(pre, name@, fresh);
            assert(self@.members =~= post.members);
            assert(self@ == post);
            assert forall|i: int| 0 <= i < post.members.len() implies u.live(
                (#[trigger] post.members[i]).id,
            ) && u.name(post.members[i].id.slot() as int) == post.members[i].name by {
                if i < pre.members.len() {
                    assert(post.members[i] == pre.members[i]);
                    assert(t.live(pre.members[i].id));
                }
            }
            assert forall|a: int, b: int| 0 <= a < b < post.members.len() implies (
            #[trigger] post.members[a]).name != (#[trigger] post.members[b]).name by {
                assert(post.members[a] == pre.members[a]);
                if b < pre.members.len() {
                    assert(post.members[b] == pre.members[b]);
                } else {
                    assert(t.live(pre.members[a].id));
                    assert(t.occupied(pre.members[a].id.slot() as int));
                }
            }
            assert forall|x: int| #[trigger] u.occupied(x) implies exists|i: int|
                0 <= i < post.members.len() && (#[trigger] post.members[i]).id.slot() == x by {
                if x == slot {
                    assert(post.members[pre.members.len() as int].id.slot() == x);
                } else {
                    assert(t.occupied(x));
                    let i = choose|i: int|
                        0 <= i < pre.members.len() && (#[trigger] pre.members[i]).id.slot() == x;
                    assert(post.members[i].id.slot() == x);
                }
            }
            member_index_is(post.members, name@, pre.members.len() as int);
        }
        self.members.len() - 1
    }
}

/// The engine: all keyspaces.
pub struct Engine {
    cfg: EngineConfig,
    spaces: Vec<Space>,
}

impl View for Engine {
    type V = EngineView;

    closed spec fn view(&self) -> EngineView {
        EngineView {
            inferred_ttl: self.cfg.inferred_ttl,
            default_capacity: self.cfg.default_capacity_blocks,
            spaces: Seq::new(self.spaces@.len(), |i: int| self.spaces@[i]@),
        }
    }
}

impl Engine {
    /// A valid engine.
    pub closed spec fn wf(&self) -> bool {
        &&& self@.wf()
        &&& forall|i: int| 0 <= i < self.spaces@.len() ==> (#[trigger] self.spaces@[i]).wf()
    }

    /// What validity means to a caller.
    pub proof fn validity(&self)
        requires
            self.wf(),
        ensures
            self@.wf(),
    {
    }

    /// An engine without keyspaces.
    pub fn new(cfg: EngineConfig) -> (r: Engine)
        ensures
            r.wf(),
            r@ == (EngineView {
                inferred_ttl: cfg.inferred_ttl,
                default_capacity: cfg.default_capacity_blocks,
                spaces: Seq::empty(),
            }),
    {
        let r = Engine { cfg, spaces: Vec::new() };
        proof {
            assert(r@.spaces =~= Seq::empty());
        }
        r
    }

    /// Where a keyspace stands.
    fn find(&self, key: &KeyspaceKey) -> (r: Option<usize>)
        requires
            self.wf(),
        ensures
            match r {
                Some(i) => i < self.spaces@.len() && space_index(self@.spaces, key@) == Some(
                    i as int,
                ) && self.spaces@[i as int].key@ == key@,
                None => space_index(self@.spaces, key@) is None,
            },
    {
        let mut i: usize = 0;
        while i < self.spaces.len()
            invariant
                self.wf(),
                i <= self.spaces@.len(),
                forall|x: int| 0 <= x < i ==> (#[trigger] self@.spaces[x]).key != key@,
            decreases self.spaces@.len() - i,
        {
            assert(self@.spaces[i as int] == self.spaces@[i as int]@);
            if same_key(&self.spaces[i].key, key) {
                proof {
                    space_index_is(self@.spaces, key@, i as int);
                }
                return Some(i);
            }
            i = i + 1;
        }
        None
    }

    /// Applies one update, published at `now`. Returns what became of it, the
    /// holder's watermark, and whether anything changed that others see: only
    /// such an update is relayed.
    pub fn apply(&mut self, update: &UpdateMsg, now: u64) -> (r: (ApplyOutcome, u64, bool))
        requires
            old(self).wf(),
            old(self)@.has_room(*update),
        ensures
            final(self).wf(),
            final(self)@ == old(self)@.after(*update, now),
            r == old(self)@.answer(*update, now),
    {
        if update.keyspace.block_size == 0 {
            return (ApplyOutcome::KeyspaceMismatch, 0, false);
        }
        let ghost pre = self@;
        let ghost known = space_index(pre.spaces, update.keyspace@);
        let i: usize = match self.find(&update.keyspace) {
            Some(i) => i,
            None => {
                let space = Space {
                    key: copy_key(&update.keyspace),
                    tree: RadixTree::new(Config { max_chain_len: 65_536 }),
                    members: Vec::new(),
                };
                proof {
                    let want = new_space(update.keyspace@);
                    assert(space@.members =~= want.members);
                    assert(space@.tree.table.slots =~= want.tree.table.slots);
                    assert(space@.tree.table.free =~= want.tree.table.free);
                    assert(space@ == want);
                    space.tree.validity();
                }
                self.spaces.push(space);
                self.spaces.len() - 1
            },
        };
        let ghost mid = self.spaces@;
        proof {
            assert(self.spaces@[i as int]@ == pre.space(update.keyspace@));
            assert(self.spaces@[i as int].wf());
        }
        let fresh = Posture {
            epoch: update.epoch,
            last_seq: 0,
            event_fed: false,
            capacity_blocks: self.cfg.default_capacity_blocks,
            dropped: false,
            last_publish: now,
            };
        let default_capacity: u64 = self.cfg.default_capacity_blocks;
        let space = &mut self.spaces[i];
        let known: bool = space.find(update.holder.as_str()).is_some();
        let j = space.enroll(update.holder.as_str(), fresh);
        let (outcome, watermark, altered) = space.apply(j, update, now, default_capacity);
        let r = (outcome, watermark, !known || altered);
        proof {
            let post = pre.after(*update, now);
            assert(self.spaces@.len() == mid.len());
            assert forall|x: int| 0 <= x < mid.len() && x != i implies #[trigger] self.spaces@[x]
                == mid[x] by {}
            assert(self@.spaces =~= post.spaces);
            assert(self@ == post);
            assert forall|a: int, b: int| 0 <= a < b < post.spaces.len() implies (
            #[trigger] post.spaces[a]).key != (#[trigger] post.spaces[b]).key by {
                let ka = if a < pre.spaces.len() {
                    pre.spaces[a].key
                } else {
                    update.keyspace@
                };
                assert(post.spaces[a].key == ka);
                if b < pre.spaces.len() {
                    assert(pre.spaces[a].key != pre.spaces[b].key);
                } else {
                    assert(a < pre.spaces.len());
                    assert(pre.spaces[a].key != update.keyspace@);
                }
            }
            assert forall|x: int| 0 <= x < self.spaces@.len() implies (
            #[trigger] self.spaces@[x]).wf() by {
                if x != i {
                    assert(mid[x].wf());
                }
            }
            assert forall|x: int| 0 <= x < post.spaces.len() implies (
            #[trigger] post.spaces[x]).wf() by {
                assert(self.spaces@[x].wf());
                assert(self@.spaces[x] == self.spaces@[x]@);
            }
        }
        r
    }

    /// Clears the holders without an event feed that published nothing for
    /// longer than the idle time, and retires the dropped ones.
    pub fn sweep_idle(&mut self, now: u64)
        requires
            old(self).wf(),
        ensures
            final(self).wf(),
            final(self)@.inferred_ttl == old(self)@.inferred_ttl,
            final(self)@.default_capacity == old(self)@.default_capacity,
            final(self)@.spaces.len() == old(self)@.spaces.len(),
            forall|i: int|
                0 <= i < old(self)@.spaces.len() ==> swept(
                    #[trigger] old(self)@.spaces[i],
                    final(self)@.spaces[i],
                    now,
                    old(self)@.inferred_ttl,
                ),
    {
        let ghost pre = *self;
        let ttl: u64 = self.cfg.inferred_ttl;
        let mut i: usize = 0;
        while i < self.spaces.len()
            invariant
                pre.wf(),
                self.cfg == pre.cfg,
                ttl == pre.cfg.inferred_ttl,
                i <= self.spaces@.len(),
                self.spaces@.len() == pre.spaces@.len(),
                forall|x: int| 0 <= x < self.spaces@.len() ==> (#[trigger] self.spaces@[x]).wf(),
                forall|x: int|
                    i <= x < self.spaces@.len() ==> #[trigger] self.spaces@[x] == pre.spaces@[x],
                forall|x: int|
                    0 <= x < i ==> swept(
                        pre.spaces@[x]@,
                        (#[trigger] self.spaces@[x])@,
                        now,
                        ttl,
                    ),
            decreases self.spaces@.len() - i,
        {
            let ghost mid = self.spaces@;
            let space = &mut self.spaces[i];
            space.sweep(now, ttl);
            i = i + 1;
            proof {
                assert forall|x: int| 0 <= x < mid.len() && x != i - 1 implies self.spaces@[x]
                    == mid[x] by {}
            }
        }
        proof {
            assert forall|x: int| 0 <= x < pre@.spaces.len() implies swept(
                #[trigger] pre@.spaces[x],
                self@.spaces[x],
                now,
                ttl,
            ) by {
                assert(pre@.spaces[x] == pre.spaces@[x]@);
                assert(self@.spaces[x] == self.spaces@[x]@);
            }
            assert forall|x: int| 0 <= x < self@.spaces.len() implies (
            #[trigger] self@.spaces[x]).wf() by {
                assert(self.spaces@[x].wf());
            }
            assert forall|a: int, b: int| 0 <= a < b < self@.spaces.len() implies (
            #[trigger] self@.spaces[a]).key != (#[trigger] self@.spaces[b]).key by {
                assert(swept(pre@.spaces[a], self@.spaces[a], now, ttl));
                assert(swept(pre@.spaces[b], self@.spaces[b], now, ttl));
                assert(pre@.spaces[a].key != pre@.spaces[b].key);
            }
        }
    }

    /// How many leading blocks of the chain `hashes` each holder of the keyspace
    /// holds, deepest first. Dropped holders are left out; an unknown keyspace
    /// has no holders.
    pub fn find_matches(&self, keyspace: &KeyspaceKey, hashes: &[ContentHash]) -> (r: Vec<
        HolderScore,
    >)
        requires
            self.wf(),
        ensures
            match space_index(self@.spaces, keyspace@) {
                None => r@.len() == 0,
                Some(i) => scored(self@.spaces[i], contents_of(hashes@), r@),
            },
    {
        let i: usize = match self.find(keyspace) {
            None => {
                return Vec::new();
            },
            Some(i) => i,
        };
        let mut chain: Vec<u64> = Vec::new();
        let mut n: usize = 0;
        while n < hashes.len()
            invariant
                n <= hashes@.len(),
                chain@ == contents_of(hashes@).take(n as int),
            decreases hashes@.len() - n,
        {
            chain.push(hashes[n].0);
            n = n + 1;
            proof {
                assert(chain@ =~= contents_of(hashes@).take(n as int));
            }
        }
        assert(chain@ =~= contents_of(hashes@));
        proof {
            assert(self@.spaces[i as int] == self.spaces@[i as int]@);
            assert(self.spaces@[i as int].wf());
        }
        self.spaces[i].scores(chain.as_slice())
    }

    /// The whole state as updates, from which another engine can start: for each
    /// holder its blocks chain by chain, in messages of bounded size whose batches
    /// are linked by parents; the control payload comes with the first, the
    /// watermark with the last, and with it the event feed where that could not be
    /// told before. A
    /// block whose predecessor is missing follows the one before it, so that gaps
    /// collapse.
    pub fn snapshot(&self) -> (r: Vec<UpdateMsg>)
        requires
            self.wf(),
        ensures
            message_views(r@) == snapshot_of(self@.spaces),
    {
        let mut out: Vec<UpdateMsg> = Vec::new();
        let mut i: usize = 0;
        proof {
            assert(self@.spaces.take(0) =~= Seq::<SpaceView>::empty());
            assert(message_views(out@) =~= Seq::<MessageView>::empty());
        }
        while i < self.spaces.len()
            invariant
                self.wf(),
                i <= self.spaces@.len(),
                message_views(out@) == snapshot_of(self@.spaces.take(i as int)),
            decreases self.spaces@.len() - i,
        {
            let ghost so_far = out@;
            proof {
                assert(self@.spaces[i as int] == self.spaces@[i as int]@);
                assert(self.spaces@[i as int].wf());
            }
            self.spaces[i].snapshot(&mut out);
            proof {
                let s = self@.spaces.take(i + 1);
                assert(s.drop_last() =~= self@.spaces.take(i as int));
                assert(s.last() == self.spaces@[i as int]@);
            }
            i = i + 1;
        }
        assert(self@.spaces.take(i as int) =~= self@.spaces);
        out
    }

    /// How many distinct blocks all keyspaces hold.
    pub fn entry_count(&self) -> (r: usize)
        requires
            self.wf(),
        ensures
            r == clamp_usize(entries_of(self@.spaces)),
    {
        let mut total: usize = 0;
        let mut i: usize = 0;
        proof {
            assert(self@.spaces.take(0) =~= Seq::<SpaceView>::empty());
        }
        while i < self.spaces.len()
            invariant
                self.wf(),
                i <= self.spaces@.len(),
                total == clamp_usize(entries_of(self@.spaces.take(i as int))),
            decreases self.spaces@.len() - i,
        {
            proof {
                assert(self@.spaces[i as int] == self.spaces@[i as int]@);
                assert(self.spaces@[i as int].wf());
                let s = self@.spaces.take(i + 1);
                assert(s.drop_last() =~= self@.spaces.take(i as int));
                assert(s.last() == self.spaces@[i as int]@);
            }
            total = total.saturating_add(narrowed(self.spaces[i].tree.stats().distinct_entries));
            i = i + 1;
        }
        assert(self@.spaces.take(i as int) =~= self@.spaces);
        total
    }

    /// Gauges of the engine.
    pub fn stats(&self) -> (r: EngineStats)
        requires
            self.wf(),
        ensures
            r.keyspaces == self@.spaces.len(),
            r.holders == clamp_usize(members_of(self@.spaces, |p: Posture| true)),
            r.event_fed_holders == clamp_usize(
                members_of(self@.spaces, |p: Posture| p.event_fed),
            ),
            r.dropped_holders == clamp_usize(members_of(self@.spaces, |p: Posture| p.dropped)),
            r.blocks == clamp_usize(entries_of(self@.spaces)),
    {
        let ghost all = |p: Posture| true;
        let ghost fed = |p: Posture| p.event_fed;
        let ghost gone = |p: Posture| p.dropped;
        let mut holders: usize = 0;
        let mut event_fed_holders: usize = 0;
        let mut dropped_holders: usize = 0;
        let mut i: usize = 0;
        proof {
            assert(self@.spaces.take(0) =~= Seq::<SpaceView>::empty());
        }
        while i < self.spaces.len()
            invariant
                self.wf(),
                i <= self.spaces@.len(),
                all == (|p: Posture| true),
                fed == (|p: Posture| p.event_fed),
                gone == (|p: Posture| p.dropped),
                holders == clamp_usize(members_of(self@.spaces.take(i as int), all)),
                event_fed_holders == clamp_usize(members_of(self@.spaces.take(i as int), fed)),
                dropped_holders == clamp_usize(members_of(self@.spaces.take(i as int), gone)),
            decreases self.spaces@.len() - i,
        {
            let members = &self.spaces[i].members;
            let ghost seen = self.spaces@[i as int]@.members;
            let ghost before = self@.spaces.take(i as int);
            let mut j: usize = 0;
            proof {
                assert(self@.spaces[i as int] == self.spaces@[i as int]@);
                assert(seen.take(0) =~= Seq::<MemberView>::empty());
            }
            while j < members.len()
                invariant
                    i < self.spaces@.len(),
                    *members == self.spaces@[i as int].members,
                    seen == self.spaces@[i as int]@.members,
                    j <= members@.len(),
                    all == (|p: Posture| true),
                    fed == (|p: Posture| p.event_fed),
                    gone == (|p: Posture| p.dropped),
                    holders == clamp_usize(
                        members_of(before, all) + count_of(seen.take(j as int), all),
                    ),
                    event_fed_holders == clamp_usize(
                        members_of(before, fed) + count_of(seen.take(j as int), fed),
                    ),
                    dropped_holders == clamp_usize(
                        members_of(before, gone) + count_of(seen.take(j as int), gone),
                    ),
                decreases members@.len() - j,
            {
                proof {
                    let s = seen.take(j + 1);
                    assert(s.drop_last() =~= seen.take(j as int));
                    assert(s.last().posture == members@[j as int].posture);
                }
                holders = holders.saturating_add(1);
                if members[j].posture.event_fed {
                    event_fed_holders = event_fed_holders.saturating_add(1);
                }
                if members[j].posture.dropped {
                    dropped_holders = dropped_holders.saturating_add(1);
                }
                j = j + 1;
            }
            proof {
                assert(seen.take(j as int) =~= seen);
                let s = self@.spaces.take(i + 1);
                assert(s.drop_last() =~= before);
                assert(s.last() == self.spaces@[i as int]@);
            }
            i = i + 1;
        }
        assert(self@.spaces.take(i as int) =~= self@.spaces);
        EngineStats {
            keyspaces: self.spaces.len(),
            holders,
            event_fed_holders,
            dropped_holders,
            blocks: self.entry_count(),
        }
    }
}

/// Gauges of an engine.
#[derive(Debug, Clone, Copy, PartialEq, Eq, Structural)]
pub struct EngineStats {
    pub keyspaces: usize,
    pub holders: usize,
    pub event_fed_holders: usize,
    pub dropped_holders: usize,
    pub blocks: usize,
}

impl Default for EngineStats {
    fn default() -> (r: EngineStats)
        ensures
            r == (EngineStats {
                keyspaces: 0,
                holders: 0,
                event_fed_holders: 0,
                dropped_holders: 0,
                blocks: 0,
            }),
    {
        EngineStats {
            keyspaces: 0,
            holders: 0,
            event_fed_holders: 0,
            dropped_holders: 0,
            blocks: 0,
        }
    }
}

/// `n` where a `usize` can hold it, and the greatest `usize` otherwise.
pub open spec fn clamp_usize(n: nat) -> usize {
    if n <= usize::MAX {
        n as usize
    } else {
        usize::MAX
    }
}

fn narrowed(n: u64) -> (r: usize)
    ensures
        r == clamp_usize(n as nat),
{
    if n <= usize::MAX as u64 {
        n as usize
    } else {
        usize::MAX
    }
}

/// Distinct blocks of all keyspaces.
pub open spec fn entries_of(spaces: Seq<SpaceView>) -> nat
    decreases spaces.len(),
{
    if spaces.len() == 0 {
        0
    } else {
        entries_of(spaces.drop_last()) + types::clamp(
            spaces.last().tree.table.placements().len(),
        ) as nat
    }
}

/// Members whose posture is so.
pub open spec fn count_of(members: Seq<MemberView>, so: spec_fn(Posture) -> bool) -> nat
    decreases members.len(),
{
    if members.len() == 0 {
        0
    } else {
        count_of(members.drop_last(), so) + (if so(members.last().posture) {
            1nat
        } else {
            0nat
        })
    }
}

/// Members of all keyspaces whose posture is so.
pub open spec fn members_of(spaces: Seq<SpaceView>, so: spec_fn(Posture) -> bool) -> nat
    decreases spaces.len(),
{
    if spaces.len() == 0 {
        0
    } else {
        members_of(spaces.drop_last(), so) + count_of(spaces.last().members, so)
    }
}

/// Contents as plain numbers.
pub open spec fn contents_of(hashes: Seq<ContentHash>) -> Seq<u64> {
    hashes.map_values(|h: ContentHash| h.0)
}

/// `score` is the score of member `m` for the chain `q`.
pub open spec fn scores_member(space: SpaceView, q: Seq<u64>, m: int, score: HolderScore) -> bool {
    let held = space.tree.table.held(space.members[m].id);
    &&& score.holder@ == space.members[m].name
    &&& score.matched_blocks == model::depth(held, q)
    &&& score.total_blocks == held.len()
    &&& score.event_fed == space.members[m].posture.event_fed
}

/// Member `m` has a score for the chain `q`: it is not dropped, and holds the
/// first block.
pub open spec fn has_score(space: SpaceView, q: Seq<u64>, m: int) -> bool {
    &&& 0 <= m < space.members.len()
    &&& !space.members[m].posture.dropped
    &&& model::depth(space.tree.table.held(space.members[m].id), q) > 0
}

/// The slot of the holder called `name`.
pub open spec fn seat(space: SpaceView, name: Seq<char>) -> int {
    space.members[member_index(space.members, name)->0].id.slot() as int
}

/// Some member has the score.
pub open spec fn told(space: SpaceView, q: Seq<u64>, score: HolderScore) -> bool {
    exists|m: int| #[trigger] has_score(space, q, m) && scores_member(space, q, m, score)
}

/// The score of member `m` is among `scores`.
pub open spec fn tells(space: SpaceView, q: Seq<u64>, m: int, scores: Seq<HolderScore>) -> bool {
    exists|i: int| 0 <= i < scores.len() && scores_member(space, q, m, #[trigger] scores[i])
}

/// `a` ranks before `b`: it is deeper, or as deep in a lower slot.
pub open spec fn ranked(space: SpaceView, a: HolderScore, b: HolderScore) -> bool {
    ||| a.matched_blocks > b.matched_blocks
    ||| a.matched_blocks == b.matched_blocks && seat(space, a.holder@) < seat(space, b.holder@)
}

/// `scores` answers for the chain `q`: one score per holder that has one,
/// deepest first, ties by slot.
pub open spec fn scored(space: SpaceView, q: Seq<u64>, scores: Seq<HolderScore>) -> bool {
    &&& forall|i: int| 0 <= i < scores.len() ==> told(space, q, #[trigger] scores[i])
    &&& forall|m: int| #[trigger] has_score(space, q, m) ==> tells(space, q, m, scores)
    &&& forall|i: int, j: int|
        0 <= i < j < scores.len() ==> ranked(space, #[trigger] scores[i], #[trigger] scores[j])
}

/// Rows by descending depth, ties by slot.
spec fn deepest(rows: Seq<Overlap>) -> bool {
    forall|i: int, j: int|
        0 <= i < j < rows.len() ==> {
            ||| (#[trigger] rows[i]).depth > (#[trigger] rows[j]).depth
            ||| rows[i].depth == rows[j].depth && rows[i].holder.slot() < rows[j].holder.slot()
        }
}

/// Rows by ascending depth, ties by slot.
spec fn shallowest(rows: Seq<Overlap>) -> bool {
    forall|i: int, j: int|
        0 <= i < j < rows.len() ==> {
            ||| (#[trigger] rows[i]).depth < (#[trigger] rows[j]).depth
            ||| rows[i].depth == rows[j].depth && rows[i].holder.slot() < rows[j].holder.slot()
        }
}

/// `out` holds rows from `hi` on only.
spec fn drawn_from(rows: Seq<Overlap>, hi: int, out: Seq<Overlap>) -> bool {
    forall|i: int| #![trigger out[i]]
        0 <= i < out.len() ==> rows.contains(out[i]) && hi < rows.len() && out[i].depth
            >= rows[hi].depth
}

/// The rows of an answer, deepest first; rows of one depth keep their order.
fn deepest_first(rows: &Vec<Overlap>) -> (out: Vec<Overlap>)
    requires
        shallowest(rows@),
    ensures
        deepest(out@),
        forall|x: Overlap| out@.contains(x) <==> rows@.contains(x),
{
    let mut out: Vec<Overlap> = Vec::new();
    let mut hi: usize = rows.len();
    while hi > 0
        invariant
            shallowest(rows@),
            hi <= rows@.len(),
            hi < rows@.len() && hi > 0 ==> rows@[hi - 1].depth < rows@[hi as int].depth,
            deepest(out@),
            drawn_from(rows@, hi as int, out@),
            forall|k: int| hi <= k < rows@.len() ==> out@.contains(#[trigger] rows@[k]),
        decreases hi,
    {
        let mut lo: usize = hi - 1;
        while lo > 0 && rows[lo - 1].depth == rows[hi - 1].depth
            invariant
                lo < hi <= rows@.len(),
                forall|x: int| lo <= x < hi ==> (#[trigger] rows@[x]).depth == rows@[hi - 1].depth,
            decreases lo,
        {
            lo = lo - 1;
        }
        let ghost old_out = out@;
        let mut n: usize = lo;
        while n < hi
            invariant
                shallowest(rows@),
                lo <= n <= hi <= rows@.len(),
                forall|x: int| lo <= x < hi ==> (#[trigger] rows@[x]).depth == rows@[hi - 1].depth,
                hi < rows@.len() ==> rows@[hi - 1].depth < rows@[hi as int].depth,
                drawn_from(rows@, hi as int, old_out),
                deepest(old_out),
                out@ == old_out + rows@.subrange(lo as int, n as int),
            decreases hi - n,
        {
            out.push(rows[n]);
            n = n + 1;
            proof {
                assert(out@ =~= old_out + rows@.subrange(lo as int, n as int));
            }
        }
        proof {
            let tail = rows@.subrange(lo as int, hi as int);
            let m = old_out.len() as int;
            assert forall|i: int| 0 <= i < out@.len() implies (#[trigger] out@[i]) == if i < m {
                old_out[i]
            } else {
                rows@[lo + (i - m)]
            } by {}
            assert(deepest(out@));
            assert forall|i: int| #![trigger out@[i]] 0 <= i < out@.len() implies rows@.contains(
                out@[i],
            ) && out@[i].depth >= rows@[lo as int].depth by {
                if i >= m {
                    assert(rows@[lo + (i - m)] == out@[i]);
                } else {
                    assert(old_out[i] == out@[i]);
                }
            }
            assert forall|k: int| lo <= k < rows@.len() implies out@.contains(
                #[trigger] rows@[k],
            ) by {
                if k < hi {
                    assert(out@[m + (k - lo)] == rows@[k]);
                } else {
                    let i = old_out.index_of(rows@[k]);
                    assert(out@[i] == rows@[k]);
                }
            }
            if lo > 0 {
                assert(rows@[lo - 1].depth != rows@[lo as int].depth);
            }
        }
        hi = lo;
    }
    proof {
        assert forall|x: Overlap| out@.contains(x) <==> rows@.contains(x) by {
            if out@.contains(x) {
                let i = out@.index_of(x);
                assert(out@[i] == x);
            }
            if rows@.contains(x) {
                let k = rows@.index_of(x);
                assert(out@.contains(rows@[k]));
            }
        }
    }
    out
}

impl Space {
    /// The scores of all holders for a chain.
    fn scores(&self, chain: &[u64]) -> (r: Vec<HolderScore>)
        requires
            self.wf(),
        ensures
            scored(self@, chain@, r@),
    {
        let mut answers: Vec<Overlap> = Vec::new();
        self.tree.overlap(chain, &mut answers);
        let rows = deepest_first(&answers);
        let ghost q = chain@;
        let ghost space = self@;
        let ghost t = space.tree.table;
        let mut out: Vec<HolderScore> = Vec::new();
        let ghost mut src: Seq<int> = Seq::empty();
        let mut n: usize = 0;
        proof {
            assert forall|i: int| 0 <= i < rows@.len() implies model::row_of(
                t,
                q,
                #[trigger] rows@[i],
            ) by {
                assert(rows@.contains(rows@[i]));
                let k = answers@.index_of(rows@[i]);
                assert(answers@.contains(rows@[i]));
                assert(answers@[k] == rows@[i]);
            }
        }
        while n < rows.len()
            invariant
                self.wf(),
                space == self@,
                t == space.tree.table,
                deepest(rows@),
                forall|i: int| 0 <= i < rows@.len() ==> model::row_of(t, q, #[trigger] rows@[i]),
                n <= rows@.len(),
                out@.len() == src.len(),
                forall|i: int| 0 <= i < src.len() ==> 0 <= #[trigger] src[i] < n,
                forall|i: int, j: int| 0 <= i < j < src.len() ==> #[trigger] src[i] < #[trigger] src[j],
                forall|i: int|
                    0 <= i < out@.len() ==> scores_row(
                        space,
                        q,
                        rows@[src[i]],
                        #[trigger] out@[i],
                    ),
                forall|k: int, m: int|
                    0 <= k < n && #[trigger] has_score(space, q, m) && space.members[m].id.slot() == (
                    #[trigger] rows@[k]).holder.slot() ==> src.contains(k),
            decreases rows@.len() - n,
        {
            let row = rows[n];
            proof {
                assert(model::row_of(t, q, rows@[n as int]));
            }
            let ghost was = src;
            match self.tree.holder_name(row.holder) {
                None => {},
                Some(name) => match self.find(name) {
                    None => {
                        proof {
                            self.row_has_member(row.holder);
                            assert(false);
                        }
                    },
                    Some(j) => {
                        let posture = self.members[j].posture;
                        proof {
                            assert(space.members[j as int] == member_view(self.members@[j as int]));
                            assert(space.members[j as int].name == t.name(
                                row.holder.slot() as int,
                            ));
                            self.row_member(row.holder, j as int);
                        }
                        if !posture.dropped {
                            out.push(
                                HolderScore {
                                    holder: name.to_owned(),
                                    matched_blocks: row.depth,
                                    total_blocks: row.total_blocks,
                                    event_fed: posture.event_fed,
                                },
                            );
                            proof {
                                src = src.push(n as int);
                                assert(has_score(space, q, j as int));
                                assert(scores_member(
                                    space,
                                    q,
                                    j as int,
                                    out@[was.len() as int],
                                ));
                                assert(scores_row(
                                    space,
                                    q,
                                    rows@[n as int],
                                    out@[was.len() as int],
                                ));
                            }
                        }
                        proof {
                            assert forall|m: int| #[trigger]
                                has_score(space, q, m) && space.members[m].id.slot()
                                    == row.holder.slot() implies !posture.dropped && src.contains(
                                n as int,
                            ) by {
                                if m != j {
                                    members_apart(space, m, j as int);
                                }
                                assert(src[was.len() as int] == n);
                            }
                        }
                    },
                },
            }
            proof {
                assert forall|k: int, m: int|
                    0 <= k < n + 1 && #[trigger] has_score(space, q, m) && space.members[m].id.slot()
                        == (#[trigger] rows@[k]).holder.slot() implies src.contains(k) by {
                    if k < n {
                        assert(was.contains(k));
                        let x = was.index_of(k);
                        assert(src[x] == k);
                    }
                }
            }
            n = n + 1;
        }
        proof {
            self.scores_are_scored(q, answers@, rows@, src, out@);
        }
        out
    }

    /// A live id of the tree belongs to a member.
    proof fn row_has_member(&self, id: HolderId)
        requires
            self.wf(),
            self@.tree.table.live(id),
        ensures
            member_index(self@.members, self@.tree.table.name(id.slot() as int)) is Some,
    {
        let t = self@.tree.table;
        assert(t.occupied(id.slot() as int));
        let i = choose|i: int|
            0 <= i < self@.members.len() && (#[trigger] self@.members[i]).id.slot() == id.slot();
        assert(self@.members[i].name == t.name(id.slot() as int));
    }

    /// The member with the name of a live id has that id.
    proof fn row_member(&self, id: HolderId, j: int)
        requires
            self.wf(),
            self@.tree.table.live(id),
            0 <= j < self@.members.len(),
            self@.members[j].name == self@.tree.table.name(id.slot() as int),
        ensures
            self@.members[j].id == id,
    {
        let t = self@.tree.table;
        let other = self@.members[j].id;
        assert(t.live(other));
        assert(t.occupied(id.slot() as int) && t.occupied(other.slot() as int));
        assert(t.name(other.slot() as int) == t.name(id.slot() as int));
        types::id_is_its_parts(other, id);
    }

    proof fn scores_are_scored(
        &self,
        q: Seq<u64>,
        answers: Seq<Overlap>,
        rows: Seq<Overlap>,
        src: Seq<int>,
        out: Seq<HolderScore>,
    )
        requires
            self.wf(),
            model::answered(self@.tree.table, q, answers),
            deepest(rows),
            forall|x: Overlap| rows.contains(x) <==> answers.contains(x),
            out.len() == src.len(),
            forall|i: int| 0 <= i < src.len() ==> 0 <= #[trigger] src[i] < rows.len(),
            forall|i: int, j: int| 0 <= i < j < src.len() ==> #[trigger] src[i] < #[trigger] src[j],
            forall|i: int|
                0 <= i < out.len() ==> scores_row(self@, q, rows[src[i]], #[trigger] out[i]),
            forall|k: int, m: int|
                0 <= k < rows.len() && #[trigger] has_score(self@, q, m)
                    && self@.members[m].id.slot() == (#[trigger] rows[k]).holder.slot()
                    ==> src.contains(k),
        ensures
            scored(self@, q, out),
    {
        let space = self@;
        assert forall|i: int| 0 <= i < out.len() implies told(space, q, #[trigger] out[i]) by {
            assert(scores_row(space, q, rows[src[i]], out[i]));
        }
        assert forall|m: int| #[trigger] has_score(space, q, m) implies tells(space, q, m, out) by {
            let k = self.row_for(q, answers, rows, m);
            assert(src.contains(k));
            let i = src.index_of(k);
            self.row_tells(q, rows[k], out[i], m);
        }
        assert forall|i: int, j: int| 0 <= i < j < out.len() implies ranked(
            space,
            #[trigger] out[i],
            #[trigger] out[j],
        ) by {
            assert(src[i] < src[j]);
            self.row_seat(q, rows[src[i]], out[i]);
            self.row_seat(q, rows[src[j]], out[j]);
        }
    }

    /// A member with a score has a row.
    proof fn row_for(&self, q: Seq<u64>, answers: Seq<Overlap>, rows: Seq<Overlap>, m: int) -> (k:
        int)
        requires
            self.wf(),
            model::answered(self@.tree.table, q, answers),
            forall|x: Overlap| rows.contains(x) <==> answers.contains(x),
            has_score(self@, q, m),
        ensures
            0 <= k < rows.len(),
            rows[k].holder.slot() == self@.members[m].id.slot(),
    {
        let t = self@.tree.table;
        let s = self@.members[m].id.slot() as int;
        assert(t.live(self@.members[m].id));
        assert(t.occupied(s));
        let a = choose|a: int| 0 <= a < answers.len() && (#[trigger] answers[a]).holder.slot() == s;
        assert(answers.contains(answers[a]));
        assert(rows.contains(answers[a]));
        rows.index_of(answers[a])
    }

    /// The score of a row is that of the member in its slot.
    proof fn row_tells(&self, q: Seq<u64>, row: Overlap, score: HolderScore, m: int)
        requires
            self.wf(),
            scores_row(self@, q, row, score),
            has_score(self@, q, m),
            row.holder.slot() == self@.members[m].id.slot(),
        ensures
            scores_member(self@, q, m, score),
    {
        let x = choose|x: int| #[trigger]
            has_score(self@, q, x) && scores_member(self@, q, x, score)
                && self@.members[x].id.slot() == row.holder.slot();
        if x != m {
            members_apart(self@, x, m);
        }
    }

    /// The score of a row sits in its slot.
    proof fn row_seat(&self, q: Seq<u64>, row: Overlap, score: HolderScore)
        requires
            self.wf(),
            scores_row(self@, q, row, score),
        ensures
            seat(self@, score.holder@) == row.holder.slot(),
    {
        let x = choose|x: int| #[trigger]
            has_score(self@, q, x) && scores_member(self@, q, x, score)
                && self@.members[x].id.slot() == row.holder.slot();
        member_index_is(self@.members, score.holder@, x);
    }
}

/// `score` tells what `row` tells.
spec fn scores_row(space: SpaceView, q: Seq<u64>, row: Overlap, score: HolderScore) -> bool {
    &&& score.matched_blocks == row.depth
    &&& exists|m: int| #[trigger]
        has_score(space, q, m) && scores_member(space, q, m, score) && space.members[m].id.slot()
            == row.holder.slot()
}

/// An event as plain values.
pub enum WireEventView {
    Stored(Option<u64>, Seq<(u64, u64)>),
    Removed(Seq<u64>),
    Cleared,
}

impl View for WireEvent {
    type V = WireEventView;

    open spec fn view(&self) -> WireEventView {
        match self {
            WireEvent::Stored { parent, blocks } => WireEventView::Stored(
                match parent {
                    None => None,
                    Some(p) => Some(p.0),
                },
                pairs_of(blocks@),
            ),
            WireEvent::Removed { seq_hashes } => WireEventView::Removed(keys_of(seq_hashes@)),
            WireEvent::Cleared => WireEventView::Cleared,
        }
    }
}

/// An update as plain values.
pub struct MessageView {
    pub key: KeyView,
    pub holder: Seq<char>,
    pub epoch: u64,
    pub seq: u64,
    pub events: Seq<WireEventView>,
    pub added: Option<AddedControl>,
    pub dropped: bool,
}

impl View for UpdateMsg {
    type V = MessageView;

    open spec fn view(&self) -> MessageView {
        MessageView {
            key: self.keyspace@,
            holder: self.holder@,
            epoch: self.epoch,
            seq: self.seq,
            events: self.events@.map_values(|e: WireEvent| e@),
            added: self.added,
            dropped: self.dropped,
        }
    }
}

/// Updates as plain values.
pub open spec fn message_views(s: Seq<UpdateMsg>) -> Seq<MessageView> {
    s.map_values(|m: UpdateMsg| m@)
}

/// Blocks of a holder in order.
pub open spec fn rows_of(m: Map<u64, BlockInfo>) -> Seq<Row> {
    (choose|rows: Seq<(u32, u64, u64)>| model::listed(m, rows)).map_values(
        |r: (u32, u64, u64)| (r.1, m[r.1]),
    )
}

/// Keys and contents of blocks on their way.
pub open spec fn cargo(links: Seq<Link>) -> Seq<(u64, u64)> {
    links.map_values(|l: Link| (l.key, l.content))
}

/// The event feed of a member whose blocks travel as `links` is told late. An
/// event-fed holder takes blocks with a batch number only, and there is one number
/// to give: the watermark. So unless one message takes it all, the blocks travel as
/// those of a holder without an event feed.
pub open spec fn told_late(p: Posture, links: Seq<Link>) -> bool {
    &&& p.event_fed
    &&& links.len() > 0
    &&& p.last_seq == 0 || links.len() > forest::SNAPSHOT_CHUNK
}

/// The member has more blocks than it could keep without its event feed, which is
/// told late: its capacity is told late too, by a message of its own.
pub open spec fn crowded(p: Posture, links: Seq<Link>) -> bool {
    told_late(p, links) && links.len() > runaway_bound(p.capacity_blocks)
}

/// Links that each continue the one before, as an event.
pub open spec fn stored_run(links: Seq<Link>, from: int, to: int) -> WireEventView {
    WireEventView::Stored(links[from].parent, cargo(links.subrange(from, to)))
}

/// The links from `from` to `to` as events, run by run.
pub open spec fn stored_runs(links: Seq<Link>, from: int, to: int) -> Seq<WireEventView>
    decreases to - from,
{
    if from >= to {
        Seq::empty()
    } else {
        let x = forest::last_run(links, from, to);
        if from <= x < to {
            stored_runs(links, from, x).push(stored_run(links, x, to))
        } else {
            Seq::empty()
        }
    }
}

/// The events of message `c` about a member whose blocks travel as `links`. Where
/// no batch number can say that there is an event feed, a removal of nothing does.
pub open spec fn parcel_events(p: Posture, links: Seq<Link>, c: int) -> Seq<WireEventView> {
    let n = links.len() as int;
    let runs = stored_runs(links, forest::share_start(n, c), forest::share_start(n, c + 1));
    if told_late(p, links) && !crowded(p, links) && p.last_seq == 0 && c + 1
        == forest::share_count(n) {
        runs.push(WireEventView::Removed(Seq::empty()))
    } else {
        runs
    }
}

/// Message `c` about a member whose blocks travel as `links`: the control payload
/// comes with the first, and the watermark of an event feed with the last.
pub open spec fn parcel_message(key: KeyView, m: MemberView, links: Seq<Link>, c: int) -> MessageView {
    let p = m.posture;
    MessageView {
        key,
        holder: m.name,
        epoch: p.epoch,
        seq: if p.event_fed && !crowded(p, links) && c + 1 == forest::share_count(
            links.len() as int,
        ) {
            p.last_seq
        } else {
            0
        },
        events: parcel_events(p, links, c),
        added: if c == 0 {
            Some(
                AddedControl {
                    capacity_blocks: if crowded(p, links) {
                        u64::MAX
                    } else {
                        p.capacity_blocks
                    },
                    event_fed: p.event_fed && !told_late(p, links),
                },
            )
        } else {
            None
        },
        dropped: p.dropped,
    }
}

/// The message that tells a member's event feed and capacity.
pub open spec fn closing_message(key: KeyView, m: MemberView) -> MessageView {
    MessageView {
        key,
        holder: m.name,
        epoch: m.posture.epoch,
        seq: m.posture.last_seq,
        events: Seq::empty(),
        added: Some(
            AddedControl { capacity_blocks: m.posture.capacity_blocks, event_fed: true },
        ),
        dropped: m.posture.dropped,
    }
}

/// The messages with a member's blocks.
pub open spec fn parcel_messages(key: KeyView, m: MemberView, links: Seq<Link>) -> Seq<MessageView> {
    Seq::new(
        forest::share_count(links.len() as int) as nat,
        |c: int| parcel_message(key, m, links, c),
    )
}

/// All messages about a member.
pub open spec fn member_messages(space: SpaceView, m: MemberView) -> Seq<MessageView> {
    let links = forest::links_of(rows_of(space.tree.table.held(m.id)));
    if crowded(m.posture, links) {
        parcel_messages(space.key, m, links).push(closing_message(space.key, m))
    } else {
        parcel_messages(space.key, m, links)
    }
}

/// All messages about the first `n` members of a keyspace.
pub open spec fn space_messages(space: SpaceView, n: int) -> Seq<MessageView>
    decreases n,
{
    if n <= 0 {
        Seq::empty()
    } else {
        space_messages(space, n - 1) + member_messages(space, space.members[n - 1])
    }
}

/// All messages of a snapshot.
pub open spec fn snapshot_of(spaces: Seq<SpaceView>) -> Seq<MessageView>
    decreases spaces.len(),
{
    if spaces.len() == 0 {
        Seq::empty()
    } else {
        snapshot_of(spaces.drop_last()) + space_messages(
            spaces.last(),
            spaces.last().members.len() as int,
        )
    }
}

impl Space {
    /// Appends the messages of one keyspace.
    fn snapshot(&self, out: &mut Vec<UpdateMsg>)
        requires
            self.wf(),
        ensures
            message_views(final(out)@) == message_views(old(out)@) + space_messages(
                self@,
                self@.members.len() as int,
            ),
    {
        let ghost base = message_views(out@);
        let mut j: usize = 0;
        proof {
            assert(base + Seq::<MessageView>::empty() =~= base);
        }
        while j < self.members.len()
            invariant
                self.wf(),
                j <= self.members@.len(),
                message_views(out@) == base + space_messages(self@, j as int),
            decreases self.members@.len() - j,
        {
            let ghost so_far = message_views(out@);
            self.member_snapshot(j, out);
            j = j + 1;
            proof {
                let own = member_messages(self@, self@.members[j - 1]);
                assert(so_far + own =~= base + (space_messages(self@, j - 1) + own));
            }
        }
    }

    /// A member's blocks in order.
    fn member_rows(&self, j: usize) -> (r: Vec<Row>)
        requires
            self.wf(),
            j < self@.members.len(),
        ensures
            r@ == rows_of(self@.tree.table.held(self@.members[j as int].id)),
            forest::by_position(r@),
    {
        let id = self.members[j].id;
        let listing = self.tree.enumerate(id);
        let ghost held = self@.tree.table.held(id);
        proof {
            assert(self@.members[j as int].id == id);
            assert(self@.tree.table.live(id));
            self.tree.validity();
            model::listing_is_unique(
                held,
                listing@,
                choose|r: Seq<(u32, u64, u64)>| model::listed(held, r),
            );
        }
        let mut r: Vec<Row> = Vec::new();
        let mut i: usize = 0;
        while i < listing.len()
            invariant
                self.wf(),
                held == self@.tree.table.held(id),
                model::listed(held, listing@),
                i <= listing@.len(),
                r@.len() == i,
                forall|x: int|
                    0 <= x < i ==> #[trigger] r@[x] == (listing@[x].1, held[listing@[x].1]),
            decreases listing@.len() - i,
        {
            let key: u64 = listing[i].1;
            assert(held.contains_key(listing@[i as int].1));
            match self.tree.block(id, key) {
                Some(info) => r.push((key, info)),
                None => {},
            }
            i = i + 1;
        }
        proof {
            assert(r@ =~= rows_of(held));
            assert forall|a: int, b: int| 0 <= a < b < r@.len() implies (#[trigger] r@[a]).1.pos <= (
            #[trigger] r@[b]).1.pos by {
                assert(model::ahead(held, listing@[a].1, listing@[b].1));
            }
            assert forall|a: int| 0 <= a < r@.len() implies (#[trigger] r@[a]).1.pos < u32::MAX by {
                assert(held.contains_key(listing@[a].1));
                assert(self@.tree.table.occupied(id.slot() as int));
            }
        }
        r
    }

    /// Appends the messages about one member.
    fn member_snapshot(&self, j: usize, out: &mut Vec<UpdateMsg>)
        requires
            self.wf(),
            j < self@.members.len(),
        ensures
            message_views(final(out)@) == message_views(old(out)@) + member_messages(
                self@,
                self@.members[j as int],
            ),
    {
        let member = &self.members[j];
        let ghost m = self@.members[j as int];
        let ghost base = message_views(out@);
        let rows = self.member_rows(j);
        let links = forest::links(&rows);
        let p = member.posture;
        let n: usize = links.len();
        let count: usize = if n == 0 {
            1
        } else {
            (n - 1) / forest::SNAPSHOT_CHUNK + 1
        };
        proof {
            assert(m == member_view(*member));
            assert(count == forest::share_count(n as int));
            assert(message_views(out@) =~= base + Seq::new(
                0,
                |x: int| parcel_message(self@.key, m, links@, x),
            ));
        }
        let late: bool = p.event_fed && links.len() > 0 && (p.last_seq == 0 || links.len()
            > forest::SNAPSHOT_CHUNK);
        let crowd: bool = late && links.len() as u64 > bound_of(p.capacity_blocks);
        let mut c: usize = 0;
        while c < count
            invariant
                self.wf(),
                m == member_view(*member),
                p == m.posture,
                late == told_late(p, links@),
                crowd == crowded(p, links@),
                n == links@.len(),
                count == forest::share_count(n as int),
                c <= count,
                message_views(out@) == base + Seq::new(
                    c as nat,
                    |x: int| parcel_message(self@.key, m, links@, x),
                ),
            decreases count - c,
        {
            let last: bool = c + 1 == count;
            let from: usize = if c == 0 {
                0
            } else {
                c * forest::SNAPSHOT_CHUNK
            };
            let to: usize = if n - from <= forest::SNAPSHOT_CHUNK {
                n
            } else {
                from + forest::SNAPSHOT_CHUNK
            };
            assert(from == forest::share_start(n as int, c as int));
            assert(to == forest::share_start(n as int, c + 1));
            let mut events = wire_runs(&links, from, to);
            if late && !crowd && last && p.last_seq == 0 {
                let ghost runs = events@;
                let nothing = WireEvent::Removed { seq_hashes: Vec::new() };
                assert(nothing@ == WireEventView::Removed(Seq::empty())) by {
                    assert(keys_of(Seq::<SequenceHash>::empty()) =~= Seq::empty());
                }
                events.push(nothing);
                assert(events@.map_values(|e: WireEvent| e@) =~= runs.map_values(
                    |e: WireEvent| e@,
                ).push(nothing@));
            }
            assert(events@.map_values(|e: WireEvent| e@) == parcel_events(p, links@, c as int));
            let added: Option<AddedControl> = if c == 0 {
                Some(
                    AddedControl {
                        capacity_blocks: if crowd {
                            u64::MAX
                        } else {
                            p.capacity_blocks
                        },
                        event_fed: p.event_fed && !late,
                    },
                )
            } else {
                None
            };
            let seq: u64 = if p.event_fed && !crowd && last {
                p.last_seq
            } else {
                0
            };
            let ghost so_far = out@;
            let message = self.message(member, seq, events, added);
            proof {
                let want = parcel_message(self@.key, m, links@, c as int);
                assert(message@ == want);
            }
            out.push(message);
            proof {
                assert(message_views(out@) =~= message_views(so_far).push(message@));
                assert(base + Seq::new(
                    (c + 1) as nat,
                    |x: int| parcel_message(self@.key, m, links@, x),
                ) =~= (base + Seq::new(
                    c as nat,
                    |x: int| parcel_message(self@.key, m, links@, x),
                )).push(parcel_message(self@.key, m, links@, c as int)));
            }
            c = c + 1;
        }
        assert(message_views(out@) == base + parcel_messages(self@.key, m, links@));
        if crowd {
            let ghost so_far = out@;
            let closing = self.message(
                member,
                p.last_seq,
                Vec::new(),
                Some(AddedControl { capacity_blocks: p.capacity_blocks, event_fed: true }),
            );
            proof {
                assert(closing@.events =~= Seq::empty());
                assert(closing@ == closing_message(self@.key, m));
            }
            out.push(closing);
            proof {
                assert(message_views(out@) =~= message_views(so_far).push(closing@));
                assert(message_views(out@) =~= base + parcel_messages(self@.key, m, links@).push(
                    closing_message(self@.key, m),
                ));
            }
        }
    }

    /// A message about a member.
    fn message(
        &self,
        member: &Member,
        seq: u64,
        events: Vec<WireEvent>,
        added: Option<AddedControl>,
    ) -> (r: UpdateMsg)
        ensures
            r@ == (MessageView {
                key: self@.key,
                holder: member.name@,
                epoch: member.posture.epoch,
                seq,
                events: events@.map_values(|e: WireEvent| e@),
                added,
                dropped: member.posture.dropped,
            }),
    {
        UpdateMsg {
            keyspace: copy_key(&self.key),
            holder: member.name.clone(),
            epoch: member.posture.epoch,
            seq,
            events,
            added,
            dropped: member.posture.dropped,
        }
    }
}

/// Twice the capacity, as far as numbers go.
fn bound_of(capacity: u64) -> (r: u64)
    ensures
        r == runaway_bound(capacity),
{
    if capacity > u64::MAX / 2 {
        u64::MAX
    } else {
        capacity * 2
    }
}

/// Links as events, run by run, as the wire has them.
fn wire_runs(links: &Vec<Link>, from: usize, to: usize) -> (r: Vec<WireEvent>)
    requires
        from <= to <= links@.len(),
    ensures
        r@.map_values(|e: WireEvent| e@) == stored_runs(links@, from as int, to as int),
{
    let mut events: Vec<WireEvent> = Vec::new();
    let mut x: usize = from;
    assert(events@.map_values(|e: WireEvent| e@) =~= stored_runs(links@, from as int, x as int));
    while x < to
        invariant
            from <= x <= to <= links@.len(),
            x == from || x == to || !forest::joins(links@, x as int),
            events@.map_values(|e: WireEvent| e@) == stored_runs(links@, from as int, x as int),
        decreases to - x,
    {
        let end: usize = forest::run_end(links, x, to);
        let parent: Option<SequenceHash> = match links[x].parent {
            None => None,
            Some(p) => Some(SequenceHash(p)),
        };
        let blocks = wire_blocks(links, x, end);
        let stored = WireEvent::Stored { parent, blocks };
        let ghost was = events@;
        assert(stored@ == stored_run(links@, x as int, end as int));
        events.push(stored);
        proof {
            forest::run_is_last(links@, from as int, x as int, end as int);
            assert(events@.map_values(|e: WireEvent| e@) =~= was.map_values(
                |e: WireEvent| e@,
            ).push(stored@));
        }
        x = end;
    }
    events
}

/// Blocks on their way, as the wire has them.
fn wire_blocks(links: &Vec<Link>, from: usize, to: usize) -> (r: Vec<WireBlock>)
    requires
        from <= to <= links@.len(),
    ensures
        pairs_of(r@) == cargo(links@.subrange(from as int, to as int)),
{
    let mut r: Vec<WireBlock> = Vec::new();
    let mut x: usize = from;
    proof {
        assert(pairs_of(r@) =~= cargo(links@.subrange(from as int, from as int)));
    }
    while x < to
        invariant
            from <= x <= to <= links@.len(),
            pairs_of(r@) == cargo(links@.subrange(from as int, x as int)),
        decreases to - x,
    {
        let ghost was = r@;
        r.push(
            WireBlock {
                seq_hash: SequenceHash(links[x].key),
                content_hash: ContentHash(links[x].content),
            },
        );
        x = x + 1;
        proof {
            let l = links@[x - 1];
            assert(pairs_of(r@) =~= pairs_of(was).push((l.key, l.content)));
            assert(cargo(links@.subrange(from as int, x as int)) =~= cargo(
                links@.subrange(from as int, x - 1),
            ).push((l.key, l.content)));
        }
    }
    r
}

/// The holder published nothing for longer than the idle time.
pub open spec fn idle(p: Posture, now: u64, ttl: u64) -> bool {
    now - p.last_publish > ttl
}

/// The holder is retired by a sweep.
pub open spec fn expires(p: Posture, now: u64, ttl: u64) -> bool {
    p.dropped && idle(p, now, ttl)
}

/// The holder loses its blocks in a sweep.
pub open spec fn fades(p: Posture, now: u64, ttl: u64) -> bool {
    !p.dropped && !p.event_fed && idle(p, now, ttl)
}

/// `post` is the keyspace after a sweep: without the expired holders, whose ids
/// are stale, and without the blocks of the faded ones. All else stays.
pub open spec fn swept(pre: SpaceView, post: SpaceView, now: u64, ttl: u64) -> bool {
    &&& post.key == pre.key
    &&& post.tree.limit == pre.tree.limit
    &&& post.members == pre.members.filter(|m: MemberView| !expires(m.posture, now, ttl))
    &&& forall|i: int|
        0 <= i < pre.members.len() ==> {
            let m = #[trigger] pre.members[i];
            if expires(m.posture, now, ttl) {
                !post.tree.table.live(m.id)
            } else {
                &&& post.tree.table.live(m.id)
                &&& post.tree.table.held(m.id) == if fades(m.posture, now, ttl) {
                    Map::empty()
                } else {
                    pre.tree.table.held(m.id)
                }
            }
        }
}

/// Slots of different members differ.
proof fn members_apart(space: SpaceView, a: int, b: int)
    requires
        space.wf(),
        0 <= a < space.members.len(),
        0 <= b < space.members.len(),
        a != b,
    ensures
        space.members[a].id.slot() != space.members[b].id.slot(),
{
    if a < b {
        assert(space.members[a].name != space.members[b].name);
    } else {
        assert(space.members[b].name != space.members[a].name);
    }
    assert(space.tree.table.name(space.members[a].id.slot() as int) == space.members[a].name);
    assert(space.tree.table.name(space.members[b].id.slot() as int) == space.members[b].name);
}

impl Space {
    /// Where sweeping stands: members before `n` are swept, the rest is as it
    /// was.
    spec fn sweeping(&self, pre: SpaceView, n: int, kept: Seq<MemberView>, now: u64, ttl: u64) -> bool {
        &&& self.tree.wf()
        &&& self.tree@.limit == pre.tree.limit
        &&& kept == pre.members.take(n).filter(|m: MemberView| !expires(m.posture, now, ttl))
        &&& forall|i: int|
            0 <= i < pre.members.len() ==> {
                let m = #[trigger] pre.members[i];
                if i < n && expires(m.posture, now, ttl) {
                    !self.tree@.table.live(m.id)
                } else {
                    &&& self.tree@.table.live(m.id)
                    &&& self.tree@.table.name(m.id.slot() as int) == m.name
                    &&& self.tree@.table.held(m.id) == if i < n && fades(m.posture, now, ttl) {
                        Map::empty()
                    } else {
                        pre.tree.table.held(m.id)
                    }
                }
            }
        &&& forall|s: int| #[trigger]
            self.tree@.table.occupied(s) ==> exists|i: int|
                0 <= i < pre.members.len() && (#[trigger] pre.members[i]).id.slot() == s && !(i < n
                    && expires(pre.members[i].posture, now, ttl))
    }

    /// Sweeps one keyspace.
    fn sweep(&mut self, now: u64, ttl: u64)
        requires
            old(self).wf(),
        ensures
            final(self).wf(),
            swept(old(self)@, final(self)@, now, ttl),
    {
        let ghost pre = self@;
        let mut kept: Vec<Member> = Vec::new();
        let mut rest: Vec<Member> = Vec::new();
        std::mem::swap(&mut self.members, &mut rest);
        let ghost all = rest@;
        let mut n: usize = 0;
        let count: usize = rest.len();
        let ghost f = |m: MemberView| !expires(m.posture, now, ttl);
        proof {
            assert(pre.members.len() == all.len());
            assert(pre.members.take(0) =~= Seq::<MemberView>::empty());
            assert(Seq::<MemberView>::empty().filter(f) =~= Seq::<MemberView>::empty());
            assert(views(kept@) =~= Seq::<MemberView>::empty());
            assert forall|i: int| 0 <= i < pre.members.len() implies self.tree@.table.live(
                (#[trigger] pre.members[i]).id,
            ) by {}
        }
        while n < count
            invariant
                pre.wf(),
                self.key@ == pre.key,
                n <= count == pre.members.len(),
                all.len() == count,
                rest@ == all.skip(n as int),
                forall|x: int| 0 <= x < count ==> pre.members[x] == member_view(#[trigger] all[x]),
                self.sweeping(pre, n as int, views(kept@), now, ttl),
                self.members@.len() == 0,
            decreases count - n,
        {
            let m = rest.remove(0);
            let ghost was = *self;
            let ghost seen = kept@;
            proof {
                assert(all.skip(n as int)[0] == all[n as int]);
                assert(rest@ =~= all.skip(n + 1));
                assert(pre.members[n as int] == member_view(m));
                assert(pre.members.take(n + 1) =~= pre.members.take(n as int).push(
                    pre.members[n as int],
                ));
                pre.members.take(n as int).lemma_filter_push(
                    pre.members[n as int],
                    |m: MemberView| !expires(m.posture, now, ttl),
                );
                assert(was.tree@.table.live(pre.members[n as int].id));
            }
            let stale: bool = now > m.posture.last_publish && now - m.posture.last_publish > ttl;
            let ghost id = m.id;
            let ghost posture = m.posture;
            if m.posture.dropped && stale {
                self.tree.retire_holder(m.id);
                proof {
                    assert(views(kept@) == views(seen));
                    retire_one(was.tree@.table, self.tree@.table, id);
                }
            } else {
                if !m.posture.dropped && !m.posture.event_fed && stale {
                    self.tree.clear(m.id);
                    proof {
                        let t = was.tree@.table;
                        model::with_blocks_twice(t, id.slot() as int, Map::empty(), Map::empty());
                    }
                }
                kept.push(m);
                proof {
                    assert(views(kept@) =~= views(seen).push(pre.members[n as int]));
                }
            }
            proof {
                let t = was.tree@.table;
                let u = self.tree@.table;
                let gone = expires(posture, now, ttl);
                assert forall|i: int| 0 <= i < pre.members.len() && i != n implies (
                #[trigger] pre.members[i]).id.slot() != id.slot() by {
                    members_apart(pre, i, n as int);
                }
                assert forall|x: int| x != id.slot() implies #[trigger] u.occupied(x) == t.occupied(
                    x,
                ) && (t.occupied(x) ==> u.name(x) == t.name(x) && u.blocks(x) == t.blocks(x)
                    && u.slots[x].generation == t.slots[x].generation) by {}
                assert forall|i: int| 0 <= i < pre.members.len() implies ({
                    let m = #[trigger] pre.members[i];
                    if i < n + 1 && expires(m.posture, now, ttl) {
                        !u.live(m.id)
                    } else {
                        &&& u.live(m.id)
                        &&& u.name(m.id.slot() as int) == m.name
                        &&& u.held(m.id) == if i < n + 1 && fades(m.posture, now, ttl) {
                            Map::empty()
                        } else {
                            pre.tree.table.held(m.id)
                        }
                    }
                }) by {
                    if i != n {
                        assert(u.occupied(pre.members[i].id.slot() as int) == t.occupied(
                            pre.members[i].id.slot() as int,
                        ));
                    }
                }
                assert forall|x: int| #[trigger] u.occupied(x) implies exists|i: int|
                    0 <= i < pre.members.len() && (#[trigger] pre.members[i]).id.slot() == x && !(i
                        < n + 1 && expires(pre.members[i].posture, now, ttl)) by {
                    if x == id.slot() {
                        assert(!gone);
                        assert(pre.members[n as int].id.slot() == x);
                    } else {
                        assert(t.occupied(x));
                        let i = choose|i: int|
                            0 <= i < pre.members.len() && (#[trigger] pre.members[i]).id.slot() == x
                                && !(i < n && expires(pre.members[i].posture, now, ttl));
                        assert(i != n);
                        assert(pre.members[i].id.slot() == x);
                    }
                }
            }
            n = n + 1;
        }
        self.members = kept;
        proof {
            assert(pre.members.take(n as int) =~= pre.members);
            assert(self@.members =~= views(kept@));
            let g = |m: MemberView| !expires(m.posture, now, ttl);
            assert(self@.members == pre.members.filter(g));
            self.tree.validity();
            self.swept_is_wf(pre, now, ttl);
        }
    }

    proof fn swept_is_wf(&self, pre: SpaceView, now: u64, ttl: u64)
        requires
            pre.wf(),
            self.key@ == pre.key,
            self.tree.wf(),
            self@.tree.table.wf(),
            self.sweeping(
                pre,
                pre.members.len() as int,
                self@.members,
                now,
                ttl,
            ),
        ensures
            self@.wf(),
            swept(pre, self@, now, ttl),
    {
        let g = |m: MemberView| !expires(m.posture, now, ttl);
        let post = self@;
        assert(pre.members.take(pre.members.len() as int) =~= pre.members);
        assert(post.members == pre.members.filter(g));
        pre.members.filter_lemma(g);
        assert forall|i: int| 0 <= i < post.members.len() implies post.tree.table.live(
            (#[trigger] post.members[i]).id,
        ) && post.tree.table.name(post.members[i].id.slot() as int) == post.members[i].name by {
            assert(g(pre.members.filter(g)[i]));
            assert(pre.members.filter(g).contains(post.members[i]));
            pre.members.lemma_filter_contains_rev(g, post.members[i]);
            let k = pre.members.index_of(post.members[i]);
            assert(pre.members[k] == post.members[i]);
        }
        filter_keeps_distinct(pre.members, g);
        assert forall|s: int| #[trigger] post.tree.table.occupied(s) implies exists|i: int|
            0 <= i < post.members.len() && (#[trigger] post.members[i]).id.slot() == s by {
            let i = choose|i: int|
                0 <= i < pre.members.len() && (#[trigger] pre.members[i]).id.slot() == s && !(i
                    < pre.members.len() && expires(pre.members[i].posture, now, ttl));
            assert(g(pre.members[i]));
            assert(pre.members.filter(g).contains(pre.members[i]));
            let k = post.members.index_of(pre.members[i]);
            assert(post.members[k].id.slot() == s);
        }
    }
}

spec fn views(s: Seq<Member>) -> Seq<MemberView> {
    Seq::new(s.len(), |i: int| member_view(s[i]))
}

/// Picking members keeps their names apart.
proof fn filter_keeps_distinct(members: Seq<MemberView>, g: spec_fn(MemberView) -> bool)
    requires
        forall|a: int, b: int|
            0 <= a < b < members.len() ==> (#[trigger] members[a]).name != (
            #[trigger] members[b]).name,
    ensures
        forall|a: int, b: int|
            0 <= a < b < members.filter(g).len() ==> (#[trigger] members.filter(g)[a]).name != (
            #[trigger] members.filter(g)[b]).name,
    decreases members.len(),
{
    reveal(Seq::filter);
    if members.len() > 0 {
        let init = members.drop_last();
        assert forall|a: int, b: int| 0 <= a < b < init.len() implies (#[trigger] init[a]).name != (
        #[trigger] init[b]).name by {
            assert(members[a].name != members[b].name);
        }
        filter_keeps_distinct(init, g);
        let x = members.last();
        let f = init.filter(g);
        if g(x) {
            assert(members.filter(g) == f.push(x));
            assert forall|a: int| 0 <= a < f.len() implies (#[trigger] f[a]).name != x.name by {
                assert(f.contains(f[a]));
                init.lemma_filter_contains_rev(g, f[a]);
                let k = init.index_of(f[a]);
                assert(members[k] == f[a]);
                assert(members[k].name != members[members.len() - 1].name);
            }
        } else {
            assert(members.filter(g) == f);
        }
    }
}

/// A retired id is stale.
proof fn retire_one(t: TableView<BlockInfo>, u: TableView<BlockInfo>, id: HolderId)
    requires
        t.live(id),
        u == t.without_holder(id.slot() as int),
    ensures
        !u.live(id),
        !u.occupied(id.slot() as int),
{
}

/// Every block of a chain as it goes over the wire: publishers make the same
/// blocks of the same contents.
pub fn placement_chain(content_hashes: &[ContentHash]) -> (r: Vec<WireBlock>)
    ensures
        r@.len() == content_hashes@.len(),
        forall|i: int|
            0 <= i < r@.len() ==> #[trigger] r@[i] == (WireBlock {
                seq_hash: SequenceHash(wire_hash::sequence_at(content_hashes@, i)),
                content_hash: content_hashes@[i],
            }),
{
    let chain = wire_hash::placement_chain(content_hashes);
    let mut out: Vec<WireBlock> = Vec::new();
    let mut i: usize = 0;
    while i < chain.len()
        invariant
            i <= chain@.len(),
            chain@.len() == content_hashes@.len(),
            out@.len() == i,
            forall|j: int|
                0 <= j < chain@.len() ==> #[trigger] chain@[j] == (
                    SequenceHash(wire_hash::sequence_at(content_hashes@, j)),
                    content_hashes@[j],
                ),
            forall|j: int|
                0 <= j < i ==> #[trigger] out@[j] == (WireBlock {
                    seq_hash: SequenceHash(wire_hash::sequence_at(content_hashes@, j)),
                    content_hash: content_hashes@[j],
                }),
        decreases chain@.len() - i,
    {
        let (seq_hash, content_hash) = chain[i];
        assert(chain@[i as int] == (seq_hash, content_hash));
        out.push(WireBlock { seq_hash, content_hash });
        i = i + 1;
    }
    out
}

} // verus!
