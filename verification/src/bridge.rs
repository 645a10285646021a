//! The event bridge: workers' cache-event streams become updates for the index.
//!
//! A lost or broken stream is resumed behind the last batch that got through. A
//! gap in the batch numbers, or a backend that lost the cursor, starts a new
//! epoch from batch zero: the higher epoch is what makes the restart safe to
//! relay.

use crate::proto;
use crate::proto::Block;
use crate::proto::Event;
use crate::proto::EventKind;
use crate::proto::EventView;
use crate::proto::Keyspace;
use crate::proto::KeyspaceView;
use crate::proto::KvBlock;
use crate::proto::KvCacheEvent;
use crate::proto::KvData;
use crate::proto::KvEventBatch;
use crate::proto::PublishAck;
use crate::proto::StoredDigest;
use crate::proto::SymbolKind;
use crate::proto::Update;
use crate::proto::UpdateView;
use crate::text::same_text;
use crate::wire_hash;
use std::collections::HashMap;
use vstd::prelude::*;
use vstd::std_specs::iter::IteratorSpec;

verus! {

/// The highest epoch that the index acknowledged for each holder.
pub struct EpochLedger {
    rows: Vec<(String, u64)>,
}

impl View for EpochLedger {
    type V = Map<Seq<char>, u64>;

    closed spec fn view(&self) -> Map<Seq<char>, u64> {
        ledger_of(self.rows@)
    }
}

/// What the rows of a ledger say: the last row of a holder counts.
spec fn ledger_of(rows: Seq<(String, u64)>) -> Map<Seq<char>, u64>
    decreases rows.len(),
{
    if rows.len() == 0 {
        Map::empty()
    } else {
        ledger_of(rows.drop_last()).insert(rows.last().0@, rows.last().1)
    }
}

/// The epoch on record for a holder: 0 if there is none.
pub open spec fn on_record(ledger: Map<Seq<char>, u64>, holder: Seq<char>) -> u64 {
    if ledger.contains_key(holder) {
        ledger[holder]
    } else {
        0
    }
}

/// The ledger after an acknowledgement.
pub open spec fn recorded(
    ledger: Map<Seq<char>, u64>,
    holder: Seq<char>,
    epoch: u64,
) -> Map<Seq<char>, u64> {
    ledger.insert(
        holder,
        if on_record(ledger, holder) < epoch {
            epoch
        } else {
            on_record(ledger, holder)
        },
    )
}

/// No holder has two rows.
spec fn one_row_each(rows: Seq<(String, u64)>) -> bool {
    forall|i: int, j: int|
        0 <= i < j < rows.len() ==> (#[trigger] rows[i]).0@ != (#[trigger] rows[j]).0@
}

/// Where a holder's row is, the ledger says what it says.
proof fn row_counts(rows: Seq<(String, u64)>, i: int)
    requires
        one_row_each(rows),
        0 <= i < rows.len(),
    ensures
        ledger_of(rows).contains_key(rows[i].0@),
        ledger_of(rows)[rows[i].0@] == rows[i].1,
    decreases rows.len(),
{
    if i < rows.len() - 1 {
        assert(one_row_each(rows.drop_last()));
        row_counts(rows.drop_last(), i);
        assert(rows[i].0@ != rows[rows.len() - 1].0@);
    }
}

/// Without a row the ledger says nothing.
proof fn no_row(rows: Seq<(String, u64)>, holder: Seq<char>)
    requires
        forall|i: int| 0 <= i < rows.len() ==> (#[trigger] rows[i]).0@ != holder,
    ensures
        !ledger_of(rows).contains_key(holder),
    decreases rows.len(),
{
    if rows.len() > 0 {
        assert forall|i: int| 0 <= i < rows.drop_last().len() implies (
        #[trigger] rows.drop_last()[i]).0@ != holder by {
            assert(rows[i].0@ != holder);
        }
        no_row(rows.drop_last(), holder);
        assert(rows[rows.len() - 1].0@ != holder);
    }
}

/// Changing a holder's row changes what the ledger says of it.
proof fn row_changed(rows: Seq<(String, u64)>, i: int, row: (String, u64))
    requires
        one_row_each(rows),
        0 <= i < rows.len(),
        row.0@ == rows[i].0@,
    ensures
        ledger_of(rows.update(i, row)) == ledger_of(rows).insert(row.0@, row.1),
    decreases rows.len(),
{
    let n = rows.len() - 1;
    if i < n {
        assert(rows.update(i, row).drop_last() =~= rows.drop_last().update(i, row));
        assert(one_row_each(rows.drop_last()));
        row_changed(rows.drop_last(), i, row);
        assert(rows[i].0@ != rows[n].0@);
        assert(ledger_of(rows.update(i, row)) =~= ledger_of(rows).insert(row.0@, row.1));
    } else {
        assert(rows.update(i, row).drop_last() =~= rows.drop_last());
        assert(ledger_of(rows.update(i, row)) =~= ledger_of(rows).insert(row.0@, row.1));
    }
}

impl Default for EpochLedger {
    /// A ledger without holders.
    fn default() -> (r: EpochLedger)
        ensures
            r.wf(),
            r@ == Map::<Seq<char>, u64>::empty(),
    {
        EpochLedger { rows: Vec::new() }
    }
}

impl EpochLedger {
    /// A valid ledger.
    pub closed spec fn wf(&self) -> bool {
        one_row_each(self.rows@)
    }

    fn find(&self, holder: &str) -> (r: Option<usize>)
        requires
            self.wf(),
        ensures
            match r {
                Some(i) => i < self.rows@.len() && self.rows@[i as int].0@ == holder@
                    && self@.contains_key(holder@) && self@[holder@] == self.rows@[i as int].1,
                None => !self@.contains_key(holder@) && forall|i: int|
                    0 <= i < self.rows@.len() ==> (#[trigger] self.rows@[i]).0@ != holder@,
            },
    {
        let mut i: usize = 0;
        while i < self.rows.len()
            invariant
                self.wf(),
                i <= self.rows@.len(),
                forall|j: int| 0 <= j < i ==> (#[trigger] self.rows@[j]).0@ != holder@,
            decreases self.rows@.len() - i,
        {
            if same_text(self.rows[i].0.as_str(), holder) {
                proof {
                    row_counts(self.rows@, i as int);
                }
                return Some(i);
            }
            i = i + 1;
        }
        proof {
            no_row(self.rows@, holder@);
        }
        None
    }

    /// Records an acknowledged epoch. Epochs on record never fall.
    pub fn observe(&mut self, holder: &str, epoch: u64)
        requires
            old(self).wf(),
        ensures
            final(self).wf(),
            final(self)@ == recorded(old(self)@, holder@, epoch),
    {
        match self.find(holder) {
            Some(i) => {
                if self.rows[i].1 < epoch {
                    let ghost pre = self.rows@;
                    let name = self.rows[i].0.clone();
                    proof {
                        row_changed(pre, i as int, (name, epoch));
                    }
                    self.rows.set(i, (name, epoch));
                    proof {
                        assert forall|a: int, b: int| 0 <= a < b < self.rows@.len() implies (
                        #[trigger] self.rows@[a]).0@ != (#[trigger] self.rows@[b]).0@ by {
                            assert(pre[a].0@ != pre[b].0@);
                        }
                    }
                } else {
                    assert(recorded(self@, holder@, epoch) =~= self@);
                }
            },
            None => {
                let ghost pre = self.rows@;
                self.rows.push((holder.to_owned(), epoch));
                assert(self.rows@.drop_last() =~= pre);
            },
        }
    }

    /// The highest epoch on record, 0 if there is none.
    pub fn known(&self, holder: &str) -> (r: u64)
        requires
            self.wf(),
        ensures
            r == on_record(self@, holder@),
    {
        match self.find(holder) {
            Some(i) => self.rows[i].1,
            None => 0,
        }
    }
}

/// How many established chains are remembered. Past it, one is forgotten for
/// each new one, which only forces a full send later.
pub const DIGEST_CACHE_CAP: usize = 131_072;

/// The chains that the index holds on this client's account, by the chain's tip:
/// for each keyspace and holder the last update that published the chain, the
/// latest at the end.
pub struct DigestCache {
    chains: HashMap<u64, Vec<Update>>,
}

/// Updates as plain values.
pub open spec fn update_views(s: Seq<Update>) -> Seq<UpdateView> {
    s.map_values(|u: Update| u@)
}

impl View for DigestCache {
    type V = Map<u64, Seq<UpdateView>>;

    closed spec fn view(&self) -> Map<u64, Seq<UpdateView>> {
        self.chains@.map_values(|v: Vec<Update>| update_views(v@))
    }
}

/// The digest that stands for a full update.
pub open spec fn digest_of(full: UpdateView, tip: u64, len: u32) -> UpdateView {
    UpdateView {
        keyspace: full.keyspace,
        holder: full.holder,
        epoch: full.epoch,
        seq: 0,
        events: seq![
            EventView::Digest(StoredDigest { parent_seq_hash: None, tip_seq_hash: tip, len }),
        ],
        added: None,
        dropped: false,
    }
}

/// The two updates are for the same holder of the same keyspace.
pub open spec fn same_target(a: UpdateView, b: UpdateView) -> bool {
    a.keyspace == b.keyspace && a.holder == b.holder
}

/// The updates for another target than that of `full`.
pub open spec fn others(s: Seq<UpdateView>, full: UpdateView) -> Seq<UpdateView>
    decreases s.len(),
{
    if s.len() == 0 {
        Seq::empty()
    } else if same_target(s.last(), full) {
        others(s.drop_last(), full)
    } else {
        others(s.drop_last(), full).push(s.last())
    }
}

/// The updates that published the chain with the given tip.
pub open spec fn published(cache: Map<u64, Seq<UpdateView>>, tip: u64) -> Seq<UpdateView> {
    if cache.contains_key(tip) {
        cache[tip]
    } else {
        Seq::empty()
    }
}

/// The chain is established for the target of `full`.
pub open spec fn established(
    cache: Map<u64, Seq<UpdateView>>,
    tip: u64,
    full: UpdateView,
) -> bool {
    exists|i: int|
        0 <= i < published(cache, tip).len() && same_target(
            #[trigger] published(cache, tip)[i],
            full,
        )
}

/// A cache after `full` was published: it is what the cache has for its target,
/// and the latest. At the cap, some chain makes room for a new one.
pub open spec fn noted(
    pre: Map<u64, Seq<UpdateView>>,
    tip: u64,
    full: UpdateView,
    post: Map<u64, Seq<UpdateView>>,
) -> bool {
    let row = others(published(pre, tip), full).push(full);
    if !pre.contains_key(tip) && pre.len() >= DIGEST_CACHE_CAP {
        exists|victim: u64| #[trigger]
            pre.contains_key(victim) && post == pre.remove(victim).insert(tip, row)
    } else {
        post == pre.insert(tip, row)
    }
}

/// The updates for a holder.
pub open spec fn meant_for(s: Seq<UpdateView>, holder: Seq<char>) -> Seq<UpdateView>
    decreases s.len(),
{
    if s.len() == 0 {
        Seq::empty()
    } else if s.last().holder == holder {
        meant_for(s.drop_last(), holder).push(s.last())
    } else {
        meant_for(s.drop_last(), holder)
    }
}

impl Default for DigestCache {
    /// A cache without chains.
    fn default() -> (r: DigestCache)
        ensures
            r.wf(),
            r@ == Map::<u64, Seq<UpdateView>>::empty(),
    {
        broadcast use vstd::std_specs::hash::group_hash_axioms;

        let r = DigestCache { chains: HashMap::new() };
        assert(r@ =~= Map::<u64, Seq<UpdateView>>::empty());
        r
    }
}

fn same_keyspace(a: &Option<Keyspace>, b: &Option<Keyspace>) -> (r: bool)
    ensures
        r == (match (*a, *b) {
            (None, None) => true,
            (Some(x), Some(y)) => x@ == y@,
            _ => false,
        }),
{
    match (a, b) {
        (None, None) => true,
        (Some(x), Some(y)) => x.symbol_kind == y.symbol_kind && x.block_size == y.block_size
            && x.hash_scheme == y.hash_scheme && same_text(x.model.as_str(), y.model.as_str()),
        _ => false,
    }
}

fn share_target(a: &Update, b: &Update) -> (r: bool)
    ensures
        r == same_target(a@, b@),
{
    same_keyspace(&a.keyspace, &b.keyspace) && same_text(a.holder.as_str(), b.holder.as_str())
}

/// Takes the updates for the target of `full` out. Returns whether there were any.
fn drop_target(row: &mut Vec<Update>, full: &Update) -> (r: bool)
    ensures
        update_views(final(row)@) == others(update_views(old(row)@), full@),
        r <==> exists|i: int|
            0 <= i < old(row)@.len() && same_target((#[trigger] old(row)@[i])@, full@),
{
    let ghost pre = row@;
    let ghost views = update_views(pre);
    let mut found: bool = false;
    let mut i: usize = 0;
    let ghost mut n: int = 0;
    proof {
        assert(views.take(0) =~= Seq::<UpdateView>::empty());
        assert(row@ =~= row@.take(0) + pre.skip(0));
        assert(update_views(row@.take(0)) =~= others(views.take(0), full@));
    }
    while i < row.len()
        invariant
            views == update_views(pre),
            0 <= n <= pre.len(),
            i <= row@.len(),
            row@.len() - i == pre.len() - n,
            row@.skip(i as int) == pre.skip(n),
            update_views(row@.take(i as int)) == others(views.take(n), full@),
            found <==> exists|x: int| 0 <= x < n && same_target((#[trigger] pre[x])@, full@),
        decreases row@.len() - i,
    {
        let ghost was = row@;
        proof {
            assert(row@[i as int] == row@.skip(i as int)[0]);
            assert(pre[n] == pre.skip(n)[0]);
            assert(views.take(n + 1).drop_last() =~= views.take(n));
            assert(views.take(n + 1).last() == pre[n]@);
        }
        if share_target(&row[i], full) {
            row.remove(i);
            found = true;
            proof {
                assert(row@.skip(i as int) =~= was.skip(i as int).skip(1));
                assert(pre.skip(n + 1) =~= pre.skip(n).skip(1));
                assert(row@.take(i as int) =~= was.take(i as int));
                assert(same_target(pre[n]@, full@));
            }
        } else {
            i = i + 1;
            proof {
                assert(row@.skip(i as int) =~= was.skip(i - 1).skip(1));
                assert(pre.skip(n + 1) =~= pre.skip(n).skip(1));
                assert(update_views(row@.take(i as int)) =~= update_views(
                    was.take(i - 1),
                ).push(pre[n]@));
            }
        }
        proof {
            n = n + 1;
        }
    }
    proof {
        assert(row@.take(i as int) =~= row@);
        assert(views.take(n) =~= views);
    }
    found
}

impl DigestCache {
    /// A valid cache: it is finite, and holds no more chains than the cap.
    pub open spec fn wf(&self) -> bool {
        self@.dom().finite() && self@.len() <= DIGEST_CACHE_CAP
    }

    /// Decides how to publish `full`, whose chain ends in `tip` after `len`
    /// blocks: as the digest returned, if the chain is established already for
    /// its holder, and else in full, which establishes it. Either way it is what
    /// is sent again if the index does not know the chain.
    pub fn plan(&mut self, tip: u64, len: u32, full: &Update) -> (r: Option<Update>)
        requires
            old(self).wf(),
        ensures
            final(self).wf(),
            noted(old(self)@, tip, full@, final(self)@),
            r is Some <==> established(old(self)@, tip, full@),
            r is Some ==> r->0@ == digest_of(full@, tip, len),
    {
        broadcast use vstd::std_specs::hash::group_hash_axioms;

        let ghost pre = self@;
        assert(self.chains@.dom() =~= self@.dom());
        let known: bool = self.chains.contains_key(&tip);
        if !known && self.chains.len() >= DIGEST_CACHE_CAP {
            match some_key(&self.chains) {
                Some(victim) => {
                    self.chains.remove(&victim);
                    proof {
                        assert(self@ =~= pre.remove(victim));
                    }
                },
                None => {
                    proof {
                        assert(pre.dom() =~= Set::empty());
                        assert(false);
                    }
                },
            }
        }
        let ghost mid = self@;
        let mut row: Vec<Update> = match self.chains.remove(&tip) {
            Some(row) => row,
            None => Vec::new(),
        };
        proof {
            assert(update_views(row@) =~= published(pre, tip));
            assert(self@ =~= mid.remove(tip));
        }
        let ghost before = row@;
        let found: bool = drop_target(&mut row, full);
        proof {
            let seen = published(pre, tip);
            assert(found <==> established(pre, tip, full@)) by {
                if found {
                    let i = choose|i: int|
                        0 <= i < before.len() && same_target((#[trigger] before[i])@, full@);
                    assert(seen[i] == before[i]@);
                }
                if established(pre, tip, full@) {
                    let i = choose|i: int|
                        0 <= i < seen.len() && same_target(#[trigger] seen[i], full@);
                    assert(seen[i] == before[i]@);
                }
            }
        }
        let ghost kept = row@;
        row.push(proto::copy_update(full));
        proof {
            assert(update_views(row@) =~= update_views(kept).push(full@));
        }
        let ghost whole = update_views(row@);
        self.chains.insert(tip, row);
        proof {
            assert(self@ =~= mid.insert(tip, whole));
        }
        if !found {
            return None;
        }
        let mut events: Vec<Event> = Vec::new();
        events.push(
            Event {
                kind: Some(
                    EventKind::Digest(
                        StoredDigest { parent_seq_hash: None, tip_seq_hash: tip, len },
                    ),
                ),
            },
        );
        proof {
            assert(proto::event_views(events@) =~= seq![
                EventView::Digest(StoredDigest { parent_seq_hash: None, tip_seq_hash: tip, len }),
            ]);
        }
        Some(
            Update {
                keyspace: proto::copy_optional_keyspace(&full.keyspace),
                holder: full.holder.clone(),
                epoch: full.epoch,
                seq: 0,
                events,
                added: None,
                dropped: false,
            },
        )
    }

    /// The last full update of the chain with the given tip, if it is still
    /// remembered.
    pub fn resend(&self, tip: u64) -> (r: Option<Update>)
        ensures
            r is Some <==> published(self@, tip).len() > 0,
            r is Some ==> r->0@ == published(self@, tip).last(),
    {
        broadcast use vstd::std_specs::hash::group_hash_axioms;

        match self.chains.get(&tip) {
            Some(row) => {
                assert(self@[tip] == update_views(row@));
                if row.len() == 0 {
                    None
                } else {
                    assert(update_views(row@).last() == row@.last()@);
                    Some(proto::copy_update(&row[row.len() - 1]))
                }
            },
            None => None,
        }
    }

    /// The full updates to send after the index did not know a digest for a
    /// holder, as far as they are still remembered: one for each keyspace in
    /// which the chain was published for that holder.
    pub fn resend_for(&self, holder: &str, tip: u64) -> (r: Vec<Update>)
        ensures
            update_views(r@) == meant_for(published(self@, tip), holder@),
    {
        broadcast use vstd::std_specs::hash::group_hash_axioms;

        let mut out: Vec<Update> = Vec::new();
        match self.chains.get(&tip) {
            Some(row) => {
                let ghost all = update_views(row@);
                assert(self@[tip] == all);
                let mut i: usize = 0;
                proof {
                    assert(all.take(0) =~= Seq::<UpdateView>::empty());
                    assert(update_views(out@) =~= Seq::<UpdateView>::empty());
                }
                while i < row.len()
                    invariant
                        i <= row@.len(),
                        all == update_views(row@),
                        update_views(out@) == meant_for(all.take(i as int), holder@),
                    decreases row@.len() - i,
                {
                    let ghost was = out@;
                    proof {
                        assert(all.take(i + 1).drop_last() =~= all.take(i as int));
                        assert(all.take(i + 1).last() == row@[i as int]@);
                    }
                    if same_text(row[i].holder.as_str(), holder) {
                        out.push(proto::copy_update(&row[i]));
                        proof {
                            assert(update_views(out@) =~= update_views(was).push(row@[i as int]@));
                        }
                    }
                    i = i + 1;
                }
                assert(all.take(i as int) =~= all);
            },
            None => {
                assert(update_views(out@) =~= Seq::<UpdateView>::empty());
            },
        }
        out
    }

    /// Forgets every chain: behind a new connection there may be an index that
    /// holds none of them.
    pub fn reset(&mut self)
        ensures
            final(self).wf(),
            final(self)@ == Map::<u64, Seq<UpdateView>>::empty(),
    {
        broadcast use vstd::std_specs::hash::group_hash_axioms;

        self.chains.clear();
        assert(self@ =~= Map::<u64, Seq<UpdateView>>::empty());
    }
}

/// Some key of a map, if it has any.
fn some_key(m: &HashMap<u64, Vec<Update>>) -> (r: Option<u64>)
    ensures
        r is Some ==> m@.contains_key(r->0),
        r is None ==> m@.dom() =~= Set::<u64>::empty(),
{
    broadcast use vstd::std_specs::hash::group_hash_axioms;

    let keys = m.keys();
    let ghost all = keys.remaining().unref();
    let mut found: Option<u64> = None;
    for k in it: keys
        invariant
            all == it.seq().unref(),
            found is None ==> it.index() == 0,
            found is Some ==> all.contains(found->0),
    {
        if found.is_none() {
            found = Some(*k);
            proof {
                assert(all[it.index()] == *k);
            }
        }
    }
    proof {
        assert(all.to_set() == m@.dom());
        if found is Some {
            assert(all.to_set().contains(found->0));
        }
        assert forall|k: u64| found is None implies !m@.dom().contains(k) by {
            assert(all.to_set().contains(k) <==> all.contains(k));
        }
    }
    found
}

/// The keyspace of token blocks.
pub fn keyspace(model: &str, block_size: u32) -> (r: Keyspace)
    ensures
        r@ == keyspace_of(model@, block_size, SymbolKind::Tokens),
{
    keyspace_with_kind(model, block_size, SymbolKind::Tokens)
}

/// The keyspace of a model, a block size and a symbol kind.
pub open spec fn keyspace_of(model: Seq<char>, block_size: u32, kind: SymbolKind) -> KeyspaceView {
    KeyspaceView {
        model,
        symbol_kind: kind.number(),
        block_size,
        hash_scheme: wire_hash::HASH_SCHEME_V1,
    }
}

/// The keyspace of a symbol kind: tokens and raw bytes never share one.
pub fn keyspace_with_kind(model: &str, block_size: u32, symbol_kind: SymbolKind) -> (r: Keyspace)
    ensures
        r@ == keyspace_of(model@, block_size, symbol_kind),
{
    Keyspace {
        model: model.to_owned(),
        symbol_kind: symbol_kind.to_number(),
        block_size,
        hash_scheme: wire_hash::HASH_SCHEME_V1,
    }
}

/// A signed hash as the same 64 bits without a sign.
pub open spec fn unsigned(h: i64) -> u64 {
    if h < 0 {
        (h + 0x1_0000_0000_0000_0000) as u64
    } else {
        h as u64
    }
}

fn to_unsigned(h: i64) -> (r: u64)
    ensures
        r == unsigned(h),
{
    let r = #[verifier::truncate] (h as u64);
    assert(h < 0 ==> r == h + 0x1_0000_0000_0000_0000) by (bit_vector)
        requires
            r == h as u64,
    ;
    assert(h >= 0 ==> r == h) by (bit_vector)
        requires
            r == h as u64,
    ;
    r
}

/// Blocks of a worker as blocks of the index.
pub open spec fn blocks_of(blocks: Seq<KvBlock>) -> Seq<Block> {
    blocks.map_values(
        |b: KvBlock|
            Block {
                seq_hash: unsigned(b.block_hash),
                content_hash: wire_hash::content_of(b.token_ids@),
            },
    )
}

/// One change of a worker's cache as an event of the index.
pub open spec fn event_of(data: KvData) -> EventView {
    match data {
        KvData::Stored { parent_block_hash, blocks } => EventView::Stored(
            match parent_block_hash {
                None => None,
                Some(h) => Some(unsigned(h)),
            },
            blocks_of(blocks@),
        ),
        KvData::Removed { block_hashes } => EventView::Removed(
            block_hashes@.map_values(|h: i64| unsigned(h)),
        ),
        KvData::Cleared => EventView::Cleared(true),
    }
}

/// Changes of a worker's cache as events of the index; empty ones are left out.
pub open spec fn events_of(events: Seq<KvCacheEvent>) -> Seq<EventView>
    decreases events.len(),
{
    if events.len() == 0 {
        Seq::empty()
    } else {
        let init = events_of(events.drop_last());
        match events.last().data {
            None => init,
            Some(data) => init.push(event_of(data)),
        }
    }
}

/// A worker's batch as an update.
pub open spec fn update_of(
    batch: KvEventBatch,
    model: Seq<char>,
    block_size: u32,
    holder: Seq<char>,
    epoch: u64,
) -> UpdateView {
    UpdateView {
        keyspace: Some(keyspace_of(model, block_size, SymbolKind::Tokens)),
        holder,
        epoch,
        seq: batch.sequence_number,
        events: events_of(batch.events@),
        added: None,
        dropped: false,
    }
}

fn convert_blocks(blocks: &Vec<KvBlock>) -> (r: Vec<Block>)
    ensures
        r@ == blocks_of(blocks@),
{
    let mut out: Vec<Block> = Vec::new();
    let mut i: usize = 0;
    while i < blocks.len()
        invariant
            i <= blocks@.len(),
            out@ == blocks_of(blocks@.take(i as int)),
        decreases blocks@.len() - i,
    {
        let b = &blocks[i];
        out.push(
            Block {
                seq_hash: to_unsigned(b.block_hash),
                content_hash: wire_hash::content_hash(b.token_ids.as_slice()).0,
            },
        );
        i = i + 1;
        assert(out@ =~= blocks_of(blocks@.take(i as int)));
    }
    assert(blocks@.take(i as int) =~= blocks@);
    out
}

fn convert_hashes(hashes: &Vec<i64>) -> (r: Vec<u64>)
    ensures
        r@ == hashes@.map_values(|h: i64| unsigned(h)),
{
    let mut out: Vec<u64> = Vec::new();
    let mut i: usize = 0;
    while i < hashes.len()
        invariant
            i <= hashes@.len(),
            out@ == hashes@.take(i as int).map_values(|h: i64| unsigned(h)),
        decreases hashes@.len() - i,
    {
        out.push(to_unsigned(hashes[i]));
        i = i + 1;
        assert(out@ =~= hashes@.take(i as int).map_values(|h: i64| unsigned(h)));
    }
    assert(hashes@.take(i as int) =~= hashes@);
    out
}

fn convert_data(data: &KvData) -> (r: Event)
    ensures
        r@ == event_of(*data),
{
    let kind = match data {
        KvData::Stored { parent_block_hash, blocks } => EventKind::Stored {
            parent_seq_hash: match parent_block_hash {
                None => None,
                Some(h) => Some(to_unsigned(*h)),
            },
            blocks: convert_blocks(blocks),
        },
        KvData::Removed { block_hashes } => EventKind::Removed {
            seq_hashes: convert_hashes(block_hashes),
        },
        KvData::Cleared => EventKind::Cleared(true),
    };
    Event { kind: Some(kind) }
}

/// A worker's batch as an update of the holder in the given epoch.
pub fn convert_batch(
    batch: &KvEventBatch,
    model: &str,
    block_size: u32,
    holder: &str,
    epoch: u64,
) -> (r: Update)
    ensures
        r@ == update_of(*batch, model@, block_size, holder@, epoch),
{
    let mut events: Vec<Event> = Vec::new();
    let mut i: usize = 0;
    while i < batch.events.len()
        invariant
            i <= batch.events@.len(),
            proto::event_views(events@) == events_of(batch.events@.take(i as int)),
        decreases batch.events@.len() - i,
    {
        proof {
            assert(batch.events@.take(i + 1).drop_last() =~= batch.events@.take(i as int));
        }
        match &batch.events[i].data {
            None => {},
            Some(data) => {
                let ghost was = events@;
                let event = convert_data(data);
                events.push(event);
                proof {
                    assert(proto::event_views(events@) =~= proto::event_views(was).push(event@));
                }
            },
        }
        i = i + 1;
    }
    proof {
        assert(batch.events@.take(i as int) =~= batch.events@);
    }
    Update {
        keyspace: Some(keyspace(model, block_size)),
        holder: holder.to_owned(),
        epoch,
        seq: batch.sequence_number,
        events,
        added: None,
        dropped: false,
    }
}

/// Why a worker refused a subscription.
#[derive(Debug, Clone, Copy, PartialEq, Eq, Structural)]
pub enum Refusal {
    /// The worker has no event stream.
    Unimplemented,
    OutOfRange,
    DataLoss,
    Other,
}

/// What happened to a worker's subscription.
pub enum WorkerEvent {
    /// The loop starts over; the ledger has the given epoch on record.
    Start { known: u64 },
    /// The worker could not be reached.
    Unreachable,
    /// The worker refused the subscription.
    Refused(Refusal),
    /// A batch came in.
    Batch(KvEventBatch),
    /// The last update went out; the ledger has the given epoch on record.
    Sent { known: u64 },
    /// The stream ended or broke.
    Ended,
    /// The publisher is gone.
    PublisherGone,
}

/// What to do about a worker's subscription.
pub enum WorkerAction {
    /// Connect, and subscribe behind the given batch.
    Subscribe { from: u64 },
    /// Wait for so many milliseconds, then start over.
    Retry { after_ms: u64 },
    /// Wait for the next batch.
    Next,
    /// Send the update.
    Send(Update),
    /// End the loop.
    Exit,
}

/// One worker's subscription.
pub struct WorkerLoop {
    pub worker: String,
    pub model: String,
    pub block_size: u32,
    pub epoch: u64,
    /// The last batch that went out in this epoch, 0 if none did.
    pub last_seq: u64,
}

/// Where a subscription stands.
pub struct Cursor {
    pub epoch: u64,
    pub last_seq: u64,
}

/// The start of the next epoch.
pub open spec fn reborn(c: Cursor) -> Cursor {
    Cursor { epoch: (c.epoch + 1) as u64, last_seq: 0 }
}

/// The cursor past the epoch on record: a lower epoch would be dropped by the
/// index, so the loop adopts the next higher one and replays from zero.
pub open spec fn adopted(c: Cursor, known: u64) -> Cursor {
    if known >= c.epoch {
        Cursor { epoch: (known + 1) as u64, last_seq: 0 }
    } else {
        c
    }
}

/// What the arrival of batch `seq` means.
#[derive(Debug, Clone, Copy, PartialEq, Eq, Structural)]
pub enum Arrival {
    /// The batch was sent before.
    Replayed,
    /// Batches are missing before it.
    Gap,
    /// The batch is the next one.
    Next,
}

pub open spec fn arrival(c: Cursor, seq: u64) -> Arrival {
    if c.last_seq > 0 && seq <= c.last_seq {
        Arrival::Replayed
    } else if c.last_seq > 0 && seq > c.last_seq + 1 {
        Arrival::Gap
    } else {
        Arrival::Next
    }
}

/// The epoch after the cursor's is a `u64`.
pub open spec fn can_be_reborn(c: Cursor) -> bool {
    c.epoch < u64::MAX
}

impl WorkerLoop {
    pub open spec fn cursor(&self) -> Cursor {
        Cursor { epoch: self.epoch, last_seq: self.last_seq }
    }

    /// A subscription that starts in epoch 1 with the worker's first batch.
    pub fn new(worker: &str, model: &str, block_size: u32) -> (r: WorkerLoop)
        ensures
            r.worker@ == worker@,
            r.model@ == model@,
            r.block_size == block_size,
            r.cursor() == (Cursor { epoch: 1, last_seq: 0 }),
    {
        WorkerLoop {
            worker: worker.to_owned(),
            model: model.to_owned(),
            block_size,
            epoch: 1,
            last_seq: 0,
        }
    }

    /// There is a next epoch where the event calls for one.
    pub open spec fn has_epoch_for(&self, event: WorkerEvent) -> bool {
        match event {
            WorkerEvent::Start { known } => known < u64::MAX,
            WorkerEvent::Refused(Refusal::OutOfRange) => can_be_reborn(self.cursor()),
            WorkerEvent::Refused(Refusal::DataLoss) => can_be_reborn(self.cursor()),
            WorkerEvent::Batch(batch) => arrival(self.cursor(), batch.sequence_number)
                == Arrival::Gap ==> can_be_reborn(self.cursor()),
            _ => true,
        }
    }

    /// Where the subscription stands after an event.
    pub open spec fn moved(&self, event: WorkerEvent) -> Cursor {
        let c = self.cursor();
        match event {
            WorkerEvent::Start { known } => adopted(c, known),
            WorkerEvent::Refused(Refusal::OutOfRange) => reborn(c),
            WorkerEvent::Refused(Refusal::DataLoss) => reborn(c),
            WorkerEvent::Batch(batch) => match arrival(c, batch.sequence_number) {
                Arrival::Replayed => c,
                Arrival::Gap => reborn(c),
                Arrival::Next => Cursor { last_seq: batch.sequence_number, ..c },
            },
            _ => c,
        }
    }

    /// Whether `action` answers `event`.
    pub open spec fn answers(&self, event: WorkerEvent, action: WorkerAction) -> bool {
        match event {
            WorkerEvent::Start { known } => action == (WorkerAction::Subscribe {
                from: self.moved(event).last_seq,
            }),
            WorkerEvent::Unreachable => action == (WorkerAction::Retry { after_ms: 500 }),
            WorkerEvent::Refused(Refusal::Unimplemented) => action == WorkerAction::Exit,
            WorkerEvent::Refused(_) => action == (WorkerAction::Retry { after_ms: 500 }),
            WorkerEvent::Batch(batch) => match arrival(self.cursor(), batch.sequence_number) {
                Arrival::Replayed => action == WorkerAction::Next,
                Arrival::Gap => action == (WorkerAction::Retry { after_ms: 200 }),
                Arrival::Next => action matches WorkerAction::Send(update) && update@ == update_of(
                    batch,
                    self.model@,
                    self.block_size,
                    self.worker@,
                    self.epoch,
                ),
            },
            WorkerEvent::Sent { known } => action == (if known >= self.epoch {
                WorkerAction::Retry { after_ms: 200 }
            } else {
                WorkerAction::Next
            }),
            WorkerEvent::Ended => action == (WorkerAction::Retry { after_ms: 200 }),
            WorkerEvent::PublisherGone => action == WorkerAction::Exit,
        }
    }

    /// Takes note of an event and says what to do next.
    pub fn step(&mut self, event: WorkerEvent) -> (r: WorkerAction)
        requires
            old(self).has_epoch_for(event),
        ensures
            final(self).worker == old(self).worker,
            final(self).model == old(self).model,
            final(self).block_size == old(self).block_size,
            final(self).cursor() == old(self).moved(event),
            old(self).answers(event, r),
    {
        match event {
            WorkerEvent::Start { known } => {
                if known >= self.epoch {
                    self.epoch = known + 1;
                    self.last_seq = 0;
                }
                WorkerAction::Subscribe { from: self.last_seq }
            },
            WorkerEvent::Unreachable => WorkerAction::Retry { after_ms: 500 },
            WorkerEvent::Refused(refusal) => match refusal {
                Refusal::Unimplemented => WorkerAction::Exit,
                Refusal::OutOfRange | Refusal::DataLoss => {
                    self.epoch = self.epoch + 1;
                    self.last_seq = 0;
                    WorkerAction::Retry { after_ms: 500 }
                },
                Refusal::Other => WorkerAction::Retry { after_ms: 500 },
            },
            WorkerEvent::Batch(batch) => {
                let seq: u64 = batch.sequence_number;
                if self.last_seq > 0 && seq <= self.last_seq {
                    WorkerAction::Next
                } else if self.last_seq > 0 && seq - self.last_seq > 1 {
                    self.epoch = self.epoch + 1;
                    self.last_seq = 0;
                    WorkerAction::Retry { after_ms: 200 }
                } else {
                    self.last_seq = seq;
                    WorkerAction::Send(
                        convert_batch(
                            &batch,
                            self.model.as_str(),
                            self.block_size,
                            self.worker.as_str(),
                            self.epoch,
                        ),
                    )
                }
            },
            WorkerEvent::Sent { known } => {
                if known >= self.epoch {
                    WorkerAction::Retry { after_ms: 200 }
                } else {
                    WorkerAction::Next
                }
            },
            WorkerEvent::Ended => WorkerAction::Retry { after_ms: 200 },
            WorkerEvent::PublisherGone => WorkerAction::Exit,
        }
    }
}

/// How long a publisher waits before it connects again, in milliseconds.
pub const RECONNECT_MS: u64 = 500;

/// Takes note of a new connection: the peer may be another or a restarted
/// index, so no chain counts as established.
pub fn on_connected(digest: &mut Option<DigestCache>)
    ensures
        *final(digest) is Some <==> *old(digest) is Some,
        *final(digest) is Some ==> (*final(digest))->0.wf() && (*final(digest))->0@ == Map::<
            u64,
            Seq<UpdateView>,
        >::empty(),
{
    match digest {
        Some(cache) => {
            cache.reset();
        },
        None => {},
    }
}

/// Takes note of an acknowledgement. Returns the updates to send in full where
/// the index did not know a digest.
pub fn on_ack(
    ledger: &mut EpochLedger,
    digest: &Option<DigestCache>,
    ack: &PublishAck,
) -> (r: Vec<Update>)
    requires
        old(ledger).wf(),
    ensures
        final(ledger).wf(),
        final(ledger)@ == recorded(old(ledger)@, ack.holder@, ack.epoch),
        update_views(r@) == match (*digest, ack.digest_miss_tip) {
            (Some(cache), Some(tip)) => meant_for(published(cache@, tip), ack.holder@),
            _ => Seq::empty(),
        },
{
    ledger.observe(ack.holder.as_str(), ack.epoch);
    let none: Vec<Update> = Vec::new();
    assert(update_views(none@) =~= Seq::<UpdateView>::empty());
    match digest {
        None => none,
        Some(cache) => match ack.digest_miss_tip {
            None => none,
            Some(tip) => cache.resend_for(ack.holder.as_str(), tip),
        },
    }
}

/// Epochs on record never fall, whatever is acknowledged.
pub proof fn record_never_falls(
    ledger: Map<Seq<char>, u64>,
    acked: Seq<char>,
    epoch: u64,
    holder: Seq<char>,
)
    ensures
        on_record(recorded(ledger, acked, epoch), holder) >= on_record(ledger, holder),
        on_record(recorded(ledger, acked, epoch), acked) >= epoch,
        holder != acked ==> on_record(recorded(ledger, acked, epoch), holder) == on_record(
            ledger,
            holder,
        ),
{
}

/// The order of acknowledgements does not matter, nor does repeating one.
pub proof fn record_order_is_free(
    ledger: Map<Seq<char>, u64>,
    a: Seq<char>,
    x: u64,
    b: Seq<char>,
    y: u64,
)
    ensures
        recorded(recorded(ledger, a, x), b, y) == recorded(recorded(ledger, b, y), a, x),
        recorded(recorded(ledger, a, x), a, x) == recorded(ledger, a, x),
{
    assert(recorded(recorded(ledger, a, x), b, y) =~= recorded(recorded(ledger, b, y), a, x));
    assert(recorded(recorded(ledger, a, x), a, x) =~= recorded(ledger, a, x));
}

/// A digest never hides blocks: once an update was planned, in full or as a
/// digest, it is what is sent again for its chain, both as the last one and among
/// those for its holder; and what is remembered for other targets is not lost
/// with it.
pub proof fn digests_are_backed(
    pre: Map<u64, Seq<UpdateView>>,
    tip: u64,
    full: UpdateView,
    post: Map<u64, Seq<UpdateView>>,
    other: UpdateView,
)
    requires
        noted(pre, tip, full, post),
    ensures
        established(post, tip, full),
        published(post, tip).len() > 0,
        published(post, tip).last() == full,
        meant_for(published(post, tip), full.holder).contains(full),
        published(pre, tip).contains(other) && !same_target(other, full) ==> published(
            post,
            tip,
        ).contains(other),
        forall|t: u64| #[trigger] post.contains_key(t) && t != tip ==> pre.contains_key(t)
            && post[t] == pre[t],
{
    let kept = others(published(pre, tip), full);
    let row = kept.push(full);
    assert(published(post, tip) == row);
    assert(same_target(row[row.len() - 1], full));
    assert(row.drop_last() =~= kept);
    let mine = meant_for(row, full.holder);
    assert(mine == meant_for(kept, full.holder).push(full));
    assert(mine[mine.len() - 1] == full);
    if published(pre, tip).contains(other) && !same_target(other, full) {
        others_stay(published(pre, tip), full, other);
        let i = choose|i: int| 0 <= i < kept.len() && kept[i] == other;
        assert(row[i] == other);
    }
}

proof fn others_stay(s: Seq<UpdateView>, full: UpdateView, other: UpdateView)
    requires
        s.contains(other),
        !same_target(other, full),
    ensures
        others(s, full).contains(other),
    decreases s.len(),
{
    let i = choose|i: int| 0 <= i < s.len() && s[i] == other;
    let init = others(s.drop_last(), full);
    if i < s.len() - 1 {
        assert(s.drop_last()[i] == other);
        others_stay(s.drop_last(), full, other);
        let x = choose|x: int| 0 <= x < init.len() && init[x] == other;
        assert(others(s, full)[x] == other);
    } else {
        assert(others(s, full)[init.len() as int] == other);
    }
}

/// What a worker's loop sends is never stale: after a start the epoch is past
/// the one on record.
pub proof fn adoption_passes_the_record(c: Cursor, known: u64)
    requires
        known < u64::MAX,
    ensures
        adopted(c, known).epoch > known,
        adopted(c, known).epoch >= c.epoch,
        adopted(c, known) != c ==> adopted(c, known).last_seq == 0,
{
}

/// Within an epoch batches go out in order without gaps: a batch that goes out
/// behind another is its successor.
pub proof fn batches_go_out_in_order(c: Cursor, seq: u64)
    requires
        c.last_seq > 0,
        arrival(c, seq) == Arrival::Next,
    ensures
        seq == c.last_seq + 1,
{
}

} // verus!
