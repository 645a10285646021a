//! The messages of the index service and of the workers' event streams, as
//! plain values.

use vstd::prelude::*;

verus! {

/// What a block is made of, numbered as on the wire.
#[derive(Debug, Clone, Copy, PartialEq, Eq, Structural)]
pub enum SymbolKind {
    Tokens,
    Bytes,
}

impl SymbolKind {
    /// The kind's number on the wire.
    pub open spec fn number(self) -> i32 {
        match self {
            SymbolKind::Tokens => 0,
            SymbolKind::Bytes => 1,
        }
    }

    /// The kind's number on the wire.
    pub fn to_number(self) -> (r: i32)
        ensures
            r == self.number(),
    {
        match self {
            SymbolKind::Tokens => 0,
            SymbolKind::Bytes => 1,
        }
    }
}

/// Which index a message is about.
#[derive(Debug, Clone, PartialEq, Eq)]
pub struct Keyspace {
    pub model: String,
    pub symbol_kind: i32,
    pub block_size: u32,
    pub hash_scheme: u32,
}

#[derive(Debug, Clone, Copy, PartialEq, Eq, Structural)]
pub struct Block {
    pub seq_hash: u64,
    pub content_hash: u64,
}

/// A chain that the index is expected to hold already.
#[derive(Debug, Clone, Copy, PartialEq, Eq, Structural)]
pub struct StoredDigest {
    pub parent_seq_hash: Option<u64>,
    pub tip_seq_hash: u64,
    pub len: u32,
}

#[derive(Debug, Clone, PartialEq, Eq)]
pub enum EventKind {
    Stored { parent_seq_hash: Option<u64>, blocks: Vec<Block> },
    Removed { seq_hashes: Vec<u64> },
    Cleared(bool),
    Digest(StoredDigest),
}

#[derive(Debug, Clone, PartialEq, Eq)]
pub struct Event {
    pub kind: Option<EventKind>,
}

/// Capacity and feed of a holder.
#[derive(Debug, Clone, Copy, PartialEq, Eq, Structural)]
pub struct Added {
    pub capacity_blocks: u64,
    pub event_fed: bool,
}

/// One published update.
#[derive(Debug, Clone, PartialEq, Eq)]
pub struct Update {
    pub keyspace: Option<Keyspace>,
    pub holder: String,
    pub epoch: u64,
    pub seq: u64,
    pub events: Vec<Event>,
    pub added: Option<Added>,
    pub dropped: bool,
}

/// The index's answer to an update.
#[derive(Debug, Clone, PartialEq, Eq)]
pub struct PublishAck {
    pub holder: String,
    pub epoch: u64,
    /// Tip of a digest that the index could not confirm.
    pub digest_miss_tip: Option<u64>,
}

/// A block in a worker's cache.
#[derive(Debug, Clone, PartialEq, Eq)]
pub struct KvBlock {
    pub block_hash: i64,
    pub token_ids: Vec<u32>,
    pub block_size: i32,
}

/// A change of a worker's cache.
#[derive(Debug, Clone, PartialEq, Eq)]
pub enum KvData {
    Stored { parent_block_hash: Option<i64>, blocks: Vec<KvBlock> },
    Removed { block_hashes: Vec<i64> },
    Cleared,
}

#[derive(Debug, Clone, PartialEq, Eq)]
pub struct KvCacheEvent {
    pub event_id: u64,
    pub data: Option<KvData>,
}

/// Changes of a worker's cache that belong together.
#[derive(Debug, Clone, PartialEq, Eq)]
pub struct KvEventBatch {
    pub sequence_number: u64,
    pub events: Vec<KvCacheEvent>,
}

/// A keyspace without its allocations.
pub struct KeyspaceView {
    pub model: Seq<char>,
    pub symbol_kind: i32,
    pub block_size: u32,
    pub hash_scheme: u32,
}

impl View for Keyspace {
    type V = KeyspaceView;

    open spec fn view(&self) -> KeyspaceView {
        KeyspaceView {
            model: self.model@,
            symbol_kind: self.symbol_kind,
            block_size: self.block_size,
            hash_scheme: self.hash_scheme,
        }
    }
}

/// An event without its allocations.
pub enum EventView {
    Empty,
    Stored(Option<u64>, Seq<Block>),
    Removed(Seq<u64>),
    Cleared(bool),
    Digest(StoredDigest),
}

impl View for Event {
    type V = EventView;

    open spec fn view(&self) -> EventView {
        match self.kind {
            None => EventView::Empty,
            Some(EventKind::Stored { parent_seq_hash, blocks }) => EventView::Stored(
                parent_seq_hash,
                blocks@,
            ),
            Some(EventKind::Removed { seq_hashes }) => EventView::Removed(seq_hashes@),
            Some(EventKind::Cleared(all)) => EventView::Cleared(all),
            Some(EventKind::Digest(digest)) => EventView::Digest(digest),
        }
    }
}

/// Events without their allocations.
pub open spec fn event_views(events: Seq<Event>) -> Seq<EventView> {
    events.map_values(|e: Event| e@)
}

/// An update without its allocations.
pub struct UpdateView {
    pub keyspace: Option<KeyspaceView>,
    pub holder: Seq<char>,
    pub epoch: u64,
    pub seq: u64,
    pub events: Seq<EventView>,
    pub added: Option<Added>,
    pub dropped: bool,
}

impl View for Update {
    type V = UpdateView;

    open spec fn view(&self) -> UpdateView {
        UpdateView {
            keyspace: match self.keyspace {
                None => None,
                Some(k) => Some(k@),
            },
            holder: self.holder@,
            epoch: self.epoch,
            seq: self.seq,
            events: event_views(self.events@),
            added: self.added,
            dropped: self.dropped,
        }
    }
}

fn copy_keyspace(k: &Keyspace) -> (r: Keyspace)
    ensures
        r@ == k@,
{
    Keyspace {
        model: k.model.clone(),
        symbol_kind: k.symbol_kind,
        block_size: k.block_size,
        hash_scheme: k.hash_scheme,
    }
}

/// A copy of an optional keyspace.
pub(crate) fn copy_optional_keyspace(k: &Option<Keyspace>) -> (r: Option<Keyspace>)
    ensures
        k is None ==> r is None,
        k is Some ==> r is Some && r->0@ == k->0@,
{
    match k {
        None => None,
        Some(k) => Some(copy_keyspace(k)),
    }
}

fn copy_blocks(blocks: &Vec<Block>) -> (r: Vec<Block>)
    ensures
        r@ == blocks@,
{
    let mut out: Vec<Block> = Vec::new();
    let mut i: usize = 0;
    while i < blocks.len()
        invariant
            i <= blocks@.len(),
            out@ == blocks@.take(i as int),
        decreases blocks@.len() - i,
    {
        out.push(blocks[i]);
        i = i + 1;
        assert(out@ =~= blocks@.take(i as int));
    }
    assert(out@ =~= blocks@);
    out
}

fn copy_hashes(hashes: &Vec<u64>) -> (r: Vec<u64>)
    ensures
        r@ == hashes@,
{
    let mut out: Vec<u64> = Vec::new();
    let mut i: usize = 0;
    while i < hashes.len()
        invariant
            i <= hashes@.len(),
            out@ == hashes@.take(i as int),
        decreases hashes@.len() - i,
    {
        out.push(hashes[i]);
        i = i + 1;
        assert(out@ =~= hashes@.take(i as int));
    }
    assert(out@ =~= hashes@);
    out
}

fn copy_event(event: &Event) -> (r: Event)
    ensures
        r@ == event@,
{
    let kind = match &event.kind {
        None => None,
        Some(EventKind::Stored { parent_seq_hash, blocks }) => Some(
            EventKind::Stored { parent_seq_hash: *parent_seq_hash, blocks: copy_blocks(blocks) },
        ),
        Some(EventKind::Removed { seq_hashes }) => Some(
            EventKind::Removed { seq_hashes: copy_hashes(seq_hashes) },
        ),
        Some(EventKind::Cleared(all)) => Some(EventKind::Cleared(*all)),
        Some(EventKind::Digest(digest)) => Some(EventKind::Digest(*digest)),
    };
    Event { kind }
}

/// A copy of an update.
pub(crate) fn copy_update(update: &Update) -> (r: Update)
    ensures
        r@ == update@,
{
    let mut events: Vec<Event> = Vec::new();
    let mut i: usize = 0;
    while i < update.events.len()
        invariant
            i <= update.events@.len(),
            event_views(events@) == event_views(update.events@.take(i as int)),
        decreases update.events@.len() - i,
    {
        let ghost was = events@;
        let event = copy_event(&update.events[i]);
        events.push(event);
        proof {
            assert(event_views(events@) =~= event_views(was).push(event@));
            assert(event_views(update.events@.take(i + 1)) =~= event_views(
                update.events@.take(i as int),
            ).push(update.events@[i as int]@));
        }
        i = i + 1;
    }
    proof {
        assert(update.events@.take(i as int) =~= update.events@);
    }
    Update {
        keyspace: copy_optional_keyspace(&update.keyspace),
        holder: update.holder.clone(),
        epoch: update.epoch,
        seq: update.seq,
        events,
        added: update.added,
        dropped: update.dropped,
    }
}

} // verus!
