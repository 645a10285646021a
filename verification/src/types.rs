//! Vocabulary shared by both index cores.

use vstd::prelude::*;

verus! {

/// Position-independent content identity: the currency of matching.
pub type ContentHash = u64;

/// The publisher's removal key for a block. Opaque to matching.
pub type BlockKey = u64;

/// Generational holder id. An id whose holder was retired no longer names a
/// live holder, even after its slot was handed out again.
#[derive(Debug, Clone, Copy, PartialEq, Eq, Hash, Structural)]
pub struct HolderId {
    pub(crate) index: u32,
    pub(crate) generation: u64,
}

impl HolderId {
    /// The slot index.
    pub closed spec fn slot(self) -> u32 {
        self.index
    }

    /// The generation of the slot that the id was issued for.
    pub closed spec fn issue(self) -> u64 {
        self.generation
    }

    /// Raw (index, generation), for callers that keep side tables by holder.
    pub fn parts(self) -> (r: (u32, u64))
        ensures
            r == (self.slot(), self.issue()),
    {
        (self.index, self.generation)
    }

    /// The id with the given index and generation.
    pub(crate) fn assemble(index: u32, generation: u64) -> (r: HolderId)
        ensures
            r.slot() == index,
            r.issue() == generation,
    {
        HolderId { index, generation }
    }
}

/// Two ids with the same parts are the same id.
pub proof fn id_is_its_parts(a: HolderId, b: HolderId)
    requires
        a.slot() == b.slot(),
        a.issue() == b.issue(),
    ensures
        a == b,
{
}

/// Any two parts make an id.
pub(crate) proof fn id_of_parts(slot: u32, issue: u64) -> (id: HolderId)
    ensures
        id.slot() == slot,
        id.issue() == issue,
{
    HolderId { index: slot, generation: issue }
}

/// The parts of an id.
pub(crate) proof fn parts_of(id: HolderId)
    ensures
        id.slot() == id.index,
        id.issue() == id.generation,
{
}

/// Limits of one index instance.
#[derive(Debug, Clone, Copy)]
pub struct Config {
    /// Hard bound on chain length; a store extending past it is rejected whole.
    pub max_chain_len: u32,
}

impl Default for Config {
    fn default() -> (r: Config)
        ensures
            r.max_chain_len == 65_536,
    {
        Config { max_chain_len: 65_536 }
    }
}

/// What a store did, block by block.
#[derive(Debug, Clone, Copy, PartialEq, Eq, Structural)]
pub struct StoreOutcome {
    /// Blocks newly placed.
    pub applied: u32,
    /// Blocks that the holder already held in that place.
    pub duplicates: u32,
}

/// Why a store was rejected. A rejected store has no effect.
#[derive(Debug, Clone, Copy, PartialEq, Eq, Structural)]
pub enum StoreError {
    /// Unknown or stale holder id.
    UnknownHolder,
    /// The parent key is not registered with the holder. The only error whose
    /// recovery is to anchor the batch at position 0.
    ParentNotFound,
    /// The batch would extend past `max_chain_len`. Terminal for the batch.
    ChainTooLong,
}

/// One row of a query's answer.
#[derive(Debug, Clone, Copy, PartialEq, Eq, Structural)]
pub struct Overlap {
    pub holder: HolderId,
    /// How many leading blocks of the queried chain the holder holds.
    pub depth: u32,
    /// How many blocks the holder holds in all.
    pub total_blocks: u64,
}

/// Size of an index.
#[derive(Debug, Clone, Copy, PartialEq, Eq, Structural)]
pub struct Stats {
    pub holders: u64,
    /// Sum of the holders' block counts.
    pub holder_blocks: u64,
    /// Distinct placements that at least one holder holds.
    pub distinct_entries: u64,
    /// Rough resident size in bytes.
    pub bytes_estimate: u64,
}

impl Default for Stats {
    fn default() -> (r: Stats)
        ensures
            r == (Stats { holders: 0, holder_blocks: 0, distinct_entries: 0, bytes_estimate: 0 }),
    {
        Stats { holders: 0, holder_blocks: 0, distinct_entries: 0, bytes_estimate: 0 }
    }
}

/// `n` where a `u64` can hold it, and the greatest `u64` otherwise.
pub open spec fn clamp(n: nat) -> u64 {
    if n <= u64::MAX {
        n as u64
    } else {
        u64::MAX
    }
}

/// A counter as a `u64`.
pub(crate) fn clamped(n: u128) -> (r: u64)
    ensures
        r == clamp(n as nat),
{
    if n <= u64::MAX as u128 {
        n as u64
    } else {
        u64::MAX
    }
}

} // verus!
