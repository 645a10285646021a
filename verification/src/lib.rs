//! Prefix-membership index over content-addressed block chains, and what lives
//! around it.
//!
//! Holders publish chains of content-addressed blocks; the index answers
//! which holders hold the longest prefix of a given chain, and how deep. The
//! trees are in [`flat`] and [`core3`], the index service's engine in
//! [`engine`], the way from workers into it in [`bridge`]. [`mock`] has workers
//! that pretend, [`loadgen`] and [`bench`] load on gateways and on the index,
//! [`inference`], [`gateway`] and [`control`] what routers and workers say to
//! each other.
//!
//! What holds of all of it, whatever comes in, stands beside it: of the trees in
//! [`laws`] and [`tree_laws`], of the engine in [`effects`], [`engine_laws`],
//! [`replicas`] and [`bootstrap`], of the way into it in [`bridge_laws`], and of the
//! rest in [`control_laws`], [`bench_laws`] and the modules next to each part.

pub mod agreement;
pub mod bench;
pub mod bench_laws;
pub mod bootstrap;
pub mod bridge;
pub mod bridge_laws;
pub mod chunks;
pub mod control;
pub mod control_laws;
pub mod core3;
pub mod effects;
pub mod engine;
pub mod engine_laws;
pub mod flat;
pub mod forest;
pub mod fx;
pub mod gateway;
pub mod holders;
pub mod inference;
pub mod json;
pub mod laws;
pub mod lineage;
pub mod loadgen;
mod membership;
mod merge;
pub mod mock;
pub mod model;
pub mod placements;
pub mod proto;
pub mod replicas;
pub mod snapshots;
pub mod sorted;
mod spans;
pub mod status;
pub mod text;
pub mod tree_laws;
mod trie;
pub mod types;
pub mod wire_hash;

pub use core3::OverlapScratch;
pub use core3::RadixTree3;
pub use engine::Engine;
pub use engine::EngineConfig;
pub use flat::RadixTree;
pub use types::BlockKey;
pub use types::Config;
pub use types::HolderId;
pub use types::Overlap;
pub use types::Stats;
pub use types::StoreError;
pub use types::StoreOutcome;
pub use wire_hash::ContentHash;
pub use wire_hash::SequenceHash;
