//! Load on a gateway: sessions of one or two turns, and what comes back.

pub mod documents;
pub mod exchanges;
pub mod report;
pub mod session;
pub mod sse;
pub mod tallies;
