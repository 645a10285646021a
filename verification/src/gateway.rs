//! How a gateway reaches its workers.

pub mod detect;
pub mod laws;
pub mod transport;
