//! Mock inference workers: what they answer, and the cache that they pretend to
//! have.

pub mod accounts;
pub mod arguments;
pub mod config;
pub mod grpc;
pub mod hash;
pub mod http;
pub mod kv;
pub mod laws;
pub mod lru;
pub mod replies;
pub mod sim;
