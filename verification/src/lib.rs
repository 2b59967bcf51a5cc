//! Range sync: downloading a chain of blocks, batch by batch, from the peers that know it.
pub mod batch;
pub mod chain;
pub mod effects;
pub mod laws;
pub mod model;
pub mod peer_pool;
mod random;
pub mod types;
