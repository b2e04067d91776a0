//! Writing to, reading from and deleting on the replicas of a key.
pub mod config;
pub mod coordinator;
pub mod laws;
