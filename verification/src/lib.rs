//! A distributed cache that heals itself: nodes that store, gossip and rebalance, and a
//! router in front of them.
pub mod cache;
pub mod chance;
pub mod clock;
pub mod cluster;
pub mod connection;
pub mod connection_laws;
pub mod gossip;
pub mod hashring;
pub mod health;
pub mod load;
pub mod messages;
pub mod node;
pub mod observer;
pub mod rebalance;
pub mod replication;
pub mod resp;
pub mod router;
pub mod seeds;
pub mod service;
pub mod text;
pub mod utf8;
