//! Membership: what the nodes know of one another, and how they tell.
pub mod laws;
pub mod message;
pub mod protocol;
pub mod round_laws;
pub mod server;
pub mod state;
