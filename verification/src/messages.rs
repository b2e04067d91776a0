//! The requests and responses of the cache service.
use vstd::prelude::*;
use vstd::slice::slice_to_vec;
use crate::node::{hyphenated, NodeId};

verus! {

#[derive(Debug)]
pub struct SetRequest {
    pub key: String,
    pub value: Vec<u8>,
    pub ttl_ms: Option<u64>,
}

impl SetRequest {
    /// Asks a node to set a key.
    pub fn new(key: &str, value: &[u8], ttl_ms: Option<u64>) -> (req: Self)
        ensures
            req.key@ == key@,
            req.value@ == value@,
            req.ttl_ms == ttl_ms,
    {
        SetRequest { key: key.to_string(), value: slice_to_vec(value), ttl_ms }
    }
}

#[derive(Debug)]
pub struct SetResponse {
    pub success: bool,
}

#[derive(Debug)]
pub struct GetRequest {
    pub key: String,
}

impl GetRequest {
    /// Asks a node for a key.
    pub fn new(key: &str) -> (req: Self)
        ensures
            req.key@ == key@,
    {
        GetRequest { key: key.to_string() }
    }
}

#[derive(Debug)]
pub struct GetResponse {
    pub value: Option<Vec<u8>>,
    pub found: bool,
}

#[derive(Debug)]
pub struct DeleteRequest {
    pub key: String,
}

impl DeleteRequest {
    /// Asks a node to delete a key.
    pub fn new(key: &str) -> (req: Self)
        ensures
            req.key@ == key@,
    {
        DeleteRequest { key: key.to_string() }
    }
}

#[derive(Debug)]
pub struct DeleteResponse {
    pub deleted: bool,
}

/// Asks a node whether it is there.
#[derive(Debug)]
pub struct HeartbeatRequest {
    pub node_id: String,
}

impl HeartbeatRequest {
    /// Asks the node with the identity.
    pub fn new(node_id: &NodeId) -> (req: Self)
        ensures
            req.node_id@ == hyphenated(node_id.0),
    {
        HeartbeatRequest { node_id: node_id.to_string() }
    }
}

#[derive(Debug)]
pub struct HeartbeatResponse {
    pub ok: bool,
}

#[derive(Debug)]
pub struct ReplicateRequest {
    pub key: String,
    pub value: Vec<u8>,
    pub ttl_ms: Option<u64>,
}

#[derive(Debug)]
pub struct ReplicateResponse {
    pub success: bool,
}

/// Asks a node for the keys that another is to take over.
#[derive(Debug)]
pub struct TransferRequest {
    pub target_node_id: String,
    pub key_prefixes: Vec<String>,
}

/// One key on its way to another node. `expires_at_ms` is the time left to it.
#[derive(Debug)]
pub struct TransferChunk {
    pub key: String,
    pub value: Vec<u8>,
    pub expires_at_ms: Option<u64>,
}

} // verus!
