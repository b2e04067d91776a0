//! The cluster that a router is configured with.
use vstd::prelude::*;
use crate::node::{uuid_parsed, NodeId, NodeInfo};

verus! {

#[derive(Debug)]
pub struct ClusterConfig {
    pub nodes: Vec<NodeConfigEntry>,
}

#[derive(Debug)]
pub struct NodeConfigEntry {
    pub id: String,  // UUID string
    pub addr: String,  // host:port
}

impl Clone for NodeConfigEntry {
    fn clone(&self) -> (copy: Self)
        ensures
            copy.id@ == self.id@,
            copy.addr@ == self.addr@,
    {
        NodeConfigEntry { id: self.id.clone(), addr: self.addr.clone() }
    }
}

impl Clone for ClusterConfig {
    fn clone(&self) -> (copy: Self)
        ensures
            copy.nodes@.len() == self.nodes@.len(),
            forall|i: int|
                0 <= i < self.nodes@.len() ==> (#[trigger] copy.nodes@[i]).id@ == self.nodes@[i].id@
                    && copy.nodes@[i].addr@ == self.nodes@[i].addr@,
    {
        let mut nodes: Vec<NodeConfigEntry> = Vec::new();
        let mut i: usize = 0;
        while i < self.nodes.len()
            invariant
                i <= self.nodes@.len(),
                nodes@.len() == i,
                forall|k: int|
                    0 <= k < i ==> (#[trigger] nodes@[k]).id@ == self.nodes@[k].id@ && nodes@[k].addr@
                        == self.nodes@[k].addr@,
            decreases self.nodes@.len() - i,
        {
            nodes.push(self.nodes[i].clone());
            i += 1;
        }
        ClusterConfig { nodes }
    }
}

impl ClusterConfig {
    /// Every identity is a UUID.
    pub open spec fn valid(&self) -> bool {
        forall|i: int| 0 <= i < self.nodes@.len() ==> uuid_parsed((#[trigger] self.nodes@[i]).id@) is Ok
    }

    /// The nodes, in their order.
    pub open spec fn describes(&self, infos: Seq<NodeInfo>) -> bool {
        &&& infos.len() == self.nodes@.len()
        &&& forall|i: int|
            0 <= i < infos.len() ==> {
                &&& uuid_parsed(self.nodes@[i].id@) == Ok::<u128, Seq<char>>((#[trigger] infos[i]).id.0)
                &&& infos[i].addr@ == self.nodes@[i].addr@
            }
    }

    /// The nodes of a configuration in which every identity is a UUID.
    pub fn to_node_infos(&self) -> (infos: Vec<NodeInfo>)
        requires
            self.valid(),
        ensures
            self.describes(infos@),
    {
        let mut infos: Vec<NodeInfo> = Vec::new();
        let mut i: usize = 0;
        while i < self.nodes.len()
            invariant
                i <= self.nodes@.len(),
                self.valid(),
                infos@.len() == i,
                forall|k: int|
                    0 <= k < infos@.len() ==> {
                        &&& uuid_parsed(self.nodes@[k].id@) == Ok::<u128, Seq<char>>((#[trigger] infos@[k]).id.0)
                        &&& infos@[k].addr@ == self.nodes@[k].addr@
                    },
            decreases self.nodes@.len() - i,
        {
            let n = &self.nodes[i];
            assert(uuid_parsed(self.nodes@[i as int].id@) is Ok);
            if let Ok(id) = NodeId::parse(n.id.as_str()) {
                infos.push(NodeInfo { id, addr: n.addr.clone() });
            }
            i += 1;
        }
        infos
    }

    /// The nodes of a configuration, or `None` if an identity is no UUID.
    pub fn checked_node_infos(&self) -> (infos: Option<Vec<NodeInfo>>)
        ensures
            match infos {
                Some(infos) => self.valid() && self.describes(infos@),
                None => !self.valid(),
            },
    {
        let mut i: usize = 0;
        while i < self.nodes.len()
            invariant
                i <= self.nodes@.len(),
                forall|k: int| 0 <= k < i ==> uuid_parsed((#[trigger] self.nodes@[k]).id@) is Ok,
            decreases self.nodes@.len() - i,
        {
            if NodeId::parse(self.nodes[i].id.as_str()).is_err() {
                assert(uuid_parsed(self.nodes@[i as int].id@) is Err);
                return None;
            }
            i += 1;
        }
        Some(self.to_node_infos())
    }
}

/// A configuration is valid exactly if every identity is a UUID; its nodes are then those of the list,
/// in its order, with these identities and the addresses that stand there.
pub proof fn lemma_configured(config: ClusterConfig, infos: Seq<NodeInfo>)
    ensures
        config.valid() <==> forall|i: int|
            0 <= i < config.nodes@.len() ==> uuid_parsed((#[trigger] config.nodes@[i]).id@) is Ok,
        config.describes(infos) ==> infos.len() == config.nodes@.len() && forall|i: int|
            0 <= i < infos.len() ==> uuid_parsed(config.nodes@[i].id@) == Ok::<u128, Seq<char>>(
                (#[trigger] infos[i]).id.0,
            ) && infos[i].addr@ == config.nodes@[i].addr@,
{
}

} // verus!
