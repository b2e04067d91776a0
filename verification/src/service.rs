//! The cache service of a node.
use vstd::prelude::*;
use dashmap::DashSet;
use crate::cache::blob::{bytes_from, bytes_to_vec};
use crate::cache::store::{after_read, read, stored, transfers, CacheStore, Transfer};
use crate::cache::map::Contents;
use crate::cache::tombstones::{set_content, set_insert, set_new};
use crate::clock::{millis, MAX_NANOS, NANOS_PER_MILLI};
use crate::gossip::laws::lemma_initial;
use crate::gossip::state::{initial, MemberStatus, MembershipTable};
use crate::messages::{
    DeleteRequest, DeleteResponse, GetRequest, GetResponse, HeartbeatResponse, ReplicateRequest, ReplicateResponse,
    SetRequest, SetResponse, TransferChunk,
};
use crate::node::{node_views, NodeId, NodeInfo};

verus! {

/// Why a node does not do what it is asked for.
#[derive(Debug, Clone, Copy, PartialEq, Eq, Structural)]
pub enum ServiceError {
    /// The node is joining and takes no writes yet.
    Unavailable,
}

impl ServiceError {
    /// What to tell the client.
    pub fn message(self) -> (s: String)
        ensures
            s@ == "node is joining and does not accept writes"@,
    {
        "node is joining and does not accept writes".to_string()
    }
}

/// A time to live of so many milliseconds, in nanoseconds.
pub open spec fn ttl_nanos(ttl_ms: Option<u64>) -> Option<u128> {
    match ttl_ms {
        Some(ms) => Some((ms * NANOS_PER_MILLI) as u128),
        None => None,
    }
}

pub open spec fn value_view(value: Option<Vec<u8>>) -> Option<Seq<u8>> {
    match value {
        Some(v) => Some(v@),
        None => None,
    }
}

pub open spec fn as_transfers(chunks: Seq<TransferChunk>) -> Seq<Transfer> {
    chunks.map_values(|c: TransferChunk| (c.key, c.value, c.expires_at_ms))
}

/// A node: its store, what it knows of the cluster, and the keys that were deleted while it
/// joined.
pub struct CacheServiceImpl {
    pub store: CacheStore,
    pub membership_table: MembershipTable,
    pub tombstones: DashSet<String>,
}

impl CacheServiceImpl {
    pub open spec fn wf(&self) -> bool {
        self.membership_table.wf()
    }

    /// The node is joining.
    pub open spec fn joining(&self) -> bool {
        self.membership_table@[self.membership_table.local()].status == MemberStatus::Joining
    }

    pub fn new(store: CacheStore, membership_table: MembershipTable, tombstones: DashSet<String>) -> (node: Self)
        ensures
            node.store == store,
            node.membership_table == membership_table,
            node.tombstones == tombstones,
    {
        Self { store, membership_table, tombstones }
    }

    /// A node that starts: it holds nothing, knows itself and the seeds, and is joining if there
    /// are any.
    pub fn start(local_id: NodeId, seed_nodes: Vec<NodeInfo>) -> (node: Self)
        ensures
            node.wf(),
            node.store@ == Contents::empty(),
            set_content(node.tombstones) == Set::<Seq<char>>::empty(),
            node.membership_table.local() == local_id.0,
            exists|now: u128|
                now <= MAX_NANOS && node.membership_table.spec_clock().shows(now) && node.membership_table@ == #[trigger] initial(
                    local_id.0,
                    node_views(seed_nodes@),
                    now,
                ),
            node.joining() <==> seed_nodes@.len() > 0,
    {
        let node = Self::new(CacheStore::new(), MembershipTable::new(local_id, seed_nodes), set_new());
        proof {
            let seeds = node_views(seed_nodes@);
            let now = choose|now: u128|
                now <= MAX_NANOS && node.membership_table.spec_clock().shows(now) && node.membership_table@ == #[trigger] initial(local_id.0, seeds, now);
            lemma_initial(local_id.0, seeds, now);
        }
        node
    }

    fn write(&mut self, key: String, value: Vec<u8>, ttl_ms: Option<u64>, now: u128) -> (done: Result<(), ServiceError>)
        requires
            old(self).wf(),
            now <= MAX_NANOS,
        ensures
            match done {
                Ok(()) => {
                    &&& !old(self).joining()
                    &&& final(self).store@ == stored(old(self).store@, key@, value@, ttl_nanos(ttl_ms), now)
                },
                Err(e) => {
                    &&& old(self).joining()
                    &&& e == ServiceError::Unavailable
                    &&& final(self).store@ == old(self).store@
                },
            },
            final(self).membership_table == old(self).membership_table,
            final(self).tombstones == old(self).tombstones,
    {
        if self.membership_table.is_self_joining() {
            return Err(ServiceError::Unavailable);
        }
        let ttl = match ttl_ms {
            Some(ms) => Some(millis(ms)),
            None => None,
        };
        self.store.set_at(key, bytes_from(value), ttl, now);
        Ok(())
    }

    /// Sets a key, at a given time. A node that is joining refuses.
    pub fn set_at(&mut self, req: SetRequest, now: u128) -> (r: Result<SetResponse, ServiceError>)
        requires
            old(self).wf(),
            now <= MAX_NANOS,
        ensures
            match r {
                Ok(reply) => {
                    &&& !old(self).joining()
                    &&& reply.success
                    &&& final(self).store@ == stored(
                        old(self).store@,
                        req.key@,
                        req.value@,
                        ttl_nanos(req.ttl_ms),
                        now,
                    )
                },
                Err(e) => {
                    &&& old(self).joining()
                    &&& e == ServiceError::Unavailable
                    &&& final(self).store@ == old(self).store@
                },
            },
            final(self).membership_table == old(self).membership_table,
            final(self).tombstones == old(self).tombstones,
    {
        match self.write(req.key, req.value, req.ttl_ms, now) {
            Ok(()) => Ok(SetResponse { success: true }),
            Err(e) => Err(e),
        }
    }

    /// Sets a key. A node that is joining refuses.
    pub fn set(&mut self, req: SetRequest) -> (r: Result<SetResponse, ServiceError>)
        requires
            old(self).wf(),
        ensures
            match r {
                Ok(reply) => {
                    &&& !old(self).joining()
                    &&& reply.success
                    &&& exists|now: u128|
                        now <= MAX_NANOS && old(self).store.spec_clock().shows(now) && #[trigger] stored(
                            old(self).store@,
                            req.key@,
                            req.value@,
                            ttl_nanos(req.ttl_ms),
                            now,
                        ) == final(self).store@
                },
                Err(e) => {
                    &&& old(self).joining()
                    &&& e == ServiceError::Unavailable
                    &&& final(self).store@ == old(self).store@
                },
            },
            final(self).membership_table == old(self).membership_table,
            final(self).tombstones == old(self).tombstones,
    {
        let now = self.store.now();
        self.set_at(req, now)
    }

    /// Takes in a write that another node handled first, at a given time. A node that is
    /// joining refuses.
    pub fn replicate_write_at(&mut self, req: ReplicateRequest, now: u128) -> (r: Result<ReplicateResponse, ServiceError>)
        requires
            old(self).wf(),
            now <= MAX_NANOS,
        ensures
            match r {
                Ok(reply) => {
                    &&& !old(self).joining()
                    &&& reply.success
                    &&& final(self).store@ == stored(
                        old(self).store@,
                        req.key@,
                        req.value@,
                        ttl_nanos(req.ttl_ms),
                        now,
                    )
                },
                Err(e) => {
                    &&& old(self).joining()
                    &&& e == ServiceError::Unavailable
                    &&& final(self).store@ == old(self).store@
                },
            },
            final(self).membership_table == old(self).membership_table,
            final(self).tombstones == old(self).tombstones,
    {
        match self.write(req.key, req.value, req.ttl_ms, now) {
            Ok(()) => Ok(ReplicateResponse { success: true }),
            Err(e) => Err(e),
        }
    }

    /// Takes in a write that another node handled first. A node that is joining refuses.
    pub fn replicate_write(&mut self, req: ReplicateRequest) -> (r: Result<ReplicateResponse, ServiceError>)
        requires
            old(self).wf(),
        ensures
            match r {
                Ok(reply) => {
                    &&& !old(self).joining()
                    &&& reply.success
                    &&& exists|now: u128|
                        now <= MAX_NANOS && old(self).store.spec_clock().shows(now) && #[trigger] stored(
                            old(self).store@,
                            req.key@,
                            req.value@,
                            ttl_nanos(req.ttl_ms),
                            now,
                        ) == final(self).store@
                },
                Err(e) => {
                    &&& old(self).joining()
                    &&& e == ServiceError::Unavailable
                    &&& final(self).store@ == old(self).store@
                },
            },
            final(self).membership_table == old(self).membership_table,
            final(self).tombstones == old(self).tombstones,
    {
        let now = self.store.now();
        self.replicate_write_at(req, now)
    }

    /// Reads a key, at a given time.
    pub fn get_at(&mut self, req: &GetRequest, now: u128) -> (reply: GetResponse)
        ensures
            value_view(reply.value) == read(old(self).store@, req.key@, now),
            reply.found == (reply.value is Some),
            final(self).store@ == after_read(old(self).store@, req.key@, now),
            final(self).membership_table == old(self).membership_table,
            final(self).tombstones == old(self).tombstones,
    {
        match self.store.get_at(req.key.as_str(), now) {
            Some(value) => GetResponse { value: Some(bytes_to_vec(&value)), found: true },
            None => GetResponse { value: None, found: false },
        }
    }

    /// Reads a key.
    pub fn get(&mut self, req: &GetRequest) -> (reply: GetResponse)
        ensures
            reply.found == (reply.value is Some),
            exists|now: u128|
                now <= MAX_NANOS && old(self).store.spec_clock().shows(now) && #[trigger] read(old(self).store@, req.key@, now) == value_view(reply.value)
                    && final(self).store@ == after_read(old(self).store@, req.key@, now),
            final(self).membership_table == old(self).membership_table,
            final(self).tombstones == old(self).tombstones,
    {
        let now = self.store.now();
        self.get_at(req, now)
    }

    /// Deletes a key. A node that is joining remembers it, so that a transfer that is under
    /// way does not bring the key back.
    pub fn delete(&mut self, req: DeleteRequest) -> (reply: DeleteResponse)
        requires
            old(self).wf(),
        ensures
            reply.deleted == old(self).store@.contains_key(req.key@),
            final(self).store@ == old(self).store@.remove(req.key@),
            set_content(final(self).tombstones) == (if old(self).joining() {
                set_content(old(self).tombstones).insert(req.key@)
            } else {
                set_content(old(self).tombstones)
            }),
            final(self).membership_table == old(self).membership_table,
    {
        let deleted = self.store.delete(req.key.as_str());
        if self.membership_table.is_self_joining() {
            set_insert(&mut self.tombstones, req.key);
        }
        DeleteResponse { deleted }
    }

    /// Tells that the node is there.
    pub fn heartbeat(&self) -> (reply: HeartbeatResponse)
        ensures
            reply.ok,
    {
        HeartbeatResponse { ok: true }
    }

    /// Every key that has not expired at a given time, for a node that joins.
    pub fn transfer_keys_at(&self, now: u128) -> (chunks: Vec<TransferChunk>)
        ensures
            transfers(as_transfers(chunks@), self.store@, now),
    {
        // Collect all non-expired entries for transfer.
        let entries = self.store.entries_for_transfer_at(now);
        let ghost all = entries@;
        let mut chunks: Vec<TransferChunk> = Vec::new();
        for entry in it: entries
            invariant
                it.seq() == all,
                chunks@.len() == it.index(),
                forall|k: int| 0 <= k < chunks@.len() ==> as_transfers(chunks@)[k] == #[trigger] all[k],
        {
            let (key, value, expires_at_ms) = entry;
            chunks.push(TransferChunk { key, value, expires_at_ms });
        }
        assert(as_transfers(chunks@) =~= all);
        chunks
    }

    /// Every key that has not expired, for a node that joins.
    pub fn transfer_keys(&self) -> (chunks: Vec<TransferChunk>)
        ensures
            exists|now: u128|
                now <= MAX_NANOS && self.store.spec_clock().shows(now) && #[trigger] transfers(
                    as_transfers(chunks@),
                    self.store@,
                    now,
                ),
    {
        let now = self.store.now();
        self.transfer_keys_at(now)
    }
}

/// A write with so many milliseconds to live can be read for so long, and one without for good.
pub proof fn lemma_write_lives(m: Contents, key: Seq<char>, value: Seq<u8>, ttl_ms: Option<u64>, set_at: u128, now: u128)
    requires
        set_at <= MAX_NANOS,
    ensures
        read(stored(m, key, value, ttl_nanos(ttl_ms), set_at), key, now) == (match ttl_ms {
            Some(ms) => if now < set_at + ms * 1_000_000 {
                Some(value)
            } else {
                None
            },
            None => Some(value),
        }),
{
    if let Some(ms) = ttl_ms {
        assert(0 <= ms * 1_000_000 <= MAX_NANOS) by (nonlinear_arith)
            requires
                0 <= ms <= u64::MAX,
                MAX_NANOS == 18_446_744_073_709_551_615_999_999_999,
        ;
    }
}

/// A node is joining exactly while its own entry says so.
pub proof fn lemma_joining(node: CacheServiceImpl)
    ensures
        node.joining() <==> node.membership_table@[node.membership_table.local()].status == MemberStatus::Joining,
{
}

/// A chunk carries its key, its value and the time left.
pub proof fn lemma_chunks(chunks: Seq<TransferChunk>, i: int)
    requires
        0 <= i < chunks.len(),
    ensures
        as_transfers(chunks).len() == chunks.len(),
        as_transfers(chunks)[i].0@ == chunks[i].key@,
        as_transfers(chunks)[i].1@ == chunks[i].value@,
        as_transfers(chunks)[i].2 == chunks[i].expires_at_ms,
{
}

/// A value that is replied is known by its bytes.
pub proof fn lemma_value(value: Vec<u8>)
    ensures
        value_view(Some(value)) == Some(value@),
        value_view(None) is None,
{
}

} // verus!
