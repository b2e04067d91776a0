//! Where the router sends a request.
use vstd::prelude::*;
use crate::hashring::{node_with, HashRing};
use crate::health::HealthMonitor;
use crate::messages::{DeleteRequest, GetRequest, SetRequest};
use crate::node::NodeId;
use crate::replication::coordinator::{
    places, set_asked, CoordinatorError, DeleteRun, GetRun, ReplicationCoordinator, SetAsked, SetRun,
};

verus! {

/// Why a request is not sent.
#[derive(Debug, Clone, Copy, PartialEq, Eq, Structural)]
pub enum RouteError {
    TargetNotFound,
    NoTarget,
    Coordinator(CoordinatorError),
}

impl RouteError {
    pub fn message(self) -> (s: String)
        ensures
            self is TargetNotFound ==> s@ == "target node not found in ring"@,
            self is NoTarget ==> s@ == "resolve_addr called without target"@,
            self matches RouteError::Coordinator(e) ==> s@ == match e {
                CoordinatorError::NoNodesForWrite => "No alive nodes available for write"@,
                CoordinatorError::NoNodesForRead => "No alive nodes available for read"@,
                CoordinatorError::NoNodesForDelete => "No alive nodes available for delete"@,
                CoordinatorError::PrimaryWriteFailed => "Primary write failed"@,
            },
    {
        match self {
            RouteError::TargetNotFound => "target node not found in ring".to_string(),
            RouteError::NoTarget => "resolve_addr called without target".to_string(),
            RouteError::Coordinator(e) => e.message(),
        }
    }
}

/// How a request is handled: sent to one node alone, or by the replicas of its key.
pub enum Route<Q, R> {
    Direct { addr: String, request: Q },
    Replicated(R),
}

/// The state of a router.
pub struct Router {
    pub hash_ring: HashRing,
    pub health_monitor: HealthMonitor,
    pub coordinator: ReplicationCoordinator,
}

impl Router {
    pub open spec fn wf(&self) -> bool {
        self.hash_ring.wf() && self.coordinator.wf()
    }

    pub open spec fn targets(&self, key: Seq<char>) -> Seq<u128> {
        self.coordinator.targets(self.hash_ring, self.health_monitor, key)
    }

    pub fn new(hash_ring: HashRing, health_monitor: HealthMonitor, coordinator: ReplicationCoordinator) -> (router: Self)
        ensures
            router.hash_ring == hash_ring,
            router.health_monitor == health_monitor,
            router.coordinator == coordinator,
    {
        Self { hash_ring, health_monitor, coordinator }
    }

    /// Resolve the address for a key using an explicit target override
    pub fn resolve_addr(&self, target: Option<&NodeId>) -> (addr: Result<String, RouteError>)
        ensures
            match addr {
                Ok(a) => target matches Some(id) && node_with(self.hash_ring.node_list(), id.0) matches Some(n)
                    && n.addr == a@,
                Err(e) => match target {
                    Some(id) => e == RouteError::TargetNotFound && node_with(self.hash_ring.node_list(), id.0) is None,
                    None => e == RouteError::NoTarget,
                },
            },
    {
        match target {
            None => Err(RouteError::NoTarget),
            Some(id) => match self.hash_ring.find_node(id.0) {
                Some(node) => Ok(node.addr.clone()),
                None => Err(RouteError::TargetNotFound),
            },
        }
    }

    /// Route a Set request: use replication coordinator unless an explicit target is given
    pub fn set(
        &self,
        key: &str,
        value: &[u8],
        ttl_ms: Option<u64>,
        target: Option<&NodeId>,
    ) -> (r: Result<Route<SetRequest, SetRun>, RouteError>)
        requires
            self.wf(),
        ensures
            match target {
                // Explicit target override: bypass replication, write directly
                Some(id) => match node_with(self.hash_ring.node_list(), id.0) {
                    Some(n) => r matches Ok(Route::Direct { addr, request }) && addr@ == n.addr && set_asked(request) == (SetAsked { key: key@, value: value@, ttl_ms }),
                    None => r == Err::<Route<SetRequest, SetRun>, RouteError>(RouteError::TargetNotFound),
                },
                // Use replication coordinator
                None => if self.targets(key@).len() == 0 {
                    r == Err::<Route<SetRequest, SetRun>, RouteError>(RouteError::Coordinator(CoordinatorError::NoNodesForWrite))
                } else {
                    r matches Ok(Route::Replicated(run)) && !run@.primary_ok && places(
                        run@.place,
                        self.targets(key@),
                        self.hash_ring.node_list(),
                        self.coordinator.config.max_retries as nat,
                    ) && run.asks() == (SetAsked { key: key@, value: value@, ttl_ms })
                },
            },
    {
        if target.is_some() {
            match self.resolve_addr(target) {
                Ok(addr) => Ok(Route::Direct { addr, request: SetRequest::new(key, value, ttl_ms) }),
                Err(e) => Err(e),
            }
        } else {
            match self.coordinator.set(&self.hash_ring, &self.health_monitor, key, value, ttl_ms) {
                Ok(run) => Ok(Route::Replicated(run)),
                Err(e) => Err(RouteError::Coordinator(e)),
            }
        }
    }

    /// Route a Get request: use replication coordinator unless an explicit target is given
    pub fn get(&self, key: &str, target: Option<&NodeId>) -> (r: Result<Route<GetRequest, GetRun>, RouteError>)
        requires
            self.wf(),
        ensures
            match target {
                Some(id) => match node_with(self.hash_ring.node_list(), id.0) {
                    Some(n) => r matches Ok(Route::Direct { addr, request }) && addr@ == n.addr && request.key@ == key@,
                    None => r == Err::<Route<GetRequest, GetRun>, RouteError>(RouteError::TargetNotFound),
                },
                None => if self.targets(key@).len() == 0 {
                    r == Err::<Route<GetRequest, GetRun>, RouteError>(RouteError::Coordinator(CoordinatorError::NoNodesForRead))
                } else {
                    r matches Ok(Route::Replicated(run)) && run@.found is None && places(
                        run@.place,
                        self.targets(key@),
                        self.hash_ring.node_list(),
                        self.coordinator.config.max_retries as nat,
                    ) && run.asks() == key@
                },
            },
    {
        if target.is_some() {
            match self.resolve_addr(target) {
                Ok(addr) => Ok(Route::Direct { addr, request: GetRequest::new(key) }),
                Err(e) => Err(e),
            }
        } else {
            match self.coordinator.get(&self.hash_ring, &self.health_monitor, key) {
                Ok(run) => Ok(Route::Replicated(run)),
                Err(e) => Err(RouteError::Coordinator(e)),
            }
        }
    }

    /// Route a Delete request: use replication coordinator unless an explicit target is given
    pub fn delete(&self, key: &str, target: Option<&NodeId>) -> (r: Result<Route<DeleteRequest, DeleteRun>, RouteError>)
        requires
            self.wf(),
        ensures
            match target {
                Some(id) => match node_with(self.hash_ring.node_list(), id.0) {
                    Some(n) => r matches Ok(Route::Direct { addr, request }) && addr@ == n.addr && request.key@ == key@,
                    None => r == Err::<Route<DeleteRequest, DeleteRun>, RouteError>(RouteError::TargetNotFound),
                },
                None => if self.targets(key@).len() == 0 {
                    r == Err::<Route<DeleteRequest, DeleteRun>, RouteError>(RouteError::Coordinator(CoordinatorError::NoNodesForDelete))
                } else {
                    r matches Ok(Route::Replicated(run)) && !run@.any_deleted && places(
                        run@.place,
                        self.targets(key@),
                        self.hash_ring.node_list(),
                        self.coordinator.config.max_retries as nat,
                    ) && run.asks() == key@
                },
            },
    {
        if target.is_some() {
            match self.resolve_addr(target) {
                Ok(addr) => Ok(Route::Direct { addr, request: DeleteRequest::new(key) }),
                Err(e) => Err(e),
            }
        } else {
            match self.coordinator.delete(&self.hash_ring, &self.health_monitor, key) {
                Ok(run) => Ok(Route::Replicated(run)),
                Err(e) => Err(RouteError::Coordinator(e)),
            }
        }
    }

    /// Access the hash ring (for membership updates)
    pub fn hash_ring(&mut self) -> (ring: &mut HashRing)
        ensures
            *ring == old(self).hash_ring,
            *final(ring) == final(self).hash_ring,
            final(self).health_monitor == old(self).health_monitor,
            final(self).coordinator == old(self).coordinator,
    {
        &mut self.hash_ring
    }
}

/// The router sends a request where its coordinator does, by its own ring and monitor.
pub proof fn lemma_router_targets(router: Router, key: Seq<char>)
    ensures
        router.targets(key) == router.coordinator.targets(router.hash_ring, router.health_monitor, key),
        router.wf() ==> router.hash_ring.wf(),
{
}

} // verus!
