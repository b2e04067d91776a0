//! Which replicas a request goes to, how often each is tried, and what the answers amount to.
use vstd::prelude::*;
use super::config::ReplicationConfig;
use crate::hashring::{
    key_position, lemma_first_with, lemma_preference_list, lists_nodes, node_with, owner, preference, HashRing, Positions,
};
use crate::health::{lemma_routable, routable, HealthMonitor, Healths, NodeHealth};
use crate::messages::{DeleteRequest, DeleteResponse, GetRequest, GetResponse, SetRequest, SetResponse};
use crate::node::{node_views, NodeInfo, NodeView};

verus! {

/// Why a request came to nothing.
#[derive(Debug, Clone, Copy, PartialEq, Eq, Structural)]
pub enum CoordinatorError {
    NoNodesForWrite,
    NoNodesForRead,
    NoNodesForDelete,
    PrimaryWriteFailed,
}

impl CoordinatorError {
    pub fn message(self) -> (s: String)
        ensures
            s@ == match self {
                CoordinatorError::NoNodesForWrite => "No alive nodes available for write"@,
                CoordinatorError::NoNodesForRead => "No alive nodes available for read"@,
                CoordinatorError::NoNodesForDelete => "No alive nodes available for delete"@,
                CoordinatorError::PrimaryWriteFailed => "Primary write failed"@,
            },
    {
        match self {
            CoordinatorError::NoNodesForWrite => "No alive nodes available for write".to_string(),
            CoordinatorError::NoNodesForRead => "No alive nodes available for read".to_string(),
            CoordinatorError::NoNodesForDelete => "No alive nodes available for delete".to_string(),
            CoordinatorError::PrimaryWriteFailed => "Primary write failed".to_string(),
        }
    }
}

/// Those of the candidates, in their order, that are routed to, until there are `factor` of
/// them.
pub open spec fn replicas(candidates: Seq<u128>, healths: Healths, factor: nat) -> Seq<u128>
    decreases candidates.len(),
{
    if candidates.len() == 0 || factor == 0 {
        seq![]
    } else if routable(healths, candidates[0]) {
        seq![candidates[0]] + replicas(candidates.skip(1), healths, (factor - 1) as nat)
    } else {
        replicas(candidates.skip(1), healths, factor)
    }
}

/// The replicas of a key: of its preference list, with two more than the factor to make up for
/// dead nodes, those that are routed to.
pub open spec fn replicas_of(positions: Positions, healths: Healths, key: Seq<char>, factor: nat) -> Seq<u128> {
    replicas(preference(positions, key_position(key), factor + 2), healths, factor)
}

pub open spec fn node_ids(nodes: Seq<NodeInfo>) -> Seq<u128> {
    nodes.map_values(|n: NodeInfo| n@.id)
}

/// A list of nodes to try one after the other. A failed try is repeated up to `max_retries`
/// times.
pub struct Attempts {
    nodes: Vec<NodeInfo>,
    max_retries: usize,
    node: usize,
    attempt: usize,
}

/// How far the attempts have come: which node is next, and how often a try of it has failed.
pub struct Place {
    pub nodes: Seq<NodeView>,
    pub max_retries: nat,
    pub node: nat,
    pub attempt: nat,
}

impl Place {
    /// There is a node to try.
    pub open spec fn pending(self) -> bool {
        self.node < self.nodes.len() && self.attempt <= self.max_retries
    }

    /// On to the next node.
    pub open spec fn moved_on(self) -> Place {
        Place { node: self.node + 1, attempt: 0, ..self }
    }

    /// After a failed try: the same node again, or the next one once it was retried often
    /// enough.
    pub open spec fn tried(self) -> Place {
        if self.attempt < self.max_retries {
            Place { attempt: self.attempt + 1, ..self }
        } else {
            self.moved_on()
        }
    }
}

/// The start of the attempts on some nodes.
pub open spec fn at_start(nodes: Seq<NodeView>, max_retries: nat) -> Place {
    Place { nodes, max_retries, node: 0, attempt: 0 }
}

impl View for Attempts {
    type V = Place;

    closed spec fn view(&self) -> Place {
        Place {
            nodes: node_views(self.nodes@),
            max_retries: self.max_retries as nat,
            node: self.node as nat,
            attempt: self.attempt as nat,
        }
    }
}

impl Attempts {
    fn new(nodes: Vec<NodeInfo>, max_retries: usize) -> (attempts: Self)
        ensures
            attempts@ == at_start(node_views(nodes@), max_retries as nat),
    {
        Self { nodes, max_retries, node: 0, attempt: 0 }
    }

    /// The node to try next, if there is one.
    pub fn current(&self) -> (node: Option<&NodeInfo>)
        ensures
            match node {
                Some(n) => self@.pending() && n@ == self@.nodes[self@.node as int],
                None => !self@.pending(),
            },
    {
        if self.node < self.nodes.len() && self.attempt <= self.max_retries {
            Some(&self.nodes[self.node])
        } else {
            None
        }
    }

    fn move_on(&mut self)
        requires
            old(self)@.pending(),
        ensures
            final(self)@ == old(self)@.moved_on(),
    {
        assert(self.node < self.nodes.len());
        self.node += 1;
        self.attempt = 0;
    }

    fn retry(&mut self)
        requires
            old(self)@.pending(),
        ensures
            final(self)@ == old(self)@.tried(),
    {
        if self.attempt < self.max_retries {
            self.attempt += 1;
        } else {
            self.move_on();
        }
    }
}

/// What came of one try.
pub enum Reply<A> {
    /// The node could not be reached.
    ConnectFailed,
    /// The node was reached, and the call failed.
    CallFailed,
    /// The node answered.
    Answered(A),
}

/// What a write asks for.
pub struct SetAsked {
    pub key: Seq<char>,
    pub value: Seq<u8>,
    pub ttl_ms: Option<u64>,
}

pub open spec fn set_asked(req: SetRequest) -> SetAsked {
    SetAsked { key: req.key@, value: req.value@, ttl_ms: req.ttl_ms }
}

/// A write under way.
pub struct SetRun {
    attempts: Attempts,
    primary_ok: bool,
    request: SetRequest,
}

/// How far a write has come, and whether the primary has taken it.
pub struct SetView {
    pub place: Place,
    pub primary_ok: bool,
}

impl View for SetRun {
    type V = SetView;

    closed spec fn view(&self) -> SetView {
        SetView { place: self.attempts@, primary_ok: self.primary_ok }
    }
}

/// A write after one more try. An answer settles a node, whatever it says; a failure is tried
/// again.
pub open spec fn set_step(run: SetView, reply: Reply<SetResponse>) -> SetView {
    match reply {
        Reply::Answered(response) => SetView {
            place: run.place.moved_on(),
            primary_ok: if run.place.node == 0 {
                response.success
            } else {
                run.primary_ok
            },
        },
        _ => SetView { place: run.place.tried(), ..run },
    }
}

impl SetRun {
    /// What every node is asked for.
    pub closed spec fn asks(&self) -> SetAsked {
        set_asked(self.request)
    }

    /// The request to send to the current node.
    pub fn request(&self) -> (req: SetRequest)
        ensures
            set_asked(req) == self.asks(),
    {
        SetRequest::new(self.request.key.as_str(), self.request.value.as_slice(), self.request.ttl_ms)
    }

    /// Starts on the given nodes. A failed try of one is repeated up to `max_retries` times.
    pub fn start(nodes: Vec<NodeInfo>, max_retries: usize, request: SetRequest) -> (r: Result<SetRun, CoordinatorError>)
        ensures
            match r {
                Ok(run) => {
                    &&& nodes@.len() > 0
                    &&& run@.place == at_start(node_views(nodes@), max_retries as nat)
                    &&& run.asks() == set_asked(request)
                    &&& !run@.primary_ok
                },
                Err(e) => nodes@.len() == 0 && e == CoordinatorError::NoNodesForWrite,
            },
    {
        if nodes.len() == 0 {
            return Err(CoordinatorError::NoNodesForWrite);
        }
        Ok(SetRun { attempts: Attempts::new(nodes, max_retries), primary_ok: false, request })
    }

    /// The node to write to next, if there is one.
    pub fn current(&self) -> (node: Option<&NodeInfo>)
        ensures
            match node {
                Some(n) => self@.place.pending() && n@ == self@.place.nodes[self@.place.node as int],
                None => !self@.place.pending(),
            },
    {
        self.attempts.current()
    }

    /// Takes in what came of a try.
    pub fn record(&mut self, reply: Reply<SetResponse>)
        requires
            old(self)@.place.pending(),
        ensures
            final(self)@ == set_step(old(self)@, reply),
            final(self).asks() == old(self).asks(),
    {
        match reply {
            Reply::Answered(response) => {
                if self.attempts.node == 0 {
                    self.primary_ok = response.success;
                }
                self.attempts.move_on();
            },
            _ => {
                self.attempts.retry();
            },
        }
    }

    /// Success if at least the primary (first) wrote successfully.
    pub fn finish(&self) -> (r: Result<SetResponse, CoordinatorError>)
        requires
            !self@.place.pending(),
        ensures
            match r {
                Ok(response) => self@.primary_ok && response.success,
                Err(e) => !self@.primary_ok && e == CoordinatorError::PrimaryWriteFailed,
            },
    {
        if self.primary_ok {
            Ok(SetResponse { success: true })
        } else {
            Err(CoordinatorError::PrimaryWriteFailed)
        }
    }
}

/// A read under way.
pub struct GetRun {
    attempts: Attempts,
    found: Option<GetResponse>,
    request: GetRequest,
}

/// How far a read has come, and what it has found.
pub struct GetView {
    pub place: Place,
    pub found: Option<GetResponse>,
}

impl GetView {
    /// There is a node to ask, and a need to.
    pub open spec fn pending(self) -> bool {
        self.found is None && self.place.pending()
    }
}

impl View for GetRun {
    type V = GetView;

    closed spec fn view(&self) -> GetView {
        GetView { place: self.attempts@, found: self.found }
    }
}

/// A read after one more try. It ends with the first node that has the key; one that has not
/// is passed over, and a failure is tried again.
pub open spec fn get_step(run: GetView, reply: Reply<GetResponse>) -> GetView {
    match reply {
        Reply::Answered(response) => if response.found {
            GetView { found: Some(response), ..run }
        } else {
            GetView { place: run.place.moved_on(), ..run }
        },
        _ => GetView { place: run.place.tried(), ..run },
    }
}

impl GetRun {
    /// The key that every node is asked about.
    pub closed spec fn asks(&self) -> Seq<char> {
        self.request.key@
    }

    /// The request to send to the current node.
    pub fn request(&self) -> (req: GetRequest)
        ensures
            req.key@ == self.asks(),
    {
        GetRequest::new(self.request.key.as_str())
    }

    /// Starts on the given nodes. A failed try of one is repeated up to `max_retries` times.
    pub fn start(nodes: Vec<NodeInfo>, max_retries: usize, request: GetRequest) -> (r: Result<GetRun, CoordinatorError>)
        ensures
            match r {
                Ok(run) => {
                    &&& nodes@.len() > 0
                    &&& run@.place == at_start(node_views(nodes@), max_retries as nat)
                    &&& run.asks() == request.key@
                    &&& run@.found is None
                },
                Err(e) => nodes@.len() == 0 && e == CoordinatorError::NoNodesForRead,
            },
    {
        if nodes.len() == 0 {
            return Err(CoordinatorError::NoNodesForRead);
        }
        Ok(GetRun { attempts: Attempts::new(nodes, max_retries), found: None, request })
    }

    /// The node to ask next, if there is one.
    pub fn current(&self) -> (node: Option<&NodeInfo>)
        ensures
            match node {
                Some(n) => self@.pending() && n@ == self@.place.nodes[self@.place.node as int],
                None => !self@.pending(),
            },
    {
        if self.found.is_some() {
            None
        } else {
            self.attempts.current()
        }
    }

    /// Takes in what came of a try.
    pub fn record(&mut self, reply: Reply<GetResponse>)
        requires
            old(self)@.pending(),
        ensures
            final(self)@ == get_step(old(self)@, reply),
            final(self).asks() == old(self).asks(),
    {
        match reply {
            Reply::Answered(response) => {
                if response.found {
                    self.found = Some(response);
                } else {
                    // Key not found on this replica, try next node
                    self.attempts.move_on();
                }
            },
            _ => {
                self.attempts.retry();
            },
        }
    }

    /// What was found, or that the key is on no replica that answered.
    pub fn finish(self) -> (response: GetResponse)
        requires
            !self@.pending(),
        ensures
            match self@.found {
                Some(found) => response == found,
                None => response.value is None && !response.found,
            },
    {
        match self.found {
            Some(response) => response,
            None => GetResponse { value: None, found: false },
        }
    }
}

/// A deletion under way.
pub struct DeleteRun {
    attempts: Attempts,
    any_deleted: bool,
    request: DeleteRequest,
}

/// How far a deletion has come, and whether any node had the key.
pub struct DeleteView {
    pub place: Place,
    pub any_deleted: bool,
}

impl View for DeleteRun {
    type V = DeleteView;

    closed spec fn view(&self) -> DeleteView {
        DeleteView { place: self.attempts@, any_deleted: self.any_deleted }
    }
}

/// A deletion after one more try. Every node is asked; one that cannot be reached is passed
/// over, and a call that failed is tried again.
pub open spec fn delete_step(run: DeleteView, reply: Reply<DeleteResponse>) -> DeleteView {
    match reply {
        Reply::Answered(response) => DeleteView {
            place: run.place.moved_on(),
            any_deleted: run.any_deleted || response.deleted,
        },
        Reply::CallFailed => DeleteView { place: run.place.tried(), ..run },
        Reply::ConnectFailed => DeleteView { place: run.place.moved_on(), ..run },
    }
}

impl DeleteRun {
    /// The key that every node is asked about.
    pub closed spec fn asks(&self) -> Seq<char> {
        self.request.key@
    }

    /// The request to send to the current node.
    pub fn request(&self) -> (req: DeleteRequest)
        ensures
            req.key@ == self.asks(),
    {
        DeleteRequest::new(self.request.key.as_str())
    }

    /// Starts on the given nodes. A failed try of one is repeated up to `max_retries` times.
    pub fn start(nodes: Vec<NodeInfo>, max_retries: usize, request: DeleteRequest) -> (r: Result<DeleteRun, CoordinatorError>)
        ensures
            match r {
                Ok(run) => {
                    &&& nodes@.len() > 0
                    &&& run@.place == at_start(node_views(nodes@), max_retries as nat)
                    &&& run.asks() == request.key@
                    &&& !run@.any_deleted
                },
                Err(e) => nodes@.len() == 0 && e == CoordinatorError::NoNodesForDelete,
            },
    {
        if nodes.len() == 0 {
            return Err(CoordinatorError::NoNodesForDelete);
        }
        Ok(DeleteRun { attempts: Attempts::new(nodes, max_retries), any_deleted: false, request })
    }

    /// The node to delete on next, if there is one.
    pub fn current(&self) -> (node: Option<&NodeInfo>)
        ensures
            match node {
                Some(n) => self@.place.pending() && n@ == self@.place.nodes[self@.place.node as int],
                None => !self@.place.pending(),
            },
    {
        self.attempts.current()
    }

    /// Takes in what came of a try.
    pub fn record(&mut self, reply: Reply<DeleteResponse>)
        requires
            old(self)@.place.pending(),
        ensures
            final(self)@ == delete_step(old(self)@, reply),
            final(self).asks() == old(self).asks(),
    {
        match reply {
            Reply::Answered(response) => {
                if response.deleted {
                    self.any_deleted = true;
                }
                self.attempts.move_on();
            },
            Reply::CallFailed => {
                self.attempts.retry();
            },
            Reply::ConnectFailed => {
                self.attempts.move_on();
            },
        }
    }

    /// Whether any node had the key.
    pub fn finish(&self) -> (response: DeleteResponse)
        requires
            !self@.place.pending(),
        ensures
            response.deleted == self@.any_deleted,
    {
        DeleteResponse { deleted: self.any_deleted }
    }
}

/// Plans requests over the replicas of a key.
pub struct ReplicationCoordinator {
    pub config: ReplicationConfig,
}

impl ReplicationCoordinator {
    /// The factor leaves room for the two candidates more.
    pub open spec fn wf(&self) -> bool {
        self.config.replication_factor <= usize::MAX - 2
    }

    pub fn new(config: ReplicationConfig) -> (coordinator: Self)
        ensures
            coordinator.config == config,
    {
        Self { config }
    }

    /// The nodes that a request for a key goes to, as the ring knows them.
    pub open spec fn targets(&self, ring: HashRing, monitor: HealthMonitor, key: Seq<char>) -> Seq<u128> {
        replicas_of(ring.positions(), monitor@, key, self.config.replication_factor as nat)
    }

    /// Build a filtered preference list: request extra nodes to account for dead ones,
    /// then keep only the alive ones up to `replication_factor`.
    pub fn alive_preference_list(&self, ring: &HashRing, monitor: &HealthMonitor, key: &str) -> (list: Vec<NodeInfo>)
        requires
            self.wf(),
            ring.wf(),
        ensures
            lists_nodes(list@, self.targets(*ring, *monitor, key@), ring.node_list()),
    {
        // Ask the ring for extra candidates so we can skip dead ones and still
        // fill up to replication_factor.
        let candidates = ring.get_preference_list(key, self.config.replication_factor + 2);
        let ghost ids = preference(
            ring.positions(),
            key_position(key@),
            (self.config.replication_factor + 2) as nat,
        );
        let list = self.keep_alive(&candidates, monitor);
        proof {
            assert(node_ids(candidates@) =~= ids);
            let want = self.targets(*ring, *monitor, key@);
            assert forall|i: int| 0 <= i < list@.len() implies (#[trigger] list@[i])@.id == want[i] && node_with(
                ring.node_list(),
                want[i],
            ) == Some(list@[i]@) by {
                assert(node_ids(list@)[i] == want[i]);
                let k = choose|k: int| 0 <= k < candidates@.len() && #[trigger] candidates@[k]@ == list@[i]@;
                assert(candidates@[k]@.id == ids[k]);
            }
        }
        list
    }

    /// Of the candidates keep the alive ones, in their order, up to `replication_factor`.
    pub fn keep_alive(&self, candidates: &Vec<NodeInfo>, monitor: &HealthMonitor) -> (list: Vec<NodeInfo>)
        ensures
            node_ids(list@) == replicas(
                node_ids(candidates@),
                monitor@,
                self.config.replication_factor as nat,
            ),
            forall|i: int|
                0 <= i < list@.len() ==> exists|k: int|
                    0 <= k < candidates@.len() && #[trigger] candidates@[k]@ == (#[trigger] list@[i])@,
    {
        let factor: usize = self.config.replication_factor;
        let ghost ids = node_ids(candidates@);
        let ghost want = replicas(ids, monitor@, factor as nat);
        let mut alive_nodes: Vec<NodeInfo> = Vec::new();
        let mut i: usize = 0;
        assert(ids.skip(0) =~= ids);
        assert(want =~= node_ids(alive_nodes@) + replicas(ids.skip(0), monitor@, factor as nat));
        while i < candidates.len() && alive_nodes.len() < factor
            invariant
                i <= candidates@.len(),
                factor == self.config.replication_factor,
                ids == node_ids(candidates@),
                want == replicas(ids, monitor@, factor as nat),
                alive_nodes@.len() <= factor,
                want == node_ids(alive_nodes@) + replicas(
                    ids.skip(i as int),
                    monitor@,
                    (factor - alive_nodes@.len()) as nat,
                ),
                forall|j: int|
                    0 <= j < alive_nodes@.len() ==> exists|k: int|
                        0 <= k < candidates@.len() && #[trigger] candidates@[k]@ == (#[trigger] alive_nodes@[j])@,
            decreases candidates@.len() - i,
        {
            let node = &candidates[i];
            let ghost left = ids.skip(i as int);
            let ghost before = alive_nodes@;
            assert(left[0] == ids[i as int]);
            assert(left.skip(1) =~= ids.skip(i + 1));
            if monitor.is_alive(&node.id) {
                let copy = node.clone();
                assert(candidates@[i as int]@ == copy@);
                alive_nodes.push(copy);
                assert(node_ids(alive_nodes@) =~= node_ids(before) + seq![ids[i as int]]);
                assert forall|j: int| 0 <= j < alive_nodes@.len() implies exists|k: int|
                    0 <= k < candidates@.len() && #[trigger] candidates@[k]@ == (#[trigger] alive_nodes@[j])@ by {
                    if j < before.len() {
                        assert(alive_nodes@[j] == before[j]);
                    }
                }
            }
            assert(want =~= node_ids(alive_nodes@) + replicas(
                ids.skip(i + 1),
                monitor@,
                (factor - alive_nodes@.len()) as nat,
            ));
            i += 1;
        }
        assert(want =~= node_ids(alive_nodes@));
        alive_nodes
    }

    /// Begins a write to the replicas of a key.
    pub fn set(
        &self,
        ring: &HashRing,
        monitor: &HealthMonitor,
        key: &str,
        value: &[u8],
        ttl_ms: Option<u64>,
    ) -> (r: Result<SetRun, CoordinatorError>)
        requires
            self.wf(),
            ring.wf(),
        ensures
            match r {
                Ok(run) => {
                    &&& places(
                        run@.place,
                        self.targets(*ring, *monitor, key@),
                        ring.node_list(),
                        self.config.max_retries as nat,
                    )
                    &&& !run@.primary_ok
                    &&& run.asks() == (SetAsked { key: key@, value: value@, ttl_ms })
                },
                Err(e) => e == CoordinatorError::NoNodesForWrite && self.targets(*ring, *monitor, key@).len() == 0,
            },
    {
        let nodes = self.alive_preference_list(ring, monitor, key);
        SetRun::start(nodes, self.config.max_retries, SetRequest::new(key, value, ttl_ms))
    }

    /// Begins a read from the replicas of a key.
    pub fn get(&self, ring: &HashRing, monitor: &HealthMonitor, key: &str) -> (r: Result<GetRun, CoordinatorError>)
        requires
            self.wf(),
            ring.wf(),
        ensures
            match r {
                Ok(run) => {
                    &&& places(
                        run@.place,
                        self.targets(*ring, *monitor, key@),
                        ring.node_list(),
                        self.config.max_retries as nat,
                    )
                    &&& run@.found is None
                    &&& run.asks() == key@
                },
                Err(e) => e == CoordinatorError::NoNodesForRead && self.targets(*ring, *monitor, key@).len() == 0,
            },
    {
        let nodes = self.alive_preference_list(ring, monitor, key);
        GetRun::start(nodes, self.config.max_retries, GetRequest::new(key))
    }

    /// Begins a deletion on the replicas of a key.
    pub fn delete(&self, ring: &HashRing, monitor: &HealthMonitor, key: &str) -> (r: Result<DeleteRun, CoordinatorError>)
        requires
            self.wf(),
            ring.wf(),
        ensures
            match r {
                Ok(run) => {
                    &&& places(
                        run@.place,
                        self.targets(*ring, *monitor, key@),
                        ring.node_list(),
                        self.config.max_retries as nat,
                    )
                    &&& !run@.any_deleted
                    &&& run.asks() == key@
                },
                Err(e) => e == CoordinatorError::NoNodesForDelete && self.targets(*ring, *monitor, key@).len() == 0,
            },
    {
        let nodes = self.alive_preference_list(ring, monitor, key);
        DeleteRun::start(nodes, self.config.max_retries, DeleteRequest::new(key))
    }
}

/// The attempts are at their start, on the nodes with the identities, of which there are some.
pub open spec fn places(place: Place, ids: Seq<u128>, all: Seq<NodeView>, max_retries: nat) -> bool {
    &&& place.max_retries == max_retries
    &&& place.node == 0
    &&& place.attempt == 0
    &&& place.nodes.len() == ids.len() > 0
    &&& forall|i: int|
        0 <= i < ids.len() ==> (#[trigger] place.nodes[i]).id == ids[i] && node_with(all, ids[i]) == Some(place.nodes[i])
}

/// The replicas are candidates that are routed to, none twice, as many as the factor at most;
/// there are fewer only where every candidate that is routed to is among them.
pub proof fn lemma_replicas(candidates: Seq<u128>, healths: Healths, factor: nat)
    requires
        candidates.no_duplicates(),
    ensures
        replicas(candidates, healths, factor).no_duplicates(),
        replicas(candidates, healths, factor).len() <= factor,
        forall|id: u128| #[trigger]
            replicas(candidates, healths, factor).contains(id) ==> candidates.contains(id) && routable(healths, id),
        replicas(candidates, healths, factor).len() < factor ==> forall|id: u128| #[trigger]
            candidates.contains(id) && routable(healths, id) ==> replicas(candidates, healths, factor).contains(id),
    decreases candidates.len(),
{
    if candidates.len() > 0 && factor > 0 {
        let first = candidates[0];
        let rest = candidates.skip(1);
        let head = if routable(healths, first) {
            seq![first]
        } else {
            seq![]
        };
        let all = replicas(candidates, healths, factor);
        assert(rest.no_duplicates());
        assert(forall|id: u128| rest.contains(id) ==> candidates.contains(id)) by {
            assert forall|id: u128| rest.contains(id) implies candidates.contains(id) by {
                assert(candidates[rest.index_of(id) + 1] == id);
            }
        }
        assert(!rest.contains(first)) by {
            if rest.contains(first) {
                assert(candidates[rest.index_of(first) + 1] == candidates[0]);
            }
        }
        let tail = replicas(rest, healths, (factor - head.len()) as nat);
        lemma_replicas(rest, healths, (factor - head.len()) as nat);
        assert(all == head + tail);
        assert forall|id: u128| #[trigger] all.contains(id) implies candidates.contains(id) && routable(healths, id) by {
            let i = all.index_of(id);
            if i < head.len() {
                assert(candidates[0] == id);
            } else {
                assert(tail[i - head.len()] == id);
                assert(tail.contains(id));
            }
        }
        assert forall|i: int, j: int| 0 <= i < all.len() && 0 <= j < all.len() && i != j implies all[i] != all[j] by {
            if i < head.len() {
                assert(tail.contains(all[j]));
                assert(rest.contains(all[j]));
            } else if j < head.len() {
                assert(tail.contains(all[i]));
                assert(rest.contains(all[i]));
            } else {
                assert(tail[i - head.len()] != tail[j - head.len()]);
            }
        }
        if all.len() < factor {
            assert forall|id: u128| #[trigger] candidates.contains(id) && routable(healths, id) implies all.contains(
                id,
            ) by {
                let i = candidates.index_of(id);
                if i == 0 {
                    assert(all[0] == id);
                } else {
                    assert(rest[i - 1] == id);
                    assert(rest.contains(id));
                    assert(tail.contains(id));
                    assert(all[tail.index_of(id) + head.len()] == id);
                }
            }
        }
    }
}

/// No request goes to a node that is dead or joining, nor twice to the same node, and no more
/// nodes are asked than the replication factor says.
pub proof fn lemma_replicas_of_key(positions: Positions, healths: Healths, key: Seq<char>, factor: nat)
    ensures
        replicas_of(positions, healths, key, factor).no_duplicates(),
        replicas_of(positions, healths, key, factor).len() <= factor,
        forall|id: u128| #[trigger]
            replicas_of(positions, healths, key, factor).contains(id) ==> routable(healths, id) && exists|p: u64| #[trigger]
                positions.contains_key(p) && positions[p] == id,
{
    let h = key_position(key);
    let candidates = preference(positions, h, factor + 2);
    lemma_preference_list(positions, h, factor + 2);
    lemma_replicas(candidates, healths, factor);
    assert forall|id: u128| #[trigger] replicas_of(positions, healths, key, factor).contains(id) implies exists|p: u64| #[trigger]
        positions.contains_key(p) && positions[p] == id by {
        assert(candidates.contains(id));
        let i = candidates.index_of(id);
        assert(candidates[i] == id);
    }
}

/// Requests for a key go to the node that the ring makes responsible for it first, as long as
/// that node is routed to.
pub proof fn lemma_primary_is_owner(positions: Positions, healths: Healths, key: Seq<char>, factor: nat)
    requires
        positions.dom() != Set::<u64>::empty(),
        routable(healths, owner(positions, key_position(key))),
        factor > 0,
    ensures
        replicas_of(positions, healths, key, factor).len() > 0,
        replicas_of(positions, healths, key, factor)[0] == owner(positions, key_position(key)),
{
    lemma_preference_list(positions, key_position(key), factor + 2);
}

/// Only the health of the candidates counts.
proof fn lemma_same_replicas(candidates: Seq<u128>, a: Healths, b: Healths, factor: nat)
    requires
        forall|i: int| 0 <= i < candidates.len() ==> routable(a, #[trigger] candidates[i]) == routable(b, candidates[i]),
    ensures
        replicas(candidates, a, factor) == replicas(candidates, b, factor),
    decreases candidates.len(),
{
    if candidates.len() > 0 {
        let rest = candidates.skip(1);
        assert(routable(a, candidates[0]) == routable(b, candidates[0]));
        assert forall|i: int| 0 <= i < rest.len() implies routable(a, #[trigger] rest[i]) == routable(b, rest[i]) by {
            assert(rest[i] == candidates[i + 1]);
        }
        lemma_same_replicas(rest, a, b, factor);
        if factor > 0 {
            lemma_same_replicas(rest, a, b, (factor - 1) as nat);
        }
    }
}

/// A greater factor adds replicas behind those of a smaller one.
proof fn lemma_more_replicas(candidates: Seq<u128>, healths: Healths, factor: nat)
    ensures
        replicas(candidates, healths, factor).is_prefix_of(replicas(candidates, healths, factor + 1)),
    decreases candidates.len(),
{
    if candidates.len() > 0 {
        let rest = candidates.skip(1);
        lemma_more_replicas(rest, healths, factor);
        if factor > 0 {
            lemma_more_replicas(rest, healths, (factor - 1) as nat);
        }
        let (small, large) = (replicas(candidates, healths, factor), replicas(candidates, healths, factor + 1));
        assert forall|i: int| 0 <= i < small.len() implies small[i] == large[i] by {}
        assert(small.len() <= large.len());
        assert(small =~= large.subrange(0, small.len() as int));
    }
}

/// When the primary fails the next replica takes its place: requests go to the replicas that
/// they went to before, without the primary, in the same order.
pub proof fn lemma_failover(candidates: Seq<u128>, before: Healths, after: Healths, factor: nat)
    requires
        candidates.no_duplicates(),
        replicas(candidates, before, factor).len() > 0,
        !routable(after, replicas(candidates, before, factor)[0]),
        forall|id: u128|
            id != replicas(candidates, before, factor)[0] ==> #[trigger] routable(after, id) == routable(before, id),
    ensures
        replicas(candidates, before, factor).skip(1).is_prefix_of(replicas(candidates, after, factor)),
    decreases candidates.len(),
{
    let old_list = replicas(candidates, before, factor);
    let new_list = replicas(candidates, after, factor);
    let first = candidates[0];
    let rest = candidates.skip(1);
    assert(rest.no_duplicates());
    if routable(before, first) {
        assert(old_list[0] == first);
        assert(old_list.skip(1) =~= replicas(rest, before, (factor - 1) as nat));
        assert forall|i: int| 0 <= i < rest.len() implies routable(before, #[trigger] rest[i]) == routable(after, rest[i]) by {
            assert(candidates[i + 1] != candidates[0]);
        }
        lemma_same_replicas(rest, before, after, factor);
        assert(new_list =~= replicas(rest, before, factor));
        lemma_more_replicas(rest, before, (factor - 1) as nat);
    } else {
        assert(old_list =~= replicas(rest, before, factor));
        assert(routable(after, first) == routable(before, first)) by {
            if first == old_list[0] {
                lemma_replicas(rest, before, factor);
                assert(old_list.contains(old_list[0]));
                assert(rest.contains(first));
                assert(candidates[rest.index_of(first) + 1] == candidates[0]);
            }
        }
        assert(new_list =~= replicas(rest, after, factor));
        lemma_failover(rest, before, after, factor);
    }
}

proof fn lemma_filter_first(candidates: Seq<u128>, pred: spec_fn(u128) -> bool)
    requires
        candidates.len() > 0,
    ensures
        candidates.filter(pred) == (if pred(candidates[0]) {
            seq![candidates[0]] + candidates.skip(1).filter(pred)
        } else {
            candidates.skip(1).filter(pred)
        }),
{
    let (head, tail) = (seq![candidates[0]], candidates.skip(1));
    assert(candidates =~= head + tail);
    Seq::filter_distributes_over_add(head, tail, pred);
    reveal(Seq::filter);
    assert(head.drop_last() =~= Seq::<u128>::empty());
    assert(head.drop_last().filter(pred) =~= Seq::<u128>::empty());
    assert(head.filter(pred) =~= if pred(candidates[0]) {
        head
    } else {
        Seq::<u128>::empty()
    });
    assert(Seq::<u128>::empty() + tail.filter(pred) =~= tail.filter(pred));
}

/// The replicas are the first of the candidates that are neither dead nor joining: as many as the
/// factor says, or all of them if there are fewer.
pub proof fn lemma_first_live_candidates(candidates: Seq<u128>, healths: Healths, factor: nat)
    ensures
        ({
            let live = candidates.filter(
                |id: u128|
                    !(healths.contains_key(id) && (healths[id].health == NodeHealth::Dead || healths[id].health
                        == NodeHealth::Joining)),
            );
            replicas(candidates, healths, factor) == live.take(
                if factor < live.len() {
                    factor as int
                } else {
                    live.len() as int
                },
            )
        }),
    decreases candidates.len(),
{
    let pred = |id: u128|
        !(healths.contains_key(id) && (healths[id].health == NodeHealth::Dead || healths[id].health
            == NodeHealth::Joining));
    let live = candidates.filter(pred);
    let got = replicas(candidates, healths, factor);
    if candidates.len() == 0 {
        reveal(Seq::filter);
        assert(got =~= live.take(0));
    } else if factor == 0 {
        assert(got =~= live.take(0));
    } else {
        let rest = candidates.skip(1);
        lemma_routable(healths, candidates[0]);
        lemma_filter_first(candidates, pred);
        if pred(candidates[0]) {
            lemma_first_live_candidates(rest, healths, (factor - 1) as nat);
        } else {
            lemma_first_live_candidates(rest, healths, factor);
        }
        assert(got =~= live.take(if factor < live.len() { factor as int } else { live.len() as int }));
    }
}

/// A request for a key looks at two nodes more than the factor says, those met first clockwise from
/// the hash of the key, and goes to the first of them that are neither dead nor joining: to as many
/// as the factor says, or all of them if there are fewer.
pub proof fn lemma_replicas_make_up(positions: Positions, healths: Healths, key: Seq<char>, factor: nat)
    ensures
        ({
            let live = preference(positions, key_position(key), factor + 2).filter(
                |id: u128|
                    !(healths.contains_key(id) && (healths[id].health == NodeHealth::Dead || healths[id].health
                        == NodeHealth::Joining)),
            );
            let count = if factor < live.len() { factor } else { live.len() };
            &&& replicas_of(positions, healths, key, factor).len() == count
            &&& replicas_of(positions, healths, key, factor) == live.take(count as int)
        }),
{
    lemma_first_live_candidates(preference(positions, key_position(key), factor + 2), healths, factor);
}

/// On a ring of no more nodes than the factor and two, a request goes to as many nodes as the
/// factor says, or to all that are neither dead nor joining if there are fewer. `nodes` are those
/// on the ring.
pub proof fn lemma_small_ring(positions: Positions, healths: Healths, key: Seq<char>, factor: nat, nodes: Seq<u128>)
    requires
        nodes.no_duplicates(),
        forall|p: u64| #[trigger] positions.contains_key(p) ==> nodes.contains(positions[p]),
        forall|i: int|
            0 <= i < nodes.len() ==> exists|p: u64| #[trigger]
                positions.contains_key(p) && positions[p] == #[trigger] nodes[i],
        nodes.len() <= factor + 2,
    ensures
        ({
            let live = nodes.filter(
                |id: u128|
                    !(healths.contains_key(id) && (healths[id].health == NodeHealth::Dead || healths[id].health
                        == NodeHealth::Joining)),
            );
            replicas_of(positions, healths, key, factor).len() == (if factor < live.len() {
                factor
            } else {
                live.len()
            })
        }),
{
    broadcast use vstd::seq_lib::group_filter_ensures;

    let pred = |id: u128|
        !(healths.contains_key(id) && (healths[id].health == NodeHealth::Dead || healths[id].health
            == NodeHealth::Joining));
    let h = key_position(key);
    let list = preference(positions, h, factor + 2);
    lemma_preference_list(positions, h, factor + 2);
    lemma_replicas_make_up(positions, healths, key, factor);
    // The list names every node of the ring.
    assert forall|id: u128| list.contains(id) implies nodes.contains(id) by {
        let i = list.index_of(id);
        assert(list[i] == id);
    }
    list.unique_seq_to_set();
    nodes.unique_seq_to_set();
    vstd::seq_lib::seq_to_set_is_finite(list);
    vstd::seq_lib::seq_to_set_is_finite(nodes);
    assert(list.to_set() =~= nodes.to_set()) by {
        if list.len() == factor + 2 {
            assert(list.to_set().subset_of(nodes.to_set()));
            vstd::set_lib::lemma_len_subset(list.to_set(), nodes.to_set());
            vstd::set_lib::lemma_subset_equality(list.to_set(), nodes.to_set());
        } else {
            assert forall|id: u128| nodes.contains(id) implies list.contains(id) by {
                let i = nodes.index_of(id);
                let p = choose|p: u64| #[trigger] positions.contains_key(p) && positions[p] == nodes[i];
                assert(positions.contains_key(p));
            }
        }
    }
    lemma_filter_count(list, nodes, pred);
}

/// Lists of the same things, each once, have as many of every sort.
proof fn lemma_filter_count(a: Seq<u128>, b: Seq<u128>, pred: spec_fn(u128) -> bool)
    requires
        a.no_duplicates(),
        b.no_duplicates(),
        a.to_set() == b.to_set(),
    ensures
        a.filter(pred).len() == b.filter(pred).len(),
{
    lemma_filter_keeps(a, pred);
    lemma_filter_keeps(b, pred);
    a.filter(pred).unique_seq_to_set();
    b.filter(pred).unique_seq_to_set();
    assert forall|x: u128| #[trigger] a.contains(x) <==> b.contains(x) by {
        assert(a.to_set().contains(x) <==> a.contains(x));
        assert(b.to_set().contains(x) <==> b.contains(x));
    }
    assert forall|x: u128| #[trigger] a.filter(pred).contains(x) <==> b.filter(pred).contains(x) by {
        assert(a.contains(x) <==> b.contains(x));
    }
    assert(a.filter(pred).to_set() =~= b.filter(pred).to_set());
}

proof fn lemma_filter_keeps(a: Seq<u128>, pred: spec_fn(u128) -> bool)
    requires
        a.no_duplicates(),
    ensures
        a.filter(pred).no_duplicates(),
        forall|x: u128| a.filter(pred).contains(x) <==> a.contains(x) && pred(x),
    decreases a.len(),
{
    reveal(Seq::filter);
    if a.len() > 0 {
        let front = a.drop_last();
        let kept = front.filter(pred);
        let all = a.filter(pred);
        lemma_filter_keeps(front, pred);
        assert forall|x: u128| a.contains(x) <==> front.contains(x) || x == a.last() by {
            if front.contains(x) {
                assert(a[front.index_of(x)] == x);
            }
            if a.contains(x) && x != a.last() {
                assert(front[a.index_of(x)] == x);
            }
            assert(a[a.len() - 1] == a.last());
        }
        assert(!front.contains(a.last())) by {
            if front.contains(a.last()) {
                assert(a[front.index_of(a.last())] == a[a.len() - 1]);
            }
        }
        if pred(a.last()) {
            assert forall|x: u128| all.contains(x) <==> kept.contains(x) || x == a.last() by {
                if kept.contains(x) {
                    assert(all[kept.index_of(x)] == x);
                }
                if all.contains(x) && x != a.last() {
                    assert(kept[all.index_of(x)] == x);
                }
                assert(all[all.len() - 1] == a.last());
            }
        }
    }
}

/// How the attempts go on: they start with the first node, untried; there is a node to try as long
/// as not all have had their turn; a turn ends with an answer, or with the try after the last
/// retry, and the next node begins untried.
pub proof fn lemma_turns(nodes: Seq<NodeView>, max_retries: nat, place: Place)
    requires
        place.node < place.nodes.len(),
        place.attempt <= place.max_retries,
    ensures
        at_start(nodes, max_retries).nodes == nodes,
        at_start(nodes, max_retries).max_retries == max_retries,
        at_start(nodes, max_retries).node == 0 && at_start(nodes, max_retries).attempt == 0,
        at_start(nodes, max_retries).pending() <==> nodes.len() > 0,
        place.pending(),
        place.moved_on().nodes == place.nodes && place.tried().nodes == place.nodes,
        place.moved_on().max_retries == place.max_retries && place.tried().max_retries == place.max_retries,
        place.moved_on().node == place.node + 1 && place.moved_on().attempt == 0,
        place.moved_on().pending() <==> place.node + 1 < place.nodes.len(),
        place.attempt < place.max_retries ==> place.tried().node == place.node && place.tried().attempt == place.attempt + 1,
        place.attempt == place.max_retries ==> place.tried() == place.moved_on(),
{
}

/// What one try of a write does.
pub proof fn lemma_set_try(run: SetView, response: SetResponse)
    ensures
        ({
            let answered = set_step(run, Reply::Answered(response));
            let unreached = set_step(run, Reply::ConnectFailed);
            let failed = set_step(run, Reply::CallFailed);
            &&& answered.place == run.place.moved_on()
            &&& answered.primary_ok == (if run.place.node == 0 { response.success } else { run.primary_ok })
            &&& unreached.place == run.place.tried() && unreached.primary_ok == run.primary_ok
            &&& failed.place == run.place.tried() && failed.primary_ok == run.primary_ok
        }),
{
}

/// What one try of a read does.
pub proof fn lemma_get_try(run: GetView, response: GetResponse)
    requires
        run.found is None,
    ensures
        ({
            let answered = get_step(run, Reply::Answered(response));
            let unreached = get_step(run, Reply::ConnectFailed);
            let failed = get_step(run, Reply::CallFailed);
            &&& response.found ==> answered.found == Some(response) && !answered.pending()
            &&& !response.found ==> answered.found is None && answered.place == run.place.moved_on()
            &&& unreached.place == run.place.tried() && unreached.found is None
            &&& failed.place == run.place.tried() && failed.found is None
        }),
{
}

/// What one try of a deletion does.
pub proof fn lemma_delete_try(run: DeleteView, response: DeleteResponse)
    ensures
        ({
            let answered = delete_step(run, Reply::Answered(response));
            let unreached = delete_step(run, Reply::ConnectFailed);
            let failed = delete_step(run, Reply::CallFailed);
            &&& answered.place == run.place.moved_on()
            &&& answered.any_deleted <==> run.any_deleted || response.deleted
            &&& unreached.place == run.place.moved_on() && unreached.any_deleted == run.any_deleted
            &&& failed.place == run.place.tried() && failed.any_deleted == run.any_deleted
        }),
{
}

/// A request starts with the first of its nodes, and they are the first ones on the ring with the
/// identities, in that order.
pub proof fn lemma_places(place: Place, ids: Seq<u128>, all: Seq<NodeView>, max_retries: nat, i: int)
    requires
        places(place, ids, all, max_retries),
        0 <= i < ids.len(),
    ensures
        place.node == 0 && place.attempt == 0 && place.max_retries == max_retries,
        place.nodes.len() == ids.len(),
        place.nodes[i].id == ids[i],
        exists|k: int|
            {
                &&& 0 <= k < all.len()
                &&& #[trigger] all[k] == place.nodes[i]
                &&& forall|j: int| 0 <= j < k ==> (#[trigger] all[j]).id != ids[i]
            },
{
    assert(node_with(all, ids[i]) == Some(place.nodes[i]));
    lemma_first_with(all, ids[i]);
}

/// What a write asks for is its key, its value and its time to live.
pub proof fn lemma_set_asked(a: SetRequest, b: SetRequest)
    ensures
        set_asked(a) == set_asked(b) <==> a.key@ == b.key@ && a.value@ == b.value@ && a.ttl_ms == b.ttl_ms,
        set_asked(a).key == a.key@ && set_asked(a).value == a.value@ && set_asked(a).ttl_ms == a.ttl_ms,
{
}

/// The nodes that a coordinator sends a request to are the first live ones, as many as its factor
/// says, of the nodes met clockwise from the key, of which it looks at two more.
pub proof fn lemma_targets(coordinator: ReplicationCoordinator, ring: HashRing, monitor: HealthMonitor, key: Seq<char>)
    ensures
        ({
            let factor = coordinator.config.replication_factor as nat;
            let live = preference(ring.positions(), key_position(key), factor + 2).filter(
                |id: u128|
                    !(monitor@.contains_key(id) && (monitor@[id].health == NodeHealth::Dead || monitor@[id].health
                        == NodeHealth::Joining)),
            );
            coordinator.targets(ring, monitor, key) == live.take(
                if factor < live.len() {
                    factor as int
                } else {
                    live.len() as int
                },
            )
        }),
{
    lemma_replicas_make_up(ring.positions(), monitor@, key, coordinator.config.replication_factor as nat);
}

/// There is a node to try, or to ask, as long as not all have had their turn, and nothing was found.
pub proof fn lemma_pending(place: Place, run: GetView)
    ensures
        place.pending() <==> place.node < place.nodes.len() && place.attempt <= place.max_retries,
        run.pending() <==> run.found is None && run.place.pending(),
{
}

} // verus!
