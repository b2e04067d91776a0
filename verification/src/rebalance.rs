//! How a node that joins takes over its keys.
use vstd::prelude::*;
use dashmap::DashSet;
use crate::cache::blob::bytes_from;
use crate::cache::map::Contents;
use crate::cache::store::{expiry, holds, received, sent_as, transfers, CacheStore};
use crate::cache::tombstones::{set_content, set_keys};
use crate::clock::MAX_NANOS;
use crate::gossip::state::{self_risen, MemberStatus, MembershipTable};
use crate::hashring::{
    key_position, lemma_holder_owns, lemma_owner_is_next, lemma_vnodes_on_ring, owner, vnode_position, with_vnodes, HashRing,
    Positions, DEFAULT_VNODE_COUNT,
};
use crate::messages::{TransferChunk, TransferRequest};
use crate::node::{hyphenated, node_views, NodeId, NodeInfo, NodeView};
use crate::service::{as_transfers, ttl_nanos};

verus! {

/// Milliseconds between two looks for peers.
pub const POLL_INTERVAL_MS: u64 = 500;

/// The ring on which the nodes are put one after the other, with the default number of
/// positions each.
pub open spec fn placed(nodes: Seq<NodeView>) -> Positions
    decreases nodes.len(),
{
    if nodes.len() == 0 {
        Map::empty()
    } else {
        with_vnodes(placed(nodes.drop_last()), nodes.last().id, DEFAULT_VNODE_COUNT as nat)
    }
}

/// The ring makes the node responsible for the key.
pub open spec fn owns(ring: Positions, id: u128, key: Seq<char>) -> bool {
    ring.dom() != Set::<u64>::empty() && owner(ring, key_position(key)) == id
}

/// The contents after one chunk arrived at a node: it is taken in if the node owns the key.
pub open spec fn pulled_one(m: Contents, ring: Positions, id: u128, chunk: TransferChunk, now: u128) -> Contents {
    if owns(ring, id, chunk.key@) {
        received(m, chunk.key@, chunk.value@, chunk.expires_at_ms, now)
    } else {
        m
    }
}

/// The contents after several chunks arrived.
pub open spec fn pulled(m: Contents, ring: Positions, id: u128, chunks: Seq<TransferChunk>, now: u128) -> Contents
    decreases chunks.len(),
{
    if chunks.len() == 0 {
        m
    } else {
        pulled_one(pulled(m, ring, id, chunks.drop_last(), now), ring, id, chunks.last(), now)
    }
}

/// How many of the chunks are transferred: they belong to the node, and have time left.
pub open spec fn transferred_count(ring: Positions, id: u128, chunks: Seq<TransferChunk>) -> nat
    decreases chunks.len(),
{
    if chunks.len() == 0 {
        0
    } else {
        transferred_count(ring, id, chunks.drop_last()) + if owns(ring, id, chunks.last().key@)
            && chunks.last().expires_at_ms != Some(0u64) {
            1nat
        } else {
            0
        }
    }
}

/// The contents without the keys of a set.
pub open spec fn purged(m: Contents, keys: Set<Seq<char>>) -> Contents {
    Map::new(|key: Seq<char>| m.contains_key(key) && !keys.contains(key), |key: Seq<char>| m[key])
}

/// The peers without those that are the node itself.
pub open spec fn others(peers: Seq<NodeView>, id: u128) -> Seq<NodeView>
    decreases peers.len(),
{
    if peers.len() == 0 {
        seq![]
    } else if peers.last().id == id {
        others(peers.drop_last(), id)
    } else {
        others(peers.drop_last(), id).push(peers.last())
    }
}

/// Handles key rebalancing when this node joins or recovers in the cluster.
pub struct Rebalancer {
    local_id: NodeId,
}

impl Rebalancer {
    pub closed spec fn local(&self) -> u128 {
        self.local_id.0
    }

    pub fn new(local_id: NodeId) -> (rebalancer: Self)
        ensures
            rebalancer.local() == local_id.0,
    {
        Self { local_id }
    }

    /// The peers to pull from and the ring over them and this node, once gossip has made at
    /// least one routable peer visible.
    pub fn plan(&self, table: &MembershipTable) -> (plan: Option<(Vec<NodeInfo>, HashRing)>)
        requires
            table.wf(),
        ensures
            match plan {
                None => forall|id: u128| #[trigger]
                    table@.contains_key(id) && id != table.local() ==> table@[id].status != MemberStatus::Alive,
                Some((peers, ring)) => {
                    &&& peers@.len() > 0
                    &&& forall|i: int|
                        0 <= i < peers@.len() ==> {
                            let peer = (#[trigger] peers@[i])@;
                            &&& table@.contains_key(peer.id)
                            &&& peer.id != table.local()
                            &&& table@[peer.id].status == MemberStatus::Alive
                            &&& table@[peer.id].node == peer
                        }
                    &&& forall|i: int, j: int|
                        0 <= i < j < peers@.len() ==> (#[trigger] peers@[i])@.id != (#[trigger] peers@[j])@.id
                    &&& forall|id: u128| #[trigger]
                        table@.contains_key(id) && id != table.local() && table@[id].status == MemberStatus::Alive
                            ==> exists|i: int| 0 <= i < peers@.len() && (#[trigger] peers@[i])@.id == id
                    &&& ring.wf()
                    &&& ring.node_list() == seq![
                        NodeView { id: self.local(), addr: table@[table.local()].node.addr },
                    ] + node_views(peers@)
                    &&& ring.positions() == placed(ring.node_list())
                },
            },
    {
        let entries = table.routable_peers();
        if entries.len() == 0 {
            return None;
        }
        let mut ring = HashRing::new();
        let mut peers: Vec<NodeInfo> = Vec::new();
        // Add self
        let me = NodeInfo { id: self.local_id, addr: table.local_addr() };
        let ghost first = seq![me@];
        assert(first.drop_last() =~= Seq::<NodeView>::empty());
        reveal_with_fuel(placed, 2);
        ring.add_node(me);
        assert(ring.node_list() =~= first + node_views(peers@));
        assert(first + node_views(peers@) =~= first);
        // Add routable peers
        let mut i: usize = 0;
        while i < entries.len()
            invariant
                i <= entries@.len(),
                ring.wf(),
                ring.vnodes() == DEFAULT_VNODE_COUNT,
                peers@.len() == i,
                forall|k: int| 0 <= k < i ==> (#[trigger] peers@[k])@ == entries@[k]@.node,
                ring.node_list() == first + node_views(peers@),
                ring.positions() == placed(ring.node_list()),
            decreases entries@.len() - i,
        {
            let info = entries[i].info.clone();
            let ghost before = ring.node_list();
            let ghost earlier = node_views(peers@);
            let ghost view = info@;
            ring.add_node(info.clone());
            assert(before.push(view).drop_last() =~= before);
            peers.push(info);
            assert(node_views(peers@) =~= earlier.push(view));
            assert(ring.node_list() =~= first + node_views(peers@));
            i += 1;
        }
        proof {
            assert forall|k: int| 0 <= k < peers@.len() implies {
                let peer = (#[trigger] peers@[k])@;
                &&& table@.contains_key(peer.id)
                &&& peer.id != table.local()
                &&& table@[peer.id].status == MemberStatus::Alive
                &&& table@[peer.id].node == peer
            } by {
                assert(entries@[k]@.node.id == peers@[k]@.id);
            }
            assert forall|a: int, b: int| 0 <= a < b < peers@.len() implies (#[trigger] peers@[a])@.id != (
            #[trigger] peers@[b])@.id by {
                assert(entries@[a]@.node.id != entries@[b]@.node.id);
            }
            assert forall|id: u128| #[trigger]
                table@.contains_key(id) && id != table.local() && table@[id].status == MemberStatus::Alive implies exists|
                k: int,
            | 0 <= k < peers@.len() && (#[trigger] peers@[k])@.id == id by {
                let k = choose|k: int| 0 <= k < entries@.len() && (#[trigger] entries@[k])@.node.id == id;
                assert(peers@[k]@.id == id);
            }
        }
        Some((peers, ring))
    }

    /// What a peer is asked for.
    pub fn transfer_request(&self) -> (req: TransferRequest)
        ensures
            req.target_node_id@ == hyphenated(self.local()),
            req.key_prefixes@.len() == 0,
    {
        TransferRequest { target_node_id: self.local_id.to_string(), key_prefixes: Vec::new() }
    }

    /// The peers to pull from, in their order: all but this node.
    pub fn sources(&self, peers: &[NodeInfo]) -> (sources: Vec<NodeInfo>)
        ensures
            node_views(sources@) == others(node_views(peers@), self.local()),
    {
        let ghost all = node_views(peers@);
        let mut sources: Vec<NodeInfo> = Vec::new();
        let mut i: usize = 0;
        assert(node_views(sources@) =~= others(all.take(0), self.local()));
        while i < peers.len()
            invariant
                i <= peers@.len(),
                all == node_views(peers@),
                node_views(sources@) == others(all.take(i as int), self.local()),
            decreases peers@.len() - i,
        {
            assert(all.take(i + 1).drop_last() =~= all.take(i as int));
            if peers[i].id != self.local_id {
                let ghost before = node_views(sources@);
                sources.push(peers[i].clone());
                assert(node_views(sources@) =~= before.push(all[i as int]));
            }
            i += 1;
        }
        assert(all.take(i as int) =~= all);
        sources
    }

    /// Takes in a key that arrived, if its owner is this node and it has time left. Tells
    /// whether it was taken in.
    pub fn accept_at(
        &self,
        store: &mut CacheStore,
        chunk: TransferChunk,
        owner: Option<NodeId>,
        now: u128,
    ) -> (taken: bool)
        requires
            now <= MAX_NANOS,
        ensures
            taken == (chunk.expires_at_ms != Some(0u64) && (owner matches Some(id) && id.0 == self.local())),
            final(store)@ == (if taken {
                received(old(store)@, chunk.key@, chunk.value@, chunk.expires_at_ms, now)
            } else {
                old(store)@
            }),
    {
        let mine = match owner {
            Some(id) => id == self.local_id,
            None => false,
        };
        // A key without time left is not stored
        let expired = match chunk.expires_at_ms {
            Some(ms) => ms == 0,
            None => false,
        };
        let taken = mine && !expired;
        if taken {
            store.set_from_transfer_at(chunk.key, bytes_from(chunk.value), chunk.expires_at_ms, now);
        }
        taken
    }

    /// Takes in the keys that arrived and belong to this node according to `ring`, at a given
    /// time. Returns the number of keys successfully transferred.
    pub fn pull_keys_from_at(
        &self,
        store: &mut CacheStore,
        ring: &HashRing,
        chunks: Vec<TransferChunk>,
        now: u128,
    ) -> (count: usize)
        requires
            ring.wf(),
            now <= MAX_NANOS,
        ensures
            count == transferred_count(ring.positions(), self.local(), chunks@),
            count <= chunks@.len(),
            final(store)@ == pulled(old(store)@, ring.positions(), self.local(), chunks@, now),
    {
        let ghost all = chunks@;
        let ghost positions = ring.positions();
        let mut count: usize = 0;
        let n: usize = chunks.len();
        assert(all.take(0) =~= Seq::<TransferChunk>::empty());
        for chunk in it: chunks
            invariant
                it.seq() == all,
                ring.wf(),
                positions == ring.positions(),
                now <= MAX_NANOS,
                n == all.len(),
                count <= it.index(),
                count == transferred_count(positions, self.local(), all.take(it.index())),
                store@ == pulled(old(store)@, positions, self.local(), all.take(it.index()), now),
        {
            assert(all.take(it.index() + 1).drop_last() =~= all.take(it.index()));
            assert(all.take(it.index() + 1).last() == chunk);
            // Only accept keys that the hash ring assigns to this node.
            let owner = match ring.get_node(chunk.key.as_str()) {
                Some(node) => Some(node.id),
                None => None,
            };
            if self.accept_at(store, chunk, owner, now) {
                count += 1;
            }
        }
        assert(all.take(all.len() as int) =~= all);
        count
    }

    /// Takes in the keys that arrived and belong to this node according to `ring`.
    /// Returns the number of keys successfully transferred.
    pub fn pull_keys_from(&self, store: &mut CacheStore, ring: &HashRing, chunks: Vec<TransferChunk>) -> (count: usize)
        requires
            ring.wf(),
        ensures
            count == transferred_count(ring.positions(), self.local(), chunks@),
            count <= chunks@.len(),
            exists|now: u128|
                now <= MAX_NANOS && old(store).spec_clock().shows(now) && #[trigger] pulled(old(store)@, ring.positions(), self.local(), chunks@, now)
                    == final(store)@,
    {
        let now = store.now();
        self.pull_keys_from_at(store, ring, chunks, now)
    }

    /// Purges the keys that were deleted during the transfer.
    pub fn apply_tombstones(&self, store: &mut CacheStore, tombstones: &DashSet<String>) -> (count: usize)
        ensures
            final(store)@ == purged(old(store)@, set_content(*tombstones)),
            set_content(*tombstones).finite(),
            count == set_content(*tombstones).len(),
    {
        let keys = set_keys(tombstones);
        let ghost m = store@;
        let ghost names = keys@.map_values(|k: String| k@);
        let mut i: usize = 0;
        assert(purged(m, names.take(0).to_set()) =~= m);
        while i < keys.len()
            invariant
                i <= keys@.len(),
                names == keys@.map_values(|k: String| k@),
                store@ == purged(m, names.take(i as int).to_set()),
            decreases keys@.len() - i,
        {
            store.delete(keys[i].as_str());
            proof {
                let (a, b) = (names.take(i as int), names.take(i + 1));
                assert(b =~= a.push(keys@[i as int]@));
                let key = keys@[i as int]@;
                assert forall|x: Seq<char>| b.contains(x) <==> a.contains(x) || x == key by {
                    if a.contains(x) {
                        assert(b[a.index_of(x)] == x);
                    }
                    if b.contains(x) && x != key {
                        assert(a[b.index_of(x)] == x);
                    }
                    assert(b[i as int] == key);
                }
                assert(b.to_set() =~= a.to_set().insert(key));
                assert(store@ =~= purged(m, b.to_set()));
            }
            i += 1;
        }
        proof {
            assert(names.take(i as int) =~= names);
            let s = set_content(*tombstones);
            assert(names.to_set() =~= s) by {
                assert forall|key: Seq<char>| s.contains(key) implies names.contains(key) by {
                    let k = choose|k: int| 0 <= k < keys@.len() && (#[trigger] keys@[k])@ == key;
                    assert(names[k] == key);
                }
                assert forall|key: Seq<char>| names.contains(key) implies s.contains(key) by {
                    let k = names.index_of(key);
                    assert(s.contains(keys@[k]@));
                }
            }
            assert(names.no_duplicates()) by {
                assert forall|a: int, b: int| 0 <= a < names.len() && 0 <= b < names.len() && a != b implies names[a]
                    != names[b] by {
                    if a < b {
                        assert(keys@[a]@ != keys@[b]@);
                    } else {
                        assert(keys@[b]@ != keys@[a]@);
                    }
                }
            }
            names.unique_seq_to_set();
            vstd::seq_lib::seq_to_set_is_finite(names);
        }
        keys.len()
    }

    /// Ends a rebalance: purges the keys that were deleted during the transfer, and makes the
    /// node Alive. Returns the number of tombstones applied.
    pub fn finish(
        &self,
        store: &mut CacheStore,
        tombstones: &DashSet<String>,
        table: &mut MembershipTable,
    ) -> (count: usize)
        requires
            old(table).wf(),
            old(table)@[old(table).local()].incarnation < u64::MAX,
        ensures
            final(store)@ == purged(old(store)@, set_content(*tombstones)),
            count == set_content(*tombstones).len(),
            final(table).wf(),
            final(table).local() == old(table).local(),
            final(table).spec_clock() == old(table).spec_clock(),
            final(table)@ == self_risen(old(table)@, old(table).local()),
    {
        // Apply tombstones to purge any keys deleted during transfer
        let count = self.apply_tombstones(store, tombstones);
        // Mark self as Alive now that rebalance is complete
        table.mark_self_alive();
        count
    }
}

/// Only keys that the ring assigns to the node arrive there: every other key is as it was.
pub proof fn lemma_only_owned(m: Contents, ring: Positions, id: u128, chunks: Seq<TransferChunk>, now: u128, key: Seq<char>)
    requires
        !owns(ring, id, key),
    ensures
        pulled(m, ring, id, chunks, now).contains_key(key) == m.contains_key(key),
        m.contains_key(key) ==> pulled(m, ring, id, chunks, now)[key] == m[key],
    decreases chunks.len(),
{
    if chunks.len() > 0 {
        lemma_only_owned(m, ring, id, chunks.drop_last(), now, key);
    }
}

/// A key that was deleted while the node joined does not come back: whatever was pulled
/// before and after, it is gone once the tombstones are applied, and no other key is.
pub proof fn lemma_no_resurrection(
    m: Contents,
    ring: Positions,
    id: u128,
    chunks: Seq<TransferChunk>,
    now: u128,
    tombstones: Set<Seq<char>>,
    key: Seq<char>,
)
    ensures
        ({
            let before = pulled(m, ring, id, chunks, now);
            let after = purged(before, tombstones);
            &&& tombstones.contains(key) ==> !after.contains_key(key)
            &&& !tombstones.contains(key) ==> after.contains_key(key) == before.contains_key(key)
            &&& after.contains_key(key) ==> after[key] == before[key]
        }),
{
}

/// A key that the node owns and that one chunk brings with time left is there afterwards, with
/// the value that came last and the time that was left to it.
pub proof fn lemma_owned_arrives(m: Contents, ring: Positions, id: u128, chunks: Seq<TransferChunk>, now: u128, i: int)
    requires
        0 <= i < chunks.len(),
        owns(ring, id, chunks[i].key@),
        chunks[i].expires_at_ms != Some(0u64),
        forall|j: int| i < j < chunks.len() ==> (#[trigger] chunks[j]).key@ != chunks[i].key@,
    ensures
        pulled(m, ring, id, chunks, now).contains_key(chunks[i].key@),
        pulled(m, ring, id, chunks, now)[chunks[i].key@].0 == chunks[i].value@,
        pulled(m, ring, id, chunks, now)[chunks[i].key@].1 == expiry(ttl_nanos(chunks[i].expires_at_ms), now),
    decreases chunks.len(),
{
    if i < chunks.len() - 1 {
        let front = chunks.drop_last();
        assert(front[i] == chunks[i]);
        assert(forall|j: int| i < j < front.len() ==> #[trigger] front[j] == chunks[j]);
        lemma_owned_arrives(m, ring, id, front, now, i);
        assert(chunks[chunks.len() - 1].key@ != chunks[i].key@);
    }
}

/// A key comes from a chunk that brought it, or was there before.
proof fn lemma_comes_from(m: Contents, ring: Positions, id: u128, chunks: Seq<TransferChunk>, now: u128, key: Seq<char>)
    ensures
        pulled(m, ring, id, chunks, now).contains_key(key) ==> m.contains_key(key) || exists|i: int|
            0 <= i < chunks.len() && (#[trigger] chunks[i]).key@ == key,
    decreases chunks.len(),
{
    if chunks.len() > 0 {
        let front = chunks.drop_last();
        lemma_comes_from(m, ring, id, front, now, key);
        if exists|i: int| 0 <= i < front.len() && (#[trigger] front[i]).key@ == key {
            let i = choose|i: int| 0 <= i < front.len() && (#[trigger] front[i]).key@ == key;
            assert(chunks[i].key@ == key);
        }
        if chunks.last().key@ == key {
            assert(chunks[chunks.len() - 1].key@ == key);
        }
    }
}

/// A node that pulls what another sends takes over every key that it owns, with its value and
/// the time that was left to it, unless that is less than a millisecond. It gets no key that the other did not hold.
pub proof fn lemma_pull_takes_over(
    source: Contents,
    sent_at: u128,
    chunks: Seq<TransferChunk>,
    m: Contents,
    ring: Positions,
    id: u128,
    now: u128,
    key: Seq<char>,
)
    requires
        transfers(as_transfers(chunks), source, sent_at),
    ensures
        ({
            let after = pulled(m, ring, id, chunks, now);
            &&& holds(source, key, sent_at) && owns(ring, id, key) && sent_as(source[key], sent_at).1 != Some(0u64) ==> {
                &&& after.contains_key(key)
                &&& after[key].0 == source[key].0
                &&& after[key].1 == expiry(ttl_nanos(sent_as(source[key], sent_at).1), now)
            }
            &&& after.contains_key(key) && !m.contains_key(key) ==> holds(source, key, sent_at) && owns(ring, id, key)
        }),
{
    let entries = as_transfers(chunks);
    if holds(source, key, sent_at) && owns(ring, id, key) && sent_as(source[key], sent_at).1 != Some(0u64) {
        let i = choose|i: int| 0 <= i < entries.len() && (#[trigger] entries[i]).0@ == key;
        assert(entries[i].0@ == chunks[i].key@);
        assert((entries[i].1@, entries[i].2) == sent_as(source[key], sent_at));
        assert forall|j: int| i < j < chunks.len() implies (#[trigger] chunks[j]).key@ != chunks[i].key@ by {
            assert(entries[i].0@ != entries[j].0@);
        }
        lemma_owned_arrives(m, ring, id, chunks, now, i);
    }
    if pulled(m, ring, id, chunks, now).contains_key(key) && !m.contains_key(key) {
        lemma_comes_from(m, ring, id, chunks, now, key);
        let i = choose|i: int| 0 <= i < chunks.len() && (#[trigger] chunks[i]).key@ == key;
        assert(holds(source, entries[i].0@, sent_at));
        if !owns(ring, id, key) {
            lemma_only_owned(m, ring, id, chunks, now, key);
        }
    }
}

proof fn lemma_placed(nodes: Seq<NodeView>, p: u64)
    ensures
        placed(nodes).contains_key(p) <==> exists|j: int, i: nat|
            0 <= j < nodes.len() && i < 150 && #[trigger] vnode_position((#[trigger] nodes[j]).id, i) == p,
        placed(nodes).contains_key(p) ==> exists|j: int, i: nat|
            {
                &&& 0 <= j < nodes.len()
                &&& i < 150
                &&& #[trigger] vnode_position((#[trigger] nodes[j]).id, i) == p
                &&& placed(nodes)[p] == nodes[j].id
                &&& forall|k: int, l: nat|
                    j < k < nodes.len() && l < 150 ==> #[trigger] vnode_position((#[trigger] nodes[k]).id, l) != p
            },
    decreases nodes.len(),
{
    if nodes.len() > 0 {
        let front = nodes.drop_last();
        let last = nodes.len() - 1;
        let id = nodes[last].id;
        lemma_placed(front, p);
        lemma_vnodes_on_ring(placed(front), id, 150, p);
        assert(forall|j: int| 0 <= j < front.len() ==> #[trigger] front[j] == nodes[j]);
        assert(placed(nodes) == with_vnodes(placed(front), id, 150));
        if exists|i: nat| i < 150 && #[trigger] vnode_position(id, i) == p {
            let i = choose|i: nat| i < 150 && #[trigger] vnode_position(id, i) == p;
            assert(vnode_position(nodes[last].id, i) == p);
            assert(placed(nodes)[p] == nodes[last].id);
        } else {
            if placed(front).contains_key(p) {
                let (j, i) = choose|j: int, i: nat|
                    {
                        &&& 0 <= j < front.len()
                        &&& i < 150
                        &&& #[trigger] vnode_position((#[trigger] front[j]).id, i) == p
                        &&& placed(front)[p] == front[j].id
                        &&& forall|k: int, l: nat|
                            j < k < front.len() && l < 150 ==> #[trigger] vnode_position((#[trigger] front[k]).id, l) != p
                    };
                assert(vnode_position(nodes[j].id, i) == p);
                assert forall|k: int, l: nat| j < k < nodes.len() && l < 150 implies #[trigger] vnode_position(
                    (#[trigger] nodes[k]).id,
                    l,
                ) != p by {
                    if k < last {
                        assert(vnode_position(front[k].id, l) != p);
                    }
                }
            }
            if exists|j: int, i: nat|
                0 <= j < nodes.len() && i < 150 && #[trigger] vnode_position((#[trigger] nodes[j]).id, i) == p {
                let (j, i) = choose|j: int, i: nat|
                    0 <= j < nodes.len() && i < 150 && #[trigger] vnode_position((#[trigger] nodes[j]).id, i) == p;
                assert(j < last);
                assert(vnode_position(front[j].id, i) == p);
            }
        }
    } else {
        assert(!placed(nodes).contains_key(p));
    }
}

/// On the ring of a plan every node of the list holds its 150 positions: each of them is taken, by
/// the node itself or by a later one that has the same position. No other position is taken.
pub proof fn lemma_planned_ring(nodes: Seq<NodeView>, j: int, i: nat, p: u64)
    ensures
        0 <= j < nodes.len() && i < 150 ==> {
            let at = vnode_position(nodes[j].id, i);
            &&& placed(nodes).contains_key(at)
            &&& placed(nodes)[at] == nodes[j].id || exists|k: int, l: nat|
                j < k < nodes.len() && l < 150 && #[trigger] vnode_position((#[trigger] nodes[k]).id, l) == at
                    && placed(nodes)[at] == nodes[k].id
        },
        placed(nodes).contains_key(p) ==> exists|k: int, l: nat|
            0 <= k < nodes.len() && l < 150 && #[trigger] vnode_position((#[trigger] nodes[k]).id, l) == p
                && placed(nodes)[p] == nodes[k].id,
{
    lemma_placed(nodes, p);
    if 0 <= j < nodes.len() && i < 150 {
        let at = vnode_position(nodes[j].id, i);
        lemma_placed(nodes, at);
        let (k, l) = choose|k: int, l: nat|
            {
                &&& 0 <= k < nodes.len()
                &&& l < 150
                &&& #[trigger] vnode_position((#[trigger] nodes[k]).id, l) == at
                &&& placed(nodes)[at] == nodes[k].id
                &&& forall|a: int, b: nat|
                    k < a < nodes.len() && b < 150 ==> #[trigger] vnode_position((#[trigger] nodes[a]).id, b) != at
            };
        assert(k >= j);
        if k > j {
            assert(vnode_position(nodes[k].id, l) == at);
        }
    }
}

/// A key at a position of a peer belongs to that peer, and not to the node that joins, unless a
/// later node has the same position.
pub proof fn lemma_peers_keep_their_keys(nodes: Seq<NodeView>, j: int, i: nat, id: u128, key: Seq<char>)
    requires
        0 <= j < nodes.len(),
        i < 150,
        key_position(key) == vnode_position(nodes[j].id, i),
        forall|k: int, l: nat|
            j < k < nodes.len() && l < 150 ==> #[trigger] vnode_position((#[trigger] nodes[k]).id, l) != key_position(key),
    ensures
        owns(placed(nodes), id, key) <==> id == nodes[j].id,
{
    let at = key_position(key);
    lemma_planned_ring(nodes, j, i, at);
    lemma_holder_owns(placed(nodes), at);
    assert(placed(nodes).dom().contains(at));
}

/// A key belongs to the node that holds the next position clockwise.
pub proof fn lemma_owned_by_next(ring: Positions, id: u128, key: Seq<char>, p: u64)
    requires
        ring.contains_key(p),
        ({
            let h = key_position(key);
            (p >= h && forall|q: u64| #[trigger] ring.contains_key(q) ==> q < h || p <= q) || (forall|q: u64| #[trigger]
                ring.contains_key(q) ==> q < h && p <= q)
        }),
    ensures
        owns(ring, id, key) <==> ring[p] == id,
{
    lemma_owner_is_next(ring, key_position(key), p);
    assert(ring.dom().contains(p));
}

/// What is counted as transferred are the chunks whose key the node owns and that have time left.
pub proof fn lemma_transferred(ring: Positions, id: u128, chunks: Seq<TransferChunk>)
    ensures
        transferred_count(ring, id, chunks) == chunks.filter(
            |c: TransferChunk| owns(ring, id, c.key@) && c.expires_at_ms != Some(0u64),
        ).len(),
    decreases chunks.len(),
{
    reveal(Seq::filter);
    if chunks.len() > 0 {
        lemma_transferred(ring, id, chunks.drop_last());
    }
}

/// The peers to pull from are all but the node itself, in their order.
pub proof fn lemma_sources(peers: Seq<NodeView>, id: u128)
    ensures
        others(peers, id) == peers.filter(|n: NodeView| n.id != id),
    decreases peers.len(),
{
    reveal(Seq::filter);
    if peers.len() > 0 {
        lemma_sources(peers.drop_last(), id);
    } else {
        assert(others(peers, id) =~= peers);
    }
}

/// Chunks are taken in one after the other: one whose key the node owns and that has time left is
/// stored for that time, or for good if it does not expire, and any other changes nothing.
pub proof fn lemma_pulled_in_turn(
    m: Contents,
    ring: Positions,
    id: u128,
    chunks: Seq<TransferChunk>,
    chunk: TransferChunk,
    now: u128,
)
    requires
        now <= MAX_NANOS,
    ensures
        pulled(m, ring, id, Seq::empty(), now) == m,
        ({
            let before = pulled(m, ring, id, chunks, now);
            let after = pulled(m, ring, id, chunks.push(chunk), now);
            match chunk.expires_at_ms {
                None => after == (if owns(ring, id, chunk.key@) {
                    before.insert(chunk.key@, (chunk.value@, None))
                } else {
                    before
                }),
                Some(ms) => after == (if owns(ring, id, chunk.key@) && ms > 0 {
                    before.insert(chunk.key@, (chunk.value@, Some((now + ms * 1_000_000) as u128)))
                } else {
                    before
                }),
            }
        }),
{
    assert(chunks.push(chunk).drop_last() =~= chunks);
}

} // verus!
