//! Consistent hashing: which nodes are responsible for a key.
use std::collections::HashSet;
use vstd::prelude::*;
use vstd::utf8::encode_utf8;
use crate::node::{hyphenated, node_views, NodeId, NodeInfo, NodeView};
use crate::text::{digits, lemma_digits_are_digits, lemma_read_decimal, push_digits, read_int, IntError};

verus! {

broadcast use vstd::std_specs::hash::group_hash_axioms;

/// Places of a node on the ring, where nothing else is asked for.
pub const DEFAULT_VNODE_COUNT: usize = 150;

/// The 64-bit XXH3 hash of the bytes.
pub uninterp spec fn xxh3(bytes: Seq<u8>) -> u64;

/// `xxhash_rust::xxh3::xxh3_64` hashes with a fixed seed and secret, so the hash depends on the
/// bytes alone.
pub assume_specification[ xxhash_rust::xxh3::xxh3_64 ](input: &[u8]) -> (hash: u64)
    ensures
        hash == xxh3(input@),
;

/// The owners of the positions of a ring.
pub type Positions = Map<u64, u128>;

/// The position of a key.
pub open spec fn key_position(key: Seq<char>) -> u64 {
    xxh3(encode_utf8(key))
}

/// The text that is hashed for a virtual node: `<id>-<index>`.
pub open spec fn vnode_text(id: u128, index: nat) -> Seq<u8> {
    encode_utf8(hyphenated(id)) + seq![45u8] + digits(index)
}

/// The position of a virtual node.
pub open spec fn vnode_position(id: u128, index: nat) -> u64 {
    xxh3(vnode_text(id, index))
}

/// The ring with the first `count` virtual nodes of a node put on it. Where a position was
/// taken, it changes hands.
pub open spec fn with_vnodes(ring: Positions, id: u128, count: nat) -> Positions
    decreases count,
{
    if count == 0 {
        ring
    } else {
        with_vnodes(ring, id, (count - 1) as nat).insert(vnode_position(id, (count - 1) as nat), id)
    }
}

/// The ring with several positions given to a node, one after the other.
pub open spec fn with_positions(ring: Positions, id: u128, at: Seq<u64>) -> Positions
    decreases at.len(),
{
    if at.len() == 0 {
        ring
    } else {
        with_positions(ring, id, at.drop_last()).insert(at.last(), id)
    }
}

/// The ring without the positions of a node.
pub open spec fn without(ring: Positions, id: u128) -> Positions {
    Map::new(|p: u64| ring.contains_key(p) && ring[p] != id, |p: u64| ring[p])
}

/// The way from one position to another, clockwise.
pub open spec fn clockwise(from: u64, to: u64) -> int {
    if to >= from {
        to - from
    } else {
        to + 0x1_0000_0000_0000_0000 - from
    }
}

/// The position `p` is the first that is met clockwise from `h`.
pub open spec fn is_next(ring: Positions, h: u64, p: u64) -> bool {
    ring.contains_key(p) && forall|q: u64| #[trigger] ring.contains_key(q) ==> clockwise(h, p) <= clockwise(h, q)
}

/// The first position that is met clockwise from `h`.
pub open spec fn next_position(ring: Positions, h: u64) -> u64 {
    choose|p: u64| is_next(ring, h, p)
}

/// The node that is responsible for the position `h` of a ring that is not empty.
pub open spec fn owner(ring: Positions, h: u64) -> u128 {
    ring[next_position(ring, h)]
}

/// The first `n` different nodes met clockwise from `h`, or all of them if there are fewer.
pub open spec fn preference(ring: Positions, h: u64, n: nat) -> Seq<u128>
    decreases n,
{
    if n == 0 || ring.dom() == Set::<u64>::empty() {
        seq![]
    } else {
        let id = owner(ring, h);
        seq![id] + preference(without(ring, id), h, (n - 1) as nat)
    }
}

/// The first node with the identity.
pub open spec fn node_with(nodes: Seq<NodeView>, id: u128) -> Option<NodeView>
    decreases nodes.len(),
{
    if nodes.len() == 0 {
        None
    } else if nodes[0].id == id {
        Some(nodes[0])
    } else {
        node_with(nodes.skip(1), id)
    }
}

/// The nodes without those that have the identity.
pub open spec fn nodes_without(nodes: Seq<NodeView>, id: u128) -> Seq<NodeView>
    decreases nodes.len(),
{
    if nodes.len() == 0 {
        seq![]
    } else {
        let front = nodes_without(nodes.drop_last(), id);
        if nodes.last().id == id {
            front
        } else {
            front.push(nodes.last())
        }
    }
}

/// Somewhere among the nodes is one with the identity.
pub open spec fn has_node(nodes: Seq<NodeView>, id: u128) -> bool {
    exists|i: int| 0 <= i < nodes.len() && (#[trigger] nodes[i]).id == id
}

proof fn lemma_node_with(nodes: Seq<NodeView>, id: u128)
    ensures
        node_with(nodes, id) is Some <==> has_node(nodes, id),
        node_with(nodes, id) matches Some(node) ==> node.id == id,
    decreases nodes.len(),
{
    if nodes.len() > 0 && nodes[0].id != id {
        let rest = nodes.skip(1);
        lemma_node_with(rest, id);
        if has_node(nodes, id) {
            let i = choose|i: int| 0 <= i < nodes.len() && (#[trigger] nodes[i]).id == id;
            assert(rest[i - 1].id == id);
        }
        if has_node(rest, id) {
            let i = choose|i: int| 0 <= i < rest.len() && (#[trigger] rest[i]).id == id;
            assert(nodes[i + 1].id == id);
        }
    }
}

pub proof fn lemma_nodes_without(nodes: Seq<NodeView>, id: u128, other: u128)
    ensures
        has_node(nodes_without(nodes, id), other) <==> other != id && has_node(nodes, other),
    decreases nodes.len(),
{
    if nodes.len() > 0 {
        let front = nodes.drop_last();
        let kept = nodes_without(front, id);
        lemma_nodes_without(front, id, other);
        let all = nodes_without(nodes, id);
        if has_node(front, other) {
            let i = choose|i: int| 0 <= i < front.len() && (#[trigger] front[i]).id == other;
            assert(nodes[i].id == other);
        }
        if has_node(kept, other) {
            let i = choose|i: int| 0 <= i < kept.len() && (#[trigger] kept[i]).id == other;
            assert(all[i].id == other);
        }
        if has_node(nodes, other) && nodes.last().id != other {
            let i = choose|i: int| 0 <= i < nodes.len() && (#[trigger] nodes[i]).id == other;
            assert(front[i].id == other);
        }
        if nodes.last().id != id {
            assert(all[all.len() - 1] == nodes.last());
            if has_node(all, other) && nodes.last().id != other {
                let i = choose|i: int| 0 <= i < all.len() && (#[trigger] all[i]).id == other;
                assert(kept[i].id == other);
            }
        }
        if nodes.last().id == other {
            assert(nodes[nodes.len() - 1].id == other);
        }
    }
}

/// Every ring that is not empty has a position that is met first.
pub proof fn lemma_next_position(ring: Positions, h: u64)
    requires
        ring.dom() != Set::<u64>::empty(),
    ensures
        is_next(ring, h, next_position(ring, h)),
{
    assert(exists|p: u64| ring.contains_key(p)) by {
        if forall|p: u64| !ring.contains_key(p) {
            assert(ring.dom() =~= Set::<u64>::empty());
        }
    }
    let p = choose|p: u64| ring.contains_key(p);
    lemma_closer(ring, h, p);
}

proof fn lemma_closer(ring: Positions, h: u64, p: u64)
    requires
        ring.contains_key(p),
    ensures
        exists|q: u64| is_next(ring, h, q),
    decreases clockwise(h, p),
{
    if !is_next(ring, h, p) {
        let q = choose|q: u64| #[trigger] ring.contains_key(q) && clockwise(h, q) < clockwise(h, p);
        lemma_closer(ring, h, q);
    }
}

/// No two positions are equally far.
proof fn lemma_next_is(ring: Positions, h: u64, p: u64)
    requires
        is_next(ring, h, p),
    ensures
        next_position(ring, h) == p,
        owner(ring, h) == ring[p],
{
    let q = next_position(ring, h);
    assert(is_next(ring, h, q));
    assert(clockwise(h, p) == clockwise(h, q));
}

/// The entries stand in the order of their positions, and no position occurs twice.
spec fn increasing(s: Seq<(u64, u128)>) -> bool {
    forall|i: int, j: int| 0 <= i < j < s.len() ==> (#[trigger] s[i]).0 < (#[trigger] s[j]).0
}

spec fn entry_at(s: Seq<(u64, u128)>, p: u64, i: int) -> bool {
    0 <= i < s.len() && s[i].0 == p
}

spec fn positions_of(s: Seq<(u64, u128)>) -> Positions {
    Map::new(|p: u64| exists|i: int| entry_at(s, p, i), |p: u64| s[choose|i: int| entry_at(s, p, i)].1)
}

proof fn lemma_positions_of(s: Seq<(u64, u128)>)
    requires
        increasing(s),
    ensures
        forall|i: int|
            0 <= i < s.len() ==> positions_of(s).contains_key((#[trigger] s[i]).0) && positions_of(s)[s[i].0] == s[i].1,
        forall|p: u64| #[trigger] positions_of(s).contains_key(p) ==> exists|i: int| entry_at(s, p, i),
{
    assert forall|i: int| 0 <= i < s.len() implies positions_of(s).contains_key((#[trigger] s[i]).0) && positions_of(
        s,
    )[s[i].0] == s[i].1 by {
        assert(entry_at(s, s[i].0, i));
        let j = choose|j: int| entry_at(s, s[i].0, j);
        assert(i == j);
    }
}

/// One more entry behind the last is one more position.
proof fn lemma_pushed(s: Seq<(u64, u128)>, x: (u64, u128))
    requires
        increasing(s),
        forall|i: int| 0 <= i < s.len() ==> (#[trigger] s[i]).0 < x.0,
    ensures
        increasing(s.push(x)),
        positions_of(s.push(x)) == positions_of(s).insert(x.0, x.1),
        !positions_of(s).contains_key(x.0),
{
    let t = s.push(x);
    lemma_positions_of(s);
    lemma_positions_of(t);
    let want = positions_of(s).insert(x.0, x.1);
    assert(t[s.len() as int] == x);
    assert forall|p: u64| positions_of(t).contains_key(p) <==> want.contains_key(p) by {
        if positions_of(t).contains_key(p) {
            let i = choose|i: int| entry_at(t, p, i);
            assert(i < s.len() ==> entry_at(s, p, i));
        }
        if positions_of(s).contains_key(p) {
            let i = choose|i: int| entry_at(s, p, i);
            assert(entry_at(t, p, i));
        }
    }
    assert forall|p: u64| positions_of(t).contains_key(p) implies positions_of(t)[p] == want[p] by {
        let i = choose|i: int| entry_at(t, p, i);
        assert(positions_of(t)[t[i].0] == t[i].1);
        if i < s.len() {
            assert(positions_of(s)[s[i].0] == s[i].1);
        }
    }
    assert(positions_of(t) =~= want);
}

/// Another owner for the entry at `at`.
proof fn lemma_replaced(s: Seq<(u64, u128)>, at: int, pos: u64, id: u128)
    requires
        increasing(s),
        0 <= at < s.len(),
        s[at].0 == pos,
    ensures
        increasing(s.update(at, (pos, id))),
        positions_of(s.update(at, (pos, id))) == positions_of(s).insert(pos, id),
{
    let t = s.update(at, (pos, id));
    assert forall|i: int| 0 <= i < s.len() implies (#[trigger] t[i]).0 == s[i].0 by {}
    assert(increasing(t)) by {
        assert forall|i: int, j: int| 0 <= i < j < t.len() implies (#[trigger] t[i]).0 < (#[trigger] t[j]).0 by {
            assert(s[i].0 < s[j].0);
        }
    }
    lemma_positions_of(s);
    lemma_positions_of(t);
    let want = positions_of(s).insert(pos, id);
    assert forall|p: u64| positions_of(t).contains_key(p) <==> want.contains_key(p) by {
        if positions_of(t).contains_key(p) {
            let i = choose|i: int| entry_at(t, p, i);
            assert(entry_at(s, p, i));
        }
        if positions_of(s).contains_key(p) {
            let i = choose|i: int| entry_at(s, p, i);
            assert(entry_at(t, p, i));
        }
        assert(entry_at(t, pos, at));
    }
    assert forall|p: u64| positions_of(t).contains_key(p) implies positions_of(t)[p] == want[p] by {
        let i = choose|i: int| entry_at(t, p, i);
        assert(positions_of(t)[t[i].0] == t[i].1);
        assert(positions_of(s)[s[i].0] == s[i].1);
    }
    assert(positions_of(t) =~= want);
}

/// One more entry between those before and those behind it.
proof fn lemma_inserted(s: Seq<(u64, u128)>, at: int, pos: u64, id: u128)
    requires
        increasing(s),
        0 <= at <= s.len(),
        forall|i: int| 0 <= i < at ==> (#[trigger] s[i]).0 < pos,
        forall|i: int| at <= i < s.len() ==> (#[trigger] s[i]).0 > pos,
    ensures
        increasing(s.insert(at, (pos, id))),
        positions_of(s.insert(at, (pos, id))) == positions_of(s).insert(pos, id),
{
    let t = s.insert(at, (pos, id));
    assert(forall|i: int| 0 <= i < at ==> #[trigger] t[i] == s[i]);
    assert(t[at] == (pos, id));
    assert(forall|i: int| at < i < t.len() ==> #[trigger] t[i] == s[i - 1]);
    lemma_insert_increasing(s, t, at, pos);
    lemma_positions_of(s);
    lemma_positions_of(t);
    let want = positions_of(s).insert(pos, id);
    assert forall|p: u64| positions_of(t).contains_key(p) <==> want.contains_key(p) by {
        if positions_of(t).contains_key(p) {
            let i = choose|i: int| entry_at(t, p, i);
            assert(i < at ==> entry_at(s, p, i));
            assert(i > at ==> entry_at(s, p, i - 1));
        }
        if positions_of(s).contains_key(p) {
            let i = choose|i: int| entry_at(s, p, i);
            assert(i < at ==> entry_at(t, p, i));
            assert(i >= at ==> t[i + 1] == s[i] && entry_at(t, p, i + 1));
        }
        assert(entry_at(t, pos, at));
    }
    assert forall|p: u64| positions_of(t).contains_key(p) implies positions_of(t)[p] == want[p] by {
        let i = choose|i: int| entry_at(t, p, i);
        assert(positions_of(t)[t[i].0] == t[i].1);
        if i < at {
            assert(positions_of(s)[s[i].0] == s[i].1);
        } else if i > at {
            assert(positions_of(s)[s[i - 1].0] == s[i - 1].1);
        }
    }
    assert(positions_of(t) =~= want);
}

proof fn lemma_insert_increasing(s: Seq<(u64, u128)>, t: Seq<(u64, u128)>, at: int, pos: u64)
    requires
        increasing(s),
        0 <= at <= s.len(),
        t.len() == s.len() + 1,
        forall|i: int| 0 <= i < at ==> (#[trigger] s[i]).0 < pos,
        forall|i: int| at <= i < s.len() ==> (#[trigger] s[i]).0 > pos,
        forall|i: int| 0 <= i < at ==> #[trigger] t[i] == s[i],
        t[at].0 == pos,
        forall|i: int| at < i < t.len() ==> #[trigger] t[i] == s[i - 1],
    ensures
        increasing(t),
{
    assert forall|i: int, j: int| 0 <= i < j < t.len() implies (#[trigger] t[i]).0 < (#[trigger] t[j]).0 by {
        if i < at {
            assert(t[i] == s[i]);
            if j > at {
                assert(s[i].0 < s[j - 1].0);
            }
        } else if i == at {
            assert(t[j] == s[j - 1]);
        } else {
            assert(t[i] == s[i - 1]);
            assert(t[j] == s[j - 1]);
            assert(s[i - 1].0 < s[j - 1].0);
        }
    }
}

/// The entries that do not belong to the node.
spec fn kept(s: Seq<(u64, u128)>, id: u128) -> Seq<(u64, u128)>
    decreases s.len(),
{
    if s.len() == 0 {
        seq![]
    } else if s.last().1 == id {
        kept(s.drop_last(), id)
    } else {
        kept(s.drop_last(), id).push(s.last())
    }
}

proof fn lemma_kept(s: Seq<(u64, u128)>, id: u128)
    requires
        increasing(s),
    ensures
        increasing(kept(s, id)),
        positions_of(kept(s, id)) == without(positions_of(s), id),
    decreases s.len(),
{
    if s.len() == 0 {
        assert forall|p: u64| !positions_of(s).contains_key(p) by {
            assert(forall|i: int| !entry_at(s, p, i));
        }
        assert(kept(s, id) =~= s);
        assert(positions_of(kept(s, id)) =~= without(positions_of(s), id));
    } else {
        let front = s.drop_last();
        let x = s.last();
        lemma_kept(front, id);
        assert(front.push(x) =~= s);
        lemma_pushed(front, x);
        if x.1 != id {
            let k = kept(front, id);
            lemma_positions_of(k);
            lemma_positions_of(front);
            assert forall|i: int| 0 <= i < k.len() implies (#[trigger] k[i]).0 < x.0 by {
                assert(positions_of(k).contains_key(k[i].0));
                assert(positions_of(front).contains_key(k[i].0));
                let j = choose|j: int| entry_at(front, k[i].0, j);
                assert(front[j].0 < x.0);
            }
            lemma_pushed(k, x);
        }
        assert(positions_of(kept(s, id)) =~= without(positions_of(s), id));
    }
}

/// The walk clockwise from `h` meets the entry at `at` first.
spec fn starts_at(s: Seq<(u64, u128)>, h: u64, at: int) -> bool {
    ||| {
        &&& forall|i: int| 0 <= i < at ==> (#[trigger] s[i]).0 < h
        &&& forall|i: int| at <= i < s.len() ==> (#[trigger] s[i]).0 >= h
    }
    ||| at == 0 && forall|i: int| 0 <= i < s.len() ==> (#[trigger] s[i]).0 < h
}

/// The entry that is met after `k` others on the walk round a ring, from the entry `at`.
spec fn walk(len: int, at: int, k: int) -> int {
    if k < len - at {
        at + k
    } else {
        k - (len - at)
    }
}

/// The ring without the positions of several nodes.
spec fn minus(ring: Positions, ids: Set<u128>) -> Positions {
    Map::new(|p: u64| ring.contains_key(p) && !ids.contains(ring[p]), |p: u64| ring[p])
}

/// The walk goes clockwise: once it has met the entries of `seen` only, the first entry of
/// another node is the next position of what is left.
proof fn lemma_walk_next(s: Seq<(u64, u128)>, h: u64, at: int, k: int, seen: Set<u128>)
    requires
        increasing(s),
        0 <= at < s.len(),
        0 <= k < s.len(),
        starts_at(s, h, at),
        forall|j: int| 0 <= j < k ==> seen.contains(s[walk(s.len() as int, at, j)].1),
        !seen.contains(s[walk(s.len() as int, at, k)].1),
    ensures
        is_next(minus(positions_of(s), seen), h, s[walk(s.len() as int, at, k)].0),
        minus(positions_of(s), seen)[s[walk(s.len() as int, at, k)].0] == s[walk(s.len() as int, at, k)].1,
{
    lemma_positions_of(s);
    let ring = positions_of(s);
    let len = s.len() as int;
    let i = walk(len, at, k);
    assert(ring.contains_key(s[i].0));
    assert(ring[s[i].0] == s[i].1);
    assert forall|q: u64| #[trigger] minus(ring, seen).contains_key(q) implies clockwise(h, s[i].0) <= clockwise(h, q) by {
        let m = choose|m: int| entry_at(s, q, m);
        assert(ring[s[m].0] == s[m].1);
        let j = if m >= at { m - at } else { m + len - at };
        assert(walk(len, at, j) == m);
        assert(j >= k);
        if m < i {
            assert(s[m].0 < s[i].0);
        } else if i < m {
            assert(s[i].0 < s[m].0);
        }
    }
}

/// The nodes are those with the identities, as the ring knows them.
pub open spec fn lists_nodes(nodes: Seq<NodeInfo>, ids: Seq<u128>, all: Seq<NodeView>) -> bool {
    &&& nodes.len() == ids.len()
    &&& forall|i: int|
        0 <= i < nodes.len() ==> (#[trigger] nodes[i])@.id == ids[i] && node_with(all, ids[i]) == Some(nodes[i]@)
}

/// A consistent-hash ring over the nodes of a cluster.
pub struct HashRing {
    ring: Vec<(u64, u128)>,
    nodes: Vec<NodeInfo>,
    vnode_count: usize,
}

impl HashRing {
    /// The positions that are taken, with their owners.
    pub closed spec fn positions(&self) -> Positions {
        positions_of(self.ring@)
    }

    /// The nodes, in the order in which they were added.
    pub closed spec fn node_list(&self) -> Seq<NodeView> {
        node_views(self.nodes@)
    }

    /// How many positions each node takes.
    pub closed spec fn vnodes(&self) -> nat {
        self.vnode_count as nat
    }

    spec fn ordered(&self) -> bool {
        increasing(self.ring@)
    }

    /// Every position belongs to a node of the ring.
    pub closed spec fn wf(&self) -> bool {
        &&& self.ordered()
        &&& forall|p: u64| #[trigger]
            self.positions().contains_key(p) ==> has_node(self.node_list(), self.positions()[p])
    }

    /// Every position belongs to a node of the ring.
    pub proof fn lemma_owners_are_nodes(&self, p: u64)
        requires
            self.wf(),
            self.positions().contains_key(p),
        ensures
            has_node(self.node_list(), self.positions()[p]),
    {
    }

    pub fn new() -> (ring: Self)
        ensures
            ring.wf(),
            ring.positions() == Map::<u64, u128>::empty(),
            ring.node_list() == Seq::<NodeView>::empty(),
            ring.vnodes() == 150,
    {
        Self::with_vnode_count(DEFAULT_VNODE_COUNT)
    }

    pub fn with_vnode_count(vnode_count: usize) -> (ring: Self)
        ensures
            ring.wf(),
            ring.positions() == Map::<u64, u128>::empty(),
            ring.node_list() == Seq::<NodeView>::empty(),
            ring.vnodes() == vnode_count,
    {
        let ring = Self { ring: Vec::new(), nodes: Vec::new(), vnode_count };
        assert(ring.positions() =~= Map::<u64, u128>::empty()) by {
            assert forall|p: u64| !ring.positions().contains_key(p) by {
                assert(forall|i: int| !entry_at(ring.ring@, p, i));
            }
        }
        assert(ring.node_list() =~= Seq::<NodeView>::empty());
        ring
    }

    /// Hash a string to a u64 position using xxh3
    fn hash_key(key: &str) -> (pos: u64)
        ensures
            pos == key_position(key@),
    {
        xxhash_rust::xxh3::xxh3_64(key.as_bytes())
    }

    /// Hash a virtual node identifier to a ring position
    fn hash_vnode(node_id: &NodeId, vnode_index: usize) -> (pos: u64)
        ensures
            pos == vnode_position(node_id.0, vnode_index as nat),
    {
        let id = node_id.to_string();
        let mut key = vstd::slice::slice_to_vec(id.as_str().as_bytes());
        key.push(45);
        push_digits(&mut key, vnode_index as u64);
        assert(key@ =~= vnode_text(node_id.0, vnode_index as nat));
        xxhash_rust::xxh3::xxh3_64(key.as_slice())
    }

    /// The index of the first entry whose position is not before `pos`.
    fn lower_bound(&self, pos: u64) -> (at: usize)
        requires
            self.ordered(),
        ensures
            at <= self.ring@.len(),
            forall|i: int| 0 <= i < at ==> (#[trigger] self.ring@[i]).0 < pos,
            forall|i: int| at <= i < self.ring@.len() ==> (#[trigger] self.ring@[i]).0 >= pos,
    {
        let mut lo: usize = 0;
        let mut hi: usize = self.ring.len();
        while lo < hi
            invariant
                lo <= hi <= self.ring@.len(),
                self.ordered(),
                forall|i: int| 0 <= i < lo ==> (#[trigger] self.ring@[i]).0 < pos,
                forall|i: int| hi <= i < self.ring@.len() ==> (#[trigger] self.ring@[i]).0 >= pos,
            decreases hi - lo,
        {
            let mid: usize = lo + (hi - lo) / 2;
            if self.ring[mid].0 < pos {
                lo = mid + 1;
            } else {
                hi = mid;
            }
        }
        lo
    }

    /// Gives a position to a node.
    fn put(&mut self, pos: u64, id: u128)
        requires
            old(self).ordered(),
        ensures
            final(self).ordered(),
            final(self).positions() == old(self).positions().insert(pos, id),
            final(self).nodes == old(self).nodes,
            final(self).vnode_count == old(self).vnode_count,
    {
        let at = self.lower_bound(pos);
        let ghost before = self.ring@;
        if at < self.ring.len() && self.ring[at].0 == pos {
            self.ring.set(at, (pos, id));
            proof {
                lemma_replaced(before, at as int, pos, id);
            }
        } else {
            self.ring.insert(at, (pos, id));
            proof {
                lemma_inserted(before, at as int, pos, id);
            }
        }
    }

    /// Add a node to the ring with virtual nodes
    pub fn add_node(&mut self, info: NodeInfo)
        requires
            old(self).wf(),
        ensures
            final(self).wf(),
            final(self).positions() == with_vnodes(old(self).positions(), info.id.0, old(self).vnodes()),
            final(self).node_list() == old(self).node_list().push(info@),
            final(self).vnodes() == old(self).vnodes(),
    {
        let mut at: Vec<u64> = Vec::new();
        let mut i: usize = 0;
        while i < self.vnode_count
            invariant
                i <= self.vnode_count,
                at@.len() == i,
                forall|k: int| 0 <= k < i ==> #[trigger] at@[k] == vnode_position(info.id.0, k as nat),
            decreases self.vnode_count - i,
        {
            at.push(Self::hash_vnode(&info.id, i));
            i += 1;
        }
        proof {
            lemma_vnodes_are_positions(self.positions(), info.id.0, at@);
        }
        self.add_node_at(info, at.as_slice());
    }

    /// Add a node to the ring at given positions. A position that was taken changes hands.
    pub fn add_node_at(&mut self, info: NodeInfo, at: &[u64])
        requires
            old(self).wf(),
        ensures
            final(self).wf(),
            final(self).positions() == with_positions(old(self).positions(), info.id.0, at@),
            final(self).node_list() == old(self).node_list().push(info@),
            final(self).vnodes() == old(self).vnodes(),
    {
        let ghost start = self.positions();
        let mut i: usize = 0;
        assert(at@.take(0) =~= Seq::<u64>::empty());
        while i < at.len()
            invariant
                i <= at@.len(),
                self.ordered(),
                self.nodes == old(self).nodes,
                self.vnode_count == old(self).vnode_count,
                self.positions() == with_positions(start, info.id.0, at@.take(i as int)),
            decreases at@.len() - i,
        {
            assert(at@.take(i + 1).drop_last() =~= at@.take(i as int));
            self.put(at[i], info.id.0);
            i += 1;
        }
        assert(at@.take(i as int) =~= at@);
        let ghost view = info@;
        self.nodes.push(info);
        proof {
            let before = old(self).node_list();
            let list = self.node_list();
            assert(list =~= before.push(view));
            assert forall|p: u64| #[trigger] self.positions().contains_key(p) implies has_node(
                list,
                self.positions()[p],
            ) by {
                lemma_with_positions(start, view.id, at@, p);
                if self.positions()[p] == view.id {
                    assert(list[list.len() - 1].id == view.id);
                } else {
                    assert(start.contains_key(p));
                    let k = choose|k: int| 0 <= k < before.len() && (#[trigger] before[k]).id == start[p];
                    assert(list[k].id == start[p]);
                }
            }
        }
    }

    /// Remove a node and all its virtual nodes from the ring
    pub fn remove_node(&mut self, node_id: &NodeId)
        requires
            old(self).wf(),
        ensures
            final(self).wf(),
            final(self).positions() == without(old(self).positions(), node_id.0),
            final(self).node_list() == nodes_without(old(self).node_list(), node_id.0),
            final(self).vnodes() == old(self).vnodes(),
    {
        let ghost before = self.ring@;
        let ghost list = self.node_list();
        let mut ring: Vec<(u64, u128)> = Vec::new();
        let mut i: usize = 0;
        assert(before.take(0) =~= Seq::<(u64, u128)>::empty());
        while i < self.ring.len()
            invariant
                i <= self.ring@.len(),
                self.ring@ == before,
                ring@ == kept(before.take(i as int), node_id.0),
            decreases self.ring@.len() - i,
        {
            let entry = self.ring[i];
            assert(before.take(i + 1).drop_last() =~= before.take(i as int));
            if entry.1 != node_id.0 {
                ring.push(entry);
            }
            i += 1;
        }
        assert(before.take(i as int) =~= before);
        let mut nodes: Vec<NodeInfo> = Vec::new();
        let mut n: usize = 0;
        assert(node_views(nodes@) =~= nodes_without(list.take(0), node_id.0));
        while n < self.nodes.len()
            invariant
                n <= self.nodes@.len(),
                list == node_views(self.nodes@),
                node_views(nodes@) == nodes_without(list.take(n as int), node_id.0),
            decreases self.nodes@.len() - n,
        {
            let ghost kept = node_views(nodes@);
            assert(list.take(n + 1).drop_last() =~= list.take(n as int));
            if self.nodes[n].id != *node_id {
                nodes.push(self.nodes[n].clone());
                assert(node_views(nodes@) =~= kept.push(list[n as int]));
            }
            n += 1;
        }
        assert(list.take(n as int) =~= list);
        proof {
            lemma_kept(before, node_id.0);
            let want = without(positions_of(before), node_id.0);
            assert forall|p: u64| #[trigger] want.contains_key(p) implies has_node(
                nodes_without(list, node_id.0),
                want[p],
            ) by {
                assert(self.positions().contains_key(p));
                lemma_nodes_without(list, node_id.0, want[p]);
            }
        }
        self.ring = ring;
        self.nodes = nodes;
    }

    /// The first node with the identity.
    pub fn find_node(&self, id: u128) -> (node: Option<&NodeInfo>)
        ensures
            match node {
                Some(n) => node_with(self.node_list(), id) == Some(n@),
                None => node_with(self.node_list(), id) is None,
            },
    {
        let ghost list = self.node_list();
        let mut i: usize = 0;
        assert(list.skip(0) =~= list);
        while i < self.nodes.len()
            invariant
                i <= self.nodes@.len(),
                list == self.node_list(),
                node_with(list, id) == node_with(list.skip(i as int), id),
            decreases self.nodes@.len() - i,
        {
            if self.nodes[i].id.0 == id {
                return Some(&self.nodes[i]);
            }
            assert(list.skip(i as int).skip(1) =~= list.skip(i + 1));
            i += 1;
        }
        None
    }

    /// The index of the entry that is met first clockwise from `hash`.
    fn first_from(&self, hash: u64) -> (at: usize)
        requires
            self.ordered(),
            self.ring@.len() > 0,
        ensures
            at < self.ring@.len(),
            starts_at(self.ring@, hash, at as int),
            is_next(self.positions(), hash, self.ring@[at as int].0),
    {
        let mut at = self.lower_bound(hash);
        // Wrap around to the start of the ring
        if at == self.ring.len() {
            at = 0;
        }
        proof {
            lemma_positions_of(self.ring@);
            let p = self.ring@[at as int].0;
            assert forall|q: u64| #[trigger] self.positions().contains_key(q) implies clockwise(hash, p) <= clockwise(
                hash,
                q,
            ) by {
                let i = choose|i: int| entry_at(self.ring@, q, i);
                if i < at {
                    assert(self.ring@[i].0 < hash);
                } else if i > at {
                    assert(self.ring@[at as int].0 < self.ring@[i].0);
                }
            }
        }
        at
    }

    /// Find the node responsible for a key (clockwise lookup)
    pub fn get_node(&self, key: &str) -> (node: Option<&NodeInfo>)
        requires
            self.wf(),
        ensures
            match node {
                Some(n) => {
                    let id = owner(self.positions(), key_position(key@));
                    &&& self.positions().dom() != Set::<u64>::empty()
                    &&& n@.id == id
                    &&& node_with(self.node_list(), id) == Some(n@)
                },
                None => self.positions().dom() == Set::<u64>::empty(),
            },
    {
        self.node_at(Self::hash_key(key))
    }

    /// Find the node responsible for a position.
    pub fn node_at(&self, hash: u64) -> (node: Option<&NodeInfo>)
        requires
            self.wf(),
        ensures
            match node {
                Some(n) => {
                    let id = owner(self.positions(), hash);
                    &&& self.positions().dom() != Set::<u64>::empty()
                    &&& n@.id == id
                    &&& node_with(self.node_list(), id) == Some(n@)
                },
                None => self.positions().dom() == Set::<u64>::empty(),
            },
    {
        if self.ring.len() == 0 {
            assert(self.positions().dom() =~= Set::<u64>::empty()) by {
                assert forall|p: u64| !self.positions().contains_key(p) by {
                    assert(forall|i: int| !entry_at(self.ring@, p, i));
                }
            }
            return None;
        }
        let at = self.first_from(hash);
        let id: u128 = self.ring[at].1;
        proof {
            lemma_positions_of(self.ring@);
            lemma_next_is(self.positions(), hash, self.ring@[at as int].0);
            assert(self.positions().contains_key(self.ring@[at as int].0));
            lemma_node_with(self.node_list(), id);
            assert(self.positions().dom().contains(self.ring@[at as int].0));
        }
        self.find_node(id)
    }

    /// Get the preference list for a key — N distinct physical nodes walking clockwise
    pub fn get_preference_list(&self, key: &str, replica_count: usize) -> (list: Vec<NodeInfo>)
        requires
            self.wf(),
        ensures
            lists_nodes(
                list@,
                preference(self.positions(), key_position(key@), replica_count as nat),
                self.node_list(),
            ),
    {
        self.preference_list_at(Self::hash_key(key), replica_count)
    }

    /// Get the preference list for a position.
    pub fn preference_list_at(&self, hash: u64, replica_count: usize) -> (list: Vec<NodeInfo>)
        requires
            self.wf(),
        ensures
            lists_nodes(
                list@,
                preference(self.positions(), hash, replica_count as nat),
                self.node_list(),
            ),
    {
        let mut result: Vec<NodeInfo> = Vec::new();
        if replica_count == 0 {
            return result;
        }
        if self.ring.len() == 0 {
            assert(self.positions().dom() =~= Set::<u64>::empty()) by {
                assert forall|p: u64| !self.positions().contains_key(p) by {
                    assert(forall|i: int| !entry_at(self.ring@, p, i));
                }
            }
            return result;
        }
        let at = self.first_from(hash);
        let len: usize = self.ring.len();
        let mut seen: HashSet<u128> = HashSet::new();
        let ghost mut ids: Seq<u128> = seq![];
        let ghost ring = self.positions();
        let ghost n = replica_count as nat;
        let ghost full = preference(ring, hash, n);
        assert(minus(ring, seen@) =~= ring);
        assert(full =~= ids + preference(minus(ring, seen@), hash, n));
        proof {
            lemma_positions_of(self.ring@);
        }

        // Walk clockwise from the position, wrapping around
        let mut k: usize = 0;
        while k < len
            invariant
                self.wf(),
                ring == self.positions(),
                len == self.ring@.len(),
                k <= len,
                at < len,
                starts_at(self.ring@, hash, at as int),
                n == replica_count,
                ids.len() < n,
                full == preference(ring, hash, n),
                full == ids + preference(minus(ring, seen@), hash, (n - ids.len()) as nat),
                lists_nodes(result@, ids, self.node_list()),
                forall|j: int| 0 <= j < k ==> seen@.contains(self.ring@[walk(len as int, at as int, j)].1),
            decreases len - k,
        {
            let i: usize = if k < len - at {
                at + k
            } else {
                k - (len - at)
            };
            let id: u128 = self.ring[i].1;
            let ghost before = seen@;
            let fresh = seen.insert(id);
            if fresh {
                proof {
                    lemma_walk_next(self.ring@, hash, at as int, k as int, before);
                    lemma_next_is(minus(ring, before), hash, self.ring@[i as int].0);
                    assert(without(minus(ring, before), id) =~= minus(ring, seen@));
                    assert(minus(ring, before).dom().contains(self.ring@[i as int].0));
                    lemma_positions_of(self.ring@);
                    assert(ring.contains_key(self.ring@[i as int].0));
                    lemma_node_with(self.node_list(), id);
                    assert(full =~= ids.push(id) + preference(
                        minus(ring, seen@),
                        hash,
                        (n - ids.len() - 1) as nat,
                    ));
                    ids = ids.push(id);
                }
                if let Some(info) = self.find_node(id) {
                    result.push(info.clone());
                }
                if result.len() >= replica_count {
                    assert(full =~= ids);
                    return result;
                }
            } else {
                assert(seen@ =~= before);
            }
            k += 1;
        }
        proof {
            assert(minus(ring, seen@).dom() =~= Set::<u64>::empty()) by {
                lemma_positions_of(self.ring@);
                assert forall|p: u64| !minus(ring, seen@).contains_key(p) by {
                    if ring.contains_key(p) {
                        let i = choose|i: int| entry_at(self.ring@, p, i);
                        let j = if i >= at { i - at } else { i + len - at };
                        assert(walk(len as int, at as int, j) == i);
                        assert(ring[self.ring@[i].0] == self.ring@[i].1);
                    }
                }
            }
            assert(full =~= ids);
        }
        result
    }

    /// Get all nodes in the ring
    pub fn nodes(&self) -> (nodes: &[NodeInfo])
        ensures
            node_views(nodes@) == self.node_list(),
    {
        self.nodes.as_slice()
    }

    /// Check if ring contains a node
    pub fn contains_node(&self, node_id: &NodeId) -> (yes: bool)
        ensures
            yes == has_node(self.node_list(), node_id.0),
    {
        proof {
            lemma_node_with(self.node_list(), node_id.0);
        }
        self.find_node(node_id.0).is_some()
    }
}

/// The owner of a position of a ring on which a node was put is the node, or who it was.
proof fn lemma_with_positions(ring: Positions, id: u128, at: Seq<u64>, p: u64)
    ensures
        with_positions(ring, id, at).contains_key(p) ==> with_positions(ring, id, at)[p] == id || (ring.contains_key(p)
            && with_positions(ring, id, at)[p] == ring[p]),
    decreases at.len(),
{
    if at.len() > 0 {
        lemma_with_positions(ring, id, at.drop_last(), p);
    }
}

/// Virtual nodes are positions.
proof fn lemma_vnodes_are_positions(ring: Positions, id: u128, at: Seq<u64>)
    requires
        forall|k: int| 0 <= k < at.len() ==> #[trigger] at[k] == vnode_position(id, k as nat),
    ensures
        with_positions(ring, id, at) == with_vnodes(ring, id, at.len()),
    decreases at.len(),
{
    if at.len() > 0 {
        let front = at.drop_last();
        assert(forall|k: int| 0 <= k < front.len() ==> front[k] == at[k]);
        lemma_vnodes_are_positions(ring, id, front);
        assert(at[at.len() - 1] == vnode_position(id, (at.len() - 1) as nat));
    }
}

/// The owner of a position of a ring to which a node was added is the node, or who it was.
proof fn lemma_with_vnodes(ring: Positions, id: u128, count: nat, p: u64)
    ensures
        with_vnodes(ring, id, count).contains_key(p) ==> with_vnodes(ring, id, count)[p] == id || (ring.contains_key(p)
            && with_vnodes(ring, id, count)[p] == ring[p]),
        ring.contains_key(p) ==> with_vnodes(ring, id, count).contains_key(p),
    decreases count,
{
    if count > 0 {
        lemma_with_vnodes(ring, id, (count - 1) as nat, p);
    }
}

impl Default for HashRing {
    fn default() -> (ring: Self)
        ensures
            ring.wf(),
            ring.positions() == Map::<u64, u128>::empty(),
            ring.node_list() == Seq::<NodeView>::empty(),
            ring.vnodes() == 150,
    {
        Self::new()
    }
}

/// Adding a node moves keys to that node alone: every other key stays with its owner.
pub proof fn lemma_add_moves_only_to_new(ring: Positions, id: u128, count: nat, h: u64)
    requires
        ring.dom() != Set::<u64>::empty(),
    ensures
        owner(with_vnodes(ring, id, count), h) == owner(ring, h) || owner(with_vnodes(ring, id, count), h) == id,
{
    let grown = with_vnodes(ring, id, count);
    let p = next_position(ring, h);
    lemma_next_position(ring, h);
    lemma_with_vnodes(ring, id, count, p);
    assert(grown.dom().contains(p));
    let q = next_position(grown, h);
    lemma_next_position(grown, h);
    lemma_with_vnodes(ring, id, count, q);
    if grown[q] != id {
        assert(ring.contains_key(q));
        assert(is_next(ring, h, q)) by {
            assert forall|r: u64| #[trigger] ring.contains_key(r) implies clockwise(h, q) <= clockwise(h, r) by {
                lemma_with_vnodes(ring, id, count, r);
                assert(grown.contains_key(r));
            }
        }
        lemma_next_is(ring, h, q);
    }
}

/// A key that the ring can place has an owner, and only nodes on the ring own keys.
pub proof fn lemma_owner_on_ring(ring: Positions, h: u64)
    requires
        ring.dom() != Set::<u64>::empty(),
    ensures
        exists|p: u64| #[trigger] ring.contains_key(p) && ring[p] == owner(ring, h),
{
    lemma_next_position(ring, h);
}

/// Removing a node moves the keys of that node alone: every other key stays with its owner.
pub proof fn lemma_remove_keeps_others(ring: Positions, id: u128, h: u64)
    requires
        ring.dom() != Set::<u64>::empty(),
        owner(ring, h) != id,
    ensures
        without(ring, id).dom() != Set::<u64>::empty(),
        owner(without(ring, id), h) == owner(ring, h),
{
    let p = next_position(ring, h);
    lemma_next_position(ring, h);
    let left = without(ring, id);
    assert(left.dom().contains(p));
    assert(is_next(left, h, p));
    lemma_next_is(left, h, p);
}

/// Removing a node that a preference list does not name leaves the list as it is.
pub proof fn lemma_remove_keeps_preference(ring: Positions, id: u128, h: u64, n: nat)
    requires
        !preference(ring, h, n).contains(id),
    ensures
        preference(without(ring, id), h, n) == preference(ring, h, n),
    decreases n,
{
    let left = without(ring, id);
    if n == 0 {
    } else if ring.dom() == Set::<u64>::empty() {
        assert forall|p: u64| !left.contains_key(p) by {
            assert(!ring.dom().contains(p));
        }
        assert(left.dom() =~= Set::<u64>::empty());
    } else {
        let first = owner(ring, h);
        let tail = preference(without(ring, first), h, (n - 1) as nat);
        let full = preference(ring, h, n);
        assert(full[0] == first);
        assert(!tail.contains(id)) by {
            if tail.contains(id) {
                let i = tail.index_of(id);
                assert(full[i + 1] == id);
            }
        }
        lemma_remove_keeps_others(ring, id, h);
        lemma_remove_keeps_preference(without(ring, first), id, h, (n - 1) as nat);
        assert(without(without(ring, first), id) =~= without(left, first));
    }
}

/// A preference list names nodes of the ring, none of them twice; the first is the owner of
/// the key, and the list is shorter than asked for only where it names every node.
pub proof fn lemma_preference_list(ring: Positions, h: u64, n: nat)
    ensures
        preference(ring, h, n).no_duplicates(),
        preference(ring, h, n).len() <= n,
        forall|i: int|
            0 <= i < preference(ring, h, n).len() ==> exists|p: u64| #[trigger]
                ring.contains_key(p) && ring[p] == #[trigger] preference(ring, h, n)[i],
        n > 0 && ring.dom() != Set::<u64>::empty() ==> preference(ring, h, n).len() > 0 && preference(ring, h, n)[0]
            == owner(ring, h),
        preference(ring, h, n).len() < n ==> forall|p: u64| #[trigger]
            ring.contains_key(p) ==> preference(ring, h, n).contains(ring[p]),
    decreases n,
{
    let full = preference(ring, h, n);
    if n > 0 && ring.dom() != Set::<u64>::empty() {
        let first = owner(ring, h);
        let rest = without(ring, first);
        let tail = preference(rest, h, (n - 1) as nat);
        lemma_preference_list(rest, h, (n - 1) as nat);
        lemma_owner_on_ring(ring, h);
        assert(full[0] == first);
        assert forall|i: int| 0 <= i < full.len() implies exists|p: u64| #[trigger]
            ring.contains_key(p) && ring[p] == #[trigger] full[i] by {
            if i > 0 {
                assert(full[i] == tail[i - 1]);
                let p = choose|p: u64| #[trigger] rest.contains_key(p) && rest[p] == tail[i - 1];
                assert(ring.contains_key(p));
            }
        }
        assert forall|i: int, j: int| 0 <= i < full.len() && 0 <= j < full.len() && i != j implies full[i] != full[j] by {
            if i == 0 {
                assert(full[j] == tail[j - 1]);
                let p = choose|p: u64| #[trigger] rest.contains_key(p) && rest[p] == tail[j - 1];
                assert(rest.contains_key(p));
            } else if j == 0 {
                assert(full[i] == tail[i - 1]);
                let p = choose|p: u64| #[trigger] rest.contains_key(p) && rest[p] == tail[i - 1];
                assert(rest.contains_key(p));
            } else {
                assert(full[i] == tail[i - 1] && full[j] == tail[j - 1]);
            }
        }
        if full.len() < n {
            assert forall|p: u64| #[trigger] ring.contains_key(p) implies full.contains(ring[p]) by {
                if ring[p] != first {
                    assert(rest.contains_key(p));
                    let i = tail.index_of(ring[p]);
                    assert(full[i + 1] == ring[p]);
                }
            }
        }
    } else if ring.dom() == Set::<u64>::empty() {
        assert forall|p: u64| !ring.contains_key(p) by {
            assert(!ring.dom().contains(p));
        }
    }
}

/// A node that joins and leaves again leaves no trace, unless it took over a position.
pub proof fn lemma_add_remove(ring: Positions, id: u128, count: nat)
    requires
        forall|p: u64| #[trigger] ring.contains_key(p) ==> ring[p] != id,
        forall|i: nat| i < count ==> !ring.contains_key(#[trigger] vnode_position(id, i)),
    ensures
        without(with_vnodes(ring, id, count), id) == ring,
    decreases count,
{
    if count > 0 {
        lemma_add_remove(ring, id, (count - 1) as nat);
        let before = with_vnodes(ring, id, (count - 1) as nat);
        let p = vnode_position(id, (count - 1) as nat);
        assert(!without(before, id).contains_key(p));
        assert(without(before.insert(p, id), id) =~= without(before, id));
    } else {
        assert(without(ring, id) =~= ring);
    }
}

/// A node that is put on a ring holds all its positions: each is taken, and by that node. Every
/// other position stays as it was, and no other is added.
pub proof fn lemma_vnodes_on_ring(ring: Positions, id: u128, count: nat, p: u64)
    ensures
        ({
            let after = with_vnodes(ring, id, count);
            let own = exists|i: nat| i < count && #[trigger] vnode_position(id, i) == p;
            &&& after.contains_key(p) <==> ring.contains_key(p) || own
            &&& own ==> after[p] == id
            &&& !own && ring.contains_key(p) ==> after[p] == ring[p]
        }),
    decreases count,
{
    if count > 0 {
        let last = (count - 1) as nat;
        lemma_vnodes_on_ring(ring, id, last, p);
        if exists|i: nat| i < count && #[trigger] vnode_position(id, i) == p {
            let i = choose|i: nat| i < count && #[trigger] vnode_position(id, i) == p;
            if i < last {
                assert(vnode_position(id, i) == p && i < last);
            }
        }
        if exists|i: nat| i < last && #[trigger] vnode_position(id, i) == p {
            let i = choose|i: nat| i < last && #[trigger] vnode_position(id, i) == p;
            assert(vnode_position(id, i) == p && i < count);
        }
    }
}

/// A node that is put at given positions holds them. Every other position stays as it was, and no
/// other is added.
pub proof fn lemma_positions_on_ring(ring: Positions, id: u128, at: Seq<u64>, p: u64)
    ensures
        with_positions(ring, id, at).contains_key(p) <==> ring.contains_key(p) || at.contains(p),
        at.contains(p) ==> with_positions(ring, id, at)[p] == id,
        !at.contains(p) && ring.contains_key(p) ==> with_positions(ring, id, at)[p] == ring[p],
    decreases at.len(),
{
    if at.len() > 0 {
        let front = at.drop_last();
        lemma_positions_on_ring(ring, id, front, p);
        if at.contains(p) && at.last() != p {
            assert(front[at.index_of(p)] == p);
        }
        if front.contains(p) {
            assert(at[front.index_of(p)] == p);
        }
        assert(at[at.len() - 1] == at.last());
    }
}

/// A node that leaves holds no position any more, and no one else loses or gains one.
pub proof fn lemma_node_off_ring(ring: Positions, id: u128, p: u64)
    ensures
        without(ring, id).contains_key(p) <==> ring.contains_key(p) && ring[p] != id,
        without(ring, id).contains_key(p) ==> without(ring, id)[p] == ring[p],
{
}

/// The owner of a position is found clockwise: it holds the first position that is not below, or,
/// where there is none, the lowest of all.
pub proof fn lemma_owner_is_next(ring: Positions, h: u64, p: u64)
    requires
        ring.contains_key(p),
        (p >= h && forall|q: u64| #[trigger] ring.contains_key(q) ==> q < h || p <= q) || (forall|q: u64| #[trigger]
            ring.contains_key(q) ==> q < h && p <= q),
    ensures
        owner(ring, h) == ring[p],
{
    assert(is_next(ring, h, p));
    lemma_next_is(ring, h, p);
}

/// A key whose position is held by a node belongs to that node.
pub proof fn lemma_holder_owns(ring: Positions, h: u64)
    requires
        ring.contains_key(h),
    ensures
        owner(ring, h) == ring[h],
{
    lemma_owner_is_next(ring, h, h);
}

/// A preference list goes round the ring: each node of it holds a position that is met before any
/// position of a node that is not named up to there.
pub proof fn lemma_preference_order(ring: Positions, h: u64, n: nat, k: int)
    requires
        0 <= k < preference(ring, h, n).len(),
    ensures
        exists|p: u64|
            {
                &&& #[trigger] ring.contains_key(p)
                &&& ring[p] == preference(ring, h, n)[k]
                &&& forall|q: u64| #[trigger]
                    ring.contains_key(q) && (q - h) % 0x1_0000_0000_0000_0000 < (p - h) % 0x1_0000_0000_0000_0000
                        ==> preference(ring, h, n).take(k).contains(ring[q])
            },
    decreases n,
{
    let full = preference(ring, h, n);
    let first = owner(ring, h);
    let rest = without(ring, first);
    let tail = preference(rest, h, (n - 1) as nat);
    lemma_next_position(ring, h);
    assert(forall|a: u64| #[trigger] clockwise(h, a) == (a - h) % 0x1_0000_0000_0000_0000);
    if k == 0 {
        let p = next_position(ring, h);
        assert(ring.contains_key(p));
        assert forall|q: u64| #[trigger]
            ring.contains_key(q) && (q - h) % 0x1_0000_0000_0000_0000 < (p - h) % 0x1_0000_0000_0000_0000 implies full.take(
            k,
        ).contains(ring[q]) by {
            assert(clockwise(h, p) <= clockwise(h, q));
        }
    } else {
        assert(full[k] == tail[k - 1]);
        lemma_preference_order(rest, h, (n - 1) as nat, k - 1);
        let p = choose|p: u64|
            {
                &&& #[trigger] rest.contains_key(p)
                &&& rest[p] == tail[k - 1]
                &&& forall|q: u64| #[trigger]
                    rest.contains_key(q) && (q - h) % 0x1_0000_0000_0000_0000 < (p - h) % 0x1_0000_0000_0000_0000
                        ==> tail.take(k - 1).contains(rest[q])
            };
        assert(ring.contains_key(p));
        assert forall|q: u64| #[trigger]
            ring.contains_key(q) && (q - h) % 0x1_0000_0000_0000_0000 < (p - h) % 0x1_0000_0000_0000_0000 implies full.take(
            k,
        ).contains(ring[q]) by {
            if ring[q] == first {
                assert(full.take(k)[0] == first);
            } else {
                assert(rest.contains_key(q));
                let i = tail.take(k - 1).index_of(ring[q]);
                assert(full.take(k)[i + 1] == ring[q]);
            }
        }
    }
}

/// The nodes that stay when one leaves are all the others, in their order.
pub proof fn lemma_nodes_that_stay(nodes: Seq<NodeView>, id: u128)
    ensures
        nodes_without(nodes, id) == nodes.filter(|n: NodeView| n.id != id),
    decreases nodes.len(),
{
    reveal(Seq::filter);
    if nodes.len() > 0 {
        lemma_nodes_that_stay(nodes.drop_last(), id);
    } else {
        assert(nodes_without(nodes, id) =~= nodes);
    }
}

/// The node with an identity is the first that has it; there is none only if no node has it.
pub proof fn lemma_first_with(nodes: Seq<NodeView>, id: u128)
    ensures
        match node_with(nodes, id) {
            Some(node) => exists|i: int|
                {
                    &&& 0 <= i < nodes.len()
                    &&& #[trigger] nodes[i] == node
                    &&& node.id == id
                    &&& forall|j: int| 0 <= j < i ==> (#[trigger] nodes[j]).id != id
                },
            None => forall|i: int| 0 <= i < nodes.len() ==> (#[trigger] nodes[i]).id != id,
        },
    decreases nodes.len(),
{
    if nodes.len() > 0 {
        if nodes[0].id == id {
            assert(nodes[0] == node_with(nodes, id)->0);
        } else {
            let rest = nodes.skip(1);
            lemma_first_with(rest, id);
            if let Some(node) = node_with(rest, id) {
                let i = choose|i: int|
                    {
                        &&& 0 <= i < rest.len()
                        &&& #[trigger] rest[i] == node
                        &&& node.id == id
                        &&& forall|j: int| 0 <= j < i ==> (#[trigger] rest[j]).id != id
                    };
                assert(nodes[i + 1] == node);
                assert forall|j: int| 0 <= j < i + 1 implies (#[trigger] nodes[j]).id != id by {
                    if j > 0 {
                        assert(rest[j - 1].id != id);
                    }
                }
            } else {
                assert forall|i: int| 0 <= i < nodes.len() implies (#[trigger] nodes[i]).id != id by {
                    if i > 0 {
                        assert(rest[i - 1].id != id);
                    }
                }
            }
        }
    }
}

/// Positions are hashes of texts: that of a key of the key itself, that of a virtual node of the
/// identity, a hyphen and the number in decimal, from which the number can be read back.
pub proof fn lemma_positions_are_hashes(key: Seq<char>, id: u128, index: nat)
    ensures
        key_position(key) == xxh3(encode_utf8(key)),
        ({
            let text = vnode_text(id, index);
            let name = encode_utf8(hyphenated(id));
            &&& vnode_position(id, index) == xxh3(text)
            &&& text.len() > name.len() + 1
            &&& text.take(name.len() as int) == name
            &&& text[name.len() as int] == 45
            &&& read_int(text.skip(name.len() + 1int), 0, index as int) == Ok::<int, IntError>(index as int)
        }),
{
    let text = vnode_text(id, index);
    let name = encode_utf8(hyphenated(id));
    lemma_digits_are_digits(index);
    lemma_read_decimal(index as int, 0, index as int);
    assert(text.take(name.len() as int) =~= name);
    assert(text.skip(name.len() + 1int) =~= digits(index));
}

/// The virtual nodes of a node have different texts.
pub proof fn lemma_vnode_texts_differ(id: u128, i: nat, j: nat)
    requires
        vnode_text(id, i) == vnode_text(id, j),
    ensures
        i == j,
{
    let name = encode_utf8(hyphenated(id));
    let top = if i < j { j as int } else { i as int };
    lemma_read_decimal(i as int, 0, top);
    lemma_read_decimal(j as int, 0, top);
    assert(vnode_text(id, i).skip(name.len() + 1int) =~= digits(i));
    assert(vnode_text(id, j).skip(name.len() + 1int) =~= digits(j));
}

/// The nodes that are listed are the first ones on the ring with the identities.
pub proof fn lemma_listed_nodes(nodes: Seq<NodeInfo>, ids: Seq<u128>, all: Seq<NodeView>, i: int)
    requires
        lists_nodes(nodes, ids, all),
        0 <= i < ids.len(),
    ensures
        nodes.len() == ids.len(),
        nodes[i]@.id == ids[i],
        exists|k: int|
            {
                &&& 0 <= k < all.len()
                &&& #[trigger] all[k] == nodes[i]@
                &&& forall|j: int| 0 <= j < k ==> (#[trigger] all[j]).id != ids[i]
            },
{
    assert(node_with(all, ids[i]) == Some(nodes[i]@));
    lemma_first_with(all, ids[i]);
}

/// A node is on the list exactly if one with its identity is.
pub proof fn lemma_on_list(nodes: Seq<NodeView>, id: u128)
    ensures
        has_node(nodes, id) <==> exists|i: int| 0 <= i < nodes.len() && (#[trigger] nodes[i]).id == id,
        has_node(nodes, id) <==> node_with(nodes, id) is Some,
{
    lemma_node_with(nodes, id);
}

} // verus!
