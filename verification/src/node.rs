//! Nodes and their identities.
use vstd::prelude::*;
use vstd::arithmetic::power::pow;
use crate::text::hex_digit;

verus! {

/// The bits of the UUID that a text writes, or the text of the error: what
/// `uuid::Uuid::parse_str` makes of a text.
pub uninterp spec fn uuid_parsed(s: Seq<char>) -> Result<u128, Seq<char>>;

/// The text writes the UUID with these bits.
pub open spec fn reads_as(s: Seq<char>, bits: u128) -> bool {
    uuid_parsed(s) == Ok::<u128, Seq<char>>(bits)
}

/// The hexadecimal digit of `bits` at position `k`, counted from the most significant.
pub open spec fn nibble(bits: u128, k: int) -> int {
    (bits as int / pow(16, (31 - k) as nat)) % 16
}

/// The hyphens of a UUID stand behind 8, 12, 16 and 20 digits.
pub open spec fn hyphen_at(i: int) -> bool {
    i == 8 || i == 13 || i == 18 || i == 23
}

/// How many hyphens of a UUID stand before position `i`.
pub open spec fn hyphens_before(i: int) -> int {
    (if i > 8 { 1int } else { 0 }) + (if i > 13 { 1int } else { 0 }) + (if i > 18 { 1int } else { 0 }) + (if i > 23 {
        1int
    } else {
        0
    })
}

/// The text of a UUID: 32 lower-case hexadecimal digits in five groups.
pub open spec fn hyphenated(bits: u128) -> Seq<char> {
    Seq::new(
        36,
        |i: int| if hyphen_at(i) { '-' } else { hex_digit(nibble(bits, i - hyphens_before(i))) },
    )
}

/// The bits of a random UUID: version 4 of the variant of RFC 9562.
pub open spec fn is_random_uuid(bits: u128) -> bool {
    &&& (bits / 0x1000_0000_0000_0000_0000) % 16 == 4
    &&& (bits / 0x4000_0000_0000_0000) % 4 == 2
}

/// Calls `uuid::Uuid::new_v4`, which fills a UUID at random but for the bits of its version
/// and variant.
#[verifier::external_body]
fn random_bits() -> (bits: u128)
    ensures
        is_random_uuid(bits),
{
    uuid::Uuid::new_v4().as_u128()
}

/// Calls `uuid::Uuid::parse_str`: its result, with the error as its text, depends on the text
/// alone.
#[verifier::external_body]
fn parse_bits(s: &str) -> (r: Result<u128, String>)
    ensures
        match r {
            Ok(bits) => uuid_parsed(s@) == Ok::<u128, Seq<char>>(bits),
            Err(e) => uuid_parsed(s@) == Err::<u128, Seq<char>>(e@),
        },
{
    match uuid::Uuid::parse_str(s) {
        Ok(id) => Ok(id.as_u128()),
        Err(e) => Err(e.to_string()),
    }
}

/// Displays a `uuid::Uuid`: in lower case, with hyphens. That text is one of those that
/// `uuid::Uuid::parse_str` reads, and it reads the same UUID from it.
#[verifier::external_body]
fn bits_text(bits: u128) -> (s: String)
    ensures
        s@ == hyphenated(bits),
        reads_as(s@, bits),
{
    uuid::Uuid::from_u128(bits).to_string()
}

/// A text that is no node identity.
#[derive(Debug)]
pub struct NodeIdError {
    pub text: String,
}

/// The identity of a node: a UUID, as its 128 bits.
#[derive(Clone, Copy, Debug, PartialEq, Eq, Structural, Hash)]
pub struct NodeId(pub u128);

impl NodeId {
    /// A new identity, drawn at random.
    pub fn new() -> (id: Self)
        ensures
            is_random_uuid(id.0),
    {
        NodeId(random_bits())
    }

    pub fn from_uuid(id: u128) -> (r: Self)
        ensures
            r.0 == id,
    {
        NodeId(id)
    }

    pub fn parse(s: &str) -> (r: Result<Self, NodeIdError>)
        ensures
            match r {
                Ok(id) => uuid_parsed(s@) == Ok::<u128, Seq<char>>(id.0),
                Err(e) => uuid_parsed(s@) == Err::<u128, Seq<char>>(e.text@),
            },
    {
        match parse_bits(s) {
            Ok(bits) => Ok(NodeId(bits)),
            Err(text) => Err(NodeIdError { text }),
        }
    }

    /// The identity as text, which [`NodeId::parse`] reads back.
    pub fn to_string(&self) -> (s: String)
        ensures
            s@ == hyphenated(self.0),
            reads_as(s@, self.0),
    {
        bits_text(self.0)
    }
}

impl Default for NodeId {
    fn default() -> (id: Self)
        ensures
            is_random_uuid(id.0),
    {
        Self::new()
    }
}

/// A node and the address that it is reached at.
#[derive(Debug)]
pub struct NodeInfo {
    pub id: NodeId,
    pub addr: String,
}

/// The mathematical content of a [`NodeInfo`].
pub struct NodeView {
    pub id: u128,
    pub addr: Seq<char>,
}

impl View for NodeInfo {
    type V = NodeView;

    open spec fn view(&self) -> NodeView {
        NodeView { id: self.id.0, addr: self.addr@ }
    }
}

pub open spec fn node_views(nodes: Seq<NodeInfo>) -> Seq<NodeView> {
    nodes.map_values(|n: NodeInfo| n@)
}

impl Clone for NodeInfo {
    fn clone(&self) -> (copy: Self)
        ensures
            copy@ == self@,
    {
        NodeInfo { id: self.id, addr: self.addr.clone() }
    }
}

/// A node is known by its identity and its address.
pub proof fn lemma_node_view(node: NodeInfo, nodes: Seq<NodeInfo>, i: int)
    ensures
        node@.id == node.id.0,
        node@.addr == node.addr@,
        node_views(nodes).len() == nodes.len(),
        0 <= i < nodes.len() ==> node_views(nodes)[i] == nodes[i]@,
{
}

} // verus!
