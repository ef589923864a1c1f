//! The agreement digest and its state machine.
//!
//! Neighbours exchange a digest of their view of the SPB topology in Hellos.
//! Matching digests mean the two nodes agree on the topology, which is what
//! makes it safe to update multicast forwarding: a tree whose shape is still
//! being argued about can forward a frame back where it came from.
//!
//! RFC 6329, Section 13.2 defines how the digest is *carried* but not how it
//! is *computed*; that is IEEE 802.1aq, clause 28.4. The computation here is
//! a local one, defined precisely by [`digest_input`] and placed behind
//! [`AgreementDigest`] so the normative one can replace it without disturbing
//! anything else. It interoperates with itself only.

use hmac::{Hmac, KeyInit, Mac};
use sha2::Sha256;
use vstd::prelude::*;
use vstd::string::StringSliceAdditionalSpecFns;

use crate::bytes::{be16, be32, lemma_be16, lemma_be32, lemma_split, lemma_together, put_bytes, put_u16, put_u32};
use crate::ect::EctAlgorithm;
use crate::node::{lemma_node_len, lemma_node_ordinal_bound, NodeId};
use crate::ordmap::{lemma_ordered_exists, ordered, Key, OrdSet};
use crate::region::{lemma_usable_edge, region_in, usable_edges};
use crate::topology::{
    edge_cost, lemma_edge_has_link, lemma_link_metric_exists, link_metric, offers, supports, EctVid, LinkView, NodeView,
    TopologyView,
};

verus! {

broadcast use crate::bytes::group_be_len;

/// Length of the digest carried in the SPB-Digest sub-TLV.
pub const DIGEST_LEN: usize = 32;

/// Agreement and Discarded Agreement Numbers are two bits wide.
pub const AGREEMENT_MODULUS: u8 = 4;

/// Computes a digest of the SPB topology.
///
/// A trait, so the normative 802.1aq computation can be dropped in later
/// without touching the state machine or the wire code.
pub trait AgreementDigest {
    /// Returns the digest of one SPB instance's topology.
    fn compute(&self, view: &TopologyView, mt_id: u16) -> Vec<u8>;

    /// A short name for the computation, so a mismatch caused by two nodes
    /// running different algorithms can be told from a genuine topology
    /// disagreement.
    fn id(&self) -> &'static str;
}

// ===== what is digested =====

/// An algorithm and a Base VID that a node supports.
#[derive(Clone, Copy, Debug, Eq, Ord, PartialEq, PartialOrd)]
pub struct EctPair {
    pub algorithm: u32,
    pub base_vid: u16,
}

impl Key for EctPair {
    /// Pairs are ordered by algorithm, then by Base VID.
    open spec fn ordinal(self) -> nat {
        (self.algorithm * 0x1_0000 + self.base_vid) as nat
    }

    proof fn ordinal_injective(a: Self, b: Self) {
    }

    fn ordinal_value(&self) -> (value: u128) {
        self.algorithm as u128 * 0x1_0000 + self.base_vid as u128
    }
}

/// A link, under the ordered pair of its ends.
#[derive(Clone, Copy, Debug, Eq, Ord, PartialEq, PartialOrd)]
pub struct Edge {
    pub lower: NodeId,
    pub higher: NodeId,
}

impl Key for Edge {
    /// Links are ordered by their lower end, then by their higher end.
    open spec fn ordinal(self) -> nat {
        (self.lower.ordinal() * 0x1_0000_0000_0000 + self.higher.ordinal()) as nat
    }

    proof fn ordinal_injective(a: Self, b: Self) {
        lemma_node_ordinal_bound(a.higher);
        lemma_node_ordinal_bound(b.higher);
        lemma_edge_parts(
            a.lower.ordinal() as int,
            a.higher.ordinal() as int,
            b.lower.ordinal() as int,
            b.higher.ordinal() as int,
        );
        NodeId::ordinal_injective(a.lower, b.lower);
        NodeId::ordinal_injective(a.higher, b.higher);
    }

    fn ordinal_value(&self) -> (value: u128) {
        proof {
            lemma_node_ordinal_bound(self.lower);
            lemma_node_ordinal_bound(self.higher);
        }
        self.lower.ordinal_value() * 0x1_0000_0000_0000 + self.higher.ordinal_value()
    }
}

proof fn lemma_edge_parts(a: int, b: int, x: int, y: int)
    requires
        0 <= b < 0x1_0000_0000_0000,
        0 <= y < 0x1_0000_0000_0000,
        a * 0x1_0000_0000_0000 + b == x * 0x1_0000_0000_0000 + y,
    ensures
        a == x,
        b == y,
{
}

/// The pairs of an algorithm and a Base VID that a node supports.
pub open spec fn pairs_of(node: NodeView) -> Set<EctPair> {
    Set::new(|p: EctPair| supports(node, p.base_vid, EctAlgorithm(p.algorithm)))
}

/// The usable links of a topology, each once.
pub open spec fn edges_of(links: Seq<LinkView>) -> Set<Edge> {
    Set::new(|e: Edge| e.lower.ordinal() <= e.higher.ordinal() && edge_cost(links, e.lower, e.higher) is Some)
}

/// The bytes of a list of pairs: for each the algorithm (4 bytes) and the Base
/// VID (2 bytes).
pub open spec fn pair_bytes(pairs: Seq<EctPair>) -> Seq<u8>
    decreases pairs.len(),
{
    if pairs.len() == 0 {
        Seq::empty()
    } else {
        be32(pairs[0].algorithm as int) + be16(pairs[0].base_vid as int) + pair_bytes(pairs.skip(1))
    }
}

/// The bytes of a node: System ID (6 bytes), bridge priority (2 bytes),
/// SPSourceID (4 bytes), overload (1 byte), the number of its pairs (2 bytes)
/// and the pairs, ordered.
pub open spec fn node_record(id: NodeId, node: NodeView) -> Seq<u8> {
    node_head(id, node) + be16(ordered(pairs_of(node)).len() as int % 0x1_0000) + pair_bytes(ordered(pairs_of(node)))
}

/// The part of a node's bytes that has a fixed length.
pub open spec fn node_head(id: NodeId, node: NodeView) -> Seq<u8> {
    id@ + be16(node.bridge_priority as int) + be32(node.spsource_id as int) + seq![
        if node.overload {
            1u8
        } else {
            0u8
        },
    ]
}

/// The bytes of a list of nodes.
pub open spec fn node_bytes(nodes: Map<NodeId, NodeView>, ids: Seq<NodeId>) -> Seq<u8>
    decreases ids.len(),
{
    if ids.len() == 0 {
        Seq::empty()
    } else {
        node_record(ids[0], nodes[ids[0]]) + node_bytes(nodes, ids.skip(1))
    }
}

/// The bytes of a link: its lower end (6 bytes), its higher end (6 bytes) and
/// its resolved cost (4 bytes).
pub open spec fn edge_record(links: Seq<LinkView>, e: Edge) -> Seq<u8> {
    e.lower@ + e.higher@ + be32(edge_cost(links, e.lower, e.higher)->0 as int)
}

/// The bytes of a list of links.
pub open spec fn edge_bytes(links: Seq<LinkView>, edges: Seq<Edge>) -> Seq<u8>
    decreases edges.len(),
{
    if edges.len() == 0 {
        Seq::empty()
    } else {
        edge_record(links, edges[0]) + edge_bytes(links, edges.skip(1))
    }
}

/// The bytes of all nodes: how many there are (4 bytes), and each, ordered by
/// System ID.
pub open spec fn nodes_section(nodes: Map<NodeId, NodeView>) -> Seq<u8> {
    be32(ordered(nodes.dom()).len() as int % 0x1_0000_0000) + node_bytes(nodes, ordered(nodes.dom()))
}

/// The bytes of all usable links: how many there are (4 bytes), and each,
/// ordered by (lower end, higher end).
pub open spec fn edges_section(links: Seq<LinkView>) -> Seq<u8> {
    be32(ordered(edges_of(links)).len() as int % 0x1_0000_0000) + edge_bytes(links, ordered(edges_of(links)))
}

/// What is digested: everything that determines the shape of the trees, and
/// nothing else.
///
/// A fixed tag, the MT-ID (2 bytes), the nodes and the links. Everything is
/// fixed width or length-prefixed, so no two distinct topologies have the same
/// bytes. Service membership is deliberately excluded: it changes which trees
/// carry which I-SIDs, not the trees themselves, and including it would make
/// the digest churn on every service edit.
pub open spec fn digest_input(nodes: Map<NodeId, NodeView>, links: Seq<LinkView>, mt_id: u16) -> Seq<u8> {
    "holo-spb-digest-v1".spec_bytes() + be16(mt_id as int) + nodes_section(nodes) + edges_section(links)
}

/// The HMAC-SHA256 of `data` under `key`.
pub uninterp spec fn hmac_sha256(key: Seq<u8>, data: Seq<u8>) -> Seq<u8>;

/// Computes an HMAC-SHA256 with `hmac::Hmac` over `sha2::Sha256`.
///
/// Taken on trust: `new_from_slice` accepts a key of any length, and what
/// `finalize` returns after one `update` is a function of the key and the
/// data, 32 bytes long.
#[verifier::external_body]
fn hmac(key: &[u8], data: &[u8]) -> (mac: Vec<u8>)
    ensures
        mac@ == hmac_sha256(key@, data@),
        mac@.len() == 32,
{
    let mut mac = Hmac::<Sha256>::new_from_slice(key).expect("HMAC accepts a key of any length");
    mac.update(data);
    mac.finalize().into_bytes().to_vec()
}

// ===== computing it =====

/// Returns the pairs of an algorithm and a Base VID that a node supports, in
/// order.
fn list_pairs(node: &NodeView) -> (pairs: Vec<EctPair>)
    ensures
        pairs@ == ordered(pairs_of(*node)),
{
    let mut found: OrdSet<EctPair> = OrdSet::new();
    for i in 0..node.ect_vids.len()
        invariant
            forall|p: EctPair| #[trigger] found@.contains(p) ==> pairs_of(*node).contains(p),
            forall|j: int|
                0 <= j < i ==> found@.contains(
                    (EctPair {
                        algorithm: (#[trigger] node.ect_vids@[j]).algorithm.0,
                        base_vid: node.ect_vids@[j].base_vid,
                    }),
                ),
    {
        let vid = &node.ect_vids[i];
        let pair = EctPair { algorithm: vid.algorithm.0, base_vid: vid.base_vid };
        proof {
            assert(node.ect_vids@[i as int].algorithm == EctAlgorithm(pair.algorithm));
            assert(supports(*node, pair.base_vid, EctAlgorithm(pair.algorithm)));
        }
        found.insert(pair);
    }
    proof {
        assert forall|p: EctPair| pairs_of(*node).contains(p) implies found@.contains(p) by {
            let j = choose|j: int|
                0 <= j < node.ect_vids@.len() && (#[trigger] node.ect_vids@[j]).base_vid == p.base_vid
                    && node.ect_vids@[j].algorithm == EctAlgorithm(p.algorithm);
            assert(node.ect_vids@[j].algorithm.0 == p.algorithm);
        }
        assert(found@ =~= pairs_of(*node));
    }
    found.to_vec()
}

/// Returns the usable links of a topology, in order.
fn list_edges(view: &TopologyView) -> (edges: Vec<Edge>)
    ensures
        edges@ == ordered(edges_of(view.links@)),
        forall|i: int| 0 <= i < edges@.len() ==> edges_of(view.links@).contains(#[trigger] edges@[i]),
{
    let mut found: OrdSet<Edge> = OrdSet::new();
    for i in 0..view.links.len()
        invariant
            forall|e: Edge| #[trigger] found@.contains(e) ==> edges_of(view.links@).contains(e),
            forall|j: int, e: Edge|
                0 <= j < i && #[trigger] edges_of(view.links@).contains(e) && (#[trigger] view.links@[j]).from == e.lower
                    && view.links@[j].to == e.higher ==> found@.contains(e),
    {
        let link = &view.links[i];
        let edge = if link.from.ordinal_value() <= link.to.ordinal_value() {
            Edge { lower: link.from, higher: link.to }
        } else {
            Edge { lower: link.to, higher: link.from }
        };
        if view.edge_cost(edge.lower, edge.higher).is_some() {
            found.insert(edge);
        }
    }
    proof {
        assert forall|e: Edge| edges_of(view.links@).contains(e) implies found@.contains(e) by {
            lemma_edge_has_link(view.links@, e.lower, e.higher);
            let j = choose|j: int|
                0 <= j < view.links@.len() && (#[trigger] view.links@[j]).from == e.lower && view.links@[j].to == e.higher;
            assert(view.links@[j].from == e.lower);
        }
        assert(found@ =~= edges_of(view.links@));
    }
    found.to_vec()
}

/// Appends the bytes of a list of pairs.
fn put_pairs(buf: &mut Vec<u8>, pairs: &Vec<EctPair>)
    ensures
        final(buf)@ == old(buf)@ + pair_bytes(pairs@),
{
    let ghost whole = buf@ + pair_bytes(pairs@);
    assert(pairs@.skip(0) =~= pairs@);
    for i in 0..pairs.len()
        invariant
            buf@ + pair_bytes(pairs@.skip(i as int)) == whole,
    {
        let ghost before = buf@;
        let ghost rest = pairs@.skip(i as int);
        put_u32(buf, pairs[i].algorithm);
        put_u16(buf, pairs[i].base_vid);
        proof {
            assert(rest[0] == pairs@[i as int]);
            assert(rest.skip(1) =~= pairs@.skip(i + 1));
            assert(buf@ + pair_bytes(pairs@.skip(i + 1)) =~= before + pair_bytes(rest));
        }
    }
    assert(buf@ + pair_bytes(pairs@.skip(pairs@.len() as int)) =~= buf@);
}

/// Appends the bytes of a node.
fn put_node(buf: &mut Vec<u8>, id: NodeId, node: &NodeView)
    ensures
        final(buf)@ == old(buf)@ + node_record(id, *node),
{
    let ghost before = buf@;
    let bytes = id.as_bytes();
    put_bytes(buf, &bytes);
    put_u16(buf, node.bridge_priority);
    put_u32(buf, node.spsource_id);
    buf.push(
        if node.overload {
            1
        } else {
            0
        },
    );
    let pairs = list_pairs(node);
    put_u16(buf, (pairs.len() % 0x1_0000) as u16);
    put_pairs(buf, &pairs);
    assert(buf@ =~= before + node_record(id, *node));
}

/// Returns the bytes that are digested.
pub fn digest_bytes(view: &TopologyView, mt_id: u16) -> (buf: Vec<u8>)
    ensures
        buf@ == digest_input(view.nodes@, view.links@, mt_id),
{
    let mut buf: Vec<u8> = Vec::new();
    put_bytes(&mut buf, "holo-spb-digest-v1".as_bytes());
    put_u16(&mut buf, mt_id);
    let ghost head = "holo-spb-digest-v1".spec_bytes() + be16(mt_id as int);
    assert(buf@ =~= head);

    // Keys come ordered by System ID, which is what makes the serialization
    // canonical across nodes.
    let ids = view.nodes.keys();
    put_u32(&mut buf, (ids.len() as u64 % 0x1_0000_0000) as u32);
    let ghost whole = buf@ + node_bytes(view.nodes@, ids@);
    assert(ids@.skip(0) =~= ids@);
    for i in 0..ids.len()
        invariant
            forall|j: int| 0 <= j < ids@.len() ==> view.nodes@.contains_key(#[trigger] ids@[j]),
            buf@ + node_bytes(view.nodes@, ids@.skip(i as int)) == whole,
    {
        let ghost before = buf@;
        let ghost rest = ids@.skip(i as int);
        assert(view.nodes@.contains_key(ids@[i as int]));
        if let Some(node) = view.nodes.get(&ids[i]) {
            put_node(&mut buf, ids[i], node);
        }
        proof {
            assert(rest[0] == ids@[i as int]);
            assert(rest.skip(1) =~= ids@.skip(i + 1));
            assert(buf@ + node_bytes(view.nodes@, ids@.skip(i + 1)) =~= before + node_bytes(view.nodes@, rest));
        }
    }
    assert(buf@ + node_bytes(view.nodes@, ids@.skip(ids@.len() as int)) =~= buf@);
    assert(buf@ =~= head + nodes_section(view.nodes@));

    // Each link contributes once, under the ordered pair of its ends and the
    // cost both ends will actually use.
    let edges = list_edges(view);
    let ghost upto = buf@;
    put_u32(&mut buf, (edges.len() as u64 % 0x1_0000_0000) as u32);
    let ghost whole = buf@ + edge_bytes(view.links@, edges@);
    assert(edges@.skip(0) =~= edges@);
    for i in 0..edges.len()
        invariant
            forall|j: int| 0 <= j < edges@.len() ==> edges_of(view.links@).contains(#[trigger] edges@[j]),
            buf@ + edge_bytes(view.links@, edges@.skip(i as int)) == whole,
    {
        let edge = edges[i];
        let ghost before = buf@;
        let ghost rest = edges@.skip(i as int);
        assert(edges_of(view.links@).contains(edges@[i as int]));
        if let Some(cost) = view.edge_cost(edge.lower, edge.higher) {
            put_bytes(&mut buf, &edge.lower.as_bytes());
            put_bytes(&mut buf, &edge.higher.as_bytes());
            put_u32(&mut buf, cost);
        }
        proof {
            assert(rest[0] == edge);
            assert(rest.skip(1) =~= edges@.skip(i + 1));
            assert(buf@ + edge_bytes(view.links@, edges@.skip(i + 1)) =~= before + edge_bytes(view.links@, rest));
        }
    }
    assert(buf@ + edge_bytes(view.links@, edges@.skip(edges@.len() as int)) =~= buf@);
    assert(buf@ =~= upto + edges_section(view.links@));
    buf
}

/// The local digest computation: HMAC-SHA256 over [`digest_input`].
#[derive(Clone, Copy, Debug, Default)]
pub struct HoloLocalDigest;

impl AgreementDigest for HoloLocalDigest {
    /// Returns the digest of one SPB instance's topology.
    ///
    /// The key is fixed: the digest authenticates nothing, it only has to be a
    /// collision-resistant summary that both ends compute identically.
    fn compute(&self, view: &TopologyView, mt_id: u16) -> (digest: Vec<u8>)
        ensures
            digest@ == hmac_sha256("holo-spb".spec_bytes(), digest_input(view.nodes@, view.links@, mt_id)),
            digest@.len() == DIGEST_LEN,
    {
        let buf = digest_bytes(view, mt_id);
        hmac("holo-spb".as_bytes(), &buf)
    }

    fn id(&self) -> (id: &'static str)
        ensures
            id@ == "holo-spb-digest-v1"@,
    {
        "holo-spb-digest-v1"
    }
}

// ===== the laws of the digest =====

/// Both nodes say the same to whoever computes trees.
pub open spec fn same_node_shape(a: NodeView, b: NodeView) -> bool {
    &&& a.bridge_priority == b.bridge_priority
    &&& a.spsource_id == b.spsource_id
    &&& a.overload == b.overload
    &&& pairs_of(a) == pairs_of(b)
}

/// Both topologies have the same nodes and the same usable links, as far as
/// they determine the shape of the trees.
pub open spec fn same_shape(a: TopologyView, b: TopologyView) -> bool {
    &&& a.nodes@.dom() == b.nodes@.dom()
    &&& forall|id: NodeId| #[trigger] a.nodes@.contains_key(id) ==> same_node_shape(a.nodes@[id], b.nodes@[id])
    &&& usable_edges(a.links@) == usable_edges(b.links@)
}

/// The counts of a topology fit the fields that they are written to.
pub open spec fn countable(view: TopologyView) -> bool {
    &&& view.nodes@.dom().len() < 0x1_0000_0000
    &&& ordered(edges_of(view.links@)).len() < 0x1_0000_0000
    &&& forall|id: NodeId| #[trigger] view.nodes@.contains_key(id) ==> ordered(pairs_of(view.nodes@[id])).len() < 0x1_0000
}

proof fn lemma_same_edges(a: Seq<LinkView>, b: Seq<LinkView>)
    requires
        usable_edges(a) == usable_edges(b),
    ensures
        edges_of(a) == edges_of(b),
        forall|e: Edge| #[trigger] edges_of(a).contains(e) ==> edge_record(a, e) == edge_record(b, e),
{
    assert forall|u: NodeId, v: NodeId| #[trigger] edge_cost(a, u, v) == edge_cost(b, u, v) by {
        lemma_usable_edge(a, u, v);
        lemma_usable_edge(b, u, v);
    }
    assert(edges_of(a) =~= edges_of(b));
}

proof fn lemma_same_node_bytes(m: Map<NodeId, NodeView>, n: Map<NodeId, NodeView>, ids: Seq<NodeId>)
    requires
        forall|i: int| 0 <= i < ids.len() ==> same_node_shape(m[#[trigger] ids[i]], n[ids[i]]),
    ensures
        node_bytes(m, ids) == node_bytes(n, ids),
    decreases ids.len(),
{
    if ids.len() > 0 {
        let rest = ids.skip(1);
        assert forall|i: int| 0 <= i < rest.len() implies same_node_shape(m[#[trigger] rest[i]], n[rest[i]]) by {
            assert(rest[i] == ids[i + 1]);
        }
        lemma_same_node_bytes(m, n, rest);
        assert(same_node_shape(m[ids[0]], n[ids[0]]));
    }
}

proof fn lemma_same_edge_bytes(a: Seq<LinkView>, b: Seq<LinkView>, edges: Seq<Edge>)
    requires
        forall|i: int| 0 <= i < edges.len() ==> edge_record(a, #[trigger] edges[i]) == edge_record(b, edges[i]),
    ensures
        edge_bytes(a, edges) == edge_bytes(b, edges),
    decreases edges.len(),
{
    if edges.len() > 0 {
        let rest = edges.skip(1);
        assert forall|i: int| 0 <= i < rest.len() implies edge_record(a, #[trigger] rest[i]) == edge_record(b, rest[i]) by {
            assert(rest[i] == edges[i + 1]);
        }
        lemma_same_edge_bytes(a, b, rest);
    }
}

proof fn lemma_pairs_finite(node: NodeView)
    ensures
        pairs_of(node).finite(),
{
    let listed = node.ect_vids@.map_values(|v: EctVid| EctPair { algorithm: v.algorithm.0, base_vid: v.base_vid });
    assert forall|p: EctPair| pairs_of(node).contains(p) implies listed.to_set().contains(p) by {
        let j = choose|j: int|
            0 <= j < node.ect_vids@.len() && (#[trigger] node.ect_vids@[j]).base_vid == p.base_vid
                && node.ect_vids@[j].algorithm == EctAlgorithm(p.algorithm);
        assert(listed[j] == p);
    }
    vstd::seq_lib::seq_to_set_is_finite(listed);
    vstd::set_lib::lemma_len_subset(pairs_of(node), listed.to_set());
}

proof fn lemma_edges_finite(links: Seq<LinkView>)
    ensures
        edges_of(links).finite(),
{
    let listed = links.map_values(|l: LinkView| Edge { lower: l.from, higher: l.to });
    assert forall|e: Edge| edges_of(links).contains(e) implies listed.to_set().contains(e) by {
        lemma_edge_has_link(links, e.lower, e.higher);
        let j = choose|j: int| 0 <= j < links.len() && (#[trigger] links[j]).from == e.lower && links[j].to == e.higher;
        assert(listed[j] == e);
    }
    vstd::seq_lib::seq_to_set_is_finite(listed);
    vstd::set_lib::lemma_len_subset(edges_of(links), listed.to_set());
}

/// The digest does not depend on who computes it, on the order of the links
/// or on services: topologies of the same shape are digested alike.
pub proof fn same_shape_same_input(a: TopologyView, b: TopologyView, mt_id: u16)
    requires
        same_shape(a, b),
    ensures
        digest_input(a.nodes@, a.links@, mt_id) == digest_input(b.nodes@, b.links@, mt_id),
{
    a.nodes.lemma_finite();
    lemma_ordered_exists(a.nodes@.dom());
    let ids = ordered(a.nodes@.dom());
    assert forall|i: int| 0 <= i < ids.len() implies same_node_shape(a.nodes@[#[trigger] ids[i]], b.nodes@[ids[i]]) by {
        assert(ids.to_set().contains(ids[i]));
        assert(a.nodes@.contains_key(ids[i]));
    }
    lemma_same_node_bytes(a.nodes@, b.nodes@, ids);
    lemma_same_edges(a.links@, b.links@);
    lemma_edges_finite(a.links@);
    lemma_ordered_exists(edges_of(a.links@));
    let edges = ordered(edges_of(a.links@));
    assert forall|i: int| 0 <= i < edges.len() implies edge_record(a.links@, #[trigger] edges[i]) == edge_record(
        b.links@,
        edges[i],
    ) by {
        assert(edges.to_set().contains(edges[i]));
    }
    lemma_same_edge_bytes(a.links@, b.links@, edges);
}

proof fn lemma_pair_bytes_unique(p: Seq<EctPair>, q: Seq<EctPair>, x: Seq<u8>, y: Seq<u8>)
    requires
        p.len() == q.len(),
        pair_bytes(p) + x == pair_bytes(q) + y,
    ensures
        p == q,
        x == y,
    decreases p.len(),
{
    if p.len() == 0 {
        assert(pair_bytes(p) + x =~= x);
        assert(pair_bytes(q) + y =~= y);
        assert(p =~= q);
    } else {
        let a = be32(p[0].algorithm as int);
        let b = be32(q[0].algorithm as int);
        let c = be16(p[0].base_vid as int);
        let d = be16(q[0].base_vid as int);
        let r = pair_bytes(p.skip(1)) + x;
        let s = pair_bytes(q.skip(1)) + y;
        assert(pair_bytes(p) + x =~= a + (c + r));
        assert(pair_bytes(q) + y =~= b + (d + s));
        lemma_split(a, b, c + r, d + s);
        lemma_split(c, d, r, s);
        lemma_be32(p[0].algorithm as int);
        lemma_be32(q[0].algorithm as int);
        lemma_be16(p[0].base_vid as int);
        lemma_be16(q[0].base_vid as int);
        lemma_pair_bytes_unique(p.skip(1), q.skip(1), x, y);
        assert(p =~= seq![p[0]] + p.skip(1));
        assert(q =~= seq![q[0]] + q.skip(1));
    }
}

/// A System ID is determined by its bytes.
proof fn lemma_node_bytes_id(a: NodeId, b: NodeId)
    requires
        a@ == b@,
    ensures
        a == b,
{
    NodeId::ordinal_injective(a, b);
}

proof fn lemma_node_record_unique(i: NodeId, m: NodeView, j: NodeId, n: NodeView, x: Seq<u8>, y: Seq<u8>)
    requires
        ordered(pairs_of(m)).len() < 0x1_0000,
        ordered(pairs_of(n)).len() < 0x1_0000,
        node_record(i, m) + x == node_record(j, n) + y,
    ensures
        i == j,
        same_node_shape(m, n),
        x == y,
{
    let p = ordered(pairs_of(m));
    let q = ordered(pairs_of(n));
    let h = node_head(i, m);
    let k = node_head(j, n);
    lemma_node_len(i);
    lemma_node_len(j);
    assert(node_record(i, m) + x =~= h + (be16(p.len() as int % 0x1_0000) + (pair_bytes(p) + x)));
    assert(node_record(j, n) + y =~= k + (be16(q.len() as int % 0x1_0000) + (pair_bytes(q) + y)));
    lemma_split(h, k, be16(p.len() as int % 0x1_0000) + (pair_bytes(p) + x), be16(q.len() as int % 0x1_0000) + (pair_bytes(q) + y));
    lemma_split(be16(p.len() as int % 0x1_0000), be16(q.len() as int % 0x1_0000), pair_bytes(p) + x, pair_bytes(q) + y);
    lemma_be16(p.len() as int);
    lemma_be16(q.len() as int);
    lemma_pair_bytes_unique(p, q, x, y);
    lemma_pairs_finite(m);
    lemma_pairs_finite(n);
    lemma_ordered_exists(pairs_of(m));
    lemma_ordered_exists(pairs_of(n));
    let o = seq![if m.overload { 1u8 } else { 0u8 }];
    let u = seq![if n.overload { 1u8 } else { 0u8 }];
    let b = be16(m.bridge_priority as int);
    let c = be16(n.bridge_priority as int);
    let d = be32(m.spsource_id as int);
    let e = be32(n.spsource_id as int);
    assert(h =~= i@ + (b + (d + o)));
    assert(k =~= j@ + (c + (e + u)));
    lemma_split(i@, j@, b + (d + o), c + (e + u));
    lemma_split(b, c, d + o, e + u);
    lemma_split(d, e, o, u);
    assert(o[0] == u[0]);
    lemma_be16(m.bridge_priority as int);
    lemma_be16(n.bridge_priority as int);
    lemma_be32(m.spsource_id as int);
    lemma_be32(n.spsource_id as int);
    lemma_node_bytes_id(i, j);
}

proof fn lemma_node_bytes_unique(
    m: Map<NodeId, NodeView>,
    ids: Seq<NodeId>,
    n: Map<NodeId, NodeView>,
    other: Seq<NodeId>,
    x: Seq<u8>,
    y: Seq<u8>,
)
    requires
        ids.len() == other.len(),
        forall|i: int| 0 <= i < ids.len() ==> ordered(pairs_of(m[#[trigger] ids[i]])).len() < 0x1_0000,
        forall|i: int| 0 <= i < other.len() ==> ordered(pairs_of(n[#[trigger] other[i]])).len() < 0x1_0000,
        node_bytes(m, ids) + x == node_bytes(n, other) + y,
    ensures
        ids == other,
        forall|i: int| 0 <= i < ids.len() ==> same_node_shape(m[#[trigger] ids[i]], n[ids[i]]),
        x == y,
    decreases ids.len(),
{
    if ids.len() == 0 {
        assert(node_bytes(m, ids) + x =~= x);
        assert(node_bytes(n, other) + y =~= y);
        assert(ids =~= other);
    } else {
        let r = node_bytes(m, ids.skip(1)) + x;
        let s = node_bytes(n, other.skip(1)) + y;
        assert(node_bytes(m, ids) + x =~= node_record(ids[0], m[ids[0]]) + r);
        assert(node_bytes(n, other) + y =~= node_record(other[0], n[other[0]]) + s);
        lemma_node_record_unique(ids[0], m[ids[0]], other[0], n[other[0]], r, s);
        assert forall|i: int| 0 <= i < ids.skip(1).len() implies ordered(
            pairs_of(m[#[trigger] ids.skip(1)[i]]),
        ).len() < 0x1_0000 by {
            assert(ids.skip(1)[i] == ids[i + 1]);
        }
        assert forall|i: int| 0 <= i < other.skip(1).len() implies ordered(
            pairs_of(n[#[trigger] other.skip(1)[i]]),
        ).len() < 0x1_0000 by {
            assert(other.skip(1)[i] == other[i + 1]);
        }
        lemma_node_bytes_unique(m, ids.skip(1), n, other.skip(1), x, y);
        assert(ids =~= seq![ids[0]] + ids.skip(1));
        assert(other =~= seq![other[0]] + other.skip(1));
        assert forall|i: int| 0 <= i < ids.len() implies same_node_shape(m[#[trigger] ids[i]], n[ids[i]]) by {
            if i > 0 {
                assert(ids.skip(1)[i - 1] == ids[i]);
            }
        }
    }
}

proof fn lemma_edge_bytes_unique(a: Seq<LinkView>, p: Seq<Edge>, b: Seq<LinkView>, q: Seq<Edge>)
    requires
        p.len() == q.len(),
        edge_bytes(a, p) == edge_bytes(b, q),
        forall|i: int| 0 <= i < p.len() ==> edges_of(a).contains(#[trigger] p[i]),
        forall|i: int| 0 <= i < q.len() ==> edges_of(b).contains(#[trigger] q[i]),
    ensures
        p == q,
        forall|i: int|
            0 <= i < p.len() ==> edge_cost(a, (#[trigger] p[i]).lower, p[i].higher) == edge_cost(b, p[i].lower, p[i].higher),
    decreases p.len(),
{
    if p.len() == 0 {
        assert(p =~= q);
    } else {
        let r = edge_bytes(a, p.skip(1));
        let s = edge_bytes(b, q.skip(1));
        let c = edge_cost(a, p[0].lower, p[0].higher);
        let d = edge_cost(b, q[0].lower, q[0].higher);
        lemma_node_len(p[0].lower);
        lemma_node_len(q[0].lower);
        lemma_node_len(p[0].higher);
        lemma_node_len(q[0].higher);
        assert(edge_bytes(a, p) =~= p[0].lower@ + (p[0].higher@ + (be32(c->0 as int) + r)));
        assert(edge_bytes(b, q) =~= q[0].lower@ + (q[0].higher@ + (be32(d->0 as int) + s)));
        lemma_split(p[0].lower@, q[0].lower@, p[0].higher@ + (be32(c->0 as int) + r), q[0].higher@ + (be32(d->0 as int) + s));
        lemma_split(p[0].higher@, q[0].higher@, be32(c->0 as int) + r, be32(d->0 as int) + s);
        lemma_split(be32(c->0 as int), be32(d->0 as int), r, s);
        assert(edges_of(a).contains(p[0]) && edges_of(b).contains(q[0]));
        lemma_be32(c->0 as int);
        lemma_be32(d->0 as int);
        lemma_node_bytes_id(p[0].lower, q[0].lower);
        lemma_node_bytes_id(p[0].higher, q[0].higher);
        assert forall|i: int| 0 <= i < p.skip(1).len() implies edges_of(a).contains(#[trigger] p.skip(1)[i]) by {
            assert(p.skip(1)[i] == p[i + 1]);
        }
        assert forall|i: int| 0 <= i < q.skip(1).len() implies edges_of(b).contains(#[trigger] q.skip(1)[i]) by {
            assert(q.skip(1)[i] == q[i + 1]);
        }
        lemma_edge_bytes_unique(a, p.skip(1), b, q.skip(1));
        assert(p =~= seq![p[0]] + p.skip(1));
        assert(q =~= seq![q[0]] + q.skip(1));
        assert forall|i: int| 0 <= i < p.len() implies edge_cost(a, (#[trigger] p[i]).lower, p[i].higher) == edge_cost(
            b,
            p[i].lower,
            p[i].higher,
        ) by {
            if i > 0 {
                assert(p.skip(1)[i - 1] == p[i]);
            }
        }
    }
}

/// The usable links are determined by those listed under ordered pairs.
proof fn lemma_edges_from_list(a: Seq<LinkView>, b: Seq<LinkView>)
    requires
        edges_of(a) == edges_of(b),
        forall|e: Edge| #[trigger]
            edges_of(a).contains(e) ==> edge_cost(a, e.lower, e.higher) == edge_cost(b, e.lower, e.higher),
    ensures
        usable_edges(a) == usable_edges(b),
{
    let x = usable_edges(a);
    let y = usable_edges(b);
    assert forall|u: NodeId, v: NodeId| edge_cost(a, u, v) == edge_cost(b, u, v) by {
        let e = if u.ordinal() <= v.ordinal() {
            Edge { lower: u, higher: v }
        } else {
            Edge { lower: v, higher: u }
        };
        assert(edges_of(a).contains(e) <==> edges_of(b).contains(e));
        assert(edge_cost(a, u, v) == edge_cost(a, e.lower, e.higher));
        assert(edge_cost(b, u, v) == edge_cost(b, e.lower, e.higher));
        if !edges_of(a).contains(e) {
            assert(edge_cost(a, e.lower, e.higher) is None);
            assert(edge_cost(b, e.lower, e.higher) is None);
        }
    }
    assert(x =~= y);
}

/// The sections of what is digested agree where it agrees.
proof fn lemma_input_sections(a: TopologyView, x: u16, b: TopologyView, y: u16)
    requires
        countable(a),
        countable(b),
        digest_input(a.nodes@, a.links@, x) == digest_input(b.nodes@, b.links@, y),
    ensures
        x == y,
        ordered(a.nodes@.dom()).len() == ordered(b.nodes@.dom()).len(),
        node_bytes(a.nodes@, ordered(a.nodes@.dom())) + edges_section(a.links@) == node_bytes(
            b.nodes@,
            ordered(b.nodes@.dom()),
        ) + edges_section(b.links@),
{
    let tag = "holo-spb-digest-v1".spec_bytes();
    let p = ordered(a.nodes@.dom()).len() as int;
    let q = ordered(b.nodes@.dom()).len() as int;
    a.nodes.lemma_finite();
    b.nodes.lemma_finite();
    lemma_ordered_exists(a.nodes@.dom());
    lemma_ordered_exists(b.nodes@.dom());
    let np = be32(p % 0x1_0000_0000);
    let nq = be32(q % 0x1_0000_0000);
    let na = node_bytes(a.nodes@, ordered(a.nodes@.dom()));
    let nb = node_bytes(b.nodes@, ordered(b.nodes@.dom()));
    let sa = edges_section(a.links@);
    let sb = edges_section(b.links@);
    lemma_together(tag + be16(x as int), np + na, sa);
    lemma_together(tag + be16(y as int), nq + nb, sb);
    lemma_split(tag + be16(x as int), tag + be16(y as int), (np + na) + sa, (nq + nb) + sb);
    lemma_split(tag, tag, be16(x as int), be16(y as int));
    lemma_together(np, na, sa);
    lemma_together(nq, nb, sb);
    lemma_split(np, nq, na + sa, nb + sb);
    lemma_be16(x as int);
    lemma_be16(y as int);
    lemma_be32(p);
    lemma_be32(q);
}

/// Links are the same where their section is.
proof fn lemma_edges_section_unique(a: Seq<LinkView>, b: Seq<LinkView>)
    requires
        ordered(edges_of(a)).len() < 0x1_0000_0000,
        ordered(edges_of(b)).len() < 0x1_0000_0000,
        edges_section(a) == edges_section(b),
    ensures
        usable_edges(a) == usable_edges(b),
{
    let e = ordered(edges_of(a));
    let f = ordered(edges_of(b));
    lemma_edges_finite(a);
    lemma_edges_finite(b);
    lemma_ordered_exists(edges_of(a));
    lemma_ordered_exists(edges_of(b));
    lemma_split(
        be32(e.len() as int % 0x1_0000_0000),
        be32(f.len() as int % 0x1_0000_0000),
        edge_bytes(a, e),
        edge_bytes(b, f),
    );
    lemma_be32(e.len() as int);
    lemma_be32(f.len() as int);
    assert forall|i: int| 0 <= i < e.len() implies edges_of(a).contains(#[trigger] e[i]) by {
        assert(e.to_set().contains(e[i]));
    }
    assert forall|i: int| 0 <= i < f.len() implies edges_of(b).contains(#[trigger] f[i]) by {
        assert(f.to_set().contains(f[i]));
    }
    lemma_edge_bytes_unique(a, e, b, f);
    assert forall|k: Edge| #[trigger] edges_of(a).contains(k) implies edge_cost(a, k.lower, k.higher) == edge_cost(
        b,
        k.lower,
        k.higher,
    ) by {
        assert(e.to_set().contains(k));
        let i = choose|i: int| 0 <= i < e.len() && e[i] == k;
        assert(edge_cost(a, e[i].lower, e[i].higher) == edge_cost(b, e[i].lower, e[i].higher));
    }
    lemma_edges_from_list(a, b);
}

/// No two distinct topologies are digested alike: what is digested gives away
/// the MT-ID and the shape of the topology.
pub proof fn same_input_same_shape(a: TopologyView, x: u16, b: TopologyView, y: u16)
    requires
        countable(a),
        countable(b),
        digest_input(a.nodes@, a.links@, x) == digest_input(b.nodes@, b.links@, y),
    ensures
        x == y,
        same_shape(a, b),
{
    let p = ordered(a.nodes@.dom());
    let q = ordered(b.nodes@.dom());
    lemma_input_sections(a, x, b, y);
    a.nodes.lemma_finite();
    b.nodes.lemma_finite();
    lemma_ordered_exists(a.nodes@.dom());
    lemma_ordered_exists(b.nodes@.dom());
    assert forall|i: int| 0 <= i < p.len() implies ordered(pairs_of(a.nodes@[#[trigger] p[i]])).len() < 0x1_0000 by {
        assert(p.to_set().contains(p[i]));
        assert(a.nodes@.contains_key(p[i]));
    }
    assert forall|i: int| 0 <= i < q.len() implies ordered(pairs_of(b.nodes@[#[trigger] q[i]])).len() < 0x1_0000 by {
        assert(q.to_set().contains(q[i]));
        assert(b.nodes@.contains_key(q[i]));
    }
    lemma_node_bytes_unique(a.nodes@, p, b.nodes@, q, edges_section(a.links@), edges_section(b.links@));
    assert forall|id: NodeId| #[trigger] a.nodes@.contains_key(id) implies same_node_shape(a.nodes@[id], b.nodes@[id]) by {
        assert(p.to_set().contains(id));
        let i = choose|i: int| 0 <= i < p.len() && p[i] == id;
        assert(same_node_shape(a.nodes@[p[i]], b.nodes@[p[i]]));
    }
    lemma_edges_section_unique(a.links@, b.links@);
}

/// The digest covers everything that determines the trees: topologies of the
/// same shape have the same regions, and so the same trees.
pub proof fn same_shape_same_region(a: TopologyView, b: TopologyView, base_vid: u16, algorithm: EctAlgorithm)
    requires
        same_shape(a, b),
    ensures
        region_in(a, base_vid, algorithm) == region_in(b, base_vid, algorithm),
{
    let g = region_in(a, base_vid, algorithm);
    let h = region_in(b, base_vid, algorithm);
    let p = EctPair { algorithm: algorithm.0, base_vid };
    assert(EctAlgorithm(p.algorithm) == algorithm);
    assert forall|id: NodeId| #[trigger] g.members.contains_key(id) <==> h.members.contains_key(id) by {
        assert(a.nodes@.contains_key(id) <==> b.nodes@.contains_key(id)) by {
            assert(a.nodes@.dom().contains(id) <==> b.nodes@.dom().contains(id));
        }
        if a.nodes@.contains_key(id) {
            assert(pairs_of(a.nodes@[id]).contains(p) <==> pairs_of(b.nodes@[id]).contains(p));
        }
    }
    assert forall|id: NodeId| #[trigger] g.members.contains_key(id) implies g.members[id] == h.members[id] by {
        assert(a.nodes@.contains_key(id));
    }
    assert(g.members =~= h.members);
}

/// Links that are offered alike are usable alike.
proof fn lemma_same_offers(a: Seq<LinkView>, b: Seq<LinkView>, u: NodeId, v: NodeId)
    requires
        forall|m: u32| offers(a, u, v, m) == offers(b, u, v, m),
    ensures
        link_metric(a, u, v) == link_metric(b, u, v),
{
    lemma_link_metric_exists(a, u, v);
    lemma_link_metric_exists(b, u, v);
    if let Some(m) = link_metric(a, u, v) {
        assert(offers(a, u, v, m));
    }
    if let Some(m) = link_metric(b, u, v) {
        assert(offers(b, u, v, m));
    }
}

proof fn lemma_offers_contained(a: Seq<LinkView>, b: Seq<LinkView>, u: NodeId, v: NodeId, m: u32)
    requires
        offers(a, u, v, m),
        forall|l: LinkView| #[trigger] a.contains(l) ==> b.contains(l),
    ensures
        offers(b, u, v, m),
{
    let i = choose|i: int| 0 <= i < a.len() && (#[trigger] a[i]).from == u && a[i].to == v && a[i].metric == Some(m);
    assert(a.contains(a[i]));
    let j = choose|j: int| 0 <= j < b.len() && b[j] == a[i];
    assert(b[j].from == u);
}

/// Links that say the same are usable alike.
pub proof fn same_links_same_edges(a: Seq<LinkView>, b: Seq<LinkView>)
    requires
        a.len() == b.len(),
        forall|i: int| 0 <= i < a.len() ==> (#[trigger] a[i])@ == b[i]@,
    ensures
        usable_edges(a) == usable_edges(b),
{
    assert forall|u: NodeId, v: NodeId, m: u32| #[trigger] offers(a, u, v, m) == offers(b, u, v, m) by {
        if offers(a, u, v, m) {
            let i = choose|i: int| 0 <= i < a.len() && (#[trigger] a[i]).from == u && a[i].to == v && a[i].metric == Some(m);
            assert(a[i]@ == b[i]@);
            assert(b[i].from == b[i]@.from);
        }
        if offers(b, u, v, m) {
            let i = choose|i: int| 0 <= i < b.len() && (#[trigger] b[i]).from == u && b[i].to == v && b[i].metric == Some(m);
            assert(a[i]@ == b[i]@);
            assert(a[i].from == a[i]@.from);
        }
    }
    assert forall|u: NodeId, v: NodeId| edge_cost(a, u, v) == edge_cost(b, u, v) by {
        lemma_same_offers(a, b, u, v);
        lemma_same_offers(a, b, v, u);
    }
    assert(usable_edges(a) =~= usable_edges(b));
}

/// The order of the links does not matter.
pub proof fn link_order_does_not_matter(a: Seq<LinkView>, b: Seq<LinkView>)
    requires
        a.to_multiset() == b.to_multiset(),
    ensures
        usable_edges(a) == usable_edges(b),
{
    assert forall|l: LinkView| #[trigger] a.contains(l) <==> b.contains(l) by {
        vstd::seq_lib::to_multiset_contains(a, l);
        vstd::seq_lib::to_multiset_contains(b, l);
    }
    assert forall|u: NodeId, v: NodeId| edge_cost(a, u, v) == edge_cost(b, u, v) by {
        lemma_links_alike(a, b, u, v);
        lemma_links_alike(a, b, v, u);
    }
    assert(usable_edges(a) =~= usable_edges(b));
}

proof fn lemma_links_alike(a: Seq<LinkView>, b: Seq<LinkView>, u: NodeId, v: NodeId)
    requires
        forall|l: LinkView| #[trigger] a.contains(l) <==> b.contains(l),
    ensures
        link_metric(a, u, v) == link_metric(b, u, v),
{
    assert forall|m: u32| offers(a, u, v, m) == offers(b, u, v, m) by {
        if offers(a, u, v, m) {
            lemma_offers_contained(a, b, u, v, m);
        }
        if offers(b, u, v, m) {
            lemma_offers_contained(b, a, u, v, m);
        }
    }
    lemma_same_offers(a, b, u, v);
}

/// A link that one end alone advertises, or that it advertises without a
/// metric, is not usable and changes nothing.
pub proof fn half_link_does_not_count(links: Seq<LinkView>, l: LinkView)
    requires
        l.metric is None || link_metric(links.push(l), l.to, l.from) is None,
    ensures
        usable_edges(links.push(l)) == usable_edges(links),
{
    let more = links.push(l);
    assert forall|u: NodeId, v: NodeId| edge_cost(more, u, v) == edge_cost(links, u, v) by {
        lemma_more_links(links, l, u, v);
        lemma_more_links(links, l, v, u);
        lemma_more_links(links, l, l.to, l.from);
    }
    assert(usable_edges(more) =~= usable_edges(links));
}

/// A further link matters only for its own two ends.
proof fn lemma_more_links(links: Seq<LinkView>, l: LinkView, u: NodeId, v: NodeId)
    ensures
        !(l.from == u && l.to == v && l.metric is Some) ==> link_metric(links.push(l), u, v) == link_metric(links, u, v),
        link_metric(links.push(l), u, v) is None ==> link_metric(links, u, v) is None,
{
    let more = links.push(l);
    assert forall|m: u32| offers(links, u, v, m) implies offers(more, u, v, m) by {
        let i = choose|i: int|
            0 <= i < links.len() && (#[trigger] links[i]).from == u && links[i].to == v && links[i].metric == Some(m);
        assert(more[i] == links[i]);
    }
    assert forall|m: u32|
        offers(more, u, v, m) && !(l.from == u && l.to == v && l.metric is Some) implies offers(links, u, v, m) by {
        let i = choose|i: int|
            0 <= i < more.len() && (#[trigger] more[i]).from == u && more[i].to == v && more[i].metric == Some(m);
        assert(i < links.len());
        assert(more[i] == links[i]);
    }
    if !(l.from == u && l.to == v && l.metric is Some) {
        lemma_same_offers(more, links, u, v);
    }
    lemma_link_metric_exists(more, u, v);
    lemma_link_metric_exists(links, u, v);
}

// ===== agreement =====

/// This node's side of the agreement exchange.
#[derive(Clone, Debug)]
pub struct LocalAgreement {
    /// The digest of our current view.
    pub digest: Vec<u8>,
    /// Agreement Number, incremented whenever our digest changes.
    pub agreement: u8,
    /// The most recent Agreement Number we have discarded, i.e. superseded.
    pub discarded: u8,
    /// The V bit: whether our digest is meaningful yet.
    pub valid: bool,
}

/// Returns whether two byte strings are the same.
pub fn same_bytes(a: &Vec<u8>, b: &Vec<u8>) -> (r: bool)
    ensures
        r == (a@ == b@),
{
    if a.len() != b.len() {
        return false;
    }
    for i in 0..a.len()
        invariant
            a@.len() == b@.len(),
            forall|j: int| 0 <= j < i ==> a@[j] == b@[j],
    {
        if a[i] != b[i] {
            return false;
        }
    }
    assert(a@ =~= b@);
    true
}

impl LocalAgreement {
    /// The numbers are two bits wide.
    pub open spec fn well_formed(self) -> bool {
        self.agreement < AGREEMENT_MODULUS && self.discarded < AGREEMENT_MODULUS
    }

    /// Whether a digest is not the current one.
    pub open spec fn differs(self, digest: Seq<u8>) -> bool {
        !(self.valid && self.digest@ == digest)
    }

    /// Records a newly computed digest.
    ///
    /// A change means everything previously agreed is stale, so the
    /// Agreement Number advances and the old one becomes the discarded one.
    /// Returns whether the digest actually changed.
    pub fn update(&mut self, digest: Vec<u8>) -> (changed: bool)
        requires
            old(self).valid && old(self).digest@ != digest@ ==> old(self).agreement < u8::MAX,
        ensures
            changed == old(self).differs(digest@),
            !changed ==> *final(self) == *old(self),
            changed ==> final(self).digest == digest && final(self).valid,
            changed && old(self).valid ==> final(self).discarded == old(self).agreement && final(self).agreement == (
            old(self).agreement + 1) % (AGREEMENT_MODULUS as int),
            changed && !old(self).valid ==> final(self).discarded == old(self).discarded && final(self).agreement == old(self).agreement,
            old(self).well_formed() ==> final(self).well_formed(),
    {
        if self.valid && same_bytes(&self.digest, &digest) {
            return false;
        }
        if self.valid {
            self.discarded = self.agreement;
            self.agreement = (self.agreement + 1) % AGREEMENT_MODULUS;
        }
        self.digest = digest;
        self.valid = true;
        true
    }
}

impl Default for LocalAgreement {
    fn default() -> (agreement: Self)
        ensures
            agreement.digest@ == Seq::<u8>::empty(),
            agreement.agreement == 0,
            agreement.discarded == 0,
            !agreement.valid,
    {
        LocalAgreement { digest: Vec::new(), agreement: 0, discarded: 0, valid: false }
    }
}

/// What a neighbour told us in its SPB-Digest sub-TLV.
#[derive(Clone, Debug, Default, Eq, PartialEq)]
pub struct NeighborAgreement {
    pub digest: Vec<u8>,
    pub agreement: u8,
    pub discarded: u8,
    pub valid: bool,
}

/// Why a neighbour is or is not in agreement with us.
#[derive(Clone, Copy, Debug, Eq, PartialEq, Structural)]
pub enum Agreement {
    /// Digests match.
    Agreed,
    /// Nothing has been received from this neighbour yet.
    NoDigest,
    /// One side's digest is not yet valid.
    NotValid,
    /// Both sides have a valid digest but they differ: the two nodes see
    /// different topologies, usually because an LSP is still propagating.
    DigestMismatch,
    /// Reserved for the Agreement Number handling of IEEE 802.1aq, which is
    /// carried but not gated on. See [`evaluate`].
    Outstanding,
}

impl Agreement {
    /// Returns whether forwarding may be updated on the strength of this.
    pub fn is_agreed(&self) -> (b: bool)
        ensures
            b == (*self == Agreement::Agreed),
    {
        matches!(self, Agreement::Agreed)
    }
}

/// How two nodes agree.
pub open spec fn agreement_between(local: LocalAgreement, neighbor: Option<NeighborAgreement>) -> Agreement {
    match neighbor {
        None => Agreement::NoDigest,
        Some(n) => if !local.valid || !n.valid {
            Agreement::NotValid
        } else if local.digest@ != n.digest@ {
            Agreement::DigestMismatch
        } else {
            Agreement::Agreed
        },
    }
}

/// A neighbour that still advertises the digest of an earlier view does not
/// agree.
pub proof fn stale_view_is_a_mismatch(local: LocalAgreement, neighbor: NeighborAgreement)
    requires
        local.valid,
        neighbor.valid,
        neighbor.digest@ != local.digest@,
    ensures
        agreement_between(local, Some(neighbor)) == Agreement::DigestMismatch,
{
}

/// Agreement Numbers do not block agreement.
pub proof fn numbers_do_not_matter(
    local: LocalAgreement,
    other_local: LocalAgreement,
    neighbor: NeighborAgreement,
    other_neighbor: NeighborAgreement,
)
    requires
        local.valid == other_local.valid,
        local.digest@ == other_local.digest@,
        neighbor.valid == other_neighbor.valid,
        neighbor.digest@ == other_neighbor.digest@,
    ensures
        agreement_between(local, Some(neighbor)) == agreement_between(other_local, Some(other_neighbor)),
{
}

/// Evaluates agreement with one neighbour.
///
/// Agreement is digest equality. That is sufficient, and the reasoning is
/// worth stating because it is not obvious: a neighbour echoing a *stale*
/// view cannot produce our current digest, since the digest is a function of
/// the topology and a stale topology hashes differently. A match therefore
/// means the neighbour is looking at the same topology we are, which is
/// exactly the question multicast forwarding needs answered.
///
/// RFC 6329, Section 13.2 also describes an Agreement Number that stays
/// *outstanding* until a matching or more recent Discarded Agreement Number
/// returns. Both numbers are carried and reported but not gated on: they count
/// each node's *own* digest changes, so two nodes that have re-converged a
/// different number of times hold permanently different numbers while
/// agreeing perfectly about the topology.
pub fn evaluate(local: &LocalAgreement, neighbor: Option<&NeighborAgreement>) -> (agreement: Agreement)
    ensures
        agreement == agreement_between(
            *local,
            match neighbor {
                Some(n) => Some(*n),
                None => None,
            },
        ),
{
    match neighbor {
        None => Agreement::NoDigest,
        Some(n) => {
            if !local.valid || !n.valid {
                Agreement::NotValid
            } else if !same_bytes(&local.digest, &n.digest) {
                Agreement::DigestMismatch
            } else {
                Agreement::Agreed
            }
        },
    }
}

/// Names the trees of a Base VID that are rooted at one node.
#[derive(Clone, Copy, Debug, Eq, Ord, PartialEq, PartialOrd)]
pub struct RootKey {
    pub base_vid: u16,
    pub root: NodeId,
}

impl Key for RootKey {
    /// Roots are ordered by Base VID, then by System ID.
    open spec fn ordinal(self) -> nat {
        (self.base_vid * 0x1_0000_0000_0000 + self.root.ordinal()) as nat
    }

    proof fn ordinal_injective(a: Self, b: Self) {
        lemma_node_ordinal_bound(a.root);
        lemma_node_ordinal_bound(b.root);
        lemma_edge_parts(a.base_vid as int, a.root.ordinal() as int, b.base_vid as int, b.root.ordinal() as int);
        NodeId::ordinal_injective(a.root, b.root);
    }

    fn ordinal_value(&self) -> (value: u128) {
        proof {
            lemma_node_ordinal_bound(self.root);
        }
        self.base_vid as u128 * 0x1_0000_0000_0000 + self.root.ordinal_value()
    }
}

/// Trees whose multicast forwarding must not be updated yet.
///
/// RFC 6329, Section 13.2 blocks *unsafe* multicast forwarding until digests
/// match. This errs the only safe way: a tree becomes unsafe if the local
/// node's distance to its root changed in a computation, and stays so until
/// agreement is reached. That is a superset of the standard's condition, so it
/// cannot loop; it can only converge more slowly than a fully conformant
/// implementation.
#[derive(Clone, Debug)]
pub struct UnsafeTrees {
    roots: OrdSet<RootKey>,
}

impl View for UnsafeTrees {
    type V = Set<RootKey>;

    closed spec fn view(&self) -> Set<RootKey> {
        self.roots@
    }
}

impl UnsafeTrees {
    /// Marks a tree unsafe because the distance to its root changed.
    pub fn mark(&mut self, base_vid: u16, root: NodeId)
        ensures
            final(self)@ == old(self)@.insert((RootKey { base_vid, root })),
    {
        self.roots.insert(RootKey { base_vid, root });
    }

    /// Returns whether a tree's multicast state may be programmed.
    pub fn is_safe(&self, base_vid: u16, root: NodeId) -> (b: bool)
        ensures
            b == !self@.contains((RootKey { base_vid, root })),
    {
        !self.roots.contains(&RootKey { base_vid, root })
    }

    pub fn is_empty(&self) -> (b: bool)
        ensures
            b == (self@ == Set::<RootKey>::empty()),
    {
        proof {
            self.roots.lemma_finite();
            if self@.len() == 0 {
                assert(self@ =~= Set::<RootKey>::empty());
            }
        }
        self.roots.len() == 0
    }

    pub fn len(&self) -> (n: usize)
        ensures
            self@.finite(),
            n == self@.len(),
    {
        proof {
            self.roots.lemma_finite();
        }
        self.roots.len()
    }

    /// Adds the marks of `other`.
    pub fn merge(&mut self, other: &UnsafeTrees)
        ensures
            final(self)@ == old(self)@.union(other@),
    {
        let ghost before = self@;
        let keys = other.roots.to_vec();
        for i in 0..keys.len()
            invariant
                keys@.to_set() == other@,
                forall|k: RootKey| before.contains(k) ==> self@.contains(k),
                forall|k: RootKey| #[trigger] self@.contains(k) ==> before.contains(k) || other@.contains(k),
                forall|j: int| 0 <= j < i ==> self@.contains(#[trigger] keys@[j]),
        {
            let ghost was = self@;
            let key = keys[i];
            assert(keys@.to_set().contains(key));
            self.roots.insert(key);
            assert(self@ == was.insert(key));
        }
        proof {
            assert forall|k: RootKey| other@.contains(k) implies self@.contains(k) by {
                assert(keys@.to_set().contains(k));
                let j = choose|j: int| 0 <= j < keys@.len() && keys@[j] == k;
                assert(self@.contains(keys@[j]));
            }
            assert(self@ =~= before.union(other@));
        }
    }

    /// Clears every mark, once agreement has been reached.
    pub fn clear(&mut self)
        ensures
            final(self)@ == Set::<RootKey>::empty(),
    {
        self.roots.clear();
    }
}

impl Default for UnsafeTrees {
    fn default() -> (trees: Self)
        ensures
            trees@ == Set::<RootKey>::empty(),
    {
        UnsafeTrees { roots: OrdSet::new() }
    }
}

/// Marking makes exactly that tree unsafe, marking twice is marking once, and
/// the number of marks grows by one just where the tree was safe.
pub proof fn marking_makes_one_tree_unsafe(before: UnsafeTrees, after: UnsafeTrees, base_vid: u16, root: NodeId)
    requires
        after@ == before@.insert((RootKey { base_vid, root })),
    ensures
        forall|v: u16, r: NodeId| #[trigger]
            after@.contains((RootKey { base_vid: v, root: r })) <==> (v == base_vid && r == root) || before@.contains(
                (RootKey { base_vid: v, root: r }),
            ),
        after@.insert((RootKey { base_vid, root })) == after@,
        before@.finite(),
        after@.finite(),
        after@.len() == before@.len() + if before@.contains((RootKey { base_vid, root })) {
            0int
        } else {
            1int
        },
{
    let k = RootKey { base_vid, root };
    before.roots.lemma_finite();
    assert(after@.insert(k) =~= after@);
    if before@.contains(k) {
        assert(before@.insert(k) =~= before@);
    }
}

} // verus!
