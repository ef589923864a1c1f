//! Paths through an SPB region and how they rank.
//!
//! A [`Region`] is what path selection reads of a topology: who takes part in
//! a tree set, what a link costs, who must not be transited and which number
//! a node contributes to the tie-break. It leaves out the node that looks at
//! the topology, so nothing that is computed from a region depends on it.

use vstd::prelude::*;

use crate::ect::{lemma_masked_injective, BridgeId, EctAlgorithm};
use crate::node::NodeId;
use crate::order::{
    is_sorted, lemma_lex_asymmetric, lemma_lex_total, lemma_lex_transitive, lemma_sorted_same, lemma_with_number,
    lemma_with_number_monotone, lex_le, lex_lt, with_number,
};
use crate::topology::{edge_cost, lemma_bridge_id_distinct, supports, EctVid, LinkView, TopologyView};

verus! {

/// The greatest path cost that can be held.
pub const COST_LIMIT: u32 = u32::MAX;

/// The hop count at which counting stops.
pub const HOP_LIMIT: u16 = u16::MAX;

/// What path selection reads of a node.
pub ghost struct Member {
    pub bridge_priority: u16,
    pub overload: bool,
}

/// What path selection reads of a topology, for one tree set.
pub ghost struct Region {
    /// The nodes that take part in the tree set.
    pub members: Map<NodeId, Member>,
    /// The usable links, with their costs.
    pub edges: Map<(NodeId, NodeId), u32>,
    pub base_vid: u16,
    pub algorithm: EctAlgorithm,
}

/// The usable links of a topology, with their costs.
pub open spec fn usable_edges(links: Seq<LinkView>) -> Map<(NodeId, NodeId), u32> {
    Map::new(
        |e: (NodeId, NodeId)| edge_cost(links, e.0, e.1) is Some,
        |e: (NodeId, NodeId)| edge_cost(links, e.0, e.1)->0,
    )
}

/// A link is usable just when it has a cost.
pub proof fn lemma_usable_edge(links: Seq<LinkView>, a: NodeId, b: NodeId)
    ensures
        usable_edges(links).contains_key((a, b)) <==> edge_cost(links, a, b) is Some,
        usable_edges(links).contains_key((a, b)) ==> usable_edges(links)[(a, b)] == edge_cost(links, a, b)->0,
{
}

/// What path selection reads of a topology, for a Base VID and an algorithm.
pub open spec fn region_in(view: TopologyView, base_vid: u16, algorithm: EctAlgorithm) -> Region {
    Region {
        members: Map::new(
            |id: NodeId| view.nodes@.contains_key(id) && supports(view.nodes@[id], base_vid, algorithm),
            |id: NodeId| Member {
                bridge_priority: view.nodes@[id].bridge_priority,
                overload: view.nodes@[id].overload,
            },
        ),
        edges: usable_edges(view.links@),
        base_vid,
        algorithm,
    }
}

impl TopologyView {
    /// What path selection reads of this view, for the tree set of `ect_vid`.
    pub open spec fn region(self, ect_vid: EctVid) -> Region {
        region_in(self, ect_vid.base_vid, ect_vid.algorithm)
    }
}

/// A region of a view has finitely many members, and its links cost the same
/// in both directions.
pub proof fn lemma_region(view: TopologyView, base_vid: u16, algorithm: EctAlgorithm)
    ensures
        region_in(view, base_vid, algorithm).well_formed(),
        region_in(view, base_vid, algorithm).members.dom().len() <= view.nodes@.dom().len(),
{
    let g = region_in(view, base_vid, algorithm);
    view.nodes.lemma_finite();
    assert(g.members.dom().subset_of(view.nodes@.dom()));
    vstd::set_lib::lemma_len_subset(g.members.dom(), view.nodes@.dom());
}

impl Region {
    /// There are finitely many members, and links cost the same in both
    /// directions.
    pub open spec fn well_formed(self) -> bool {
        &&& self.members.dom().finite()
        &&& forall|a: NodeId, b: NodeId| #[trigger]
            self.edges.contains_key((a, b)) ==> self.edges.contains_key((b, a)) && self.edges[(b, a)] == self.edges[(a, b)]
    }

    /// Whether a node takes part in the tree set.
    #[verifier::opaque]
    pub open spec fn member(self, id: NodeId) -> bool {
        self.members.contains_key(id)
    }

    /// The cost of the link between two nodes, if it is usable.
    #[verifier::opaque]
    pub open spec fn edge(self, a: NodeId, b: NodeId) -> Option<u32> {
        if self.edges.contains_key((a, b)) {
            Some(self.edges[(a, b)])
        } else {
            None
        }
    }

    /// Whether a node has the SPB overload bit set.
    #[verifier::opaque]
    pub open spec fn overloaded(self, id: NodeId) -> bool {
        self.members[id].overload
    }

    /// The number that a node contributes to the tie-break.
    #[verifier::opaque]
    pub open spec fn number(self, id: NodeId) -> nat {
        BridgeId::of(self.members[id].bridge_priority, id@).masked_value(self.algorithm)
    }

    /// The sum of the link costs along a path.
    pub open spec fn cost(self, p: Seq<NodeId>) -> nat
        decreases p.len(),
    {
        if p.len() < 2 {
            0
        } else {
            self.cost(p.drop_last()) + self.edge(p[p.len() - 2], p.last())->0 as nat
        }
    }

    /// The numbers of the nodes strictly between the ends of a path, sorted.
    pub open spec fn ids(self, p: Seq<NodeId>) -> Seq<nat>
        decreases p.len(),
    {
        if p.len() <= 2 {
            Seq::empty()
        } else {
            with_number(self.ids(p.drop_last()), self.number(p[p.len() - 2]))
        }
    }

    /// A link that a path may follow after `i` hops.
    pub open spec fn passable(self, p: Seq<NodeId>, i: int) -> bool {
        &&& self.member(p[i + 1])
        &&& self.edge(p[i], p[i + 1]) is Some
        &&& i > 0 ==> !self.overloaded(p[i])
    }

    /// `p` is a path from `root` that traffic of the tree set may take: it
    /// follows usable links between members, visits no node twice, transits
    /// no overloaded node, and its cost can be held.
    pub open spec fn is_path(self, root: NodeId, p: Seq<NodeId>) -> bool {
        &&& p.len() > 0
        &&& p[0] == root
        &&& self.member(root)
        &&& p.no_duplicates()
        &&& forall|i: int| 0 <= i < p.len() - 1 ==> #[trigger] self.passable(p, i)
        &&& self.cost(p) <= COST_LIMIT
    }
}

/// The hop count of a path, as far as it is counted.
pub open spec fn hops(p: Seq<NodeId>) -> nat {
    if p.len() - 1 < HOP_LIMIT {
        (p.len() - 1) as nat
    } else {
        HOP_LIMIT as nat
    }
}

impl Region {
    /// `p` comes before `q` in the SPB total order: cost, then hops, then
    /// PATHID.
    pub open spec fn ranks_before(self, p: Seq<NodeId>, q: Seq<NodeId>) -> bool {
        ||| self.cost(p) < self.cost(q)
        ||| self.cost(p) == self.cost(q) && hops(p) < hops(q)
        ||| self.cost(p) == self.cost(q) && hops(p) == hops(q) && lex_lt(self.ids(p), self.ids(q))
    }

    /// `p` is at least as good as `q`: cheaper, or as cheap with fewer hops,
    /// or alike in both with a PATHID that does not come later. Paths whose
    /// hops are too many to count are told apart by their cost alone.
    pub open spec fn as_good(self, p: Seq<NodeId>, q: Seq<NodeId>) -> bool {
        ||| self.cost(p) < self.cost(q)
        ||| self.cost(p) == self.cost(q) && hops(p) < hops(q)
        ||| self.cost(p) == self.cost(q) && hops(p) == hops(q) && (hops(p) < HOP_LIMIT ==> lex_le(self.ids(p), self.ids(q)))
    }

    /// `p` is a path from `root`, and no path with the same ends is better.
    pub open spec fn is_best(self, root: NodeId, p: Seq<NodeId>) -> bool {
        &&& self.is_path(root, p)
        &&& forall|q: Seq<NodeId>| #[trigger] self.is_path(root, q) && q.last() == p.last() ==> self.as_good(p, q)
    }
}

// ===== ranking =====

pub proof fn lemma_as_good_transitive(g: Region, p: Seq<NodeId>, q: Seq<NodeId>, r: Seq<NodeId>)
    requires
        g.as_good(p, q),
        g.as_good(q, r),
    ensures
        g.as_good(p, r),
{
    if lex_lt(g.ids(p), g.ids(q)) && lex_lt(g.ids(q), g.ids(r)) {
        lemma_lex_transitive(g.ids(p), g.ids(q), g.ids(r));
    }
}

/// Of two paths, one is at least as good as the other.
pub proof fn lemma_as_good_total(g: Region, p: Seq<NodeId>, q: Seq<NodeId>)
    requires
        p.len() > 0,
        q.len() > 0,
    ensures
        g.as_good(p, q) || g.as_good(q, p),
        !g.ranks_before(q, p) ==> g.as_good(p, q),
        g.as_good(p, q) && g.as_good(q, p) && hops(p) < HOP_LIMIT ==> g.ids(p) == g.ids(q) && p.len() == q.len(),
{
    lemma_lex_total(g.ids(p), g.ids(q));
    if lex_lt(g.ids(p), g.ids(q)) {
        lemma_lex_asymmetric(g.ids(p), g.ids(q));
    }
}

/// The numbers along a path are sorted, one for each node between its ends.
pub proof fn lemma_ids_sorted(g: Region, p: Seq<NodeId>)
    ensures
        is_sorted(g.ids(p)),
        g.ids(p).len() == if p.len() <= 2 {
            0
        } else {
            (p.len() - 2) as nat
        },
    decreases p.len(),
{
    if p.len() > 2 {
        lemma_ids_sorted(g, p.drop_last());
        lemma_with_number(g.ids(p.drop_last()), g.number(p[p.len() - 2]));
    }
}

/// Extending a path by one node.
pub proof fn lemma_extend(g: Region, p: Seq<NodeId>, n: NodeId)
    requires
        p.len() > 0,
    ensures
        g.cost(p.push(n)) == g.cost(p) + g.edge(p.last(), n)->0 as nat,
        g.ids(p.push(n)) == if p.len() == 1 {
            Seq::empty()
        } else {
            with_number(g.ids(p), g.number(p.last()))
        },
{
    assert(p.push(n).drop_last() =~= p);
}

/// Extending two paths to one node by the same node keeps which is better.
pub proof fn lemma_extend_monotone(g: Region, p: Seq<NodeId>, q: Seq<NodeId>, n: NodeId)
    requires
        p.len() > 0,
        q.len() > 0,
        p.last() == q.last(),
        g.as_good(p, q),
    ensures
        g.as_good(p.push(n), q.push(n)),
{
    lemma_extend(g, p, n);
    lemma_extend(g, q, n);
    lemma_ids_sorted(g, p);
    lemma_ids_sorted(g, q);
    if g.cost(p) == g.cost(q) && hops(p) == hops(q) && hops(p) < HOP_LIMIT && p.len() > 1 && lex_lt(g.ids(p), g.ids(q)) {
        lemma_with_number_monotone(g.ids(p), g.ids(q), g.number(p.last()));
    }
}

/// The beginning of a path is at least as good as the path.
pub proof fn lemma_prefix_as_good(g: Region, p: Seq<NodeId>, k: int)
    requires
        0 < k <= p.len(),
    ensures
        g.as_good(p.take(k), p),
        g.cost(p.take(k)) <= g.cost(p),
    decreases p.len() - k,
{
    if k == p.len() {
        assert(p.take(k) =~= p);
    } else {
        lemma_prefix_as_good(g, p, k + 1);
        lemma_extend(g, p.take(k), p[k]);
        assert(p.take(k + 1) =~= p.take(k).push(p[k]));
        assert(g.as_good(p.take(k), p.take(k + 1)));
        lemma_as_good_transitive(g, p.take(k), p.take(k + 1), p);
    }
}

/// The beginning of a path is a path.
pub proof fn lemma_prefix_path(g: Region, root: NodeId, p: Seq<NodeId>, k: int)
    requires
        g.is_path(root, p),
        0 < k <= p.len(),
    ensures
        g.is_path(root, p.take(k)),
        p.take(k).last() == p[k - 1],
{
    lemma_prefix_as_good(g, p, k);
    let q = p.take(k);
    assert forall|i: int| 0 <= i < q.len() - 1 implies #[trigger] g.passable(q, i) by {
        assert(g.passable(p, i));
    }
}

/// A path grows by a usable link to a member that it has not visited.
pub proof fn lemma_path_push(g: Region, root: NodeId, p: Seq<NodeId>, n: NodeId)
    requires
        g.is_path(root, p),
        !p.contains(n),
        g.member(n),
        g.edge(p.last(), n) is Some,
        p.len() > 1 ==> !g.overloaded(p.last()),
        g.cost(p.push(n)) <= COST_LIMIT,
    ensures
        g.is_path(root, p.push(n)),
        p.push(n).last() == n,
{
    let q = p.push(n);
    assert forall|i: int| 0 <= i < q.len() - 1 implies #[trigger] g.passable(q, i) by {
        if i < p.len() - 1 {
            assert(g.passable(p, i));
        }
    }
}

/// Distinct nodes contribute distinct numbers.
pub proof fn lemma_number_injective(g: Region, a: NodeId, b: NodeId)
    requires
        g.number(a) == g.number(b),
    ensures
        a == b,
{
    reveal(Region::number);
    let x = g.members[a].bridge_priority;
    let y = g.members[b].bridge_priority;
    lemma_masked_injective(BridgeId::of(x, a@), BridgeId::of(y, b@), g.algorithm);
    lemma_bridge_id_distinct(x, a, y, b);
}

/// A link costs the same in both directions.
pub proof fn lemma_edge_symmetric(g: Region, a: NodeId, b: NodeId)
    requires
        g.well_formed(),
    ensures
        g.edge(a, b) == g.edge(b, a),
{
    reveal(Region::edge);
}

// ===== the two directions of a path =====

/// The cost of a path counted from its front.
proof fn lemma_cost_front(g: Region, p: Seq<NodeId>)
    requires
        p.len() > 1,
    ensures
        g.cost(p) == g.edge(p[0], p[1])->0 as nat + g.cost(p.skip(1)),
    decreases p.len(),
{
    let q = p.drop_last();
    if p.len() == 2 {
        assert(g.cost(q) == 0);
        assert(g.cost(p.skip(1)) == 0);
    } else {
        lemma_cost_front(g, q);
        assert(p.skip(1).drop_last() =~= q.skip(1));
    }
}

/// A path costs the same in both directions.
proof fn lemma_cost_reverse(g: Region, p: Seq<NodeId>)
    requires
        g.well_formed(),
    ensures
        g.cost(p.reverse()) == g.cost(p),
    decreases p.len(),
{
    if p.len() > 1 {
        let r = p.reverse();
        lemma_cost_front(g, r);
        assert(r.skip(1) =~= p.drop_last().reverse());
        lemma_cost_reverse(g, p.drop_last());
        lemma_edge_symmetric(g, p[p.len() - 2], p.last());
    }
}

/// The numbers of the nodes strictly between the ends of a path, in its order.
pub(crate) open spec fn between(g: Region, p: Seq<NodeId>) -> Seq<nat> {
    if p.len() <= 2 {
        Seq::empty()
    } else {
        Seq::new((p.len() - 2) as nat, |i: int| g.number(p[i + 1]))
    }
}

pub(crate) proof fn lemma_ids_between(g: Region, p: Seq<NodeId>)
    ensures
        g.ids(p).to_multiset() == between(g, p).to_multiset(),
    decreases p.len(),
{
    if p.len() > 2 {
        let q = p.drop_last();
        let x = g.number(p[p.len() - 2]);
        lemma_ids_between(g, q);
        lemma_ids_sorted(g, q);
        lemma_with_number(g.ids(q), x);
        vstd::seq_lib::to_multiset_build(between(g, q), x);
        assert(between(g, p) =~= between(g, q).push(x));
    }
}

proof fn lemma_reverse_multiset(s: Seq<nat>)
    ensures
        s.reverse().to_multiset() == s.to_multiset(),
    decreases s.len(),
{
    if s.len() > 0 {
        let t = s.drop_last();
        let x = seq![s.last()];
        lemma_reverse_multiset(t);
        assert(s.reverse() =~= x + t.reverse());
        vstd::seq_lib::lemma_seq_union_to_multiset_commutative(x, t.reverse());
        assert(t.reverse() + x =~= t.reverse().push(s.last()));
        vstd::seq_lib::to_multiset_build(t.reverse(), s.last());
        vstd::seq_lib::to_multiset_build(t, s.last());
        assert(s =~= t.push(s.last()));
    } else {
        assert(s.reverse() =~= s);
    }
}

/// A path and its reverse have the same PATHID.
proof fn lemma_ids_reverse(g: Region, p: Seq<NodeId>)
    ensures
        g.ids(p.reverse()) == g.ids(p),
{
    let r = p.reverse();
    lemma_ids_between(g, p);
    lemma_ids_between(g, r);
    lemma_ids_sorted(g, p);
    lemma_ids_sorted(g, r);
    assert(between(g, r) =~= between(g, p).reverse());
    lemma_reverse_multiset(between(g, p));
    lemma_sorted_same(g.ids(p), g.ids(r));
}

/// The reverse of a path is a path, with the same cost, hops and PATHID.
pub proof fn lemma_reverse_path(g: Region, root: NodeId, p: Seq<NodeId>)
    requires
        g.well_formed(),
        g.is_path(root, p),
    ensures
        g.is_path(p.last(), p.reverse()),
        p.reverse().last() == root,
        p.reverse().reverse() == p,
        g.cost(p.reverse()) == g.cost(p),
        g.ids(p.reverse()) == g.ids(p),
        hops(p.reverse()) == hops(p),
{
    let r = p.reverse();
    lemma_cost_reverse(g, p);
    lemma_ids_reverse(g, p);
    assert(r.reverse() =~= p);
    assert(g.member(p.last())) by {
        if p.len() > 1 {
            assert(g.passable(p, p.len() - 2));
        }
    }
    assert forall|i: int| 0 <= i < r.len() - 1 implies #[trigger] g.passable(r, i) by {
        let j = p.len() - 2 - i;
        assert(g.passable(p, j));
        lemma_edge_symmetric(g, p[j], p[j + 1]);
        if j > 0 {
            assert(g.passable(p, j - 1));
        }
        if i > 0 {
            assert(g.passable(p, j + 1));
        }
    }
}

// ===== there is one best path =====

/// A node between the ends of one path is between the ends of every path with
/// the same PATHID.
proof fn lemma_shared_node(g: Region, p: Seq<NodeId>, q: Seq<NodeId>, i: int) -> (j: int)
    requires
        g.ids(p) == g.ids(q),
        0 < i < p.len() - 1,
    ensures
        0 < j < q.len() - 1,
        q[j] == p[i],
{
    lemma_ids_between(g, p);
    lemma_ids_between(g, q);
    let a = between(g, p);
    let b = between(g, q);
    let x = g.number(p[i]);
    assert(a[i - 1] == x);
    vstd::seq_lib::to_multiset_contains(a, x);
    vstd::seq_lib::to_multiset_contains(b, x);
    assert(b.contains(x));
    let k = choose|k: int| 0 <= k < b.len() && b[k] == x;
    lemma_number_injective(g, q[k + 1], p[i]);
    k + 1
}

/// The beginning of a best path whose hops can be counted is a best path.
pub proof fn lemma_best_prefix(g: Region, root: NodeId, p: Seq<NodeId>)
    requires
        g.is_best(root, p),
        p.len() > 1,
        hops(p) < HOP_LIMIT,
    ensures
        g.is_best(root, p.drop_last()),
{
    let a = p.drop_last();
    let d = p.last();
    assert(a =~= p.take(p.len() - 1));
    lemma_prefix_path(g, root, p, p.len() - 1);
    assert(p =~= a.push(d));
    assert(g.passable(p, p.len() - 2));
    lemma_extend(g, a, d);
    assert forall|q: Seq<NodeId>| #[trigger] g.is_path(root, q) && q.last() == a.last() implies g.as_good(a, q) by {
        if !g.as_good(a, q) {
            lemma_as_good_total(g, a, q);
            assert(g.as_good(q, a));
            if q.contains(d) {
                let k = choose|k: int| 0 <= k < q.len() && q[k] == d;
                lemma_prefix_path(g, root, q, k + 1);
                lemma_prefix_as_good(g, q, k + 1);
                let t = q.take(k + 1);
                assert(g.as_good(p, t));
                lemma_as_good_transitive(g, t, q, a);
                lemma_as_good_transitive(g, p, t, a);
                assert(false);
            } else {
                lemma_extend(g, q, d);
                lemma_extend_monotone(g, q, a, d);
                assert(q.len() > 1 ==> !g.overloaded(q.last())) by {
                    if q.len() > 1 && a.len() == 1 {
                        assert(q[0] == q[q.len() - 1]);
                    }
                }
                lemma_path_push(g, root, q, d);
                assert(g.as_good(p, q.push(d)));
                lemma_as_good_total(g, p, q.push(d));
                assert(g.cost(q) == g.cost(a) && q.len() == a.len());
                lemma_ids_sorted(g, q);
                lemma_ids_sorted(g, a);
                assert(lex_lt(g.ids(q), g.ids(a)));
                if a.len() == 1 {
                    assert(g.ids(q) =~= g.ids(a));
                    assert(false);
                }
                lemma_with_number_monotone(g.ids(q), g.ids(a), g.number(a.last()));
                lemma_lex_asymmetric(g.ids(q.push(d)), g.ids(p));
                assert(false);
            }
        }
    }
}

/// Between two nodes there is at most one best path whose hops can be counted.
///
/// RFC 6329, Section 4: the tie-break leaves a single path per destination.
pub proof fn lemma_best_unique(g: Region, root: NodeId, p: Seq<NodeId>, q: Seq<NodeId>)
    requires
        g.is_best(root, p),
        g.is_best(root, q),
        p.last() == q.last(),
        hops(p) < HOP_LIMIT,
    ensures
        p == q,
    decreases p.len(),
{
    assert(g.as_good(p, q));
    assert(g.as_good(q, p));
    lemma_as_good_total(g, p, q);
    assert(p.len() == q.len());
    let n = p.len();
    if n <= 2 {
        assert(p =~= q);
    } else {
        let u = p[n - 2];
        let v = q[n - 2];
        let d = p.last();
        let a = p.drop_last();
        let b = q.drop_last();
        if u == v {
            lemma_best_prefix(g, root, p);
            lemma_best_prefix(g, root, q);
            lemma_best_unique(g, root, a, b);
            assert(p =~= a.push(d));
            assert(q =~= b.push(d));
        } else {
            let j = lemma_shared_node(g, p, q, n - 2);
            let i = lemma_shared_node(g, q, p, n - 2);
            lemma_shortcut(g, root, p, q, i);
            lemma_shortcut(g, root, q, p, j);
            lemma_prefix_as_good(g, a, i + 1);
            lemma_prefix_as_good(g, b, j + 1);
            assert(a.take(i + 1) =~= p.take(i + 1));
            assert(b.take(j + 1) =~= q.take(j + 1));
        }
    }
}

/// Where a best path `p` passes the node from which `q` reaches the common
/// end, turning off to that end directly costs more than staying on `p`.
proof fn lemma_shortcut(g: Region, root: NodeId, p: Seq<NodeId>, q: Seq<NodeId>, i: int)
    requires
        g.is_best(root, p),
        g.is_path(root, q),
        p.last() == q.last(),
        q.len() > 2,
        0 < i < p.len() - 2,
        p[i] == q[q.len() - 2],
        hops(p) < HOP_LIMIT,
    ensures
        g.cost(p.take(i + 1)) + g.edge(q[q.len() - 2], q.last())->0 as nat > g.cost(p),
{
    let d = p.last();
    let a = p.take(i + 1);
    let s = a.push(d);
    lemma_prefix_path(g, root, p, i + 1);
    lemma_extend(g, a, d);
    assert(g.passable(q, q.len() - 2));
    assert(!a.contains(d)) by {
        if a.contains(d) {
            let k = choose|k: int| 0 <= k < a.len() && a[k] == d;
            assert(p[k] == p[p.len() - 1]);
        }
    }
    assert(g.member(d));
    if g.cost(s) <= g.cost(p) {
        lemma_path_push(g, root, a, d);
        assert(g.as_good(p, s));
        assert(false);
    }
}

} // verus!
