//! What computed trees are, and which trees are computed.

use vstd::prelude::*;

use crate::ect::{BridgeId, EctAlgorithm};
use crate::laws::region::lemma_lists;
use crate::node::NodeId;
use crate::order::{is_sorted, lemma_lex_asymmetric, lemma_sorted_same, lex_lt};
use crate::ordmap::lemma_push_set;
use crate::region::{between, hops, lemma_ids_between, lemma_ids_sorted, lemma_region, lemma_usable_edge, region_in, Region};
use crate::spt::{chosen_path_best, chosen_path_continues, chosen_paths, chosen_paths_reach};
use crate::topology::{edge_cost, node_lists, EctVid, Role, TopologyView};
use crate::tree::{
    child_set, is_tree_of, kept_keys, leads_down_to, leads_up, lies_above, root_set, skipped_keys, wanted_keys, SpbTree,
    TreeKey, TreeNode,
};

verus! {

/// What a region says of a view.
proof fn lemma_region_says(view: TopologyView, base_vid: u16, algorithm: EctAlgorithm, a: NodeId, b: NodeId)
    ensures
        ({
            let g = region_in(view, base_vid, algorithm);
            &&& g.member(a) <==> view.nodes@.contains_key(a) && exists|k: int|
                0 <= k < view.nodes@[a].ect_vids@.len() && (#[trigger] view.nodes@[a].ect_vids@[k]).base_vid == base_vid
                    && view.nodes@[a].ect_vids@[k].algorithm == algorithm
            &&& g.edge(a, b) == edge_cost(view.links@, a, b)
            &&& g.member(a) ==> g.overloaded(a) == view.nodes@[a].overload
            &&& g.member(a) ==> g.number(a) == BridgeId::of(view.nodes@[a].bridge_priority, a@).masked_value(algorithm)
        }),
{
    reveal(Region::member);
    reveal(Region::edge);
    reveal(Region::overloaded);
    reveal(Region::number);
    lemma_usable_edge(view.links@, a, b);
}

/// The path to a node passes each of its nodes by that node's own path.
proof fn lemma_way(g: Region, root: NodeId, n: NodeId, i: int)
    requires
        g.well_formed(),
        chosen_paths(g, root).contains_key(n),
        0 <= i < chosen_paths(g, root)[n].len(),
    ensures
        chosen_paths(g, root).contains_key(chosen_paths(g, root)[n][i]),
        chosen_paths(g, root)[chosen_paths(g, root)[n][i]] == chosen_paths(g, root)[n].take(i + 1),
    decreases chosen_paths(g, root)[n].len(),
{
    let p = chosen_paths(g, root)[n];
    chosen_path_continues(g, root, n);
    if i == p.len() - 1 {
        assert(p.take(i + 1) =~= p);
    } else {
        let a = p[p.len() - 2];
        let q = p.drop_last();
        lemma_way(g, root, a, i);
        assert(q.take(i + 1) =~= p.take(i + 1));
        assert(q[i] == p[i]);
    }
}

/// A tree leads to each of its nodes by links of the view: from the root, whose
/// entry is empty, from each node to one whose parent it is, at the cost of the
/// link between them and one more hop. All of the nodes on the way take part in
/// the tree set, none is passed twice, and none in between is overloaded. The
/// node after the root is the first hop of all, and the PATHID is made of the
/// masked BridgeIDs of the nodes in between, in increasing order.
#[verifier::rlimit(40)]
#[verifier::spinoff_prover]
pub proof fn tree_leads_along_links(
    tree: SpbTree,
    view: TopologyView,
    base_vid: u16,
    algorithm: EctAlgorithm,
    root: NodeId,
    n: NodeId,
) -> (p: Seq<NodeId>)
    requires
        is_tree_of(tree, region_in(view, base_vid, algorithm), root),
        tree.nodes@.contains_key(n),
    ensures
        tree.root == root,
        tree.base_vid == base_vid,
        tree.algorithm == algorithm,
        p.len() > 0,
        p[0] == root,
        p.last() == n,
        p.no_duplicates(),
        tree.nodes@.contains_key(root),
        tree.nodes@[root].cost == 0,
        tree.nodes@[root].parent is None,
        tree.nodes@[root].first_hop is None,
        forall|i: int| #![trigger p[i]] 0 <= i < p.len() ==> {
            &&& tree.nodes@.contains_key(p[i])
            &&& view.nodes@.contains_key(p[i])
            &&& exists|k: int|
                0 <= k < view.nodes@[p[i]].ect_vids@.len() && (#[trigger] view.nodes@[p[i]].ect_vids@[k]).base_vid == base_vid
                    && view.nodes@[p[i]].ect_vids@[k].algorithm == algorithm
            &&& 0 < i < p.len() - 1 ==> !view.nodes@[p[i]].overload
            &&& tree.nodes@[p[i]].hops == if i < 65535 {
                i
            } else {
                65535
            }
        },
        forall|i: int| #![trigger p[i]] 0 < i < p.len() ==> {
            &&& edge_cost(view.links@, p[i - 1], p[i]) is Some
            &&& tree.nodes@[p[i]].parent == Some(p[i - 1])
            &&& tree.nodes@[p[i]].first_hop == Some(p[1])
            &&& tree.nodes@[p[i]].cost == tree.nodes@[p[i - 1]].cost + edge_cost(view.links@, p[i - 1], p[i])->0
        },
        forall|i: int, j: int|
            0 <= i <= j < tree.nodes@[n].path_id.values().len() ==> tree.nodes@[n].path_id.values()[i]
                <= tree.nodes@[n].path_id.values()[j],
        p.len() <= 2 ==> tree.nodes@[n].path_id.values().len() == 0,
        p.len() > 2 ==> tree.nodes@[n].path_id.values().to_multiset() == Seq::new(
            (p.len() - 2) as nat,
            |i: int| BridgeId::of(view.nodes@[p[i + 1]].bridge_priority, p[i + 1]@).masked_value(algorithm),
        ).to_multiset(),
{
    let g = region_in(view, base_vid, algorithm);
    let paths = chosen_paths(g, root);
    lemma_region(view, base_vid, algorithm);
    let p = paths[n];
    chosen_path_continues(g, root, n);
    assert(g.is_path(root, p));
    assert forall|i: int| #![trigger p[i]] 0 <= i < p.len() implies tree.nodes@.contains_key(p[i]) && paths[p[i]] == p.take(i + 1)
        && g.member(p[i]) && (0 < i < p.len() - 1 ==> !g.overloaded(p[i])) && (0 < i ==> g.edge(p[i - 1], p[i]) is Some) by {
        lemma_way(g, root, n, i);
        if i > 0 {
            assert(g.passable(p, i - 1));
        }
        if i < p.len() - 1 {
            assert(g.passable(p, i));
        }
    }
    assert forall|i: int| #![trigger p[i]] 0 <= i < p.len() implies {
        &&& tree.nodes@.contains_key(p[i])
        &&& view.nodes@.contains_key(p[i])
        &&& exists|k: int|
            0 <= k < view.nodes@[p[i]].ect_vids@.len() && (#[trigger] view.nodes@[p[i]].ect_vids@[k]).base_vid == base_vid
                && view.nodes@[p[i]].ect_vids@[k].algorithm == algorithm
        &&& 0 < i < p.len() - 1 ==> !view.nodes@[p[i]].overload
        &&& tree.nodes@[p[i]].hops == if i < 65535 {
            i
        } else {
            65535
        }
    } by {
        lemma_region_says(view, base_vid, algorithm, p[i], p[i]);
    }
    assert forall|i: int| #![trigger p[i]] 0 < i < p.len() implies {
        &&& edge_cost(view.links@, p[i - 1], p[i]) is Some
        &&& tree.nodes@[p[i]].parent == Some(p[i - 1])
        &&& tree.nodes@[p[i]].first_hop == Some(p[1])
        &&& tree.nodes@[p[i]].cost == tree.nodes@[p[i - 1]].cost + edge_cost(view.links@, p[i - 1], p[i])->0
    } by {
        lemma_region_says(view, base_vid, algorithm, p[i - 1], p[i]);
        let q = p.take(i + 1);
        assert(q.drop_last() =~= p.take(i));
        assert(tree.nodes@.contains_key(p[i - 1]));
        assert(paths[p[i - 1]] == p.take(i));
        assert(paths[p[i]] == q);
        assert(q[q.len() - 2] == p[i - 1]);
    }
    assert(paths[p[0]] == p.take(1));
    assert(p.take(1).len() == 1);
    lemma_ids_sorted(g, p);
    lemma_ids_between(g, p);
    if p.len() > 2 {
        let s = Seq::new(
            (p.len() - 2) as nat,
            |i: int| BridgeId::of(view.nodes@[p[i + 1]].bridge_priority, p[i + 1]@).masked_value(algorithm),
        );
        assert forall|i: int| 0 <= i < s.len() implies s[i] == between(g, p)[i] by {
            assert(g.member(p[i + 1]));
            lemma_region_says(view, base_vid, algorithm, p[i + 1], p[i + 1]);
        }
        assert(s =~= between(g, p));
    }
    p
}

/// The running sum of link costs along a path.
proof fn lemma_sum(g: Region, q: Seq<NodeId>, c: Seq<int>)
    requires
        q.len() > 0,
        c.len() == q.len(),
        c[0] == 0,
        forall|i: int| #![trigger q[i]] 0 < i < q.len() ==> c[i] == c[i - 1] + g.edge(q[i - 1], q[i])->0,
    ensures
        g.cost(q) == c.last(),
    decreases q.len(),
{
    if q.len() > 1 {
        let r = q.drop_last();
        let d = c.drop_last();
        assert forall|i: int| #![trigger r[i]] 0 < i < r.len() implies d[i] == d[i - 1] + g.edge(r[i - 1], r[i])->0 by {
            assert(r[i] == q[i]);
            assert(r[i - 1] == q[i - 1]);
        }
        lemma_sum(g, r, d);
        assert(q[q.len() - 1] == q.last());
    }
}

/// No way along the links of the view is better than the tree's: whatever nodes
/// of the tree set it passes, if none is passed twice and none in between is
/// overloaded, and its cost fits 32 bits, the tree reaches its end, and does so
/// at a lower cost, or at the same cost with fewer hops, or with as many hops
/// and a PATHID that does not come later. Hops beyond 65534 are not told apart.
#[verifier::rlimit(40)]
#[verifier::spinoff_prover]
pub proof fn no_way_is_better(
    tree: SpbTree,
    view: TopologyView,
    base_vid: u16,
    algorithm: EctAlgorithm,
    root: NodeId,
    q: Seq<NodeId>,
    c: Seq<int>,
    s: Seq<nat>,
)
    requires
        is_tree_of(tree, region_in(view, base_vid, algorithm), root),
        q.len() > 0,
        q[0] == root,
        q.no_duplicates(),
        forall|i: int| #![trigger q[i]] 0 <= i < q.len() ==> {
            &&& view.nodes@.contains_key(q[i])
            &&& exists|k: int|
                0 <= k < view.nodes@[q[i]].ect_vids@.len() && (#[trigger] view.nodes@[q[i]].ect_vids@[k]).base_vid == base_vid
                    && view.nodes@[q[i]].ect_vids@[k].algorithm == algorithm
            &&& 0 < i < q.len() - 1 ==> !view.nodes@[q[i]].overload
        },
        c.len() == q.len(),
        c[0] == 0,
        forall|i: int| #![trigger q[i]] 0 < i < q.len() ==> edge_cost(view.links@, q[i - 1], q[i]) is Some && c[i] == c[i - 1]
            + edge_cost(view.links@, q[i - 1], q[i])->0,
        c.last() <= 0xffff_ffff,
        is_sorted(s),
        s.to_multiset() == (if q.len() > 2 {
            Seq::new(
                (q.len() - 2) as nat,
                |i: int| BridgeId::of(view.nodes@[q[i + 1]].bridge_priority, q[i + 1]@).masked_value(algorithm),
            )
        } else {
            Seq::empty()
        }).to_multiset(),
    ensures
        tree.nodes@.contains_key(q.last()),
        tree.nodes@[q.last()].cost <= c.last(),
        tree.nodes@[q.last()].cost == c.last() ==> tree.nodes@[q.last()].hops <= q.len() - 1,
        tree.nodes@[q.last()].cost == c.last() && tree.nodes@[q.last()].hops == q.len() - 1 && q.len() - 1 < 65535 ==> !lex_lt(
            s,
            tree.nodes@[q.last()].path_id.values(),
        ),
{
    let g = region_in(view, base_vid, algorithm);
    lemma_region(view, base_vid, algorithm);
    assert forall|i: int| #![trigger q[i]] 0 <= i < q.len() implies g.member(q[i]) && (0 < i < q.len() - 1 ==> !g.overloaded(q[i]))
        && (0 < i ==> g.edge(q[i - 1], q[i]) == edge_cost(view.links@, q[i - 1], q[i])) by {
        lemma_region_says(view, base_vid, algorithm, q[i], q[i]);
        if i > 0 {
            lemma_region_says(view, base_vid, algorithm, q[i - 1], q[i]);
        }
    }
    lemma_sum(g, q, c);
    assert forall|i: int| 0 <= i < q.len() - 1 implies #[trigger] g.passable(q, i) by {
        assert(g.member(q[i + 1]));
        assert(g.member(q[i]));
    }
    assert(g.is_path(root, q));
    chosen_paths_reach(g, root, q);
    chosen_path_best(g, root, q.last());
    let p = chosen_paths(g, root)[q.last()];
    assert(g.as_good(p, q));
    lemma_ids_sorted(g, q);
    lemma_ids_between(g, q);
    if q.len() > 2 {
        let t = Seq::new(
            (q.len() - 2) as nat,
            |i: int| BridgeId::of(view.nodes@[q[i + 1]].bridge_priority, q[i + 1]@).masked_value(algorithm),
        );
        assert forall|i: int| 0 <= i < t.len() implies t[i] == between(g, q)[i] by {
            assert(g.member(q[i + 1]));
            lemma_region_says(view, base_vid, algorithm, q[i + 1], q[i + 1]);
        }
        assert(t =~= between(g, q));
    }
    lemma_sorted_same(s, g.ids(q));
    if lex_lt(g.ids(p), s) {
        lemma_lex_asymmetric(g.ids(p), s);
    }
    if lex_lt(s, s) {
        lemma_lex_asymmetric(s, s);
    }
}

// ===== walking a tree =====

/// The children of a node are the nodes whose parent it is.
pub proof fn children_have_the_parent(nodes: Map<NodeId, TreeNode>, node: NodeId, child: NodeId)
    ensures
        child_set(nodes, node).contains(child) <==> nodes.contains_key(child) && nodes[child].parent == Some(node),
{
}

/// The subtree of a node holds the node itself, and any other node just when
/// it holds that node's parent.
pub proof fn subtree_holds_children(nodes: Map<NodeId, TreeNode>, node: NodeId, n: NodeId)
    ensures
        lies_above(nodes, node, node),
        n != node ==> (lies_above(nodes, node, n) <==> nodes.contains_key(n) && nodes[n].parent is Some && lies_above(
            nodes,
            node,
            nodes[n].parent->0,
        )),
{
    let one = seq![node];
    assert(leads_up(nodes, one));
    assert(one[0] == node && one.last() == node);
    if n != node && lies_above(nodes, node, n) {
        let c = choose|c: Seq<NodeId>| #[trigger] leads_up(nodes, c) && c[0] == n && c.last() == node;
        assert(c.len() > 1);
        let d = c.skip(1);
        assert(nodes.contains_key(c[0]));
        assert forall|i: int| 0 <= i < d.len() - 1 implies nodes.contains_key(#[trigger] d[i]) && nodes[d[i]].parent == Some(d[i + 1]) by {
            assert(c[i + 1] == d[i]);
            assert(c[i + 1 + 1] == d[i + 1]);
        }
        assert(leads_up(nodes, d));
        assert(d[0] == c[1]);
        assert(d.last() == c.last());
    }
    if n != node && nodes.contains_key(n) && nodes[n].parent is Some && lies_above(nodes, node, nodes[n].parent->0) {
        let m = nodes[n].parent->0;
        let c = choose|c: Seq<NodeId>| #[trigger] leads_up(nodes, c) && c[0] == m && c.last() == node;
        let d = seq![n] + c;
        assert forall|i: int| 0 <= i < d.len() - 1 implies nodes.contains_key(#[trigger] d[i]) && nodes[d[i]].parent == Some(d[i + 1]) by {
            if i > 0 {
                assert(d[i] == c[i - 1]);
                assert(d[i + 1] == c[i - 1 + 1]);
            } else {
                assert(d[1] == c[0]);
            }
        }
        assert(leads_up(nodes, d));
        assert(d[0] == n);
        assert(d.last() == c.last());
    }
}

/// The path to a node leads from a node without a parent, from each node to
/// one whose parent it is.
pub proof fn path_leads_from_parent_to_child(nodes: Map<NodeId, TreeNode>, p: Seq<NodeId>, node: NodeId)
    requires
        p.len() > 0,
    ensures
        leads_down_to(nodes, p, node) <==> {
            &&& nodes.contains_key(p[0])
            &&& nodes[p[0]].parent is None
            &&& p.last() == node
            &&& forall|i: int| #![trigger p[i]] 0 < i < p.len() ==> nodes.contains_key(p[i]) && nodes[p[i]].parent == Some(p[i - 1])
        },
{
    let r = p.reverse();
    if leads_down_to(nodes, p, node) {
        assert forall|i: int| #![trigger p[i]] 0 < i < p.len() implies nodes.contains_key(p[i]) && nodes[p[i]].parent == Some(p[i - 1]) by {
            let k = p.len() - 1 - i;
            assert(r[k] == p[i]);
            assert(r[k + 1] == p[i - 1]);
        }
    }
    if forall|i: int| #![trigger p[i]] 0 < i < p.len() ==> nodes.contains_key(p[i]) && nodes[p[i]].parent == Some(p[i - 1]) {
        assert forall|k: int| 0 <= k < r.len() - 1 implies nodes.contains_key(#[trigger] r[k]) && nodes[r[k]].parent == Some(r[k + 1]) by {
            let i = p.len() - 1 - k;
            assert(p[i] == r[k]);
            assert(p[i - 1] == r[k + 1]);
        }
    }
}

// ===== tree sets =====

/// Trees are needed for the local node, and for every node with the T bit in
/// some membership.
pub proof fn trees_are_rooted_at_sources(view: TopologyView, n: NodeId)
    ensures
        root_set(view).contains(n) <==> n == view.local || (view.nodes@.contains_key(n) && exists|i: int, j: int|
            0 <= i < view.nodes@[n].services@.len() && 0 <= j < view.nodes@[n].services@[i].isids@.len()
                && (#[trigger] view.nodes@[n].services@[i].isids@[j]).transmit),
{
    let node = view.nodes@[n];
    if exists|isid: u32| #[trigger] node_lists(node, isid, Role::Transmit) {
        let isid = choose|isid: u32| #[trigger] node_lists(node, isid, Role::Transmit);
        lemma_lists(node, isid, Role::Transmit);
        let (i, j) = choose|i: int, j: int|
            0 <= i < node.services@.len() && 0 <= j < node.services@[i].isids@.len()
                && (#[trigger] node.services@[i].isids@[j]).isid == isid && crate::topology::has_role(node.services@[i].isids@[j], Role::Transmit);
        assert(view.nodes@[n].services@[i].isids@[j].transmit);
    }
    if exists|i: int, j: int|
        0 <= i < node.services@.len() && 0 <= j < node.services@[i].isids@.len() && (
        #[trigger] node.services@[i].isids@[j]).transmit {
        let (i, j) = choose|i: int, j: int|
            0 <= i < node.services@.len() && 0 <= j < node.services@[i].isids@.len() && (
            #[trigger] node.services@[i].isids@[j]).transmit;
        let isid = node.services@[i].isids@[j].isid;
        lemma_lists(node, isid, Role::Transmit);
        assert(node.services@[i].isids@[j].isid == isid);
        assert(node_lists(node, isid, Role::Transmit));
    }
}

/// For each tree set in turn, a tree is wanted for each root in turn.
pub proof fn wanted_trees_by_tree_set_then_root(mt_id: u16, ect_vids: Seq<EctVid>, roots: Seq<NodeId>, e: int, r: int)
    ensures
        wanted_keys(mt_id, ect_vids, roots).len() == ect_vids.len() * roots.len(),
        0 <= e < ect_vids.len() && 0 <= r < roots.len() ==> 0 <= e * roots.len() + r < ect_vids.len() * roots.len() && wanted_keys(
            mt_id,
            ect_vids,
            roots,
        )[e * roots.len() + r] == (TreeKey {
            mt_id,
            base_vid: ect_vids[e].base_vid,
            algorithm: ect_vids[e].algorithm,
            root: roots[r],
        }),
    decreases ect_vids.len(),
{
    let n = roots.len() as int;
    let m = ect_vids.len() as int;
    if ect_vids.len() > 0 {
        let q = ect_vids.drop_last();
        wanted_trees_by_tree_set_then_root(mt_id, q, roots, e, r);
        let before = wanted_keys(mt_id, q, roots);
        let all = wanted_keys(mt_id, ect_vids, roots);
        assert((m - 1) * n + n == m * n) by (nonlinear_arith);
        assert(before.len() == (m - 1) * n);
        if 0 <= e < m && 0 <= r < n {
            assert(0 <= e * n + r < m * n) by (nonlinear_arith)
                requires
                    0 <= e < m,
                    0 <= r < n,
            ;
            if e < m - 1 {
                assert(q[e] == ect_vids[e]);
                assert(all[e * n + r] == before[e * n + r]);
            } else {
                assert(e * n + r == before.len() + r);
            }
        }
    } else {
        assert(0 * n == 0) by (nonlinear_arith);
    }
}

/// First come, first served: all keys ahead of the one at which as many
/// distinct ones as fit have gone before are kept, and all from there on are
/// skipped.
pub proof fn trees_kept_until_full(keys: Seq<TreeKey>, max: nat, m: int)
    requires
        0 <= m <= keys.len(),
        forall|i: int| 0 <= i < m ==> (#[trigger] keys.take(i)).to_set().len() < max,
        m < keys.len() ==> keys.take(m).to_set().len() >= max,
    ensures
        kept_keys(keys, max) == keys.take(m).to_set(),
        skipped_keys(keys, max) == keys.len() - m,
    decreases keys.len(),
{
    if keys.len() == 0 {
        assert(keys.take(m).to_set() =~= Set::empty());
    } else {
        let q = keys.drop_last();
        let last = keys.last();
        assert(forall|i: int| 0 <= i <= q.len() ==> #[trigger] q.take(i) =~= keys.take(i));
        if m < keys.len() {
            assert forall|i: int| 0 <= i < m implies (#[trigger] q.take(i)).to_set().len() < max by {
                assert(keys.take(i) == q.take(i));
            }
            assert(q.take(m) == keys.take(m));
            trees_kept_until_full(q, max, m);
        } else {
            assert forall|i: int| 0 <= i < m - 1 implies (#[trigger] q.take(i)).to_set().len() < max by {
                assert(keys.take(i) == q.take(i));
            }
            trees_kept_until_full(q, max, m - 1);
            assert(q.take(m - 1) =~= q);
            assert(keys.take(m - 1) =~= q);
            assert(keys.take(m) =~= keys);
            assert(keys =~= q.push(last));
            lemma_push_set(q, last);
        }
    }
}

} // verus!
