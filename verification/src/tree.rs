//! Shortest path tree computation for SPB.
//!
//! SPB needs trees that IS-IS's own SPF does not produce: a *single*
//! deterministic path per destination chosen by an ECT algorithm (rather than
//! an ECMP set), rooted at an arbitrary node, and keyed by (B-VID,
//! algorithm). RFC 6329, Section 4 requires the result to be shortest-path,
//! forward/reverse symmetric for any source/destination pair, and congruent
//! between unicast and multicast.
//!
//! Symmetry and congruence are not extra passes over the result; they follow
//! from two properties established elsewhere: link costs are the same in both
//! directions ([`TopologyView::edge_cost`]), and the tie-break is a total
//! order in which a path and its reverse are equal ([`PathId`]). The module
//! [`crate::spt`] proves that they do.

use vstd::prelude::*;

use crate::ect::{lemma_masked_values_injective, EctAlgorithm, PathId, PathRank};
use crate::node::{lemma_node_ordinal_bound, NodeId};
use crate::order::with_number;
use crate::ordmap::{is_ordered, lemma_ordered_is, lemma_ordered_len, lemma_push_set, ordered, Key, OrdMap, OrdSet};
use crate::region::{hops, lemma_extend, lemma_prefix_path, lemma_region, lemma_reverse_path, region_in, Region, HOP_LIMIT};
use crate::spt::{
    chosen_path_best, chosen_path_continues, chosen_paths, chosen_paths_reach, chosen_paths_symmetric,
    chosen_paths_symmetric_cost, continues, grow, growing, improves, is_least, least,
    lemma_growing_room, lemma_growing_step, lemma_least_is, lemma_node_before_transitive, lemma_start, node_before,
    offers_path, relaxed, start, Paths,
};
use crate::topology::{
    edge_cost, has_role, isid_set, neighbor_set, node_lists, selected, service_lists, EctVid, Role, Selector, TopologyView,
};

verus! {

/// A shortest path tree rooted at one node, for one (B-VID, algorithm) pair.
#[derive(Clone, Debug)]
pub struct SpbTree {
    pub root: NodeId,
    pub base_vid: u16,
    pub algorithm: EctAlgorithm,
    /// Every reachable node, including the root at zero cost.
    pub nodes: OrdMap<NodeId, TreeNode>,
}

/// One node's position in a tree.
#[derive(Debug)]
pub struct TreeNode {
    /// Accumulated SPB cost from the root.
    pub cost: u32,
    /// Hop count from the root.
    pub hops: u16,
    /// The node one hop closer to the root; `None` for the root itself.
    ///
    /// There is exactly one parent: SPB selects a single path, not an ECMP
    /// set.
    pub parent: Option<NodeId>,
    /// The neighbor of the root on the path to this node; `None` for the
    /// root.
    pub first_hop: Option<NodeId>,
    /// The tie-breaking identity of the selected path.
    pub path_id: PathId,
}

impl Clone for TreeNode {
    fn clone(&self) -> (entry: Self)
        ensures
            entry.cost == self.cost,
            entry.hops == self.hops,
            entry.parent == self.parent,
            entry.first_hop == self.first_hop,
            entry.path_id@ == self.path_id@,
    {
        TreeNode {
            cost: self.cost,
            hops: self.hops,
            parent: self.parent,
            first_hop: self.first_hop,
            path_id: self.path_id.clone(),
        }
    }
}

/// The node before the last one of a path.
pub open spec fn parent_on(p: Seq<NodeId>) -> Option<NodeId> {
    if p.len() > 1 {
        Some(p[p.len() - 2])
    } else {
        None
    }
}

/// The node after the first one of a path.
pub open spec fn first_hop_on(p: Seq<NodeId>) -> Option<NodeId> {
    if p.len() > 1 {
        Some(p[1])
    } else {
        None
    }
}

/// `entry` describes the path `p`.
pub open spec fn describes(g: Region, entry: TreeNode, p: Seq<NodeId>) -> bool {
    &&& entry.cost == g.cost(p)
    &&& entry.hops == hops(p)
    &&& entry.parent == parent_on(p)
    &&& entry.first_hop == first_hop_on(p)
    &&& entry.path_id.values() == g.ids(p)
}

/// The entries of `nodes` describe the paths of `paths`.
pub open spec fn describe_all(g: Region, nodes: Map<NodeId, TreeNode>, paths: Paths) -> bool {
    &&& nodes.dom() == paths.dom()
    &&& forall|n: NodeId| #[trigger] nodes.contains_key(n) ==> describes(g, nodes[n], paths[n])
}

/// `tree` is the shortest path tree of a region that is rooted at `root`.
pub open spec fn is_tree_of(tree: SpbTree, g: Region, root: NodeId) -> bool {
    &&& tree.root == root
    &&& tree.base_vid == g.base_vid
    &&& tree.algorithm == g.algorithm
    &&& describe_all(g, tree.nodes@, chosen_paths(g, root))
}

/// Returns whether the path of one entry ranks before that of another.
fn ranks_before(a: &TreeNode, b: &TreeNode, g: Ghost<Region>, p: Ghost<Seq<NodeId>>, q: Ghost<Seq<NodeId>>) -> (r: bool)
    requires
        describes(g@, *a, p@),
        describes(g@, *b, q@),
    ensures
        r == g@.ranks_before(p@, q@),
{
    let x = PathRank { cost: a.cost, hops: a.hops, path_id: &a.path_id };
    let y = PathRank { cost: b.cost, hops: b.hops, path_id: &b.path_id };
    x.precedes(&y)
}

/// Returns the candidate that comes before every other one.
fn least_candidate(cand: &OrdMap<NodeId, TreeNode>, keys: &Vec<NodeId>, g: Ghost<Region>, paths: Ghost<Paths>) -> (n: NodeId)
    requires
        describe_all(g@, cand@, paths@),
        keys@.len() > 0,
        is_ordered(keys@),
        keys@.to_set() == cand@.dom(),
        forall|j: int| 0 <= j < keys@.len() ==> cand@.contains_key(#[trigger] keys@[j]),
    ensures
        is_least(g@, paths@, n),
{
    let mut best = keys[0];
    assert(cand@.contains_key(keys@[0]));
    let mut pos: Ghost<int> = Ghost(0);
    for i in 1..keys.len()
        invariant
            describe_all(g@, cand@, paths@),
            is_ordered(keys@),
            forall|j: int| 0 <= j < keys@.len() ==> cand@.contains_key(#[trigger] keys@[j]),
            0 <= pos@ < i,
            best == keys@[pos@],
            forall|j: int| 0 <= j < i && j != pos@ ==> node_before(g@, paths@, best, #[trigger] keys@[j]),
    {
        let k = keys[i];
        assert(cand@.contains_key(keys@[i as int]) && cand@.contains_key(keys@[pos@]));
        if let (Some(a), Some(b)) = (cand.get(&k), cand.get(&best)) {
            if ranks_before(a, b, g, Ghost(paths@[k]), Ghost(paths@[best])) {
                proof {
                    assert forall|j: int| 0 <= j < i implies node_before(g@, paths@, k, #[trigger] keys@[j]) by {
                        assert(node_before(g@, paths@, k, best));
                        if j != pos@ {
                            lemma_node_before_transitive(g@, paths@, k, best, keys@[j]);
                        }
                    }
                    pos@ = i as int;
                }
                best = k;
            }
        }
    }
    proof {
        assert(cand@.contains_key(keys@[pos@]));
        assert forall|m: NodeId| #[trigger] paths@.contains_key(m) && m != best implies node_before(g@, paths@, best, m) by {
            assert(keys@.to_set().contains(m));
            let j = choose|j: int| 0 <= j < keys@.len() && keys@[j] == m;
            assert(node_before(g@, paths@, best, keys@[j]));
        }
    }
    best
}

/// The path to `m` once the first `i` of the neighbors `ids` have been looked
/// at.
spec fn seen_path(g: Region, settled: Paths, rest: Paths, p: Seq<NodeId>, ids: Seq<NodeId>, i: int, m: NodeId) -> Seq<NodeId> {
    if ids.take(i).contains(m) && improves(g, settled, rest, p, m) {
        p.push(m)
    } else {
        rest[m]
    }
}

/// Whether `m` has a path once the first `i` of the neighbors `ids` have been
/// looked at.
spec fn seen(g: Region, settled: Paths, rest: Paths, p: Seq<NodeId>, ids: Seq<NodeId>, i: int, m: NodeId) -> bool {
    rest.contains_key(m) || (ids.take(i).contains(m) && offers_path(g, settled, p, m))
}

/// Looks at the neighbors of the node that was just settled, and keeps for
/// each the better of its path so far and the one through that node.
fn relax(
    view: &TopologyView,
    ect_vid: &EctVid,
    settled: &OrdMap<NodeId, TreeNode>,
    cand: &mut OrdMap<NodeId, TreeNode>,
    node: NodeId,
    entry: &TreeNode,
    root: NodeId,
    paths: Ghost<Paths>,
    rest: Ghost<Paths>,
    p: Ghost<Seq<NodeId>>,
)
    requires
        describe_all(view.region(*ect_vid), settled@, paths@),
        describe_all(view.region(*ect_vid), old(cand)@, rest@),
        view.region(*ect_vid).is_path(root, p@),
        p@.last() == node,
        describes(view.region(*ect_vid), *entry, p@),
    ensures
        describe_all(
            view.region(*ect_vid),
            final(cand)@,
            relaxed(view.region(*ect_vid), paths@, rest@, p@),
        ),
{
    let ghost g = view.region(*ect_vid);
    let ghost before = cand@;
    proof {
        reveal(Region::member);
        reveal(Region::edge);
        reveal(Region::overloaded);
        reveal(Region::number);
        if p@.len() > 1 {
            assert(g.passable(p@, p@.len() - 2));
            assert(p@[0] != p@[p@.len() - 1]);
        }
        assert(g.member(node));
        assert(p@.len() > 1 <==> node != root);
    }
    // An overloaded node is reachable but must not be transited.
    let overloaded = match view.nodes.get(&node) {
        Some(n) => n.overload,
        None => false,
    };
    if overloaded && !node.same(&root) {
        assert(relaxed(g, paths@, rest@, p@) =~= rest@);
        return;
    }
    // Extending the path through `node` makes it an intermediate node, so it
    // joins the PATHID. The root is an endpoint, not an intermediate node, and
    // never contributes.
    let path_id = if node.same(&root) {
        PathId::empty()
    } else {
        match view.bridge_id(node) {
            Some(bridge_id) => entry.path_id.with_node(bridge_id, ect_vid.algorithm),
            None => PathId::empty(),
        }
    };
    let next_hops: u16 = if entry.hops == u16::MAX {
        u16::MAX
    } else {
        entry.hops + 1
    };
    let found = view.neighbors(node, ect_vid);
    let ghost ids = ordered(neighbor_set(view.nodes@, view.links@, node, *ect_vid));
    assert(ids.take(0) =~= Seq::empty());
    for i in 0..found.len()
        invariant
            g == view.region(*ect_vid),
            describe_all(g, settled@, paths@),
            p@.len() > 0,
            p@.last() == node,
            p@.len() > 1 ==> !g.overloaded(node),
            describes(g, *entry, p@),
            next_hops == (if entry.hops == u16::MAX { u16::MAX as int } else { entry.hops + 1 }),
            path_id.values() == (if p@.len() == 1 {
                Seq::<nat>::empty()
            } else {
                with_number(g.ids(p@), g.number(node))
            }),
            is_ordered(ids),
            found@.len() == ids.len(),
            ids.to_set() == neighbor_set(view.nodes@, view.links@, node, *ect_vid),
            forall|j: int| 0 <= j < ids.len() ==> #[trigger] found@[j] == (ids[j], edge_cost(view.links@, node, ids[j])->0),
            forall|m: NodeId| #[trigger] cand@.contains_key(m) <==> seen(g, paths@, rest@, p@, ids, i as int, m),
            forall|m: NodeId| #[trigger]
                cand@.contains_key(m) ==> describes(g, cand@[m], seen_path(g, paths@, rest@, p@, ids, i as int, m)),
    {
        let neighbor = found[i].0;
        let edge: u32 = found[i].1;
        let ghost was = cand@;
        proof {
            assert(found@[i as int].0 == ids[i as int]);
            assert(ids.to_set().contains(ids[i as int]));
            reveal(Region::member);
            reveal(Region::edge);
            lemma_extend(g, p@, neighbor);
            assert(ids.take(i + 1) =~= ids.take(i as int).push(neighbor));
            assert(!ids.take(i as int).contains(neighbor)) by {
                if ids.take(i as int).contains(neighbor) {
                    let j = choose|j: int| 0 <= j < i && ids.take(i as int)[j] == neighbor;
                    assert(ids[j].ordinal() < ids[i as int].ordinal());
                }
            }
            assert(ids.take(i + 1)[i as int] == neighbor);
            let later = ids.take(i + 1);
            assert forall|m: NodeId| m != neighbor implies ids.take(i + 1).contains(m) == ids.take(i as int).contains(m) by {
                if ids.take(i as int).contains(m) {
                    let j = choose|j: int| 0 <= j < i && ids.take(i as int)[j] == m;
                    assert(ids.take(i + 1)[j] == m);
                }
                if ids.take(i + 1).contains(m) {
                    let j = choose|j: int| 0 <= j < later.len() && later[j] == m;
                    assert(ids.take(i as int)[j] == m);
                }
            }
        }
        if !settled.contains_key(&neighbor) && edge <= u32::MAX - entry.cost {
            assert(offers_path(g, paths@, p@, neighbor));
            let first_hop = match entry.first_hop {
                Some(hop) => Some(hop),
                None => Some(neighbor),
            };
            let new_entry = TreeNode {
                cost: entry.cost + edge,
                hops: next_hops,
                parent: Some(node),
                first_hop,
                path_id: path_id.clone(),
            };
            assert(describes(g, new_entry, p@.push(neighbor)));
            // Keep only the best candidate per node.
            let better = match cand.get(&neighbor) {
                Some(existing) => ranks_before(
                    &new_entry,
                    existing,
                    Ghost(g),
                    Ghost(p@.push(neighbor)),
                    Ghost(rest@[neighbor]),
                ),
                None => true,
            };
            if better {
                cand.insert(neighbor, new_entry);
            }
        }
        assert forall|m: NodeId| #[trigger] cand@.contains_key(m) <==> seen(g, paths@, rest@, p@, ids, i + 1, m) by {
            assert(was.contains_key(m) <==> seen(g, paths@, rest@, p@, ids, i as int, m));
        }
        assert forall|m: NodeId| #[trigger] cand@.contains_key(m) implies describes(
            g,
            cand@[m],
            seen_path(g, paths@, rest@, p@, ids, i + 1, m),
        ) by {
            if m != neighbor {
                assert(was.contains_key(m));
            } else {
                assert(was.contains_key(m) <==> seen(g, paths@, rest@, p@, ids, i as int, m));
            }
        }
    }
    proof {
        let next = relaxed(g, paths@, rest@, p@);
        reveal(Region::member);
        reveal(Region::edge);
        assert(ids.take(ids.len() as int) =~= ids);
        assert forall|m: NodeId| offers_path(g, paths@, p@, m) implies ids.contains(m) by {
            assert(ids.to_set().contains(m));
        }
        assert forall|m: NodeId| cand@.dom().contains(m) <==> next.dom().contains(m) by {
            assert(cand@.contains_key(m) <==> seen(g, paths@, rest@, p@, ids, ids.len() as int, m));
        }
        assert(cand@.dom() =~= next.dom());
    }
}

impl SpbTree {
    /// Computes the shortest path tree rooted at `root`.
    ///
    /// Nodes that do not advertise support for `ect_vid`, and links whose two
    /// ends do not both advertise an SPB metric, are excluded. A node with
    /// the SPB overload bit set is reachable but is not used for transit,
    /// except when it is the root.
    pub fn compute(view: &TopologyView, root: NodeId, ect_vid: &EctVid) -> (tree: Self)
        ensures
            is_tree_of(tree, view.region(*ect_vid), root),
            forall|q: Seq<NodeId>| #[trigger]
                view.region(*ect_vid).is_path(root, q) ==> tree.nodes@.contains_key(q.last()),
            forall|n: NodeId| #[trigger]
                tree.nodes@.contains_key(n) ==> chosen_paths(view.region(*ect_vid), root)[n].last() == n && view.region(
                    *ect_vid,
                ).is_best(root, chosen_paths(view.region(*ect_vid), root)[n]),
    {
        let ghost g = view.region(*ect_vid);
        let mut nodes: OrdMap<NodeId, TreeNode> = OrdMap::new();
        let mut cand: OrdMap<NodeId, TreeNode> = OrdMap::new();
        proof {
            reveal(Region::member);
        }
        if !view.participates(root, ect_vid) {
            assert(nodes@.dom() =~= chosen_paths(g, root).dom());
            return SpbTree { root, base_vid: ect_vid.base_vid, algorithm: ect_vid.algorithm, nodes };
        }
        cand.insert(root, TreeNode { cost: 0, hops: 0, parent: None, first_hop: None, path_id: PathId::empty() });
        let ghost mut settled: Paths = Map::empty();
        let ghost mut frontier: Paths = start(root);
        let ghost mut fuel: nat = g.members.dom().len();
        proof {
            lemma_start(g, root);
            lemma_region(*view, ect_vid.base_vid, ect_vid.algorithm);
            assert(cand@.dom() =~= start(root).dom());
            assert(nodes@.dom() =~= settled.dom());
            assert(g.cost(seq![root]) == 0);
            assert(g.ids(seq![root]) =~= Seq::empty());
        }
        loop
            invariant
                g == view.region(*ect_vid),
                g.well_formed(),
                g.member(root),
                growing(g, root, settled, frontier),
                describe_all(g, nodes@, settled),
                describe_all(g, cand@, frontier),
                settled.dom().finite(),
                fuel + settled.dom().len() == g.members.dom().len(),
                grow(g, settled, frontier, fuel) == chosen_paths(g, root),
            ensures
                describe_all(g, nodes@, chosen_paths(g, root)),
            decreases fuel,
        {
            let keys = cand.keys();
            if keys.len() == 0 {
                proof {
                    assert(frontier.dom() =~= Set::<NodeId>::empty()) by {
                        assert forall|n: NodeId| !frontier.dom().contains(n) by {
                            if cand@.dom().contains(n) {
                                assert(keys@.to_set().contains(n));
                            }
                        }
                    }
                }
                break;
            }
            assert(keys@.to_set().contains(keys@[0]));
            assert(frontier.dom().contains(keys@[0]));
            // The least candidate's path is the best one to its node: every
            // extension ranks after the path it extends, so no later
            // candidate can beat it.
            let node = least_candidate(&cand, &keys, Ghost(g), Ghost(frontier));
            let Some(best) = cand.get(&node) else {
                assert(false);
                break;
            };
            let entry = best.clone();
            let settled_entry = best.clone();
            cand.remove(&node);
            let ghost p = frontier[node];
            let ghost rest = frontier.remove(node);
            let ghost now = settled.insert(node, p);
            proof {
                lemma_least_is(g, frontier, node);
                lemma_growing_room(g, root, settled, frontier);
                lemma_growing_step(g, root, settled, frontier, node);
                assert(frontier.contains_key(node));
                assert(describes(g, entry, p)) by {
                    assert(entry.path_id.values() =~= best.path_id.values());
                }
                assert(describes(g, settled_entry, p)) by {
                    assert(settled_entry.path_id.values() =~= best.path_id.values());
                }
                assert(cand@.dom() =~= rest.dom());
                assert(continues(g, root, settled, node, p));
            }
            nodes.insert(node, settled_entry);
            proof {
                assert(nodes@.dom() =~= now.dom());
                assert(describe_all(g, nodes@, now));
                assert(describe_all(g, cand@, rest));
            }
            relax(view, ect_vid, &nodes, &mut cand, node, &entry, root, Ghost(now), Ghost(rest), Ghost(p));
            proof {
                frontier = relaxed(g, now, rest, p);
                settled = now;
                fuel = (fuel - 1) as nat;
            }
        }
        proof {
            assert forall|q: Seq<NodeId>| #[trigger] g.is_path(root, q) implies nodes@.contains_key(q.last()) by {
                chosen_paths_reach(g, root, q);
            }
            assert forall|n: NodeId| #[trigger] nodes@.contains_key(n) implies chosen_paths(g, root)[n].last() == n
                && g.is_best(root, chosen_paths(g, root)[n]) by {
                chosen_path_best(g, root, n);
            }
        }
        SpbTree { root, base_vid: ect_vid.base_vid, algorithm: ect_vid.algorithm, nodes }
    }
}

// ===== looking at a tree =====

/// The nodes whose parent is `node`.
pub open spec fn child_set(nodes: Map<NodeId, TreeNode>, node: NodeId) -> Set<NodeId> {
    Set::new(|n: NodeId| nodes.contains_key(n) && nodes[n].parent == Some(node))
}

/// `c` leads from its first node towards the root, from each node to its
/// parent.
pub open spec fn leads_up(nodes: Map<NodeId, TreeNode>, c: Seq<NodeId>) -> bool {
    &&& c.len() > 0
    &&& forall|i: int|
        0 <= i < c.len() - 1 ==> nodes.contains_key(#[trigger] c[i]) && nodes[c[i]].parent == Some(c[i + 1])
}

/// `node` is `other`, or lies above it.
pub open spec fn lies_above(nodes: Map<NodeId, TreeNode>, node: NodeId, other: NodeId) -> bool {
    exists|c: Seq<NodeId>| #[trigger] leads_up(nodes, c) && c[0] == other && c.last() == node
}

/// `p` leads from a node without a parent down to `node`.
pub open spec fn leads_down_to(nodes: Map<NodeId, TreeNode>, p: Seq<NodeId>, node: NodeId) -> bool {
    &&& leads_up(nodes, p.reverse())
    &&& nodes.contains_key(p[0])
    &&& nodes[p[0]].parent is None
    &&& p.last() == node
}

/// A way up that does not end at the root can be extended from below.
proof fn lemma_leads_up_front(nodes: Map<NodeId, TreeNode>, c: Seq<NodeId>, child: NodeId)
    requires
        leads_up(nodes, c),
        nodes.contains_key(child),
        nodes[child].parent == Some(c[0]),
    ensures
        leads_up(nodes, seq![child] + c),
        (seq![child] + c)[0] == child,
        (seq![child] + c).last() == c.last(),
{
    let d = seq![child] + c;
    assert forall|i: int| 0 <= i < d.len() - 1 implies nodes.contains_key(#[trigger] d[i]) && nodes[d[i]].parent == Some(
        d[i + 1],
    ) by {
        if i > 0 {
            assert(d[i] == c[i - 1]);
            assert(d[i + 1] == c[i]);
        }
    }
}

/// What is closed under children holds everything below its nodes.
proof fn lemma_below_found(nodes: Map<NodeId, TreeNode>, found: Set<NodeId>, c: Seq<NodeId>, i: int)
    requires
        leads_up(nodes, c),
        found.contains(c.last()),
        0 <= i < c.len(),
        forall|n: NodeId, m: NodeId|
            found.contains(n) && #[trigger] child_set(nodes, n).contains(m) ==> found.contains(m),
    ensures
        found.contains(c[i]),
    decreases c.len() - i,
{
    if i < c.len() - 1 {
        lemma_below_found(nodes, found, c, i + 1);
        assert(nodes.contains_key(c[i]));
        assert(child_set(nodes, c[i + 1]).contains(c[i]));
    }
}

/// Two ways up from one node agree as far as both go.
proof fn lemma_leads_up_agree(nodes: Map<NodeId, TreeNode>, c: Seq<NodeId>, d: Seq<NodeId>, i: int)
    requires
        leads_up(nodes, c),
        leads_up(nodes, d),
        c[0] == d[0],
        0 <= i < c.len(),
        i < d.len(),
    ensures
        c[i] == d[i],
    decreases i,
{
    if i > 0 {
        lemma_leads_up_agree(nodes, c, d, i - 1);
        assert(nodes.contains_key(c[i - 1]));
        assert(nodes.contains_key(d[i - 1]));
    }
}

/// The rest of a way up is a way up.
proof fn lemma_leads_up_skip(nodes: Map<NodeId, TreeNode>, c: Seq<NodeId>, k: int)
    requires
        leads_up(nodes, c),
        0 <= k < c.len(),
    ensures
        leads_up(nodes, c.skip(k)),
{
    let x = c.skip(k);
    assert forall|i: int| 0 <= i < x.len() - 1 implies nodes.contains_key(#[trigger] x[i]) && nodes[x[i]].parent == Some(
        x[i + 1],
    ) by {
        assert(x[i] == c[i + k]);
    }
}

/// Two places on a way up to a node without a parent hold different nodes.
proof fn lemma_leads_up_apart(nodes: Map<NodeId, TreeNode>, c: Seq<NodeId>, a: int, b: int)
    requires
        leads_up(nodes, c),
        nodes[c.last()].parent is None,
        0 <= a < b < c.len(),
    ensures
        c[a] != c[b],
{
    if c[a] == c[b] {
        let k = c.len() - 1 - b;
        lemma_leads_up_skip(nodes, c, a);
        lemma_leads_up_skip(nodes, c, b);
        lemma_leads_up_agree(nodes, c.skip(a), c.skip(b), k);
        assert(c[a + k] == c.last());
    }
}

/// A way up to a node without a parent visits no node twice.
proof fn lemma_leads_up_distinct(nodes: Map<NodeId, TreeNode>, c: Seq<NodeId>)
    requires
        leads_up(nodes, c),
        nodes.contains_key(c.last()),
        nodes[c.last()].parent is None,
    ensures
        c.no_duplicates(),
        c.len() <= nodes.dom().len() || !nodes.dom().finite(),
{
    assert forall|i: int, j: int| 0 <= i < c.len() && 0 <= j < c.len() && i != j implies c[i] != c[j] by {
        if i < j {
            lemma_leads_up_apart(nodes, c, i, j);
        } else {
            lemma_leads_up_apart(nodes, c, j, i);
        }
    }
    if nodes.dom().finite() {
        c.unique_seq_to_set();
        assert(c.to_set().subset_of(nodes.dom())) by {
            assert forall|n: NodeId| c.to_set().contains(n) implies nodes.dom().contains(n) by {
                let k = choose|k: int| 0 <= k < c.len() && c[k] == n;
                if k < c.len() - 1 {
                    assert(nodes.contains_key(c[k]));
                }
            }
        }
        vstd::set_lib::lemma_len_subset(c.to_set(), nodes.dom());
    }
}

/// Every way down to a node begins with the way up that was followed so far.
proof fn lemma_up_prefix(nodes: Map<NodeId, TreeNode>, c: Seq<NodeId>, p: Seq<NodeId>)
    requires
        leads_up(nodes, c),
        p.len() > 0,
        leads_down_to(nodes, p, c[0]),
    ensures
        c.len() <= p.len(),
        p.reverse()[c.len() - 1] == c.last(),
        leads_up(nodes, p.reverse()),
        p.reverse().last() == p[0],
{
    let d = p.reverse();
    assert(d[0] == c[0]);
    if d.len() < c.len() {
        lemma_leads_up_agree(nodes, c, d, d.len() - 1);
        assert(nodes.contains_key(c[d.len() - 1]));
        assert(false);
    }
    lemma_leads_up_agree(nodes, c, d, c.len() - 1);
}

impl SpbTree {
    /// Returns whether a node is on this tree.
    pub fn contains(&self, node: NodeId) -> (b: bool)
        ensures
            b == self.nodes@.contains_key(node),
    {
        self.nodes.contains_key(&node)
    }

    /// Returns the cost from the root to a node.
    pub fn cost(&self, node: NodeId) -> (cost: Option<u32>)
        ensures
            cost == (if self.nodes@.contains_key(node) {
                Some(self.nodes@[node].cost)
            } else {
                None
            }),
    {
        match self.nodes.get(&node) {
            Some(entry) => Some(entry.cost),
            None => None,
        }
    }

    /// Returns the root's neighbor on the path to a node, the next hop when
    /// this tree is rooted locally.
    pub fn first_hop(&self, node: NodeId) -> (hop: Option<NodeId>)
        ensures
            hop == (if self.nodes@.contains_key(node) {
                self.nodes@[node].first_hop
            } else {
                None
            }),
    {
        match self.nodes.get(&node) {
            Some(entry) => entry.first_hop,
            None => None,
        }
    }

    /// Returns the direct children of a node on this tree.
    ///
    /// For a tree rooted at a multicast source, the children of the local
    /// node are exactly the branches it must replicate onto. Congruence is
    /// what makes this valid: the tree computed here is the same one the
    /// source computes.
    pub fn children(&self, node: NodeId) -> (ids: Vec<NodeId>)
        ensures
            ids@ == ordered(child_set(self.nodes@, node)),
            is_ordered(ids@),
            ids@.to_set() == child_set(self.nodes@, node),
    {
        let keys = self.nodes.keys();
        let ghost nodes = self.nodes@;
        let mut ids: Vec<NodeId> = Vec::new();
        for i in 0..keys.len()
            invariant
                nodes == self.nodes@,
                is_ordered(keys@),
                forall|j: int| 0 <= j < keys@.len() ==> nodes.contains_key(#[trigger] keys@[j]),
                is_ordered(ids@),
                forall|j: int|
                    0 <= j < ids@.len() ==> child_set(nodes, node).contains(#[trigger] ids@[j]) && (i < keys@.len()
                        ==> ids@[j].ordinal() < keys@[i as int].ordinal()),
                forall|j: int| 0 <= j < i && nodes[#[trigger] keys@[j]].parent == Some(node) ==> ids@.contains(keys@[j]),
        {
            let id = keys[i];
            let ghost before = ids@;
            assert(nodes.contains_key(keys@[i as int]));
            if let Some(entry) = self.nodes.get(&id) {
                if let Some(parent) = entry.parent {
                    if parent.same(&node) {
                        ids.push(id);
                        proof {
                            assert(ids@[before.len() as int] == id);
                            assert forall|k: NodeId| before.contains(k) implies ids@.contains(k) by {
                                let p = choose|p: int| 0 <= p < before.len() && before[p] == k;
                                assert(ids@[p] == k);
                            }
                        }
                    }
                }
            }
            assert(i + 1 < keys@.len() ==> keys@[i as int].ordinal() < keys@[i + 1].ordinal());
        }
        proof {
            assert(ids@.to_set() =~= child_set(nodes, node)) by {
                assert forall|k: NodeId| child_set(nodes, node).contains(k) implies ids@.to_set().contains(k) by {
                    assert(keys@.to_set().contains(k));
                    let p = choose|p: int| 0 <= p < keys@.len() && keys@[p] == k;
                    assert(ids@.contains(keys@[p]));
                }
            }
            lemma_ordered_is(ids@);
        }
        ids
    }

    /// Returns every node at or below `node` on this tree.
    ///
    /// Used to prune a multicast branch: a branch is only worth installing if
    /// the subtree beneath it holds a receiver for the service. Walking down
    /// from each child is cheap because a tree gives every node exactly one
    /// parent, so the descent visits each node at most once.
    pub fn subtree(&self, node: NodeId) -> (found: OrdSet<NodeId>)
        ensures
            found@ == Set::new(|n: NodeId| lies_above(self.nodes@, node, n)),
    {
        let ghost nodes = self.nodes@;
        let ghost room = nodes.dom().insert(node);
        let mut found: OrdSet<NodeId> = OrdSet::new();
        let mut pending: Vec<NodeId> = Vec::new();
        pending.push(node);
        proof {
            self.nodes.lemma_finite();
            assert(leads_up(nodes, seq![node]));
            assert(pending@[0] == node);
            assert(seq![node][0] == node);
        }
        while pending.len() > 0
            invariant
                nodes == self.nodes@,
                room == nodes.dom().insert(node),
                room.finite(),
                found@.subset_of(room),
                found@.finite(),
                forall|j: int|
                    0 <= j < pending@.len() ==> room.contains(#[trigger] pending@[j]) && lies_above(nodes, node, pending@[j]),
                forall|n: NodeId| #[trigger] found@.contains(n) ==> lies_above(nodes, node, n),
                found@.contains(node) || pending@.contains(node),
                forall|n: NodeId, m: NodeId|
                    found@.contains(n) && #[trigger] child_set(nodes, n).contains(m) ==> found@.contains(m) || pending@.contains(
                        m,
                    ),
            decreases room.len() - found@.len(), pending@.len(),
        {
            let ghost was = pending@;
            let ghost had = found@;
            let current = match pending.pop() {
                Some(last) => last,
                None => node,
            };
            proof {
                assert(current == was[was.len() - 1]);
                assert forall|m: NodeId| was.contains(m) implies pending@.contains(m) || m == current by {
                    let k = choose|k: int| 0 <= k < was.len() && was[k] == m;
                    if k < was.len() - 1 {
                        assert(pending@[k] == m);
                    }
                }
                assert forall|j: int| 0 <= j < pending@.len() implies room.contains(#[trigger] pending@[j]) && lies_above(
                    nodes,
                    node,
                    pending@[j],
                ) by {
                    assert(was[j] == pending@[j]);
                }
                vstd::set_lib::lemma_len_subset(had, room);
            }
            if !found.insert(current) {
                assert(found@ =~= had);
                continue;
            }
            let ids = self.children(current);
            proof {
                assert(found@ =~= had.insert(current));
                vstd::set_lib::lemma_len_subset(found@, room);
            }
            let ghost kept = pending@;
            for i in 0..ids.len()
                invariant
                    nodes == self.nodes@,
                    room == nodes.dom().insert(node),
                    lies_above(nodes, node, current),
                    ids@.to_set() == child_set(nodes, current),
                    forall|m: NodeId| kept.contains(m) ==> pending@.contains(m),
                    forall|j: int| 0 <= j < i ==> pending@.contains(#[trigger] ids@[j]),
                    forall|j: int|
                        0 <= j < pending@.len() ==> room.contains(#[trigger] pending@[j]) && lies_above(
                            nodes,
                            node,
                            pending@[j],
                        ),
            {
                let ghost now = pending@;
                pending.push(ids[i]);
                proof {
                    let child = ids@[i as int];
                    assert(pending@[now.len() as int] == child);
                    assert forall|m: NodeId| now.contains(m) implies pending@.contains(m) by {
                        let k = choose|k: int| 0 <= k < now.len() && now[k] == m;
                        assert(pending@[k] == m);
                    }
                    assert(ids@.to_set().contains(child));
                    let c = choose|c: Seq<NodeId>| #[trigger] leads_up(nodes, c) && c[0] == current && c.last() == node;
                    lemma_leads_up_front(nodes, c, child);
                }
            }
            proof {
                assert forall|n: NodeId, m: NodeId|
                    found@.contains(n) && #[trigger] child_set(nodes, n).contains(m) implies found@.contains(m)
                    || pending@.contains(m) by {
                    if n == current {
                        assert(ids@.to_set().contains(m));
                        let k = choose|k: int| 0 <= k < ids@.len() && ids@[k] == m;
                        assert(pending@.contains(ids@[k]));
                    } else {
                        assert(had.contains(n));
                        assert(had.contains(m) || was.contains(m));
                        if was.contains(m) && m != current {
                            assert(kept.contains(m));
                        }
                    }
                }
                if !found@.contains(node) {
                    assert(was.contains(node));
                    assert(kept.contains(node));
                }
            }
        }
        proof {
            let below = Set::new(|n: NodeId| lies_above(nodes, node, n));
            assert forall|n: NodeId| below.contains(n) implies found@.contains(n) by {
                let c = choose|c: Seq<NodeId>| #[trigger] leads_up(nodes, c) && c[0] == n && c.last() == node;
                assert forall|x: NodeId, m: NodeId|
                    found@.contains(x) && #[trigger] child_set(nodes, x).contains(m) implies found@.contains(m) by {
                    assert(!pending@.contains(m));
                }
                lemma_below_found(nodes, found@, c, 0);
            }
            assert(found@ =~= below);
        }
        found
    }

    /// Returns the path from the root to a node, root first.
    ///
    /// Returns `None` where no chain of parents leads from the node to one
    /// without a parent, as can be the case in a tree put together by hand.
    pub fn path_to(&self, node: NodeId) -> (path: Option<Vec<NodeId>>)
        ensures
            match path {
                Some(p) => p@.len() > 0 && leads_down_to(self.nodes@, p@, node),
                None => forall|p: Seq<NodeId>| p.len() > 0 ==> !#[trigger] leads_down_to(self.nodes@, p, node),
            },
    {
        let ghost nodes = self.nodes@;
        let mut up: Vec<NodeId> = Vec::new();
        let mut current = node;
        proof {
            self.nodes.lemma_finite();
            assert(up@.push(current) =~= seq![node]);
        }
        loop
            invariant_except_break
                leads_up(nodes, up@.push(current)),
                up@.push(current)[0] == node,
                up@.len() <= nodes.dom().len(),
            invariant
                nodes == self.nodes@,
                nodes.dom().finite(),
            ensures
                leads_up(nodes, up@),
                up@[0] == node,
                nodes.contains_key(up@.last()),
                nodes[up@.last()].parent is None,
            decreases nodes.dom().len() - up@.len(),
        {
            let ghost c = up@.push(current);
            let Some(entry) = self.nodes.get(&current) else {
                proof {
                    assert forall|p: Seq<NodeId>| p.len() > 0 implies !#[trigger] leads_down_to(nodes, p, node) by {
                        if leads_down_to(nodes, p, node) {
                            lemma_up_prefix(nodes, c, p);
                            let d = p.reverse();
                            assert(d[c.len() - 1] == current);
                            if c.len() < d.len() {
                                assert(nodes.contains_key(d[c.len() - 1]));
                            }
                        }
                    }
                }
                return None;
            };
            up.push(current);
            match entry.parent {
                Some(parent) => {
                    proof {
                        let d = c.push(parent);
                        assert forall|i: int| 0 <= i < d.len() - 1 implies nodes.contains_key(#[trigger] d[i])
                            && nodes[d[i]].parent == Some(d[i + 1]) by {
                            assert(d[i] == c[i]);
                        }
                        assert(d[0] == node);
                    }
                    current = parent;
                },
                None => {
                    break;
                },
            }
            // Defend against a malformed tree rather than looping forever.
            if up.len() > self.nodes.len() {
                proof {
                    assert forall|p: Seq<NodeId>| p.len() > 0 implies !#[trigger] leads_down_to(nodes, p, node) by {
                        if leads_down_to(nodes, p, node) {
                            lemma_up_prefix(nodes, c, p);
                            lemma_leads_up_distinct(nodes, p.reverse());
                        }
                    }
                }
                return None;
            }
        }
        let ghost c = up@;
        let mut path: Vec<NodeId> = Vec::new();
        let mut left: usize = up.len();
        while left > 0
            invariant
                up@ == c,
                left <= c.len(),
                path@.len() == c.len() - left,
                forall|i: int| 0 <= i < path@.len() ==> #[trigger] path@[i] == c[c.len() - 1 - i],
            decreases left,
        {
            left = left - 1;
            path.push(up[left]);
        }
        proof {
            assert(path@ =~= c.reverse());
            assert(path@.reverse() =~= c);
        }
        Some(path)
    }

    /// Returns the set of nodes reachable on this tree.
    pub fn reachable(&self) -> (ids: OrdSet<NodeId>)
        ensures
            ids@ == self.nodes@.dom(),
    {
        let keys = self.nodes.keys();
        let mut ids: OrdSet<NodeId> = OrdSet::new();
        for i in 0..keys.len()
            invariant
                ids@ == keys@.take(i as int).to_set(),
        {
            ids.insert(keys[i]);
            proof {
                let now = keys@.take(i + 1);
                assert(now =~= keys@.take(i as int).push(keys@[i as int]));
                lemma_push_set(keys@.take(i as int), keys@[i as int]);
            }
        }
        assert(keys@.take(keys@.len() as int) =~= keys@);
        ids
    }
}

// ===== the laws of computed trees =====

/// The chain of parents of a node spells out the path chosen for it.
pub proof fn tree_path_is_chosen(tree: SpbTree, g: Region, root: NodeId, n: NodeId)
    requires
        g.well_formed(),
        is_tree_of(tree, g, root),
        tree.nodes@.contains_key(n),
    ensures
        leads_down_to(tree.nodes@, chosen_paths(g, root)[n], n),
        chosen_paths(g, root)[n][0] == root,
    decreases chosen_paths(g, root)[n].len(),
{
    let nodes = tree.nodes@;
    let p = chosen_paths(g, root)[n];
    chosen_path_continues(g, root, n);
    if p.len() > 1 {
        let a = p[p.len() - 2];
        assert(nodes.contains_key(a));
        tree_path_is_chosen(tree, g, root, a);
        lemma_way_down_grows(nodes, p.drop_last(), a, n);
        assert(p =~= p.drop_last().push(n));
    } else {
        assert(p =~= seq![n]);
        assert(p.reverse() =~= p);
    }
}

/// The way down to a node continues to its children.
proof fn lemma_way_down_grows(nodes: Map<NodeId, TreeNode>, q: Seq<NodeId>, a: NodeId, n: NodeId)
    requires
        q.len() > 0,
        leads_down_to(nodes, q, a),
        nodes.contains_key(n),
        nodes[n].parent == Some(a),
    ensures
        leads_down_to(nodes, q.push(n), n),
        q.push(n)[0] == q[0],
{
    lemma_leads_up_front(nodes, q.reverse(), n);
    assert(q.push(n).reverse() =~= seq![n] + q.reverse());
}

/// A tree is a tree: its root, and no other node, is without a parent and a
/// first hop, and lies at no cost.
pub proof fn tree_has_one_root(tree: SpbTree, g: Region, root: NodeId, n: NodeId)
    requires
        g.well_formed(),
        is_tree_of(tree, g, root),
        tree.nodes@.contains_key(n),
    ensures
        tree.nodes@.contains_key(root),
        tree.nodes@[n].parent is None <==> n == root,
        tree.nodes@[n].first_hop is None <==> n == root,
        n == root ==> tree.nodes@[n].cost == 0 && tree.nodes@[n].hops == 0 && tree.nodes@[n].path_id.values().len() == 0,
        tree.nodes@[n].parent matches Some(parent) ==> tree.nodes@.contains_key(parent),
{
    let paths = chosen_paths(g, root);
    let p = paths[n];
    chosen_path_continues(g, root, n);
    if p.len() > 1 {
        assert(p[0] != p[p.len() - 1]);
    }
    assert(g.is_path(root, p.take(1))) by {
        lemma_prefix_path(g, root, p, 1);
    }
    chosen_paths_reach(g, root, p.take(1));
    assert(p.take(1).last() == root);
}

/// No path to a node costs less than the tree says.
pub proof fn tree_cost_least(tree: SpbTree, g: Region, root: NodeId, q: Seq<NodeId>)
    requires
        g.well_formed(),
        is_tree_of(tree, g, root),
        g.is_path(root, q),
    ensures
        tree.nodes@.contains_key(q.last()),
        tree.nodes@[q.last()].cost <= g.cost(q),
{
    chosen_paths_reach(g, root, q);
    chosen_path_best(g, root, q.last());
}

/// An overloaded node is nobody's parent, unless it is the root.
pub proof fn tree_avoids_overloaded(tree: SpbTree, g: Region, root: NodeId, n: NodeId)
    requires
        g.well_formed(),
        is_tree_of(tree, g, root),
        tree.nodes@.contains_key(n),
    ensures
        tree.nodes@[n].parent matches Some(parent) ==> parent == root || !g.members[parent].overload,
{
    reveal(Region::overloaded);
    let p = chosen_paths(g, root)[n];
    chosen_path_continues(g, root, n);
    if p.len() > 1 {
        assert(g.passable(p, p.len() - 2));
    }
}

/// Forward and reverse paths are symmetric: the trees rooted at two nodes give
/// the same cost and hops between them.
pub proof fn trees_symmetric_cost(t: SpbTree, u: SpbTree, g: Region, a: NodeId, b: NodeId)
    requires
        g.well_formed(),
        is_tree_of(t, g, a),
        is_tree_of(u, g, b),
        t.nodes@.contains_key(b),
    ensures
        u.nodes@.contains_key(a),
        u.nodes@[a].cost == t.nodes@[b].cost,
        u.nodes@[a].hops == t.nodes@[b].hops,
{
    chosen_paths_symmetric_cost(g, a, b);
}

/// Forward and reverse paths are symmetric: the trees rooted at two nodes give
/// the same path between them, as long as its hops can be counted.
pub proof fn trees_symmetric(t: SpbTree, u: SpbTree, g: Region, a: NodeId, b: NodeId, p: Seq<NodeId>)
    requires
        g.well_formed(),
        is_tree_of(t, g, a),
        is_tree_of(u, g, b),
        t.nodes@.contains_key(b),
        t.nodes@[b].hops < HOP_LIMIT,
        p.len() > 0,
        leads_down_to(t.nodes@, p, b),
    ensures
        u.nodes@.contains_key(a),
        leads_down_to(u.nodes@, p.reverse(), a),
        u.nodes@[a].path_id@ == t.nodes@[b].path_id@,
        u.nodes@[a].first_hop == t.nodes@[b].parent,
        u.nodes@[a].parent == t.nodes@[b].first_hop,
{
    let chosen = chosen_paths(g, a)[b];
    chosen_paths_symmetric(g, a, b);
    tree_path_is_chosen(t, g, a, b);
    chosen_path_continues(g, a, b);
    lemma_way_down_unique(t.nodes@, p, chosen, b);
    tree_path_is_chosen(u, g, b, a);
    lemma_reverse_path(g, a, chosen);
    lemma_masked_values_injective(u.nodes@[a].path_id@, t.nodes@[b].path_id@);
}

/// There is one way down to a node.
proof fn lemma_way_down_unique(nodes: Map<NodeId, TreeNode>, p: Seq<NodeId>, q: Seq<NodeId>, n: NodeId)
    requires
        p.len() > 0,
        q.len() > 0,
        leads_down_to(nodes, p, n),
        leads_down_to(nodes, q, n),
    ensures
        p == q,
{
    let c = p.reverse();
    let d = q.reverse();
    assert(c[0] == n && d[0] == n);
    lemma_up_prefix(nodes, c, q);
    lemma_up_prefix(nodes, d, p);
    assert(c.len() == d.len());
    assert forall|i: int| 0 <= i < c.len() implies c[i] == d[i] by {
        lemma_leads_up_agree(nodes, c, d, i);
    }
    assert(c =~= d);
    assert(p =~= c.reverse());
    assert(q =~= d.reverse());
}

/// What lies at or below a node are the nodes whose path passes it.
pub proof fn subtree_holds_paths_through(tree: SpbTree, g: Region, root: NodeId, n: NodeId, m: NodeId)
    requires
        g.well_formed(),
        is_tree_of(tree, g, root),
        tree.nodes@.contains_key(m),
    ensures
        lies_above(tree.nodes@, n, m) <==> chosen_paths(g, root)[m].contains(n),
{
    tree_path_is_chosen(tree, g, root, m);
    chosen_path_continues(g, root, m);
    let p = chosen_paths(g, root)[m];
    if lies_above(tree.nodes@, n, m) {
        lemma_above_is_on_way(tree.nodes@, p, n, m);
    }
    if p.contains(n) {
        lemma_on_way_is_above(tree.nodes@, p, n, m);
    }
}

/// A node above another one is on the way down to it.
proof fn lemma_above_is_on_way(nodes: Map<NodeId, TreeNode>, p: Seq<NodeId>, n: NodeId, m: NodeId)
    requires
        p.len() > 0,
        leads_down_to(nodes, p, m),
        lies_above(nodes, n, m),
    ensures
        p.contains(n),
{
    let c = choose|c: Seq<NodeId>| #[trigger] leads_up(nodes, c) && c[0] == m && c.last() == n;
    lemma_up_prefix(nodes, c, p);
    let k = p.len() - c.len();
    assert(p.reverse()[c.len() - 1] == p[k]);
    assert(p[k] == n);
}

/// A node on the way down to another one is above it.
proof fn lemma_on_way_is_above(nodes: Map<NodeId, TreeNode>, p: Seq<NodeId>, n: NodeId, m: NodeId)
    requires
        p.len() > 0,
        leads_down_to(nodes, p, m),
        p.contains(n),
    ensures
        lies_above(nodes, n, m),
{
    let d = p.reverse();
    let k = choose|k: int| 0 <= k < p.len() && p[k] == n;
    let c = d.take(p.len() - k);
    assert forall|i: int| 0 <= i < c.len() - 1 implies nodes.contains_key(#[trigger] c[i]) && nodes[c[i]].parent == Some(
        c[i + 1],
    ) by {
        assert(c[i] == d[i]);
        assert(c[i + 1] == d[i + 1]);
    }
    assert(leads_up(nodes, c));
    assert(c[0] == d[0]);
    assert(c.last() == d[p.len() - k - 1]);
}

/// Two trees of one region that are rooted at one node are the same, whoever
/// computed them.
pub proof fn trees_agree(t: SpbTree, u: SpbTree, g: Region, root: NodeId)
    requires
        is_tree_of(t, g, root),
        is_tree_of(u, g, root),
    ensures
        t.root == u.root,
        t.base_vid == u.base_vid,
        t.algorithm == u.algorithm,
        t.nodes@.dom() == u.nodes@.dom(),
        forall|n: NodeId| #[trigger]
            t.nodes@.contains_key(n) ==> t.nodes@[n].cost == u.nodes@[n].cost && t.nodes@[n].hops == u.nodes@[n].hops
                && t.nodes@[n].parent == u.nodes@[n].parent && t.nodes@[n].first_hop == u.nodes@[n].first_hop
                && t.nodes@[n].path_id@ == u.nodes@[n].path_id@,
{
    assert forall|n: NodeId| #[trigger] t.nodes@.contains_key(n) implies t.nodes@[n].cost == u.nodes@[n].cost
        && t.nodes@[n].hops == u.nodes@[n].hops && t.nodes@[n].parent == u.nodes@[n].parent && t.nodes@[n].first_hop
        == u.nodes@[n].first_hop && t.nodes@[n].path_id@ == u.nodes@[n].path_id@ by {
        assert(u.nodes@.contains_key(n));
        lemma_masked_values_injective(t.nodes@[n].path_id@, u.nodes@[n].path_id@);
    }
}

// ===== tree sets =====

/// A cache of computed trees, keyed by (MT-ID, B-VID, algorithm, root).
///
/// Per-source trees are only needed for nodes that actually root a multicast
/// distribution tree, which is what keeps this from being an all-pairs
/// computation on every topology change.
#[derive(Clone, Debug)]
pub struct TreeSet {
    trees: OrdMap<TreeKey, SpbTree>,
}

/// Identifies one tree within a region.
#[derive(Clone, Copy, Debug, Eq, Ord, PartialEq, PartialOrd)]
pub struct TreeKey {
    pub mt_id: u16,
    pub base_vid: u16,
    pub algorithm: EctAlgorithm,
    pub root: NodeId,
}

/// The number of a key determines its parts.
proof fn lemma_key_parts(a: int, b: int, c: int, d: int, w: int, x: int, y: int, z: int)
    requires
        0 <= b < 0x1_0000,
        0 <= c < 0x1_0000_0000,
        0 <= d < 0x1_0000_0000_0000,
        0 <= x < 0x1_0000,
        0 <= y < 0x1_0000_0000,
        0 <= z < 0x1_0000_0000_0000,
        a * 0x1_0000_0000_0000_0000_0000_0000 + b * 0x1_0000_0000_0000_0000_0000 + c * 0x1_0000_0000_0000 + d == w
            * 0x1_0000_0000_0000_0000_0000_0000 + x * 0x1_0000_0000_0000_0000_0000 + y * 0x1_0000_0000_0000 + z,
    ensures
        a == w,
        b == x,
        c == y,
        d == z,
{
}

impl Key for TreeKey {
    /// Trees are ordered by MT-ID, then Base VID, then algorithm, then root.
    open spec fn ordinal(self) -> nat {
        (self.mt_id * 0x1_0000_0000_0000_0000_0000_0000 + self.base_vid * 0x1_0000_0000_0000_0000_0000 + self.algorithm.0
            * 0x1_0000_0000_0000 + self.root.ordinal()) as nat
    }

    proof fn ordinal_injective(a: Self, b: Self) {
        lemma_node_ordinal_bound(a.root);
        lemma_node_ordinal_bound(b.root);
        lemma_key_parts(
            a.mt_id as int,
            a.base_vid as int,
            a.algorithm.0 as int,
            a.root.ordinal() as int,
            b.mt_id as int,
            b.base_vid as int,
            b.algorithm.0 as int,
            b.root.ordinal() as int,
        );
        NodeId::ordinal_injective(a.root, b.root);
    }

    fn ordinal_value(&self) -> (value: u128) {
        proof {
            lemma_node_ordinal_bound(self.root);
        }
        self.mt_id as u128 * 0x1_0000_0000_0000_0000_0000_0000 + self.base_vid as u128 * 0x1_0000_0000_0000_0000_0000
            + self.algorithm.0 as u128 * 0x1_0000_0000_0000 + self.root.ordinal_value()
    }
}

impl View for TreeSet {
    type V = Map<TreeKey, SpbTree>;

    closed spec fn view(&self) -> Map<TreeKey, SpbTree> {
        self.trees@
    }
}

/// The nodes that a view needs a tree for: the local node, and every node that
/// transmits into some service.
pub open spec fn root_set(view: TopologyView) -> Set<NodeId> {
    Set::new(
        |n: NodeId|
            n == view.local || (view.nodes@.contains_key(n) && exists|isid: u32| #[trigger]
                node_lists(view.nodes@[n], isid, Role::Transmit)),
    )
}

/// The keys of the trees of one tree set, by root.
pub open spec fn keys_of(mt_id: u16, ect_vid: EctVid, roots: Seq<NodeId>) -> Seq<TreeKey> {
    roots.map_values(
        |root: NodeId| TreeKey { mt_id, base_vid: ect_vid.base_vid, algorithm: ect_vid.algorithm, root },
    )
}

/// The keys of all trees that are wanted, in the order in which they are
/// computed.
pub open spec fn wanted_keys(mt_id: u16, ect_vids: Seq<EctVid>, roots: Seq<NodeId>) -> Seq<TreeKey>
    decreases ect_vids.len(),
{
    if ect_vids.len() == 0 {
        Seq::empty()
    } else {
        wanted_keys(mt_id, ect_vids.drop_last(), roots) + keys_of(mt_id, ect_vids.last(), roots)
    }
}

/// The keys that fit when at most `max` distinct ones do, first come first
/// served.
pub open spec fn kept_keys(keys: Seq<TreeKey>, max: nat) -> Set<TreeKey>
    decreases keys.len(),
{
    if keys.len() == 0 {
        Set::empty()
    } else {
        let kept = kept_keys(keys.drop_last(), max);
        if kept.len() >= max {
            kept
        } else {
            kept.insert(keys.last())
        }
    }
}

/// How many keys come when no more fit.
pub open spec fn skipped_keys(keys: Seq<TreeKey>, max: nat) -> nat
    decreases keys.len(),
{
    if keys.len() == 0 {
        0
    } else {
        skipped_keys(keys.drop_last(), max) + if kept_keys(keys.drop_last(), max).len() >= max {
            1nat
        } else {
            0nat
        }
    }
}

impl TreeSet {
    /// Returns an empty set.
    pub fn new() -> (set: Self)
        ensures
            set@ == Map::<TreeKey, SpbTree>::empty(),
    {
        TreeSet { trees: OrdMap::new() }
    }

    /// Returns the nodes that a view needs a tree for, in order.
    ///
    /// Every multicast source needs its own tree, since a node must know its
    /// position in each source's distribution tree to replicate.
    fn roots(view: &TopologyView) -> (roots: Vec<NodeId>)
        ensures
            roots@ == ordered(root_set(*view)),
            is_ordered(roots@),
            roots@.to_set() == root_set(*view),
    {
        let mut roots: OrdSet<NodeId> = OrdSet::new();
        roots.insert(view.local);
        let isids = view.isids().keys();
        let ghost nodes = view.nodes@;
        for i in 0..isids.len()
            invariant
                nodes == view.nodes@,
                roots@.contains(view.local),
                forall|n: NodeId| #[trigger] roots@.contains(n) ==> root_set(*view).contains(n),
                forall|j: int, n: NodeId|
                    0 <= j < i && nodes.contains_key(n) && #[trigger] node_lists(nodes[n], isids@[j], Role::Transmit)
                        ==> roots@.contains(n),
        {
            let isid: u32 = isids[i];
            let ids = view.transmitters(isid);
            let ghost all = selected(nodes, Selector::Lists(isid, Role::Transmit));
            for k in 0..ids.len()
                invariant
                    nodes == view.nodes@,
                    all == selected(nodes, Selector::Lists(isid, Role::Transmit)),
                    ids@.to_set() == all,
                    roots@.contains(view.local),
                    forall|n: NodeId| #[trigger] roots@.contains(n) ==> root_set(*view).contains(n),
                    forall|j: int, n: NodeId|
                        0 <= j < i && nodes.contains_key(n) && #[trigger] node_lists(nodes[n], isids@[j], Role::Transmit)
                            ==> roots@.contains(n),
                    forall|j: int| 0 <= j < k ==> roots@.contains(#[trigger] ids@[j]),
            {
                assert(ids@.to_set().contains(ids@[k as int]));
                roots.insert(ids[k]);
            }
            assert forall|n: NodeId| nodes.contains_key(n) && #[trigger] node_lists(nodes[n], isid, Role::Transmit) implies
                roots@.contains(n) by {
                assert(all.contains(n));
                assert(ids@.to_set().contains(n));
                let j = choose|j: int| 0 <= j < ids@.len() && ids@[j] == n;
                assert(roots@.contains(ids@[j]));
            }
        }
        proof {
            assert forall|n: NodeId| root_set(*view).contains(n) implies roots@.contains(n) by {
                if n != view.local {
                    let isid = choose|isid: u32| #[trigger] node_lists(nodes[n], isid, Role::Transmit);
                    let svc = choose|k: int|
                        0 <= k < nodes[n].services@.len() && service_lists(
                            #[trigger] nodes[n].services@[k],
                            isid,
                            Role::Transmit,
                        );
                    let m = choose|j: int|
                        0 <= j < nodes[n].services@[svc].isids@.len() && (#[trigger] nodes[n].services@[svc].isids@[j]).isid
                            == isid && has_role(nodes[n].services@[svc].isids@[j], Role::Transmit);
                    assert(nodes[n].services@[svc].isids@[m].isid == isid);
                    assert(service_lists(nodes[n].services@[svc], isid, Role::Any));
                    assert(node_lists(nodes[n], isid, Role::Any));
                    assert(isid_set(nodes).contains(isid));
                    assert(isids@.to_set().contains(isid));
                    let j = choose|j: int| 0 <= j < isids@.len() && isids@[j] == isid;
                    assert(node_lists(nodes[n], isids@[j], Role::Transmit));
                }
            }
            assert(roots@ =~= root_set(*view));
        }
        roots.to_vec()
    }

    /// Computes the trees needed for one instance: the locally rooted tree
    /// per (algorithm, B-VID), plus one tree per multicast transmitter.
    ///
    /// `max_trees` bounds the work; when the bound is hit, computation stops
    /// and the number of trees that were skipped is returned so it can be
    /// surfaced as state rather than silently degrading forwarding.
    pub fn compute(view: &TopologyView, mt_id: u16, ect_vids: &[EctVid], max_trees: usize) -> (result: (Self, usize))
        requires
            ect_vids@.len() * (view.nodes@.dom().len() + 1) <= usize::MAX,
        ensures
            result.0@.dom() == kept_keys(wanted_keys(mt_id, ect_vids@, ordered(root_set(*view))), max_trees as nat),
            forall|key: TreeKey| #[trigger]
                result.0@.contains_key(key) ==> is_tree_of(result.0@[key], region_in(*view, key.base_vid, key.algorithm), key.root),
            result.1 == skipped_keys(wanted_keys(mt_id, ect_vids@, ordered(root_set(*view))), max_trees as nat),
    {
        let mut trees: OrdMap<TreeKey, SpbTree> = OrdMap::new();
        let mut skipped: usize = 0;
        let roots = TreeSet::roots(view);
        let ghost max = max_trees as nat;
        proof {
            lemma_root_count(*view, roots@);
            assert(trees@.dom() =~= Set::<TreeKey>::empty());
            assert(ect_vids@.take(0) =~= Seq::empty());
        }
        for j in 0..ect_vids.len()
            invariant
                max == max_trees,
                roots@.len() <= view.nodes@.dom().len() + 1,
                ect_vids@.len() * (view.nodes@.dom().len() + 1) <= usize::MAX,
                trees@.dom() == kept_keys(wanted_keys(mt_id, ect_vids@.take(j as int), roots@), max),
                skipped == skipped_keys(wanted_keys(mt_id, ect_vids@.take(j as int), roots@), max),
                skipped <= j * (view.nodes@.dom().len() + 1),
                forall|key: TreeKey| #[trigger]
                    trees@.contains_key(key) ==> is_tree_of(trees@[key], region_in(*view, key.base_vid, key.algorithm), key.root),
        {
            let ect_vid = ect_vids[j];
            let ghost done = wanted_keys(mt_id, ect_vids@.take(j as int), roots@);
            let ghost mine = keys_of(mt_id, ect_vid, roots@);
            let ghost room = view.nodes@.dom().len() + 1;
            proof {
                assert(done + mine.take(0) =~= done);
                assert(j * room + room <= ect_vids@.len() * room) by (nonlinear_arith)
                    requires
                        j + 1 <= ect_vids@.len(),
                        0 <= room,
                ;
            }
            for i in 0..roots.len()
                invariant
                    max == max_trees,
                    0 <= j < ect_vids@.len(),
                    ect_vid == ect_vids@[j as int],
                    room == view.nodes@.dom().len() + 1,
                    roots@.len() <= room,
                    j * room + room <= ect_vids@.len() * room,
                    ect_vids@.len() * room <= usize::MAX,
                    done == wanted_keys(mt_id, ect_vids@.take(j as int), roots@),
                    mine == keys_of(mt_id, ect_vid, roots@),
                    trees@.dom() == kept_keys(done + mine.take(i as int), max),
                    skipped == skipped_keys(done + mine.take(i as int), max),
                    skipped <= j * room + i,
                    forall|key: TreeKey| #[trigger]
                        trees@.contains_key(key) ==> is_tree_of(trees@[key], region_in(*view, key.base_vid, key.algorithm), key.root),
            {
                let key = TreeKey { mt_id, base_vid: ect_vid.base_vid, algorithm: ect_vid.algorithm, root: roots[i] };
                proof {
                    let now = done + mine.take(i + 1);
                    assert(mine[i as int] == key);
                    assert(now.drop_last() =~= done + mine.take(i as int));
                    assert(now.last() == key);
                }
                if trees.len() >= max_trees {
                    skipped = skipped + 1;
                } else {
                    let tree = SpbTree::compute(view, roots[i], &ect_vid);
                    assert(view.region(ect_vid) == region_in(*view, key.base_vid, key.algorithm));
                    trees.insert(key, tree);
                    assert(trees@.dom() =~= kept_keys(done + mine.take(i as int), max).insert(key));
                }
            }
            proof {
                assert(mine.take(roots@.len() as int) =~= mine);
                assert(ect_vids@.take(j + 1).drop_last() =~= ect_vids@.take(j as int));
                assert(ect_vids@.take(j + 1).last() == ect_vid);
                assert((j + 1) * room == j * room + room) by (nonlinear_arith);
            }
        }
        assert(ect_vids@.take(ect_vids@.len() as int) =~= ect_vids@);
        (TreeSet { trees }, skipped)
    }

    pub fn get(&self, key: &TreeKey) -> (tree: Option<&SpbTree>)
        ensures
            match tree {
                Some(t) => self@.contains_key(*key) && *t == self@[*key],
                None => !self@.contains_key(*key),
            },
    {
        self.trees.get(key)
    }

    pub fn insert(&mut self, key: TreeKey, tree: SpbTree)
        ensures
            final(self)@ == old(self)@.insert(key, tree),
    {
        self.trees.insert(key, tree);
    }

    /// Returns every tree with its key, in the order of the keys.
    pub fn iter(&self) -> (entries: Vec<(TreeKey, &SpbTree)>)
        ensures
            entries@.len() == ordered(self@.dom()).len(),
            is_ordered(ordered(self@.dom())),
            ordered(self@.dom()).to_set() == self@.dom(),
            forall|i: int|
                0 <= i < entries@.len() ==> (#[trigger] entries@[i]).0 == ordered(self@.dom())[i] && *entries@[i].1
                    == self@[entries@[i].0],
    {
        let keys = self.trees.keys();
        let mut entries: Vec<(TreeKey, &SpbTree)> = Vec::new();
        for i in 0..keys.len()
            invariant
                forall|j: int| 0 <= j < keys@.len() ==> self.trees@.contains_key(#[trigger] keys@[j]),
                entries@.len() == i,
                forall|j: int|
                    0 <= j < i ==> (#[trigger] entries@[j]).0 == keys@[j] && *entries@[j].1 == self.trees@[keys@[j]],
        {
            assert(self.trees@.contains_key(keys@[i as int]));
            if let Some(tree) = self.trees.get(&keys[i]) {
                entries.push((keys[i], tree));
            }
        }
        entries
    }

    pub fn len(&self) -> (n: usize)
        ensures
            self@.dom().finite(),
            n == self@.dom().len(),
    {
        self.trees.len()
    }

    pub fn is_empty(&self) -> (b: bool)
        ensures
            self@.dom().finite(),
            b == (self@ == Map::<TreeKey, SpbTree>::empty()),
    {
        proof {
            self.trees.lemma_finite();
        }
        self.trees.is_empty()
    }
}

impl Default for TreeSet {
    fn default() -> (set: Self)
        ensures
            set@ == Map::<TreeKey, SpbTree>::empty(),
    {
        TreeSet::new()
    }
}

/// There are at most as many roots as nodes, and the local node.
proof fn lemma_root_count(view: TopologyView, roots: Seq<NodeId>)
    requires
        is_ordered(roots),
        roots.to_set() == root_set(view),
    ensures
        roots.len() <= view.nodes@.dom().len() + 1,
{
    view.nodes.lemma_finite();
    lemma_ordered_len(roots);
    let room = view.nodes@.dom().insert(view.local);
    assert(root_set(view).subset_of(room));
    vstd::set_lib::lemma_len_subset(root_set(view), room);
}

/// Where all wanted trees fit, none is skipped.
pub proof fn no_tree_skipped_within_bound(keys: Seq<TreeKey>, max: nat)
    requires
        keys.len() <= max,
    ensures
        kept_keys(keys, max) == keys.to_set(),
        skipped_keys(keys, max) == 0,
        kept_keys(keys, max).len() <= keys.len(),
    decreases keys.len(),
{
    if keys.len() > 0 {
        let q = keys.drop_last();
        no_tree_skipped_within_bound(q, max);
        lemma_push_set(q, keys.last());
        assert(keys =~= q.push(keys.last()));
        kept_keys_bounded(q, max);
    } else {
        assert(kept_keys(keys, max) =~= keys.to_set());
    }
}

/// The number of trees stays within the bound.
pub proof fn kept_keys_bounded(keys: Seq<TreeKey>, max: nat)
    ensures
        kept_keys(keys, max).finite(),
        kept_keys(keys, max).len() <= max,
    decreases keys.len(),
{
    if keys.len() > 0 {
        kept_keys_bounded(keys.drop_last(), max);
    }
}

} // verus!
