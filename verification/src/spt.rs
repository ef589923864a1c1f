//! Which path a tree takes to each node.
//!
//! [`chosen_paths`] grows the paths of a tree one node at a time, the best
//! reachable node first. What the growth leads to is proved here: it reaches
//! every node that a path leads to, each by a best path, and the path between
//! two nodes is the same from either end.

use vstd::prelude::*;

use crate::node::NodeId;
use crate::order::{lemma_lex_asymmetric, lemma_lex_total, lemma_lex_transitive, lex_lt};
use crate::ordmap::Key;
use crate::region::{
    hops, lemma_as_good_total, lemma_as_good_transitive, lemma_best_unique, lemma_extend_monotone,
    lemma_path_push, lemma_prefix_as_good, lemma_prefix_path, lemma_reverse_path, Region, COST_LIMIT, HOP_LIMIT,
};

verus! {

/// For each node, the path that leads to it.
pub type Paths = Map<NodeId, Seq<NodeId>>;

/// The path to `a` comes before the path to `b`, the System ID deciding
/// between paths of the same rank.
pub open spec fn node_before(g: Region, paths: Paths, a: NodeId, b: NodeId) -> bool {
    ||| g.ranks_before(paths[a], paths[b])
    ||| !g.ranks_before(paths[b], paths[a]) && a.ordinal() < b.ordinal()
}

/// `n` comes before every other node.
pub open spec fn is_least(g: Region, paths: Paths, n: NodeId) -> bool {
    &&& paths.contains_key(n)
    &&& forall|m: NodeId| #[trigger] paths.contains_key(m) && m != n ==> node_before(g, paths, n, m)
}

/// The node that comes before every other one.
pub open spec fn least(g: Region, paths: Paths) -> NodeId {
    choose|n: NodeId| is_least(g, paths, n)
}

/// Whether the path `p` to a settled node may be extended to `m`.
pub open spec fn offers_path(g: Region, settled: Paths, p: Seq<NodeId>, m: NodeId) -> bool {
    &&& !settled.contains_key(m)
    &&& g.member(m)
    &&& g.edge(p.last(), m) is Some
    &&& p.len() > 1 ==> !g.overloaded(p.last())
    &&& g.cost(p.push(m)) <= COST_LIMIT
}

/// Whether extending `p` to `m` gives `m` its first path or a better one.
pub open spec fn improves(g: Region, settled: Paths, frontier: Paths, p: Seq<NodeId>, m: NodeId) -> bool {
    &&& offers_path(g, settled, p, m)
    &&& frontier.contains_key(m) ==> g.ranks_before(p.push(m), frontier[m])
}

/// The paths to the nodes next to the settled ones, once the path `p` has been
/// settled.
pub open spec fn relaxed(g: Region, settled: Paths, frontier: Paths, p: Seq<NodeId>) -> Paths {
    Map::new(
        |m: NodeId| frontier.contains_key(m) || offers_path(g, settled, p, m),
        |m: NodeId|
            if improves(g, settled, frontier, p, m) {
                p.push(m)
            } else {
                frontier[m]
            },
    )
}

/// Settles the nodes of `frontier` and what they lead to, the least node first, in
/// at most `fuel` steps.
pub open spec fn grow(g: Region, settled: Paths, frontier: Paths, fuel: nat) -> Paths
    decreases fuel,
{
    if fuel == 0 || frontier.dom() =~= Set::empty() {
        settled
    } else {
        let n = least(g, frontier);
        let p = frontier[n];
        let now = settled.insert(n, p);
        grow(g, now, relaxed(g, now, frontier.remove(n), p), (fuel - 1) as nat)
    }
}

/// The path from `root` to itself.
pub open spec fn start(root: NodeId) -> Paths {
    Map::empty().insert(root, seq![root])
}

/// The path that the tree rooted at `root` takes to each node it reaches.
pub open spec fn chosen_paths(g: Region, root: NodeId) -> Paths {
    if g.member(root) {
        grow(g, Map::empty(), start(root), g.members.dom().len())
    } else {
        Map::empty()
    }
}

// ===== the order in which nodes are settled =====

proof fn lemma_ranks_transitive(g: Region, p: Seq<NodeId>, q: Seq<NodeId>, r: Seq<NodeId>)
    ensures
        g.ranks_before(p, q) && g.ranks_before(q, r) ==> g.ranks_before(p, r),
        g.ranks_before(p, q) ==> !g.ranks_before(q, p),
        !g.ranks_before(p, q) && !g.ranks_before(q, p) ==> (g.ranks_before(p, r) <==> g.ranks_before(q, r)) && (
        g.ranks_before(r, p) <==> g.ranks_before(r, q)),
{
    if lex_lt(g.ids(p), g.ids(q)) && lex_lt(g.ids(q), g.ids(r)) {
        lemma_lex_transitive(g.ids(p), g.ids(q), g.ids(r));
    }
    if lex_lt(g.ids(p), g.ids(q)) {
        lemma_lex_asymmetric(g.ids(p), g.ids(q));
    }
    lemma_lex_total(g.ids(p), g.ids(q));
}

pub proof fn lemma_node_before_transitive(g: Region, paths: Paths, a: NodeId, b: NodeId, c: NodeId)
    requires
        node_before(g, paths, a, b),
        node_before(g, paths, b, c),
    ensures
        node_before(g, paths, a, c),
{
    lemma_ranks_transitive(g, paths[a], paths[b], paths[c]);
    lemma_ranks_transitive(g, paths[b], paths[c], paths[a]);
    lemma_ranks_transitive(g, paths[c], paths[b], paths[a]);
    lemma_ranks_transitive(g, paths[c], paths[a], paths[b]);
}

proof fn lemma_node_before_total(g: Region, paths: Paths, a: NodeId, b: NodeId)
    requires
        a != b,
    ensures
        node_before(g, paths, a, b) <==> !node_before(g, paths, b, a),
{
    lemma_ranks_transitive(g, paths[a], paths[b], paths[b]);
    lemma_ranks_transitive(g, paths[b], paths[a], paths[a]);
    if a.ordinal() == b.ordinal() {
        NodeId::ordinal_injective(a, b);
    }
}

/// There is at most one least node.
pub proof fn lemma_least_is(g: Region, paths: Paths, n: NodeId)
    requires
        is_least(g, paths, n),
    ensures
        least(g, paths) == n,
{
    let m = least(g, paths);
    assert(is_least(g, paths, m));
    if m != n {
        lemma_node_before_total(g, paths, m, n);
    }
}

/// Some node is least.
pub proof fn lemma_least_exists(g: Region, paths: Paths)
    requires
        paths.dom().finite(),
        paths.dom() != Set::<NodeId>::empty(),
    ensures
        is_least(g, paths, least(g, paths)),
    decreases paths.dom().len(),
{
    let a = paths.dom().choose();
    assert(paths.dom().contains(a)) by {
        assert(!(paths.dom() =~= Set::<NodeId>::empty()));
    }
    let rest = paths.remove(a);
    if rest.dom() =~= Set::<NodeId>::empty() {
        assert forall|m: NodeId| #[trigger] paths.contains_key(m) && m != a implies node_before(g, paths, a, m) by {
            assert(rest.dom().contains(m));
        }
        assert(is_least(g, paths, a));
    } else {
        lemma_least_exists(g, rest);
        let b = least(g, rest);
        assert(rest.contains_key(b));
        lemma_node_before_total(g, paths, a, b);
        let n = if node_before(g, paths, a, b) {
            a
        } else {
            b
        };
        assert forall|m: NodeId| #[trigger] paths.contains_key(m) && m != n implies node_before(g, paths, n, m) by {
            if m != a {
                assert(rest.contains_key(m));
                if m != b {
                    assert(node_before(g, rest, b, m));
                    assert(node_before(g, paths, b, m));
                    if n == a {
                        lemma_node_before_transitive(g, paths, a, b, m);
                    }
                }
            }
        }
        assert(is_least(g, paths, n));
    }
}

// ===== what holds while the paths grow =====

/// `p` is the path to `n`, and its part before `n` is the settled path to the
/// node before.
pub open spec fn continues(g: Region, root: NodeId, settled: Paths, n: NodeId, p: Seq<NodeId>) -> bool {
    &&& g.is_path(root, p)
    &&& p.last() == n
    &&& p.len() > 1 ==> settled.contains_key(p[p.len() - 2]) && settled[p[p.len() - 2]] == p.drop_last()
}

/// The settled paths are best paths that continue each other, and every
/// unsettled node next to a settled one has a path at least as good as those
/// through its settled neighbors.
pub open spec fn growing(g: Region, root: NodeId, settled: Paths, frontier: Paths) -> bool {
    &&& forall|n: NodeId| #[trigger]
        settled.contains_key(n) ==> continues(g, root, settled, n, settled[n]) && g.is_best(root, settled[n]) && (forall|
            i: int,
        |
            0 <= i < settled[n].len() ==> settled.contains_key(#[trigger] settled[n][i]))
    &&& forall|n: NodeId| #[trigger]
        frontier.contains_key(n) ==> !settled.contains_key(n) && continues(g, root, settled, n, frontier[n])
    &&& settled.contains_key(root) || (frontier =~= start(root) && settled =~= Map::empty())
    &&& forall|n: NodeId, m: NodeId| #[trigger]
        settled.contains_key(n) && #[trigger] offers_path(g, settled, settled[n], m) ==> frontier.contains_key(m)
            && !g.ranks_before(settled[n].push(m), frontier[m])
}

/// The first unsettled node of a path.
proof fn lemma_first_unsettled(g: Region, settled: Paths, q: Seq<NodeId>, k: int) -> (j: int)
    requires
        0 < k < q.len(),
        !settled.contains_key(q[k]),
        settled.contains_key(q[0]),
    ensures
        0 < j <= k,
        !settled.contains_key(q[j]),
        settled.contains_key(q[j - 1]),
    decreases k,
{
    if settled.contains_key(q[k - 1]) {
        k
    } else {
        lemma_first_unsettled(g, settled, q, k - 1)
    }
}

/// Where a path leaves the settled nodes, the frontier holds a path at least
/// as good.
proof fn lemma_crossing(g: Region, root: NodeId, settled: Paths, frontier: Paths, q: Seq<NodeId>) -> (j: int)
    requires
        growing(g, root, settled, frontier),
        settled.contains_key(root),
        g.is_path(root, q),
        !settled.contains_key(q.last()),
    ensures
        0 < j < q.len(),
        frontier.contains_key(q[j]),
        g.as_good(frontier[q[j]], q),
{
    let j = lemma_first_unsettled(g, settled, q, q.len() - 1);
    let a = q[j - 1];
    let m = q[j];
    let p = settled[a];
    let before = q.take(j);
    let upto = q.take(j + 1);
    lemma_prefix_path(g, root, q, j);
    lemma_prefix_path(g, root, q, j + 1);
    lemma_prefix_as_good(g, q, j + 1);
    assert(g.as_good(p, before));
    lemma_extend_monotone(g, p, before, m);
    assert(upto =~= before.push(m));
    assert(g.passable(q, j - 1));
    assert(p.len() > 1 ==> !g.overloaded(a)) by {
        if j == 1 && p.len() > 1 {
            assert(p[0] == p[p.len() - 1]);
        }
    }
    assert(offers_path(g, settled, p, m));
    lemma_as_good_total(g, frontier[m], p.push(m));
    lemma_as_good_transitive(g, frontier[m], p.push(m), upto);
    lemma_as_good_transitive(g, frontier[m], upto, q);
    j
}

/// The least path of the frontier is a best path.
proof fn lemma_least_best(g: Region, root: NodeId, settled: Paths, frontier: Paths, n: NodeId)
    requires
        growing(g, root, settled, frontier),
        is_least(g, frontier, n),
    ensures
        g.is_best(root, frontier[n]),
{
    let p = frontier[n];
    assert forall|q: Seq<NodeId>| #[trigger] g.is_path(root, q) && q.last() == p.last() implies g.as_good(p, q) by {
        if settled.contains_key(root) {
            let j = lemma_crossing(g, root, settled, frontier, q);
            let m = q[j];
            assert(g.is_path(root, frontier[m]));
            assert(g.as_good(p, frontier[m])) by {
                lemma_as_good_total(g, p, frontier[m]);
                if m != n {
                    assert(node_before(g, frontier, n, m));
                    lemma_ranks_transitive(g, p, frontier[m], p);
                }
            }
            lemma_as_good_transitive(g, p, frontier[m], q);
        } else {
            assert(n == root);
            if q.len() > 1 {
                assert(q[0] == q[q.len() - 1]);
            }
            assert(q =~= p);
        }
    }
}

/// Settling the least node keeps all of it.
pub proof fn lemma_growing_step(g: Region, root: NodeId, settled: Paths, frontier: Paths, n: NodeId)
    requires
        growing(g, root, settled, frontier),
        is_least(g, frontier, n),
    ensures
        growing(
            g,
            root,
            settled.insert(n, frontier[n]),
            relaxed(g, settled.insert(n, frontier[n]), frontier.remove(n), frontier[n]),
        ),
{
    let p = frontier[n];
    let now = settled.insert(n, p);
    let rest = frontier.remove(n);
    let next = relaxed(g, now, rest, p);
    lemma_least_best(g, root, settled, frontier, n);
    assert(continues(g, root, settled, n, p));
    assert(forall|i: int| 0 <= i < p.len() ==> now.contains_key(#[trigger] p[i])) by {
        assert forall|i: int| 0 <= i < p.len() implies now.contains_key(#[trigger] p[i]) by {
            if i < p.len() - 1 {
                let a = p[p.len() - 2];
                assert(settled.contains_key(a));
                assert(settled[a][i] == p[i]);
            }
        }
    }
    assert forall|k: NodeId| #[trigger] now.contains_key(k) implies continues(g, root, now, k, now[k]) && g.is_best(
        root,
        now[k],
    ) && (forall|i: int| 0 <= i < now[k].len() ==> now.contains_key(#[trigger] now[k][i])) by {
        if k != n {
            assert(settled.contains_key(k));
            assert(continues(g, root, settled, k, settled[k]));
            assert forall|i: int| 0 <= i < now[k].len() implies now.contains_key(#[trigger] now[k][i]) by {
                assert(settled.contains_key(settled[k][i]));
            }
        } else {
            assert(continues(g, root, now, n, p));
        }
    }
    assert forall|m: NodeId| #[trigger] next.contains_key(m) implies !now.contains_key(m) && continues(
        g,
        root,
        now,
        m,
        next[m],
    ) by {
        if rest.contains_key(m) {
            assert(frontier.contains_key(m));
        }
        if improves(g, now, rest, p, m) {
            assert(!p.contains(m));
            lemma_path_push(g, root, p, m);
            assert(p.push(m).drop_last() =~= p);
        } else {
            assert(rest.contains_key(m));
            assert(continues(g, root, settled, m, frontier[m]));
        }
    }
    assert(now.contains_key(root)) by {
        assert(p[0] == root);
    }
    assert forall|k: NodeId, m: NodeId| #[trigger] now.contains_key(k) && #[trigger] offers_path(g, now, now[k], m) implies
        next.contains_key(m) && !g.ranks_before(now[k].push(m), next[m]) by {
        let r = now[k].push(m);
        if k == n {
            lemma_ranks_transitive(g, r, r, r);
        } else {
            assert(settled.contains_key(k));
            assert(offers_path(g, settled, settled[k], m));
            assert(frontier.contains_key(m));
            assert(rest.contains_key(m));
            assert(!g.ranks_before(r, frontier[m]));
            if improves(g, now, rest, p, m) {
                lemma_ranks_transitive(g, r, p.push(m), frontier[m]);
            }
        }
    }
}

/// Every node that a path of the frontier leads to is a node of the region.
pub proof fn lemma_frontier_nodes(g: Region, root: NodeId, settled: Paths, p: Seq<NodeId>, n: NodeId)
    requires
        continues(g, root, settled, n, p),
    ensures
        g.members.contains_key(n),
{
    reveal(Region::member);
    if p.len() > 1 {
        assert(g.passable(p, p.len() - 2));
    }
}

/// While something is left to settle, some node of the region is unsettled.
pub proof fn lemma_growing_room(g: Region, root: NodeId, settled: Paths, frontier: Paths)
    requires
        g.well_formed(),
        growing(g, root, settled, frontier),
        frontier.dom() != Set::<NodeId>::empty(),
    ensures
        settled.dom().finite(),
        settled.dom().len() < g.members.dom().len(),
{
    assert(!(frontier.dom() =~= Set::<NodeId>::empty()));
    let n = frontier.dom().choose();
    assert(frontier.contains_key(n));
    lemma_frontier_nodes(g, root, settled, frontier[n], n);
    assert(settled.dom().subset_of(g.members.dom().remove(n))) by {
        assert forall|k: NodeId| settled.dom().contains(k) implies g.members.dom().remove(n).contains(k) by {
            assert(settled.contains_key(k));
            lemma_frontier_nodes(g, root, settled, settled[k], k);
        }
    }
    vstd::set_lib::lemma_len_subset(settled.dom(), g.members.dom().remove(n));
}

/// What has grown when nothing is left to settle.
proof fn lemma_grown(g: Region, root: NodeId, settled: Paths, frontier: Paths, fuel: nat)
    requires
        g.well_formed(),
        growing(g, root, settled, frontier),
        settled.dom().finite(),
        fuel + settled.dom().len() >= g.members.dom().len(),
    ensures
        growing(g, root, grow(g, settled, frontier, fuel), Map::empty()),
    decreases fuel,
{
    assert(frontier.dom().subset_of(g.members.dom())) by {
        assert forall|n: NodeId| frontier.dom().contains(n) implies g.members.dom().contains(n) by {
            assert(frontier.contains_key(n));
            lemma_frontier_nodes(g, root, settled, frontier[n], n);
        }
    }
    vstd::set_lib::lemma_len_subset(frontier.dom(), g.members.dom());
    if frontier.dom() =~= Set::<NodeId>::empty() {
        assert(frontier =~= Map::empty());
    } else if fuel == 0 {
        lemma_growing_room(g, root, settled, frontier);
        assert(false);
    } else {
        lemma_least_exists(g, frontier);
        let n = least(g, frontier);
        let p = frontier[n];
        let now = settled.insert(n, p);
        lemma_growing_step(g, root, settled, frontier, n);
        assert(frontier.contains_key(n));
        lemma_grown(g, root, now, relaxed(g, now, frontier.remove(n), p), (fuel - 1) as nat);
    }
}

pub proof fn lemma_start(g: Region, root: NodeId)
    requires
        g.member(root),
    ensures
        growing(g, root, Map::empty(), start(root)),
{
    let p = seq![root];
    assert(g.cost(p) == 0);
    assert(g.is_path(root, p));
}

proof fn lemma_chosen_grown(g: Region, root: NodeId)
    requires
        g.well_formed(),
        g.member(root),
    ensures
        growing(g, root, chosen_paths(g, root), Map::empty()),
{
    lemma_start(g, root);
    lemma_grown(g, root, Map::empty(), start(root), g.members.dom().len());
}

// ===== the laws of chosen paths =====

/// A tree reaches exactly the nodes that a path leads to.
pub proof fn chosen_paths_reach(g: Region, root: NodeId, q: Seq<NodeId>)
    requires
        g.well_formed(),
        g.is_path(root, q),
    ensures
        chosen_paths(g, root).contains_key(q.last()),
{
    let paths = chosen_paths(g, root);
    lemma_chosen_grown(g, root);
    assert(paths.contains_key(root)) by {
        assert(!(Map::<NodeId, Seq<NodeId>>::empty() =~= start(root))) by {
            assert(start(root).contains_key(root));
        }
    }
    if !paths.contains_key(q.last()) {
        let j = lemma_crossing(g, root, paths, Map::empty(), q);
        assert(false);
    }
}

/// Each node is reached by a best path: none is cheaper, none as cheap has
/// fewer hops, and none alike in both has a lower PATHID.
pub proof fn chosen_path_best(g: Region, root: NodeId, n: NodeId)
    requires
        g.well_formed(),
        chosen_paths(g, root).contains_key(n),
    ensures
        g.is_best(root, chosen_paths(g, root)[n]),
        chosen_paths(g, root)[n].last() == n,
{
    lemma_chosen_grown(g, root);
}

/// Paths are made of paths: the path to a node passes its parent by the
/// parent's own path.
pub proof fn chosen_path_continues(g: Region, root: NodeId, n: NodeId)
    requires
        g.well_formed(),
        chosen_paths(g, root).contains_key(n),
    ensures
        continues(g, root, chosen_paths(g, root), n, chosen_paths(g, root)[n]),
{
    lemma_chosen_grown(g, root);
}

/// The path to a node is the only best one, as long as its hops can be
/// counted.
pub proof fn chosen_path_unique(g: Region, root: NodeId, q: Seq<NodeId>)
    requires
        g.well_formed(),
        g.is_best(root, q),
        hops(q) < HOP_LIMIT,
    ensures
        chosen_paths(g, root).contains_key(q.last()),
        chosen_paths(g, root)[q.last()] == q,
{
    chosen_paths_reach(g, root, q);
    chosen_path_best(g, root, q.last());
    lemma_best_unique(g, root, q, chosen_paths(g, root)[q.last()]);
}

/// Paths are symmetric: what reaches one end from the other comes back, at
/// the same cost in as many hops.
pub proof fn chosen_paths_symmetric_cost(g: Region, a: NodeId, b: NodeId)
    requires
        g.well_formed(),
        chosen_paths(g, a).contains_key(b),
    ensures
        chosen_paths(g, b).contains_key(a),
        g.cost(chosen_paths(g, b)[a]) == g.cost(chosen_paths(g, a)[b]),
        hops(chosen_paths(g, b)[a]) == hops(chosen_paths(g, a)[b]),
{
    let p = chosen_paths(g, a)[b];
    chosen_path_best(g, a, b);
    lemma_reverse_path(g, a, p);
    chosen_paths_reach(g, b, p.reverse());
    let q = chosen_paths(g, b)[a];
    chosen_path_best(g, b, a);
    lemma_reverse_path(g, b, q);
    assert(g.as_good(q, p.reverse()));
    assert(g.as_good(p, q.reverse()));
}

/// The path between two nodes is the same from either end, as long as its
/// hops can be counted.
pub proof fn chosen_paths_symmetric(g: Region, a: NodeId, b: NodeId)
    requires
        g.well_formed(),
        chosen_paths(g, a).contains_key(b),
        hops(chosen_paths(g, a)[b]) < HOP_LIMIT,
    ensures
        chosen_paths(g, b).contains_key(a),
        chosen_paths(g, b)[a] == chosen_paths(g, a)[b].reverse(),
{
    let p = chosen_paths(g, a)[b];
    chosen_paths_symmetric_cost(g, a, b);
    chosen_path_best(g, a, b);
    let q = chosen_paths(g, b)[a];
    chosen_path_best(g, b, a);
    lemma_reverse_path(g, a, p);
    lemma_reverse_path(g, b, q);
    let r = q.reverse();
    assert(g.as_good(q, p.reverse()));
    assert forall|s: Seq<NodeId>| #[trigger] g.is_path(a, s) && s.last() == r.last() implies g.as_good(r, s) by {
        lemma_as_good_transitive(g, r, p, s);
    }
    assert(g.is_best(a, r));
    lemma_best_unique(g, a, p, r);
}

} // verus!
