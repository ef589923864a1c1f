//! What forwarding tables hold, and what changes to them say.

use vstd::prelude::*;

use crate::diff::listed;
use crate::fdb::{
    advertises, advertisers, branch_set, has_receiver, is_fdb_of, is_group_key, last_listing, last_owner, local_receives,
    lookup, multicast_entry, multicast_for, multicast_from, multicast_on, sources_of, tree_key, unicast_for, unicast_on, Fdb,
    MulticastKey, UnicastKey,
};
use crate::laws::naming::{bindings_ordered, group_address_layout};
use crate::laws::region::{
    advertisers_list_isid, bindings_are_listed, isids_are_listed, lemma_bindings_finite, lemma_lists, lemma_lists_on,
    receivers_have_r_bit, transmitters_have_t_bit,
};
use crate::node::NodeId;
use crate::ordmap::{is_ordered, lemma_ordered_exists, ordered, Key};
use crate::topology::{
    bindings, has_role, node_lists, node_lists_on, selected, service_lists, EctVid, IsidBinding, NodeView, Role, Selector,
    ServiceView, TopologyView,
};
use crate::tree::{child_set, leads_up, lies_above, SpbTree, TreeKey};

verus! {

// ===== unicast =====

proof fn lemma_last_owner_highest(view: TopologyView, tree: SpbTree, key: UnicastKey, ids: Seq<NodeId>, n: NodeId)
    requires
        is_ordered(ids),
        ids.contains(n),
        tree.nodes@.contains_key(n),
        advertises(view.nodes@[n].services@, key.base_vid, key.bmac),
    ensures
        last_owner(view, tree, key, ids) is Some,
        n.ordinal() <= last_owner(view, tree, key, ids)->0.ordinal(),
    decreases ids.len(),
{
    let k = choose|k: int| 0 <= k < ids.len() && ids[k] == n;
    let q = ids.drop_last();
    if k == ids.len() - 1 {
    } else {
        assert(q[k] == n);
        assert(is_ordered(q));
        if tree.nodes@.contains_key(ids.last()) && advertises(view.nodes@[ids.last()].services@, key.base_vid, key.bmac) {
            assert(ids[k].ordinal() < ids[ids.len() - 1].ordinal());
        } else {
            lemma_last_owner_highest(view, tree, key, q, n);
        }
    }
}

proof fn lemma_last_owner_is(view: TopologyView, tree: SpbTree, key: UnicastKey, ids: Seq<NodeId>)
    requires
        last_owner(view, tree, key, ids) is Some,
    ensures
        ({
            let n = last_owner(view, tree, key, ids)->0;
            ids.contains(n) && tree.nodes@.contains_key(n) && advertises(view.nodes@[n].services@, key.base_vid, key.bmac)
        }),
    decreases ids.len(),
{
    if tree.nodes@.contains_key(ids.last()) && advertises(view.nodes@[ids.last()].services@, key.base_vid, key.bmac) {
        assert(ids[ids.len() - 1] == ids.last());
    } else {
        let q = ids.drop_last();
        lemma_last_owner_is(view, tree, key, q);
        let n = last_owner(view, tree, key, q)->0;
        let k = choose|k: int| 0 <= k < q.len() && q[k] == n;
        assert(ids[k] == n);
    }
}

/// The tree set that an entry is owed to: the last one of its Base VID whose
/// local tree reaches a node with the address.
proof fn lemma_unicast_tree_set(
    view: TopologyView,
    trees: Map<TreeKey, SpbTree>,
    mt_id: u16,
    ect_vids: Seq<EctVid>,
    key: UnicastKey,
) -> (e: int)
    requires
        unicast_for(view, trees, mt_id, ect_vids, key) is Some,
    ensures
        0 <= e < ect_vids.len(),
        ect_vids[e].base_vid == key.base_vid,
        trees.contains_key(tree_key(mt_id, ect_vids[e], view.local)),
        unicast_on(view, trees[tree_key(mt_id, ect_vids[e], view.local)], ect_vids[e].base_vid, key) == unicast_for(
            view,
            trees,
            mt_id,
            ect_vids,
            key,
        ),
        forall|f: int|
            e < f < ect_vids.len() && trees.contains_key(tree_key(mt_id, #[trigger] ect_vids[f], view.local)) ==> unicast_on(
                view,
                trees[tree_key(mt_id, ect_vids[f], view.local)],
                ect_vids[f].base_vid,
                key,
            ) is None,
    decreases ect_vids.len(),
{
    let last = ect_vids.last();
    let k = tree_key(mt_id, last, view.local);
    if unicast_on(view, trees[k], last.base_vid, key) is Some && trees.contains_key(k) {
        ect_vids.len() - 1
    } else {
        let q = ect_vids.drop_last();
        let e = lemma_unicast_tree_set(view, trees, mt_id, q, key);
        assert forall|f: int|
            e < f < ect_vids.len() && trees.contains_key(tree_key(mt_id, #[trigger] ect_vids[f], view.local)) implies unicast_on(
            view,
            trees[tree_key(mt_id, ect_vids[f], view.local)],
            ect_vids[f].base_vid,
            key,
        ) is None by {
            if f < q.len() {
                assert(q[f] == ect_vids[f]);
            }
        }
        e
    }
}

/// An entry points to a node that advertises the address on the Base VID, by
/// way of what the local tree of a tree set of that Base VID says of the node.
/// Where several nodes on that tree do, it is the one with the highest System
/// ID; where several tree sets lead to one, it is the last of them.
#[verifier::rlimit(40)]
#[verifier::spinoff_prover]
pub proof fn unicast_entry_leads_to_owner(
    fdb: Fdb,
    view: TopologyView,
    trees: Map<TreeKey, SpbTree>,
    mt_id: u16,
    ect_vids: Seq<EctVid>,
    key: UnicastKey,
) -> (e: int)
    requires
        is_fdb_of(fdb@, view, trees, mt_id, ect_vids),
        fdb.unicast@.contains_key(key),
    ensures
        0 <= e < ect_vids.len(),
        ect_vids[e].base_vid == key.base_vid,
        trees.contains_key((TreeKey { mt_id, base_vid: key.base_vid, algorithm: ect_vids[e].algorithm, root: view.local })),
        ({
            let tree = trees[(TreeKey { mt_id, base_vid: key.base_vid, algorithm: ect_vids[e].algorithm, root: view.local })];
            let entry = fdb.unicast@[key];
            let owner = entry.owner;
            &&& view.nodes@.contains_key(owner)
            &&& exists|i: int|
                0 <= i < view.nodes@[owner].services@.len() && (#[trigger] view.nodes@[owner].services@[i]).base_vid
                    == key.base_vid && view.nodes@[owner].services@[i].bmac == key.bmac
            &&& tree.nodes@.contains_key(owner)
            &&& entry.nexthop == tree.nodes@[owner].first_hop
            &&& entry.cost == tree.nodes@[owner].cost
            &&& forall|n: NodeId, i: int|
                view.nodes@.contains_key(n) && tree.nodes@.contains_key(n) && 0 <= i < view.nodes@[n].services@.len() && (
                #[trigger] view.nodes@[n].services@[i]).base_vid == key.base_vid && view.nodes@[n].services@[i].bmac == key.bmac
                    ==> n.ordinal() <= owner.ordinal()
        }),
        forall|f: int, n: NodeId, i: int|
            #![trigger ect_vids[f], view.nodes@[n].services@[i]]
            e < f < ect_vids.len() && ect_vids[f].base_vid == key.base_vid && view.nodes@.contains_key(n) && trees.contains_key(
                (TreeKey { mt_id, base_vid: key.base_vid, algorithm: ect_vids[f].algorithm, root: view.local }),
            ) && 0 <= i < view.nodes@[n].services@.len() && view.nodes@[n].services@[i].base_vid == key.base_vid
                && view.nodes@[n].services@[i].bmac == key.bmac
                ==> !trees[(TreeKey { mt_id, base_vid: key.base_vid, algorithm: ect_vids[f].algorithm, root: view.local })].nodes@.contains_key(
                n,
            ),
{
    assert(fdb@.unicast.contains_key(key));
    assert(fdb@.unicast[key] == fdb.unicast@[key]);
    assert(lookup(fdb@.unicast, key) == Some(fdb.unicast@[key]));
    let e = lemma_unicast_tree_set(view, trees, mt_id, ect_vids, key);
    let tk = TreeKey { mt_id, base_vid: key.base_vid, algorithm: ect_vids[e].algorithm, root: view.local };
    assert(tree_key(mt_id, ect_vids[e], view.local) == tk);
    let tree = trees[tk];
    let ids = ordered(view.nodes@.dom());
    view.nodes.lemma_finite();
    lemma_ordered_exists(view.nodes@.dom());
    lemma_last_owner_is(view, tree, key, ids);
    let owner = fdb.unicast@[key].owner;
    assert(ids.to_set().contains(owner));
    let services = view.nodes@[owner].services@;
    let i = choose|i: int| 0 <= i < services.len() && (#[trigger] services[i]).base_vid == key.base_vid && services[i].bmac == key.bmac;
    assert(view.nodes@[owner].services@[i].base_vid == key.base_vid);
    assert forall|n: NodeId, i: int|
        view.nodes@.contains_key(n) && tree.nodes@.contains_key(n) && 0 <= i < view.nodes@[n].services@.len() && (
        #[trigger] view.nodes@[n].services@[i]).base_vid == key.base_vid && view.nodes@[n].services@[i].bmac == key.bmac
        implies n.ordinal() <= owner.ordinal() by {
        assert(advertises(view.nodes@[n].services@, key.base_vid, key.bmac));
        assert(ids.to_set().contains(n));
        lemma_last_owner_highest(view, tree, key, ids, n);
    }
    assert forall|f: int, n: NodeId, i: int|
        #![trigger ect_vids[f], view.nodes@[n].services@[i]]
        e < f < ect_vids.len() && ect_vids[f].base_vid == key.base_vid && view.nodes@.contains_key(n) && trees.contains_key(
            (TreeKey { mt_id, base_vid: key.base_vid, algorithm: ect_vids[f].algorithm, root: view.local }),
        ) && 0 <= i < view.nodes@[n].services@.len() && view.nodes@[n].services@[i].base_vid == key.base_vid
            && view.nodes@[n].services@[i].bmac == key.bmac
            implies !trees[(TreeKey { mt_id, base_vid: key.base_vid, algorithm: ect_vids[f].algorithm, root: view.local })].nodes@.contains_key(
        n,
    ) by {
        let uk = TreeKey { mt_id, base_vid: key.base_vid, algorithm: ect_vids[f].algorithm, root: view.local };
        assert(tree_key(mt_id, ect_vids[f], view.local) == uk);
        if trees[uk].nodes@.contains_key(n) {
            assert(advertises(view.nodes@[n].services@, key.base_vid, key.bmac));
            assert(ids.to_set().contains(n));
            lemma_last_owner_highest(view, trees[uk], key, ids, n);
        }
    }
    e
}

/// Every address that a node on a local tree advertises for the Base VID of
/// that tree has an entry.
pub proof fn advertised_address_has_entry(
    fdb: Fdb,
    view: TopologyView,
    trees: Map<TreeKey, SpbTree>,
    mt_id: u16,
    ect_vids: Seq<EctVid>,
    e: int,
    owner: NodeId,
    i: int,
)
    requires
        is_fdb_of(fdb@, view, trees, mt_id, ect_vids),
        0 <= e < ect_vids.len(),
        trees.contains_key(
            (TreeKey { mt_id, base_vid: ect_vids[e].base_vid, algorithm: ect_vids[e].algorithm, root: view.local }),
        ),
        trees[(TreeKey {
            mt_id,
            base_vid: ect_vids[e].base_vid,
            algorithm: ect_vids[e].algorithm,
            root: view.local,
        })].nodes@.contains_key(owner),
        view.nodes@.contains_key(owner),
        0 <= i < view.nodes@[owner].services@.len(),
        view.nodes@[owner].services@[i].base_vid == ect_vids[e].base_vid,
    ensures
        fdb.unicast@.contains_key(
            (UnicastKey { base_vid: ect_vids[e].base_vid, bmac: view.nodes@[owner].services@[i].bmac }),
        ),
{
    let key = UnicastKey { base_vid: ect_vids[e].base_vid, bmac: view.nodes@[owner].services@[i].bmac };
    assert(advertises(view.nodes@[owner].services@, key.base_vid, key.bmac));
    crate::fdb::unicast_complete(view, trees, mt_id, ect_vids, key, e, owner);
    assert(lookup(fdb@.unicast, key) is Some);
}

// ===== multicast =====

/// Whether a receiver lies below a child, over parents and R bits.
proof fn lemma_receiver_below(view: TopologyView, tree: SpbTree, isid: u32, base_vid: u16, c: Seq<NodeId>, i: int, j: int)
    requires
        c.len() > 0,
        forall|k: int|
            0 <= k < c.len() - 1 ==> tree.nodes@.contains_key(#[trigger] c[k]) && tree.nodes@[c[k]].parent == Some(c[k + 1]),
        view.nodes@.contains_key(c[0]),
        0 <= i < view.nodes@[c[0]].services@.len(),
        0 <= j < view.nodes@[c[0]].services@[i].isids@.len(),
        view.nodes@[c[0]].services@[i].base_vid == base_vid,
        view.nodes@[c[0]].services@[i].isids@[j].isid == isid,
        view.nodes@[c[0]].services@[i].isids@[j].receive,
    ensures
        has_receiver(view, tree, c.last(), isid, base_vid),
{
    assert(leads_up(tree.nodes@, c));
    assert(lies_above(tree.nodes@, c.last(), c[0]));
    lemma_lists_on(view.nodes@[c[0]], isid, base_vid, Role::Receive);
    assert(view.nodes@[c[0]].services@[i].isids@[j].isid == isid);
    assert(node_lists_on(view.nodes@[c[0]], isid, base_vid, Role::Receive));
}

proof fn lemma_receiver_found(view: TopologyView, tree: SpbTree, isid: u32, base_vid: u16, child: NodeId) -> (r: (Seq<NodeId>, int, int))
    requires
        has_receiver(view, tree, child, isid, base_vid),
    ensures
        ({
            let (c, i, j) = r;
            &&& c.len() > 0
            &&& c.last() == child
            &&& forall|k: int|
                0 <= k < c.len() - 1 ==> tree.nodes@.contains_key(#[trigger] c[k]) && tree.nodes@[c[k]].parent == Some(c[k + 1])
            &&& view.nodes@.contains_key(c[0])
            &&& 0 <= i < view.nodes@[c[0]].services@.len()
            &&& 0 <= j < view.nodes@[c[0]].services@[i].isids@.len()
            &&& view.nodes@[c[0]].services@[i].base_vid == base_vid
            &&& view.nodes@[c[0]].services@[i].isids@[j].isid == isid
            &&& view.nodes@[c[0]].services@[i].isids@[j].receive
        }),
{
    let n = choose|n: NodeId| #[trigger]
        lies_above(tree.nodes@, child, n) && view.nodes@.contains_key(n) && node_lists_on(
            view.nodes@[n],
            isid,
            base_vid,
            Role::Receive,
        );
    let c = choose|c: Seq<NodeId>| #[trigger] leads_up(tree.nodes@, c) && c[0] == n && c.last() == child;
    lemma_lists_on(view.nodes@[n], isid, base_vid, Role::Receive);
    let (i, j) = choose|i: int, j: int|
        0 <= i < view.nodes@[n].services@.len() && 0 <= j < view.nodes@[n].services@[i].isids@.len()
            && view.nodes@[n].services@[i].base_vid == base_vid && (#[trigger] view.nodes@[n].services@[i].isids@[j]).isid == isid
            && has_role(view.nodes@[n].services@[i].isids@[j], Role::Receive);
    (c, i, j)
}

proof fn lemma_from_highest(
    view: TopologyView,
    trees: Map<TreeKey, SpbTree>,
    mt_id: u16,
    ect_vid: EctVid,
    isid: u32,
    sources: Seq<NodeId>,
    key: MulticastKey,
    n: NodeId,
)
    requires
        is_ordered(sources),
        sources.contains(n),
        multicast_entry(view, trees, mt_id, ect_vid, isid, n) is Some,
        is_group_key(view, ect_vid, isid, n, key),
    ensures
        multicast_from(view, trees, mt_id, ect_vid, isid, sources, key) is Some,
        n.ordinal() <= multicast_from(view, trees, mt_id, ect_vid, isid, sources, key)->0.source.ordinal(),
    decreases sources.len(),
{
    let k = choose|k: int| 0 <= k < sources.len() && sources[k] == n;
    let q = sources.drop_last();
    let last = sources.last();
    if k < sources.len() - 1 {
        assert(q[k] == n);
        assert(is_ordered(q));
        if multicast_entry(view, trees, mt_id, ect_vid, isid, last) is Some && is_group_key(view, ect_vid, isid, last, key) {
            assert(sources[k].ordinal() < sources[sources.len() - 1].ordinal());
        } else {
            lemma_from_highest(view, trees, mt_id, ect_vid, isid, q, key, n);
        }
    }
}

proof fn lemma_from_is(
    view: TopologyView,
    trees: Map<TreeKey, SpbTree>,
    mt_id: u16,
    ect_vid: EctVid,
    isid: u32,
    sources: Seq<NodeId>,
    key: MulticastKey,
)
    requires
        multicast_from(view, trees, mt_id, ect_vid, isid, sources, key) is Some,
    ensures
        ({
            let entry = multicast_from(view, trees, mt_id, ect_vid, isid, sources, key)->0;
            &&& sources.contains(entry.source)
            &&& entry.isid == isid
            &&& multicast_entry(view, trees, mt_id, ect_vid, isid, entry.source) == Some(entry)
            &&& is_group_key(view, ect_vid, isid, entry.source, key)
        }),
    decreases sources.len(),
{
    let last = sources.last();
    if multicast_entry(view, trees, mt_id, ect_vid, isid, last) is Some && is_group_key(view, ect_vid, isid, last, key) {
        assert(sources[sources.len() - 1] == last);
    } else {
        let q = sources.drop_last();
        lemma_from_is(view, trees, mt_id, ect_vid, isid, q, key);
        let n = multicast_from(view, trees, mt_id, ect_vid, isid, q, key)->0.source;
        let k = choose|k: int| 0 <= k < q.len() && q[k] == n;
        assert(sources[k] == n);
    }
}

/// The sources of a service are listed once each, in order.
proof fn lemma_sources(view: TopologyView, isid: u32, base_vid: u16)
    ensures
        is_ordered(sources_of(view, isid, base_vid)),
        forall|n: NodeId| #[trigger]
            sources_of(view, isid, base_vid).contains(n) <==> selected(
                view.nodes@,
                Selector::ListsOn(isid, base_vid, Role::Transmit),
            ).contains(n),
{
    let all = selected(view.nodes@, Selector::ListsOn(isid, base_vid, Role::Transmit));
    view.nodes.lemma_finite();
    assert(all.subset_of(view.nodes@.dom()));
    vstd::set_lib::lemma_len_subset(all, view.nodes@.dom());
    lemma_ordered_exists(all);
    let s = sources_of(view, isid, base_vid);
    assert forall|n: NodeId| #[trigger] s.contains(n) <==> all.contains(n) by {
        assert(s.to_set().contains(n) <==> all.contains(n));
    }
}

/// The source and service that an entry on one tree set is owed to come last
/// among those that use the group address.
proof fn lemma_on_is(
    view: TopologyView,
    trees: Map<TreeKey, SpbTree>,
    mt_id: u16,
    ect_vid: EctVid,
    pairs: Seq<IsidBinding>,
    key: MulticastKey,
)
    requires
        is_ordered(pairs),
        multicast_on(view, trees, mt_id, ect_vid, pairs, key) is Some,
    ensures
        ({
            let entry = multicast_on(view, trees, mt_id, ect_vid, pairs, key)->0;
            &&& selected(view.nodes@, Selector::ListsOn(entry.isid, ect_vid.base_vid, Role::Transmit)).contains(entry.source)
            &&& multicast_entry(view, trees, mt_id, ect_vid, entry.isid, entry.source) == Some(entry)
            &&& is_group_key(view, ect_vid, entry.isid, entry.source, key)
            &&& exists|k: int|
                0 <= k < pairs.len() && (#[trigger] pairs[k]).isid == entry.isid && pairs[k].base_vid == ect_vid.base_vid
        }),
    decreases pairs.len(),
{
    let b = pairs.last();
    let sources = sources_of(view, b.isid, b.base_vid);
    let from = multicast_from(view, trees, mt_id, ect_vid, b.isid, sources, key);
    if from is Some && b.base_vid == ect_vid.base_vid {
        lemma_from_is(view, trees, mt_id, ect_vid, b.isid, sources, key);
        lemma_sources(view, b.isid, b.base_vid);
        assert(pairs[pairs.len() - 1] == b);
    } else {
        let q = pairs.drop_last();
        assert(is_ordered(q));
        lemma_on_is(view, trees, mt_id, ect_vid, q, key);
        let entry = multicast_on(view, trees, mt_id, ect_vid, q, key)->0;
        let k = choose|k: int|
            0 <= k < q.len() && (#[trigger] q[k]).isid == entry.isid && q[k].base_vid == ect_vid.base_vid;
        assert(pairs[k] == q[k]);
    }
}

proof fn lemma_on_highest(
    view: TopologyView,
    trees: Map<TreeKey, SpbTree>,
    mt_id: u16,
    ect_vid: EctVid,
    pairs: Seq<IsidBinding>,
    key: MulticastKey,
    k: int,
    n: NodeId,
)
    requires
        is_ordered(pairs),
        0 <= k < pairs.len(),
        pairs[k].base_vid == ect_vid.base_vid,
        selected(view.nodes@, Selector::ListsOn(pairs[k].isid, ect_vid.base_vid, Role::Transmit)).contains(n),
        multicast_entry(view, trees, mt_id, ect_vid, pairs[k].isid, n) is Some,
        is_group_key(view, ect_vid, pairs[k].isid, n, key),
    ensures
        multicast_on(view, trees, mt_id, ect_vid, pairs, key) is Some,
        ({
            let entry = multicast_on(view, trees, mt_id, ect_vid, pairs, key)->0;
            pairs[k].isid < entry.isid || (pairs[k].isid == entry.isid && n.ordinal() <= entry.source.ordinal())
        }),
    decreases pairs.len(),
{
    let b = pairs.last();
    let q = pairs.drop_last();
    let sources = sources_of(view, b.isid, b.base_vid);
    let from = multicast_from(view, trees, mt_id, ect_vid, b.isid, sources, key);
    if k == pairs.len() - 1 {
        lemma_sources(view, b.isid, b.base_vid);
        lemma_from_highest(view, trees, mt_id, ect_vid, b.isid, sources, key, n);
        lemma_from_is(view, trees, mt_id, ect_vid, b.isid, sources, key);
    } else if from is Some && b.base_vid == ect_vid.base_vid {
        lemma_from_is(view, trees, mt_id, ect_vid, b.isid, sources, key);
        assert(pairs[k].ordinal() < pairs[pairs.len() - 1].ordinal());
        bindings_ordered(pairs[k], b);
    } else {
        assert(is_ordered(q));
        assert(q[k] == pairs[k]);
        lemma_on_highest(view, trees, mt_id, ect_vid, q, key, k, n);
    }
}

/// The tree set that an entry is owed to: the last one that has one.
proof fn lemma_multicast_tree_set(
    view: TopologyView,
    trees: Map<TreeKey, SpbTree>,
    mt_id: u16,
    ect_vids: Seq<EctVid>,
    key: MulticastKey,
) -> (e: int)
    requires
        multicast_for(view, trees, mt_id, ect_vids, key) is Some,
    ensures
        0 <= e < ect_vids.len(),
        ect_vids[e].multicast,
        trees.contains_key(tree_key(mt_id, ect_vids[e], view.local)),
        multicast_on(view, trees, mt_id, ect_vids[e], ordered(bindings(view.nodes@)), key) == multicast_for(
            view,
            trees,
            mt_id,
            ect_vids,
            key,
        ),
        forall|f: int|
            e < f < ect_vids.len() && (#[trigger] ect_vids[f]).multicast && trees.contains_key(
                tree_key(mt_id, ect_vids[f], view.local),
            ) ==> multicast_on(view, trees, mt_id, ect_vids[f], ordered(bindings(view.nodes@)), key) is None,
    decreases ect_vids.len(),
{
    let last = ect_vids.last();
    let pairs = ordered(bindings(view.nodes@));
    let k = tree_key(mt_id, last, view.local);
    if multicast_on(view, trees, mt_id, last, pairs, key) is Some && last.multicast && trees.contains_key(k) {
        ect_vids.len() - 1
    } else {
        let q = ect_vids.drop_last();
        let e = lemma_multicast_tree_set(view, trees, mt_id, q, key);
        assert forall|f: int|
            e < f < ect_vids.len() && (#[trigger] ect_vids[f]).multicast && trees.contains_key(
                tree_key(mt_id, ect_vids[f], view.local),
            ) implies multicast_on(view, trees, mt_id, ect_vids[f], pairs, key) is None by {
            if f < q.len() {
                assert(q[f] == ect_vids[f]);
            }
        }
        e
    }
}

proof fn lemma_multicast_found(
    view: TopologyView,
    trees: Map<TreeKey, SpbTree>,
    mt_id: u16,
    ect_vids: Seq<EctVid>,
    key: MulticastKey,
    e: int,
)
    requires
        0 <= e < ect_vids.len(),
        ect_vids[e].multicast,
        trees.contains_key(tree_key(mt_id, ect_vids[e], view.local)),
        multicast_on(view, trees, mt_id, ect_vids[e], ordered(bindings(view.nodes@)), key) is Some,
    ensures
        multicast_for(view, trees, mt_id, ect_vids, key) is Some,
    decreases ect_vids.len(),
{
    if e < ect_vids.len() - 1 {
        assert(ect_vids.drop_last()[e] == ect_vids[e]);
        lemma_multicast_found(view, trees, mt_id, ect_vids.drop_last(), key, e);
    }
}

/// A source that transmits into a service on a Base VID has its binding listed.
proof fn lemma_source_binding(view: TopologyView, isid: u32, base_vid: u16, n: NodeId) -> (k: int)
    requires
        selected(view.nodes@, Selector::ListsOn(isid, base_vid, Role::Transmit)).contains(n),
    ensures
        is_ordered(ordered(bindings(view.nodes@))),
        0 <= k < ordered(bindings(view.nodes@)).len(),
        ordered(bindings(view.nodes@))[k] == (IsidBinding { isid, base_vid }),
{
    let b = IsidBinding { isid, base_vid };
    lemma_lists_on(view.nodes@[n], isid, base_vid, Role::Transmit);
    let (i, j) = choose|i: int, j: int|
        0 <= i < view.nodes@[n].services@.len() && 0 <= j < view.nodes@[n].services@[i].isids@.len()
            && view.nodes@[n].services@[i].base_vid == base_vid && (#[trigger] view.nodes@[n].services@[i].isids@[j]).isid == isid
            && has_role(view.nodes@[n].services@[i].isids@[j], Role::Transmit);
    bindings_are_listed(view.nodes@, b);
    assert(view.nodes@[n].services@[i].isids@[j].isid == b.isid);
    assert(bindings(view.nodes@).contains(b));
    lemma_bindings_finite(bindings(view.nodes@));
    lemma_ordered_exists(bindings(view.nodes@));
    let pairs = ordered(bindings(view.nodes@));
    assert(pairs.to_set().contains(b));
    choose|k: int| 0 <= k < pairs.len() && pairs[k] == b
}

/// A multicast entry is owed to a source that transmits into the service on
/// the Base VID of the entry, and whose tree the local node is on. Copies are
/// delivered locally when the local node receives the service on that Base VID.
/// They go to a child of the local node just when a node with the R bit has a
/// chain of parents that leads through that child.
///
/// Where several sources or services share the group address, the last tree
/// set, then the highest I-SID, then the highest System ID prevails.
#[verifier::rlimit(40)]
#[verifier::spinoff_prover]
pub proof fn multicast_entry_serves_receivers(
    fdb: Fdb,
    view: TopologyView,
    trees: Map<TreeKey, SpbTree>,
    mt_id: u16,
    ect_vids: Seq<EctVid>,
    key: MulticastKey,
) -> (e: int)
    requires
        is_fdb_of(fdb@, view, trees, mt_id, ect_vids),
        fdb.multicast@.contains_key(key),
    ensures
        0 <= e < ect_vids.len(),
        ect_vids[e].base_vid == key.base_vid,
        ect_vids[e].multicast,
        trees.contains_key((TreeKey { mt_id, base_vid: key.base_vid, algorithm: ect_vids[e].algorithm, root: view.local })),
        ({
            let entry = fdb.multicast@[key];
            let source = entry.source;
            let tk = TreeKey { mt_id, base_vid: key.base_vid, algorithm: ect_vids[e].algorithm, root: source };
            let tree = trees[tk];
            &&& view.nodes@.contains_key(source)
            &&& exists|i: int, j: int|
                0 <= i < view.nodes@[source].services@.len() && 0 <= j < view.nodes@[source].services@[i].isids@.len()
                    && view.nodes@[source].services@[i].base_vid == key.base_vid && (
                #[trigger] view.nodes@[source].services@[i].isids@[j]).isid == entry.isid
                    && view.nodes@[source].services@[i].isids@[j].transmit
            &&& key.group_bmac@[0] == 3 + 0x10 * (view.nodes@[source].spsource_id as int / 0x1_0000 % 0x10)
            &&& key.group_bmac@[1] == view.nodes@[source].spsource_id as int / 0x100 % 0x100
            &&& key.group_bmac@[2] == view.nodes@[source].spsource_id as int % 0x100
            &&& key.group_bmac@[3] == entry.isid as int / 0x1_0000 % 0x100
            &&& key.group_bmac@[4] == entry.isid as int / 0x100 % 0x100
            &&& key.group_bmac@[5] == entry.isid as int % 0x100
            &&& trees.contains_key(tk)
            &&& tree.nodes@.contains_key(view.local)
            &&& entry.local_deliver <==> view.nodes@.contains_key(view.local) && exists|i: int, j: int|
                0 <= i < view.nodes@[view.local].services@.len() && 0 <= j < view.nodes@[view.local].services@[i].isids@.len()
                    && view.nodes@[view.local].services@[i].base_vid == key.base_vid && (
                #[trigger] view.nodes@[view.local].services@[i].isids@[j]).isid == entry.isid
                    && view.nodes@[view.local].services@[i].isids@[j].receive
            &&& forall|c: Seq<NodeId>, i: int, j: int|
                {
                    &&& c.len() > 0
                    &&& forall|k: int|
                        0 <= k < c.len() - 1 ==> tree.nodes@.contains_key(#[trigger] c[k]) && tree.nodes@[c[k]].parent == Some(
                            c[k + 1],
                        )
                    &&& tree.nodes@.contains_key(c.last())
                    &&& tree.nodes@[c.last()].parent == Some(view.local)
                    &&& view.nodes@.contains_key(c[0])
                    &&& 0 <= i < view.nodes@[c[0]].services@.len()
                    &&& 0 <= j < view.nodes@[c[0]].services@[i].isids@.len()
                    &&& view.nodes@[c[0]].services@[i].base_vid == key.base_vid
                    &&& (#[trigger] view.nodes@[c[0]].services@[i].isids@[j]).isid == entry.isid
                    &&& view.nodes@[c[0]].services@[i].isids@[j].receive
                } ==> entry.branches@.contains(c.last())
            &&& forall|child: NodeId| #[trigger]
                entry.branches@.contains(child) ==> tree.nodes@.contains_key(child) && tree.nodes@[child].parent == Some(
                    view.local,
                ) && exists|c: Seq<NodeId>, i: int, j: int|
                    {
                        &&& c.len() > 0
                        &&& c.last() == child
                        &&& forall|k: int|
                            0 <= k < c.len() - 1 ==> tree.nodes@.contains_key(#[trigger] c[k]) && tree.nodes@[c[k]].parent
                                == Some(c[k + 1])
                        &&& view.nodes@.contains_key(c[0])
                        &&& 0 <= i < view.nodes@[c[0]].services@.len()
                        &&& 0 <= j < view.nodes@[c[0]].services@[i].isids@.len()
                        &&& view.nodes@[c[0]].services@[i].base_vid == key.base_vid
                        &&& (#[trigger] view.nodes@[c[0]].services@[i].isids@[j]).isid == entry.isid
                        &&& view.nodes@[c[0]].services@[i].isids@[j].receive
                    }
            &&& entry.local_deliver || exists|child: NodeId| entry.branches@.contains(child)
            &&& forall|f: int, isid: u32, n: NodeId|
                #![trigger multicast_entry(view, trees, mt_id, ect_vids[f], isid, n)]
                {
                    &&& 0 <= f < ect_vids.len()
                    &&& ect_vids[f].multicast
                    &&& trees.contains_key(
                        (TreeKey {
                            mt_id,
                            base_vid: ect_vids[f].base_vid,
                            algorithm: ect_vids[f].algorithm,
                            root: view.local,
                        }),
                    )
                    &&& selected(view.nodes@, Selector::ListsOn(isid, ect_vids[f].base_vid, Role::Transmit)).contains(n)
                    &&& multicast_entry(view, trees, mt_id, ect_vids[f], isid, n) is Some
                    &&& is_group_key(view, ect_vids[f], isid, n, key)
                } ==> f < e || (f == e && (isid < entry.isid || (isid == entry.isid && n.ordinal() <= source.ordinal())))
        }),
{
    let entry = fdb.multicast@[key];
    assert(fdb@.multicast.contains_key(key));
    assert(fdb@.multicast[key] == entry@);
    assert(lookup(fdb@.multicast, key) == Some(entry@));
    let e = lemma_multicast_tree_set(view, trees, mt_id, ect_vids, key);
    let pairs = ordered(bindings(view.nodes@));
    lemma_bindings_finite(bindings(view.nodes@));
    lemma_ordered_exists(bindings(view.nodes@));
    lemma_on_is(view, trees, mt_id, ect_vids[e], pairs, key);
    let source = entry.source;
    let tk = TreeKey { mt_id, base_vid: key.base_vid, algorithm: ect_vids[e].algorithm, root: source };
    let tree = trees[tk];
    assert(tree_key(mt_id, ect_vids[e], source) == tk);
    assert(tree_key(mt_id, ect_vids[e], view.local) == (TreeKey {
        mt_id,
        base_vid: key.base_vid,
        algorithm: ect_vids[e].algorithm,
        root: view.local,
    }));
    transmitters_have_t_bit(view.nodes@, source, entry.isid, key.base_vid);
    receivers_have_r_bit(view.nodes@, view.local, entry.isid, key.base_vid);
    group_address_layout(view.nodes@[source].spsource_id, entry.isid);
    assert(entry.branches@ == branch_set(view, tree, entry.isid, key.base_vid));
    assert(entry.local_deliver == local_receives(view, entry.isid, key.base_vid));
    assert(entry.local_deliver == selected(view.nodes@, Selector::ListsOn(entry.isid, key.base_vid, Role::Receive)).contains(
        view.local,
    ));
    assert forall|c: Seq<NodeId>, i: int, j: int|
        {
            &&& c.len() > 0
            &&& forall|k: int|
                0 <= k < c.len() - 1 ==> tree.nodes@.contains_key(#[trigger] c[k]) && tree.nodes@[c[k]].parent == Some(c[k + 1])
            &&& tree.nodes@.contains_key(c.last())
            &&& tree.nodes@[c.last()].parent == Some(view.local)
            &&& view.nodes@.contains_key(c[0])
            &&& 0 <= i < view.nodes@[c[0]].services@.len()
            &&& 0 <= j < view.nodes@[c[0]].services@[i].isids@.len()
            &&& view.nodes@[c[0]].services@[i].base_vid == key.base_vid
            &&& (#[trigger] view.nodes@[c[0]].services@[i].isids@[j]).isid == entry.isid
            &&& view.nodes@[c[0]].services@[i].isids@[j].receive
        } implies entry.branches@.contains(c.last()) by {
        lemma_receiver_below(view, tree, entry.isid, key.base_vid, c, i, j);
        assert(child_set(tree.nodes@, view.local).contains(c.last()));
    }
    assert forall|child: NodeId| #[trigger] entry.branches@.contains(child) implies tree.nodes@.contains_key(child)
        && tree.nodes@[child].parent == Some(view.local) && exists|c: Seq<NodeId>, i: int, j: int|
        {
            &&& c.len() > 0
            &&& c.last() == child
            &&& forall|k: int|
                0 <= k < c.len() - 1 ==> tree.nodes@.contains_key(#[trigger] c[k]) && tree.nodes@[c[k]].parent == Some(c[k + 1])
            &&& view.nodes@.contains_key(c[0])
            &&& 0 <= i < view.nodes@[c[0]].services@.len()
            &&& 0 <= j < view.nodes@[c[0]].services@[i].isids@.len()
            &&& view.nodes@[c[0]].services@[i].base_vid == key.base_vid
            &&& (#[trigger] view.nodes@[c[0]].services@[i].isids@[j]).isid == entry.isid
            &&& view.nodes@[c[0]].services@[i].isids@[j].receive
        } by {
        assert(child_set(tree.nodes@, view.local).contains(child));
        let (c, i, j) = lemma_receiver_found(view, tree, entry.isid, key.base_vid, child);
        assert(view.nodes@[c[0]].services@[i].isids@[j].isid == entry.isid);
    }
    if !entry.local_deliver {
        assert(entry.branches@ != Set::<NodeId>::empty());
        assert(exists|child: NodeId| entry.branches@.contains(child)) by {
            if forall|child: NodeId| !entry.branches@.contains(child) {
                assert(entry.branches@ =~= Set::empty());
            }
        }
    }
    assert forall|f: int, isid: u32, n: NodeId|
        #![trigger multicast_entry(view, trees, mt_id, ect_vids[f], isid, n)]
        {
            &&& 0 <= f < ect_vids.len()
            &&& ect_vids[f].multicast
            &&& trees.contains_key(
                (TreeKey { mt_id, base_vid: ect_vids[f].base_vid, algorithm: ect_vids[f].algorithm, root: view.local }),
            )
            &&& selected(view.nodes@, Selector::ListsOn(isid, ect_vids[f].base_vid, Role::Transmit)).contains(n)
            &&& multicast_entry(view, trees, mt_id, ect_vids[f], isid, n) is Some
            &&& is_group_key(view, ect_vids[f], isid, n, key)
        } implies f < e || (f == e && (isid < entry.isid || (isid == entry.isid && n.ordinal() <= source.ordinal()))) by {
        let k = lemma_source_binding(view, isid, ect_vids[f].base_vid, n);
        lemma_on_highest(view, trees, mt_id, ect_vids[f], pairs, key, k, n);
        assert(tree_key(mt_id, ect_vids[f], view.local) == (TreeKey {
            mt_id,
            base_vid: ect_vids[f].base_vid,
            algorithm: ect_vids[f].algorithm,
            root: view.local,
        }));
    }
    e
}

/// The local node holds an entry for a source's tree when it is on that tree
/// and it receives the service itself, or a node with the R bit has a chain of
/// parents that leads to it.
#[verifier::rlimit(40)]
#[verifier::spinoff_prover]
pub proof fn receiver_calls_for_entry(
    fdb: Fdb,
    view: TopologyView,
    trees: Map<TreeKey, SpbTree>,
    mt_id: u16,
    ect_vids: Seq<EctVid>,
    e: int,
    source: NodeId,
    isid: u32,
    key: MulticastKey,
    c: Seq<NodeId>,
    i: int,
    j: int,
)
    requires
        is_fdb_of(fdb@, view, trees, mt_id, ect_vids),
        0 <= e < ect_vids.len(),
        ect_vids[e].multicast,
        ect_vids[e].base_vid == key.base_vid,
        trees.contains_key((TreeKey { mt_id, base_vid: key.base_vid, algorithm: ect_vids[e].algorithm, root: view.local })),
        view.nodes@.contains_key(source),
        exists|i: int, j: int|
            0 <= i < view.nodes@[source].services@.len() && 0 <= j < view.nodes@[source].services@[i].isids@.len()
                && view.nodes@[source].services@[i].base_vid == key.base_vid && (
            #[trigger] view.nodes@[source].services@[i].isids@[j]).isid == isid
                && view.nodes@[source].services@[i].isids@[j].transmit,
        key.group_bmac@[0] == 3 + 0x10 * (view.nodes@[source].spsource_id as int / 0x1_0000 % 0x10),
        key.group_bmac@[1] == view.nodes@[source].spsource_id as int / 0x100 % 0x100,
        key.group_bmac@[2] == view.nodes@[source].spsource_id as int % 0x100,
        key.group_bmac@[3] == isid as int / 0x1_0000 % 0x100,
        key.group_bmac@[4] == isid as int / 0x100 % 0x100,
        key.group_bmac@[5] == isid as int % 0x100,
        trees.contains_key((TreeKey { mt_id, base_vid: key.base_vid, algorithm: ect_vids[e].algorithm, root: source })),
        ({
            let tree = trees[(TreeKey { mt_id, base_vid: key.base_vid, algorithm: ect_vids[e].algorithm, root: source })];
            &&& tree.nodes@.contains_key(view.local)
            &&& c.len() > 0
            &&& c.last() == view.local
            &&& forall|k: int|
                0 <= k < c.len() - 1 ==> tree.nodes@.contains_key(#[trigger] c[k]) && tree.nodes@[c[k]].parent == Some(c[k + 1])
        }),
        view.nodes@.contains_key(c[0]),
        0 <= i < view.nodes@[c[0]].services@.len(),
        0 <= j < view.nodes@[c[0]].services@[i].isids@.len(),
        view.nodes@[c[0]].services@[i].base_vid == key.base_vid,
        view.nodes@[c[0]].services@[i].isids@[j].isid == isid,
        view.nodes@[c[0]].services@[i].isids@[j].receive,
    ensures
        fdb.multicast@.contains_key(key),
{
    let tk = TreeKey { mt_id, base_vid: key.base_vid, algorithm: ect_vids[e].algorithm, root: source };
    let tree = trees[tk];
    assert(tree_key(mt_id, ect_vids[e], source) == tk);
    assert(tree_key(mt_id, ect_vids[e], view.local) == (TreeKey {
        mt_id,
        base_vid: key.base_vid,
        algorithm: ect_vids[e].algorithm,
        root: view.local,
    }));
    transmitters_have_t_bit(view.nodes@, source, isid, key.base_vid);
    crate::mac::lemma_mac_ordinal_bound(key.group_bmac);
    group_address_layout(view.nodes@[source].spsource_id, isid);
    assert(key.group_bmac@ =~= crate::mcast::group_bytes(view.nodes@[source].spsource_id, isid));
    assert(is_group_key(view, ect_vids[e], isid, source, key));
    if c.len() == 1 {
        receivers_have_r_bit(view.nodes@, view.local, isid, key.base_vid);
        assert(view.nodes@[view.local].services@[i].isids@[j].isid == isid);
        assert(local_receives(view, isid, key.base_vid));
    } else {
        let d = c.drop_last();
        let child = d.last();
        assert(c[c.len() - 2] == child);
        assert(tree.nodes@[child].parent == Some(view.local));
        assert forall|k: int| 0 <= k < d.len() - 1 implies tree.nodes@.contains_key(#[trigger] d[k]) && tree.nodes@[d[k]].parent
            == Some(d[k + 1]) by {
            assert(c[k] == d[k]);
            assert(c[k + 1] == d[k + 1]);
        }
        assert(d[0] == c[0]);
        lemma_receiver_below(view, tree, isid, key.base_vid, d, i, j);
        assert(branch_set(view, tree, isid, key.base_vid).contains(child));
    }
    assert(multicast_entry(view, trees, mt_id, ect_vids[e], isid, source) is Some);
    let pairs = ordered(bindings(view.nodes@));
    let k = lemma_source_binding(view, isid, key.base_vid, source);
    lemma_on_highest(view, trees, mt_id, ect_vids[e], pairs, key, k, source);
    lemma_multicast_found(view, trees, mt_id, ect_vids, key, e);
    assert(lookup(fdb@.multicast, key) is Some);
}

// ===== services =====

/// The last service that lists an I-SID.
proof fn lemma_last_listing(services: Seq<ServiceView>, isid: u32)
    ensures
        last_listing(services, isid) is Some <==> exists|i: int|
            0 <= i < services.len() && service_lists(#[trigger] services[i], isid, Role::Any),
        last_listing(services, isid) is Some ==> exists|i: int|
            {
                &&& 0 <= i < services.len()
                &&& last_listing(services, isid) == Some(#[trigger] services[i])
                &&& service_lists(services[i], isid, Role::Any)
                &&& forall|k: int| i < k < services.len() ==> !service_lists(#[trigger] services[k], isid, Role::Any)
            },
    decreases services.len(),
{
    if services.len() > 0 {
        let q = services.drop_last();
        lemma_last_listing(q, isid);
        assert(forall|k: int| 0 <= k < q.len() ==> q[k] == #[trigger] services[k]);
        if service_lists(services.last(), isid, Role::Any) {
            assert(services[services.len() - 1] == services.last());
        } else if last_listing(q, isid) is Some {
            let i = choose|i: int|
                {
                    &&& 0 <= i < q.len()
                    &&& last_listing(q, isid) == Some(#[trigger] q[i])
                    &&& service_lists(q[i], isid, Role::Any)
                    &&& forall|k: int| i < k < q.len() ==> !service_lists(#[trigger] q[k], isid, Role::Any)
                };
            assert(services[i] == q[i]);
            assert forall|k: int| i < k < services.len() implies !service_lists(#[trigger] services[k], isid, Role::Any) by {
                if k < q.len() {
                    assert(q[k] == services[k]);
                }
            }
        } else {
            assert forall|i: int| 0 <= i < services.len() implies !service_lists(#[trigger] services[i], isid, Role::Any) by {
                if i < q.len() {
                    assert(q[i] == services[i]);
                }
            }
        }
    }
}

/// The service of a node that lists an I-SID last, over its memberships.
proof fn lemma_last_lister(node: NodeView, isid: u32) -> (i: int)
    requires
        node_lists(node, isid, Role::Any),
    ensures
        0 <= i < node.services@.len(),
        last_listing(node.services@, isid) == Some(node.services@[i]),
        exists|j: int| 0 <= j < node.services@[i].isids@.len() && (#[trigger] node.services@[i].isids@[j]).isid == isid,
        forall|k: int, j: int|
            i < k < node.services@.len() && 0 <= j < node.services@[k].isids@.len() ==> (
            #[trigger] node.services@[k].isids@[j]).isid != isid,
{
    let services = node.services@;
    lemma_last_listing(services, isid);
    let i = choose|i: int|
        {
            &&& 0 <= i < services.len()
            &&& last_listing(services, isid) == Some(#[trigger] services[i])
            &&& service_lists(services[i], isid, Role::Any)
            &&& forall|k: int| i < k < services.len() ==> !service_lists(#[trigger] services[k], isid, Role::Any)
        };
    let svc = services[i];
    let j = choose|j: int| 0 <= j < svc.isids@.len() && (#[trigger] svc.isids@[j]).isid == isid && has_role(svc.isids@[j], Role::Any);
    assert(node.services@[i].isids@[j].isid == isid);
    assert forall|k: int, j: int| i < k < node.services@.len() && 0 <= j < node.services@[k].isids@.len() implies (
    #[trigger] node.services@[k].isids@[j]).isid != isid by {
        assert(!service_lists(services[k], isid, Role::Any));
    }
    i
}

/// The tables have an entry for each I-SID that some node lists, and no other.
pub proof fn services_are_those_listed(
    fdb: Fdb,
    view: TopologyView,
    trees: Map<TreeKey, SpbTree>,
    mt_id: u16,
    ect_vids: Seq<EctVid>,
    isid: u32,
)
    requires
        is_fdb_of(fdb@, view, trees, mt_id, ect_vids),
    ensures
        fdb.services@.contains_key(isid) <==> exists|id: NodeId, i: int, j: int|
            view.nodes@.contains_key(id) && 0 <= i < view.nodes@[id].services@.len() && 0 <= j
                < view.nodes@[id].services@[i].isids@.len() && (#[trigger] view.nodes@[id].services@[i].isids@[j]).isid == isid,
{
    isids_are_listed(view.nodes@, isid);
    assert(fdb@.services.dom().contains(isid) <==> fdb.services@.dom().contains(isid));
}

/// The transmit bit of a service is set just when the local node lists the
/// I-SID with the T bit, and the receive bit just when it lists it with the R
/// bit, in a service of any Base VID.
pub proof fn service_bits_are_those_of_local_node(
    fdb: Fdb,
    view: TopologyView,
    trees: Map<TreeKey, SpbTree>,
    mt_id: u16,
    ect_vids: Seq<EctVid>,
    isid: u32,
)
    requires
        is_fdb_of(fdb@, view, trees, mt_id, ect_vids),
        fdb.services@.contains_key(isid),
    ensures
        fdb.services@[isid].transmit <==> view.nodes@.contains_key(view.local) && exists|i: int, j: int|
            0 <= i < view.nodes@[view.local].services@.len() && 0 <= j < view.nodes@[view.local].services@[i].isids@.len() && (
            #[trigger] view.nodes@[view.local].services@[i].isids@[j]).isid == isid
                && view.nodes@[view.local].services@[i].isids@[j].transmit,
        fdb.services@[isid].receive <==> view.nodes@.contains_key(view.local) && exists|i: int, j: int|
            0 <= i < view.nodes@[view.local].services@.len() && 0 <= j < view.nodes@[view.local].services@[i].isids@.len() && (
            #[trigger] view.nodes@[view.local].services@[i].isids@[j]).isid == isid
                && view.nodes@[view.local].services@[i].isids@[j].receive,
{
    assert(fdb@.services.contains_key(isid));
    assert(fdb@.services[isid] == fdb.services@[isid]@);
    lemma_lists(view.nodes@[view.local], isid, Role::Transmit);
    lemma_lists(view.nodes@[view.local], isid, Role::Receive);
}

/// The members of a service are the other nodes that list the I-SID, each with
/// the address of the last of its services to do so.
pub proof fn service_members_are_other_advertisers(
    fdb: Fdb,
    view: TopologyView,
    trees: Map<TreeKey, SpbTree>,
    mt_id: u16,
    ect_vids: Seq<EctVid>,
    isid: u32,
    n: NodeId,
)
    requires
        is_fdb_of(fdb@, view, trees, mt_id, ect_vids),
        fdb.services@.contains_key(isid),
    ensures
        fdb.services@[isid].members@.contains_key(n) <==> n != view.local && view.nodes@.contains_key(n) && exists|i: int, j: int|
            0 <= i < view.nodes@[n].services@.len() && 0 <= j < view.nodes@[n].services@[i].isids@.len() && (
            #[trigger] view.nodes@[n].services@[i].isids@[j]).isid == isid,
        fdb.services@[isid].members@.contains_key(n) ==> exists|i: int|
            {
                &&& 0 <= i < view.nodes@[n].services@.len()
                &&& fdb.services@[isid].members@[n] == (#[trigger] view.nodes@[n].services@[i]).bmac
                &&& exists|j: int|
                    0 <= j < view.nodes@[n].services@[i].isids@.len() && (#[trigger] view.nodes@[n].services@[i].isids@[j]).isid
                        == isid
                &&& forall|k: int, j: int|
                    i < k < view.nodes@[n].services@.len() && 0 <= j < view.nodes@[n].services@[k].isids@.len() ==> (
                    #[trigger] view.nodes@[n].services@[k].isids@[j]).isid != isid
            },
{
    assert(fdb@.services.contains_key(isid));
    assert(fdb@.services[isid] == fdb.services@[isid]@);
    lemma_lists(view.nodes@[n], isid, Role::Any);
    if fdb.services@[isid].members@.contains_key(n) {
        let i = lemma_last_lister(view.nodes@[n], isid);
        assert(fdb.services@[isid].members@[n] == view.nodes@[n].services@[i].bmac);
    }
}

/// A service has the Base VID of the last service to list it, of the node with
/// the highest System ID among those that do.
pub proof fn service_base_vid_is_last_listed(
    fdb: Fdb,
    view: TopologyView,
    trees: Map<TreeKey, SpbTree>,
    mt_id: u16,
    ect_vids: Seq<EctVid>,
    isid: u32,
) -> (r: (NodeId, int))
    requires
        is_fdb_of(fdb@, view, trees, mt_id, ect_vids),
        fdb.services@.contains_key(isid),
    ensures
        ({
            let (n, i) = r;
            &&& view.nodes@.contains_key(n)
            &&& 0 <= i < view.nodes@[n].services@.len()
            &&& fdb.services@[isid].base_vid == view.nodes@[n].services@[i].base_vid
            &&& exists|j: int|
                0 <= j < view.nodes@[n].services@[i].isids@.len() && (#[trigger] view.nodes@[n].services@[i].isids@[j]).isid == isid
            &&& forall|k: int, j: int|
                i < k < view.nodes@[n].services@.len() && 0 <= j < view.nodes@[n].services@[k].isids@.len() ==> (
                #[trigger] view.nodes@[n].services@[k].isids@[j]).isid != isid
            &&& forall|m: NodeId, k: int, j: int|
                view.nodes@.contains_key(m) && 0 <= k < view.nodes@[m].services@.len() && 0 <= j
                    < view.nodes@[m].services@[k].isids@.len() && (#[trigger] view.nodes@[m].services@[k].isids@[j]).isid == isid
                    ==> m.ordinal() <= n.ordinal()
        }),
{
    assert(fdb@.services.contains_key(isid));
    assert(fdb@.services[isid] == fdb.services@[isid]@);
    let all = selected(view.nodes@, Selector::Lists(isid, Role::Any));
    view.nodes.lemma_finite();
    assert(all.subset_of(view.nodes@.dom()));
    vstd::set_lib::lemma_len_subset(all, view.nodes@.dom());
    lemma_ordered_exists(all);
    let ids = advertisers(view, isid);
    let id = choose|id: NodeId| #[trigger] view.nodes@.contains_key(id) && node_lists(view.nodes@[id], isid, Role::Any);
    assert(all.contains(id));
    assert(ids.to_set().contains(id));
    assert(ids.len() > 0);
    let n = ids.last();
    assert(ids[ids.len() - 1] == n);
    assert(ids.to_set().contains(n));
    assert(all.contains(n));
    let i = lemma_last_lister(view.nodes@[n], isid);
    assert forall|m: NodeId, k: int, j: int|
        view.nodes@.contains_key(m) && 0 <= k < view.nodes@[m].services@.len() && 0 <= j < view.nodes@[m].services@[k].isids@.len()
            && (#[trigger] view.nodes@[m].services@[k].isids@[j]).isid == isid implies m.ordinal() <= n.ordinal() by {
        advertisers_list_isid(view.nodes@, m, isid);
        assert(all.contains(m));
        assert(ids.to_set().contains(m));
        let x = choose|x: int| 0 <= x < ids.len() && ids[x] == m;
        if x < ids.len() - 1 {
            assert(ids[x].ordinal() < ids[ids.len() - 1].ordinal());
        }
    }
    (n, i)
}

} // verus!
