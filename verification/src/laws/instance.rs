//! What an instance makes of its trees, its neighbours and its interfaces.

use vstd::prelude::*;
use vstd::string::StringSliceAdditionalSpecFns;

use crate::dataplane::{views, DataplaneUpdate};
use crate::diff::contents;
use crate::digest::{agreement_between, digest_input, hmac_sha256, Agreement, LocalAgreement, NeighborAgreement, RootKey};
use crate::fdb::{delta_between, is_fdb_of, lookup, snapshot_of, Fdb, FdbState, MulticastKey, UnicastKey};
use crate::isis::{
    all_agree, all_disagreements, backbone_names, configured_ect_vids, delivers, distance, has_recorded, has_say, hello_senders, held_roots,
    interface_agrees, interface_disagreements, is_view_of, names_nexthops, names_ports, nexthop_name, nodal_bmac, port_names,
    programmable, reaches, recomputes, unsettled_roots, Lsp, SpbConfig, SpbInterface, SpbInterfaceRole, SpbServiceKey,
    SpbState,
};
use crate::node::{lemma_node_of, NodeId};
use crate::ordmap::{lemma_ordered_exists, ordered, Key};
use crate::region::region_in;
use crate::tree::{is_tree_of, kept_keys, kept_keys_bounded, no_tree_skipped_within_bound, root_set, wanted_keys, SpbTree, TreeKey};

verus! {

// ===== unsettled trees =====

/// A root is unsettled when one of its trees is new, or has the local node at
/// another cost than before, or has gained or lost it.
pub proof fn roots_unsettled_by_distance(trees: Map<TreeKey, SpbTree>, previous: Map<TreeKey, SpbTree>, local: NodeId, r: RootKey)
    ensures
        unsettled_roots(trees, previous, local).contains(r) <==> exists|key: TreeKey|
            {
                let reached = trees[key].nodes@.contains_key(local);
                let was_reached = previous.contains_key(key) && previous[key].nodes@.contains_key(local);
                &&& #[trigger] trees.contains_key(key)
                &&& key.base_vid == r.base_vid
                &&& key.root == r.root
                &&& reached != was_reached || (reached && trees[key].nodes@[local].cost != previous[key].nodes@[local].cost)
            },
{
    if unsettled_roots(trees, previous, local).contains(r) {
        let key = choose|key: TreeKey| #[trigger]
            trees.contains_key(key) && key.base_vid == r.base_vid && key.root == r.root && distance(trees, key, local) != distance(
                previous,
                key,
                local,
            );
        assert(trees.contains_key(key));
    }
    if exists|key: TreeKey|
        {
            let reached = trees[key].nodes@.contains_key(local);
            let was_reached = previous.contains_key(key) && previous[key].nodes@.contains_key(local);
            &&& #[trigger] trees.contains_key(key)
            &&& key.base_vid == r.base_vid
            &&& key.root == r.root
            &&& reached != was_reached || (reached && trees[key].nodes@[local].cost != previous[key].nodes@[local].cost)
        } {
        let key = choose|key: TreeKey|
            {
                let reached = trees[key].nodes@.contains_key(local);
                let was_reached = previous.contains_key(key) && previous[key].nodes@.contains_key(local);
                &&& #[trigger] trees.contains_key(key)
                &&& key.base_vid == r.base_vid
                &&& key.root == r.root
                &&& reached != was_reached || (reached && trees[key].nodes@[local].cost != previous[key].nodes@[local].cost)
            };
        assert(distance(trees, key, local) != distance(previous, key, local));
    }
}

/// Until there is agreement, what was held back stays so and what has changed
/// joins it. With agreement, nothing is held back.
pub proof fn held_until_agreement(changed: Set<RootKey>, held: Set<RootKey>, r: RootKey)
    ensures
        !held_roots(changed, held, true).contains(r),
        held_roots(changed, held, false).contains(r) <==> changed.contains(r) || held.contains(r),
{
}

/// Without agreement, the multicast entries of held roots are withheld, and
/// nothing else is: all unicast entries, services and other multicast entries
/// are programmed as they are. With agreement, everything is.
pub proof fn only_held_multicast_is_withheld(full: Fdb, kept: Fdb, roots: Set<RootKey>, agreed: bool, key: MulticastKey)
    requires
        kept@ == programmable(full@, roots, agreed),
    ensures
        kept.unicast@ == full.unicast@,
        forall|isid: u32| #[trigger]
            kept.services@.contains_key(isid) <==> full.services@.contains_key(isid),
        forall|isid: u32| #[trigger]
            kept.services@.contains_key(isid) ==> kept.services@[isid]@ == full.services@[isid]@,
        kept.multicast@.contains_key(key) <==> full.multicast@.contains_key(key) && (agreed || !roots.contains(
            (RootKey { base_vid: key.base_vid, root: full.multicast@[key].source }),
        )),
        kept.multicast@.contains_key(key) ==> kept.multicast@[key]@ == full.multicast@[key]@,
{
    assert(kept@.unicast =~= kept.unicast@);
    assert(full@.unicast =~= full.unicast@);
    assert forall|isid: u32| #[trigger] kept.services@.contains_key(isid) <==> full.services@.contains_key(isid) by {
        assert(kept@.services.contains_key(isid) <==> full@.services.contains_key(isid));
    }
    assert forall|isid: u32| #[trigger] kept.services@.contains_key(isid) implies kept.services@[isid]@ == full.services@[isid]@ by {
        assert(kept@.services[isid] == full@.services[isid]);
        assert(full.services@.contains_key(isid));
    }
    assert(kept@.multicast.contains_key(key) <==> kept.multicast@.contains_key(key));
    assert(full@.multicast.contains_key(key) <==> full.multicast@.contains_key(key));
    assert(full.multicast@.contains_key(key) ==> full@.multicast[key] == full.multicast@[key]@);
    assert(kept.multicast@.contains_key(key) ==> kept@.multicast[key] == kept.multicast@[key]@);
}

// ===== agreement =====

/// The verdict on a neighbour: nothing received, one side not valid, digests
/// that differ, or agreement, the first of these that applies.
pub proof fn verdict_by_digests(local: LocalAgreement, neighbor: Option<NeighborAgreement>)
    ensures
        neighbor is None <==> agreement_between(local, neighbor) == Agreement::NoDigest,
        neighbor is Some && !(local.valid && neighbor->0.valid) <==> agreement_between(local, neighbor) == Agreement::NotValid,
        neighbor is Some && local.valid && neighbor->0.valid && local.digest@ != neighbor->0.digest@ <==> agreement_between(
            local,
            neighbor,
        ) == Agreement::DigestMismatch,
        neighbor is Some && local.valid && neighbor->0.valid && local.digest@ == neighbor->0.digest@ <==> agreement_between(
            local,
            neighbor,
        ) == Agreement::Agreed,
        agreement_between(local, neighbor) != Agreement::Outstanding,
{
}

/// There is agreement when every SPB neighbour on an adjacency that is up has
/// sent the very digest that the local node has, both being valid.
pub proof fn agreement_is_same_digest_everywhere(local: LocalAgreement, interfaces: Seq<SpbInterface>)
    ensures
        all_agree(local, interfaces) <==> forall|i: int, j: int|
            {
                &&& 0 <= i < interfaces.len()
                &&& 0 <= j < interfaces[i].adjacencies@.len()
                &&& interfaces[i].enabled
                &&& (#[trigger] interfaces[i].adjacencies@[j]).up
                &&& interfaces[i].adjacencies@[j].spb_capable
            } ==> {
                &&& interfaces[i].adjacencies@[j].agreement is Some
                &&& local.valid
                &&& interfaces[i].adjacencies@[j].agreement->0.valid
                &&& interfaces[i].adjacencies@[j].agreement->0.digest@ == local.digest@
            },
{
    if all_agree(local, interfaces) {
        assert forall|i: int, j: int|
            {
                &&& 0 <= i < interfaces.len()
                &&& 0 <= j < interfaces[i].adjacencies@.len()
                &&& interfaces[i].enabled
                &&& (#[trigger] interfaces[i].adjacencies@[j]).up
                &&& interfaces[i].adjacencies@[j].spb_capable
            } implies {
            &&& interfaces[i].adjacencies@[j].agreement is Some
            &&& local.valid
            &&& interfaces[i].adjacencies@[j].agreement->0.valid
            &&& interfaces[i].adjacencies@[j].agreement->0.digest@ == local.digest@
        } by {
            assert(interface_agrees(local, interfaces[i]));
            assert(has_say(interfaces[i], interfaces[i].adjacencies@[j]));
        }
    } else {
        let i = choose|i: int| 0 <= i < interfaces.len() && !interface_agrees(local, #[trigger] interfaces[i]);
        let iface = interfaces[i];
        let j = choose|j: int|
            0 <= j < iface.adjacencies@.len() && has_say(iface, #[trigger] iface.adjacencies@[j]) && agreement_between(
                local,
                iface.adjacencies@[j].agreement,
            ) != Agreement::Agreed;
        assert(interfaces[i].adjacencies@[j].up);
    }
}

/// The adjacencies of an interface that disagreements are owed to.
proof fn lemma_interface_places(local: LocalAgreement, iface: SpbInterface, n: int) -> (places: Seq<int>)
    requires
        0 <= n <= iface.adjacencies@.len(),
    ensures
        places.len() == interface_disagreements(local, iface, n).len(),
        forall|x: int| #![trigger places[x]] 0 <= x < places.len() ==> {
            let adj = iface.adjacencies@[places[x]];
            let d = interface_disagreements(local, iface, n)[x];
            &&& 0 <= places[x] < n
            &&& iface.enabled && adj.up && adj.spb_capable
            &&& d.system_id == adj.system_id
            &&& d.verdict == agreement_between(local, adj.agreement)
            &&& d.verdict != Agreement::Agreed
        },
        forall|x: int, y: int| 0 <= x < y < places.len() ==> #[trigger] places[x] < #[trigger] places[y],
        forall|j: int|
            #![trigger places.contains(j)]
            0 <= j < n && iface.enabled && iface.adjacencies@[j].up && iface.adjacencies@[j].spb_capable && agreement_between(
                local,
                iface.adjacencies@[j].agreement,
            ) != Agreement::Agreed ==> places.contains(j),
    decreases n,
{
    if n == 0 {
        Seq::empty()
    } else {
        let before = lemma_interface_places(local, iface, n - 1);
        let adj = iface.adjacencies@[n - 1];
        let early = interface_disagreements(local, iface, n - 1);
        let all = interface_disagreements(local, iface, n);
        if has_say(iface, adj) && agreement_between(local, adj.agreement) != Agreement::Agreed {
            let places = before.push(n - 1);
            assert forall|x: int| #![trigger places[x]] 0 <= x < places.len() implies {
                let adj = iface.adjacencies@[places[x]];
                let d = all[x];
                &&& 0 <= places[x] < n
                &&& iface.enabled && adj.up && adj.spb_capable
                &&& d.system_id == adj.system_id
                &&& d.verdict == agreement_between(local, adj.agreement)
                &&& d.verdict != Agreement::Agreed
            } by {
                if x < before.len() {
                    assert(places[x] == before[x]);
                    assert(all[x] == early[x]);
                }
            }
            assert forall|x: int, y: int| 0 <= x < y < places.len() implies #[trigger] places[x] < #[trigger] places[y] by {
                assert(places[x] == before[x]);
                if y < before.len() {
                    assert(places[y] == before[y]);
                }
            }
            assert forall|j: int|
                #![trigger places.contains(j)]
                0 <= j < n && iface.enabled && iface.adjacencies@[j].up && iface.adjacencies@[j].spb_capable && agreement_between(
                    local,
                    iface.adjacencies@[j].agreement,
                ) != Agreement::Agreed implies places.contains(j) by {
                if j == n - 1 {
                    assert(places[before.len() as int] == j);
                } else {
                    assert(before.contains(j));
                    let x = choose|x: int| 0 <= x < before.len() && before[x] == j;
                    assert(places[x] == j);
                }
            }
            places
        } else {
            before
        }
    }
}

/// Each neighbour that does not agree is reported, with its System ID and the
/// verdict, in the order of interfaces and adjacencies, and no other.
pub proof fn disagreements_are_reported(local: LocalAgreement, interfaces: Seq<SpbInterface>) -> (places: Seq<(int, int)>)
    ensures
        places.len() == all_disagreements(local, interfaces).len(),
        forall|x: int| #![trigger places[x]] 0 <= x < places.len() ==> {
            let (i, j) = places[x];
            let adj = interfaces[i].adjacencies@[j];
            let d = all_disagreements(local, interfaces)[x];
            &&& 0 <= i < interfaces.len()
            &&& 0 <= j < interfaces[i].adjacencies@.len()
            &&& interfaces[i].enabled && adj.up && adj.spb_capable
            &&& d.system_id == adj.system_id
            &&& d.verdict == agreement_between(local, adj.agreement)
            &&& d.verdict != Agreement::Agreed
        },
        forall|x: int, y: int|
            0 <= x < y < places.len() ==> (#[trigger] places[x]).0 < (#[trigger] places[y]).0 || (places[x].0 == places[y].0
                && places[x].1 < places[y].1),
        forall|i: int, j: int|
            #![trigger places.contains((i, j))]
            0 <= i < interfaces.len() && 0 <= j < interfaces[i].adjacencies@.len() && interfaces[i].enabled
                && interfaces[i].adjacencies@[j].up && interfaces[i].adjacencies@[j].spb_capable && agreement_between(
                local,
                interfaces[i].adjacencies@[j].agreement,
            ) != Agreement::Agreed ==> places.contains((i, j)),
    decreases interfaces.len(),
{
    if interfaces.len() == 0 {
        Seq::empty()
    } else {
        let q = interfaces.drop_last();
        let last = interfaces.last();
        let at = interfaces.len() - 1;
        let before = disagreements_are_reported(local, q);
        let own = lemma_interface_places(local, last, last.adjacencies@.len() as int);
        let mine = Seq::new(own.len(), |x: int| (at, own[x]));
        let places = before + mine;
        let early = all_disagreements(local, q);
        let late = interface_disagreements(local, last, last.adjacencies@.len() as int);
        let all = all_disagreements(local, interfaces);
        assert(all == early + late);
        assert(forall|i: int| 0 <= i < q.len() ==> q[i] == #[trigger] interfaces[i]);
        assert(interfaces[at] == last);
        assert forall|x: int| #![trigger places[x]] 0 <= x < places.len() implies {
            let (i, j) = places[x];
            let adj = interfaces[i].adjacencies@[j];
            let d = all[x];
            &&& 0 <= i < interfaces.len()
            &&& 0 <= j < interfaces[i].adjacencies@.len()
            &&& interfaces[i].enabled && adj.up && adj.spb_capable
            &&& d.system_id == adj.system_id
            &&& d.verdict == agreement_between(local, adj.agreement)
            &&& d.verdict != Agreement::Agreed
        } by {
            if x < before.len() {
                assert(places[x] == before[x]);
                assert(all[x] == early[x]);
                assert(q[before[x].0] == interfaces[before[x].0]);
            } else {
                let y = x - before.len();
                assert(places[x] == mine[y]);
                assert(all[x] == late[y]);
                assert(own[y] == places[x].1);
            }
        }
        assert forall|x: int, y: int| 0 <= x < y < places.len() implies (#[trigger] places[x]).0 < (#[trigger] places[y]).0 || (
        places[x].0 == places[y].0 && places[x].1 < places[y].1) by {
            if y < before.len() {
                assert(places[x] == before[x]);
                assert(places[y] == before[y]);
            } else {
                assert(places[y] == mine[y - before.len()]);
                if x < before.len() {
                    assert(places[x] == before[x]);
                } else {
                    assert(places[x] == mine[x - before.len()]);
                    assert(own[x - before.len()] < own[y - before.len()]);
                }
            }
        }
        assert forall|i: int, j: int|
            #![trigger places.contains((i, j))]
            0 <= i < interfaces.len() && 0 <= j < interfaces[i].adjacencies@.len() && interfaces[i].enabled
                && interfaces[i].adjacencies@[j].up && interfaces[i].adjacencies@[j].spb_capable && agreement_between(
                local,
                interfaces[i].adjacencies@[j].agreement,
            ) != Agreement::Agreed implies places.contains((i, j)) by {
            if i == at {
                assert(own.contains(j));
                let x = choose|x: int| 0 <= x < own.len() && own[x] == j;
                assert(mine[x] == (i, j));
                assert(places[before.len() + x] == (i, j));
            } else {
                assert(q[i] == interfaces[i]);
                assert(before.contains((i, j)));
                let x = choose|x: int| 0 <= x < before.len() && before[x] == (i, j);
                assert(places[x] == (i, j));
            }
        }
        places
    }
}

/// A digest that is recorded is the current one and valid. Where another valid
/// one gives way to it, the two-bit Agreement Number advances and the old one
/// is discarded; otherwise both stay.
pub proof fn new_digest_advances_number(after: LocalAgreement, before: LocalAgreement, digest: Seq<u8>)
    requires
        has_recorded(after, before, digest),
    ensures
        after.valid,
        after.digest@ == digest,
        before.valid && before.digest@ != digest ==> after.discarded == before.agreement && after.agreement == (before.agreement
            + 1) % 4,
        !before.valid || before.digest@ == digest ==> after.discarded == before.discarded && after.agreement == before.agreement,
{
}

// ===== interfaces =====

/// Hello tasks run on the interfaces that are enabled, not passive, and have a
/// running network task. They are listed once each, in order.
pub proof fn hellos_are_sent_by_active_interfaces(interfaces: Seq<SpbInterface>)
    requires
        interfaces.len() <= usize::MAX,
    ensures
        forall|x: int| #![trigger hello_senders(interfaces)[x]] 0 <= x < hello_senders(interfaces).len() ==> {
            let i = hello_senders(interfaces)[x];
            &&& i < interfaces.len()
            &&& interfaces[i as int].enabled
            &&& !interfaces[i as int].passive
            &&& interfaces[i as int].running
        },
        forall|x: int, y: int|
            0 <= x < y < hello_senders(interfaces).len() ==> #[trigger] hello_senders(interfaces)[x]
                < #[trigger] hello_senders(interfaces)[y],
        forall|i: usize|
            #![trigger hello_senders(interfaces).contains(i)]
            i < interfaces.len() && interfaces[i as int].enabled && !interfaces[i as int].passive && interfaces[i as int].running
                ==> hello_senders(interfaces).contains(i),
    decreases interfaces.len(),
{
    if interfaces.len() > 0 {
        let q = interfaces.drop_last();
        hellos_are_sent_by_active_interfaces(q);
        let before = hello_senders(q);
        let all = hello_senders(interfaces);
        let at = (interfaces.len() - 1) as usize;
        assert(forall|i: int| 0 <= i < q.len() ==> q[i] == #[trigger] interfaces[i]);
        assert forall|x: int| #![trigger all[x]] 0 <= x < all.len() implies {
            let i = all[x];
            &&& i < interfaces.len()
            &&& interfaces[i as int].enabled
            &&& !interfaces[i as int].passive
            &&& interfaces[i as int].running
        } by {
            if x < before.len() {
                assert(all[x] == before[x]);
                assert(q[before[x] as int] == interfaces[before[x] as int]);
            }
        }
        assert forall|x: int, y: int| 0 <= x < y < all.len() implies #[trigger] all[x] < #[trigger] all[y] by {
            assert(all[x] == before[x]);
            if y < before.len() {
                assert(all[y] == before[y]);
            }
        }
        assert forall|i: usize|
            #![trigger all.contains(i)]
            i < interfaces.len() && interfaces[i as int].enabled && !interfaces[i as int].passive && interfaces[i as int].running
            implies all.contains(i) by {
            if i == at {
                assert(all[before.len() as int] == i);
            } else {
                assert(q[i as int] == interfaces[i as int]);
                assert(before.contains(i));
                let x = choose|x: int| 0 <= x < before.len() && before[x] == i;
                assert(all[x] == i);
            }
        }
    }
}

/// A node is reached by the last enabled interface with an adjacency to it that
/// is up, and has no interface where there is none.
pub proof fn nexthops_are_up_adjacencies(map: Map<NodeId, String>, interfaces: Seq<SpbInterface>, node: NodeId)
    requires
        names_nexthops(map, interfaces),
    ensures
        map.contains_key(node) <==> exists|i: int, j: int|
            0 <= i < interfaces.len() && interfaces[i].enabled && 0 <= j < interfaces[i].adjacencies@.len() && (
            #[trigger] interfaces[i].adjacencies@[j]).up && interfaces[i].adjacencies@[j].system_id@ == node@,
        map.contains_key(node) ==> exists|i: int|
            {
                &&& 0 <= i < interfaces.len()
                &&& map[node]@ == (#[trigger] interfaces[i]).name@
                &&& interfaces[i].enabled
                &&& exists|j: int|
                    0 <= j < interfaces[i].adjacencies@.len() && (#[trigger] interfaces[i].adjacencies@[j]).up
                        && interfaces[i].adjacencies@[j].system_id@ == node@
                &&& forall|k: int, j: int|
                    i < k < interfaces.len() && interfaces[k].enabled && 0 <= j < interfaces[k].adjacencies@.len() && (
                    #[trigger] interfaces[k].adjacencies@[j]).up ==> interfaces[k].adjacencies@[j].system_id@ != node@
            },
{
    assert(lookup(contents(map), node) == nexthop_name(interfaces, node));
    assert(contents(map).contains_key(node) <==> map.contains_key(node));
    assert(map.contains_key(node) ==> contents(map)[node] == map[node]@);
    lemma_nexthop_name(interfaces, node);
}

proof fn lemma_reaches(iface: SpbInterface, node: NodeId)
    ensures
        reaches(iface, node) <==> iface.enabled && exists|j: int|
            0 <= j < iface.adjacencies@.len() && (#[trigger] iface.adjacencies@[j]).up && iface.adjacencies@[j].system_id@ == node@,
{
    assert forall|j: int| 0 <= j < iface.adjacencies@.len() implies (NodeId::of((#[trigger] iface.adjacencies@[j]).system_id@) == node
        <==> iface.adjacencies@[j].system_id@ == node@) by {
        lemma_node_of(iface.adjacencies@[j].system_id@);
    }
}

/// The last interface that reaches a node names it.
proof fn lemma_last_reaching(interfaces: Seq<SpbInterface>, node: NodeId) -> (i: int)
    ensures
        nexthop_name(interfaces, node) is None ==> forall|k: int| 0 <= k < interfaces.len() ==> !reaches(#[trigger] interfaces[k], node),
        nexthop_name(interfaces, node) is Some ==> {
            &&& 0 <= i < interfaces.len()
            &&& reaches(interfaces[i], node)
            &&& nexthop_name(interfaces, node)->0 == interfaces[i].name@
            &&& forall|k: int| i < k < interfaces.len() ==> !reaches(#[trigger] interfaces[k], node)
        },
    decreases interfaces.len(),
{
    if interfaces.len() == 0 {
        0
    } else if reaches(interfaces.last(), node) {
        interfaces.len() - 1
    } else {
        let q = interfaces.drop_last();
        let i = lemma_last_reaching(q, node);
        assert forall|k: int|
            0 <= k < interfaces.len() && (nexthop_name(q, node) is Some ==> i < k) implies !reaches(#[trigger] interfaces[k], node) by {
            if k < q.len() {
                assert(q[k] == interfaces[k]);
            }
        }
        i
    }
}

proof fn lemma_nexthop_name(interfaces: Seq<SpbInterface>, node: NodeId)
    ensures
        nexthop_name(interfaces, node) is Some <==> exists|i: int, j: int|
            0 <= i < interfaces.len() && interfaces[i].enabled && 0 <= j < interfaces[i].adjacencies@.len() && (
            #[trigger] interfaces[i].adjacencies@[j]).up && interfaces[i].adjacencies@[j].system_id@ == node@,
        nexthop_name(interfaces, node) is Some ==> exists|i: int|
            {
                &&& 0 <= i < interfaces.len()
                &&& nexthop_name(interfaces, node)->0 == (#[trigger] interfaces[i]).name@
                &&& interfaces[i].enabled
                &&& exists|j: int|
                    0 <= j < interfaces[i].adjacencies@.len() && (#[trigger] interfaces[i].adjacencies@[j]).up
                        && interfaces[i].adjacencies@[j].system_id@ == node@
                &&& forall|k: int, j: int|
                    i < k < interfaces.len() && interfaces[k].enabled && 0 <= j < interfaces[k].adjacencies@.len() && (
                    #[trigger] interfaces[k].adjacencies@[j]).up ==> interfaces[k].adjacencies@[j].system_id@ != node@
            },
{
    let i = lemma_last_reaching(interfaces, node);
    let found = nexthop_name(interfaces, node) is Some;
    assert forall|k: int, j: int|
        0 <= k < interfaces.len() && (found ==> i < k) && interfaces[k].enabled && 0 <= j < interfaces[k].adjacencies@.len() && (
        #[trigger] interfaces[k].adjacencies@[j]).up implies interfaces[k].adjacencies@[j].system_id@ != node@ by {
        lemma_reaches(interfaces[k], node);
        assert(!reaches(interfaces[k], node));
    }
    if found {
        lemma_reaches(interfaces[i], node);
        let j = choose|j: int|
            0 <= j < interfaces[i].adjacencies@.len() && (#[trigger] interfaces[i].adjacencies@[j]).up
                && interfaces[i].adjacencies@[j].system_id@ == node@;
        assert(interfaces[i].adjacencies@[j].up);
        assert(nexthop_name(interfaces, node)->0 == interfaces[i].name@);
    }
}

/// The interfaces that the names of the ports of a service are owed to.
proof fn lemma_port_places(interfaces: Seq<SpbInterface>, isid: u32) -> (places: Seq<int>)
    ensures
        places.len() == port_names(interfaces, isid).len(),
        forall|x: int| #![trigger places[x]] 0 <= x < places.len() ==> {
            let iface = interfaces[places[x]];
            &&& 0 <= places[x] < interfaces.len()
            &&& iface.enabled
            &&& iface.role == SpbInterfaceRole::Customer
            &&& iface.uni_isids@.contains(isid)
            &&& port_names(interfaces, isid)[x] == iface.name@
        },
        forall|x: int, y: int| 0 <= x < y < places.len() ==> #[trigger] places[x] < #[trigger] places[y],
        forall|i: int|
            #![trigger places.contains(i)]
            0 <= i < interfaces.len() && interfaces[i].enabled && interfaces[i].role == SpbInterfaceRole::Customer
                && interfaces[i].uni_isids@.contains(isid) ==> places.contains(i),
    decreases interfaces.len(),
{
    if interfaces.len() == 0 {
        Seq::empty()
    } else {
        let q = interfaces.drop_last();
        let at = interfaces.len() - 1;
        let before = lemma_port_places(q, isid);
        let early = port_names(q, isid);
        let all = port_names(interfaces, isid);
        assert(forall|i: int| 0 <= i < q.len() ==> q[i] == #[trigger] interfaces[i]);
        if delivers(interfaces.last(), isid) {
            let places = before.push(at);
            assert forall|x: int| #![trigger places[x]] 0 <= x < places.len() implies {
                let iface = interfaces[places[x]];
                &&& 0 <= places[x] < interfaces.len()
                &&& iface.enabled
                &&& iface.role == SpbInterfaceRole::Customer
                &&& iface.uni_isids@.contains(isid)
                &&& all[x] == iface.name@
            } by {
                if x < before.len() {
                    assert(places[x] == before[x]);
                    assert(all[x] == early[x]);
                    assert(q[before[x]] == interfaces[before[x]]);
                }
            }
            assert forall|x: int, y: int| 0 <= x < y < places.len() implies #[trigger] places[x] < #[trigger] places[y] by {
                assert(places[x] == before[x]);
                if y < before.len() {
                    assert(places[y] == before[y]);
                }
            }
            assert forall|i: int|
                #![trigger places.contains(i)]
                0 <= i < interfaces.len() && interfaces[i].enabled && interfaces[i].role == SpbInterfaceRole::Customer
                    && interfaces[i].uni_isids@.contains(isid) implies places.contains(i) by {
                if i == at {
                    assert(places[before.len() as int] == i);
                } else {
                    assert(q[i] == interfaces[i]);
                    assert(before.contains(i));
                    let x = choose|x: int| 0 <= x < before.len() && before[x] == i;
                    assert(places[x] == i);
                }
            }
            places
        } else {
            assert forall|x: int| #![trigger before[x]] 0 <= x < before.len() implies interfaces[before[x]] == q[before[x]] by {}
            assert forall|i: int|
                #![trigger before.contains(i)]
                0 <= i < interfaces.len() && interfaces[i].enabled && interfaces[i].role == SpbInterfaceRole::Customer
                    && interfaces[i].uni_isids@.contains(isid) implies before.contains(i) by {
                assert(i < q.len());
                assert(q[i] == interfaces[i]);
            }
            before
        }
    }
}

/// The ports of a service are the enabled customer-facing interfaces that are
/// attached to it, in order. A service without any is not listed.
pub proof fn ports_are_attached_interfaces(map: Map<u32, Vec<String>>, interfaces: Seq<SpbInterface>, isid: u32) -> (places: Seq<int>)
    requires
        names_ports(map, interfaces),
    ensures
        map.contains_key(isid) <==> places.len() > 0,
        map.contains_key(isid) ==> map[isid]@.len() == places.len(),
        forall|x: int| #![trigger places[x]] 0 <= x < places.len() ==> {
            let iface = interfaces[places[x]];
            &&& 0 <= places[x] < interfaces.len()
            &&& iface.enabled
            &&& iface.role == SpbInterfaceRole::Customer
            &&& iface.uni_isids@.contains(isid)
            &&& map[isid]@[x]@ == iface.name@
        },
        forall|x: int, y: int| 0 <= x < y < places.len() ==> #[trigger] places[x] < #[trigger] places[y],
        forall|i: int|
            #![trigger places.contains(i)]
            0 <= i < interfaces.len() && interfaces[i].enabled && interfaces[i].role == SpbInterfaceRole::Customer
                && interfaces[i].uni_isids@.contains(isid) ==> places.contains(i),
{
    let places = lemma_port_places(interfaces, isid);
    assert(map.contains_key(isid) <==> port_names(interfaces, isid).len() > 0);
    if map.contains_key(isid) {
        assert(views(map[isid]@).len() == map[isid]@.len());
        assert forall|x: int| #![trigger places[x]] 0 <= x < places.len() implies map[isid]@[x]@ == interfaces[places[x]].name@ by {
            assert(views(map[isid]@)[x] == map[isid]@[x]@);
        }
    }
    places
}

/// The backbone-facing ports are the enabled interfaces that face the backbone,
/// in order.
pub proof fn backbone_ports_face_backbone(interfaces: Seq<SpbInterface>) -> (places: Seq<int>)
    ensures
        places.len() == backbone_names(interfaces).len(),
        forall|x: int| #![trigger places[x]] 0 <= x < places.len() ==> {
            let iface = interfaces[places[x]];
            &&& 0 <= places[x] < interfaces.len()
            &&& iface.enabled
            &&& iface.role == SpbInterfaceRole::Backbone
            &&& backbone_names(interfaces)[x] == iface.name@
        },
        forall|x: int, y: int| 0 <= x < y < places.len() ==> #[trigger] places[x] < #[trigger] places[y],
        forall|i: int|
            #![trigger places.contains(i)]
            0 <= i < interfaces.len() && interfaces[i].enabled && interfaces[i].role == SpbInterfaceRole::Backbone
                ==> places.contains(i),
    decreases interfaces.len(),
{
    if interfaces.len() == 0 {
        Seq::empty()
    } else {
        let q = interfaces.drop_last();
        let at = interfaces.len() - 1;
        let before = backbone_ports_face_backbone(q);
        let early = backbone_names(q);
        let all = backbone_names(interfaces);
        assert(forall|i: int| 0 <= i < q.len() ==> q[i] == #[trigger] interfaces[i]);
        if interfaces[at].enabled && interfaces[at].role == SpbInterfaceRole::Backbone {
            let places = before.push(at);
            assert forall|x: int| #![trigger places[x]] 0 <= x < places.len() implies {
                let iface = interfaces[places[x]];
                &&& 0 <= places[x] < interfaces.len()
                &&& iface.enabled
                &&& iface.role == SpbInterfaceRole::Backbone
                &&& all[x] == iface.name@
            } by {
                if x < before.len() {
                    assert(places[x] == before[x]);
                    assert(all[x] == early[x]);
                    assert(q[before[x]] == interfaces[before[x]]);
                }
            }
            assert forall|x: int, y: int| 0 <= x < y < places.len() implies #[trigger] places[x] < #[trigger] places[y] by {
                assert(places[x] == before[x]);
                if y < before.len() {
                    assert(places[y] == before[y]);
                }
            }
            assert forall|i: int|
                #![trigger places.contains(i)]
                0 <= i < interfaces.len() && interfaces[i].enabled && interfaces[i].role == SpbInterfaceRole::Backbone
                implies places.contains(i) by {
                if i == at {
                    assert(places[before.len() as int] == i);
                } else {
                    assert(q[i] == interfaces[i]);
                    assert(before.contains(i));
                    let x = choose|x: int| 0 <= x < before.len() && before[x] == i;
                    assert(places[x] == i);
                }
            }
            places
        } else {
            assert forall|x: int| #![trigger before[x]] 0 <= x < before.len() implies interfaces[before[x]] == q[before[x]] by {}
            assert forall|i: int|
                #![trigger before.contains(i)]
                0 <= i < interfaces.len() && interfaces[i].enabled && interfaces[i].role == SpbInterfaceRole::Backbone
                implies before.contains(i) by {
                assert(i < q.len());
                assert(q[i] == interfaces[i]);
            }
            before
        }
    }
}

/// The nodal B-MAC is that of the first configured service, in the order of
/// B-MAC and Base VID, and zero where there is none.
pub proof fn nodal_bmac_is_lowest_configured(config: SpbConfig, key: SpbServiceKey)
    ensures
        config.services@.contains_key(key) && (forall|other: SpbServiceKey| #[trigger]
            config.services@.contains_key(other) ==> key.ordinal() <= other.ordinal()) ==> nodal_bmac(config) == key.bmac@,
        (forall|other: SpbServiceKey| !#[trigger] config.services@.contains_key(other)) ==> nodal_bmac(config).len() == 6 && forall|
            i: int,
        |
            0 <= i < 6 ==> #[trigger] nodal_bmac(config)[i] == 0,
{
    config.services.lemma_finite();
    let dom = config.services@.dom();
    lemma_ordered_exists(dom);
    let keys = ordered(dom);
    if keys.len() > 0 {
        assert(keys.to_set().contains(keys[0]));
        assert(config.services@.contains_key(keys[0]));
        if config.services@.contains_key(key) && (forall|other: SpbServiceKey| #[trigger]
            config.services@.contains_key(other) ==> key.ordinal() <= other.ordinal()) {
            assert(keys.to_set().contains(key));
            let x = choose|x: int| 0 <= x < keys.len() && keys[x] == key;
            if x > 0 {
                assert(keys[0].ordinal() < keys[x].ordinal());
            }
        }
    } else if config.services@.contains_key(key) {
        assert(keys.to_set().contains(key));
    }
}

// ===== computations =====

/// A computation that changes the forwarding state advances the generation by
/// one, and one that does not keeps it. The dataplane is only told where it is
/// enabled and something changed. It is told the generation, and all of the
/// state the first time, and from then on exactly the entries that differ.
pub proof fn computation_tells_what_changed(
    after: SpbState,
    before: SpbState,
    config: SpbConfig,
    interfaces: Seq<SpbInterface>,
    lsps: Seq<Lsp>,
    update: Option<DataplaneUpdate>,
)
    requires
        recomputes(after, before, config, interfaces, lsps, update),
    ensures
        after.fdb@ == before.fdb@ ==> after.generation == before.generation && update is None,
        after.fdb@ != before.fdb@ ==> after.generation == before.generation + 1,
        !config.dataplane_enabled ==> update is None,
        after.fdb@ != before.fdb@ && config.dataplane_enabled && before.generation > 0 ==> update is Some,
        update is Some ==> {
            &&& update->0.delta.generation == after.generation
            &&& update->0.delta.snapshot <==> before.generation == 0
            &&& before.generation == 0 ==> update->0.delta@ == snapshot_of(after.fdb@, after.generation)
            &&& before.generation > 0 ==> update->0.delta@ == delta_between(after.fdb@, before.fdb@, after.generation)
            &&& update->0.node.b_mac@ == nodal_bmac(config)
            &&& config.spsource_id is Some ==> update->0.node.spsource_id == config.spsource_id->0
            &&& config.spsource_id is None ==> update->0.node.spsource_id == 0
            &&& names_nexthops(update->0.nexthops@, interfaces)
            &&& names_ports(update->0.uni_ports@, interfaces)
            &&& views(update->0.nni_ports@) == backbone_names(interfaces)
        },
{
    crate::fdb::fdb_is_finite(after.fdb);
    crate::fdb::fdb_is_finite(before.fdb);
    crate::fdb::delta_empty_iff_same(after.fdb@, before.fdb@, after.generation);
}

/// Up to 4096 trees are computed, and all that are wanted if they are no more
/// than that. Each is the tree of its root in the region of its Base VID and
/// algorithm.
pub proof fn computation_bounds_trees(
    after: SpbState,
    before: SpbState,
    config: SpbConfig,
    interfaces: Seq<SpbInterface>,
    lsps: Seq<Lsp>,
    update: Option<DataplaneUpdate>,
    key: TreeKey,
)
    requires
        recomputes(after, before, config, interfaces, lsps, update),
    ensures
        ({
            let view = after.view->0;
            let keys = wanted_keys(0, configured_ect_vids(config), ordered(root_set(view)));
            &&& after.view is Some
            &&& after.trees@.dom().len() <= 4096
            &&& after.trees@.contains_key(key) ==> keys.contains(key)
            &&& keys.len() <= 4096 ==> after.trees_skipped == 0
            &&& keys.len() <= 4096 && keys.contains(key) ==> after.trees@.contains_key(key)
            &&& after.trees@.contains_key(key) ==> is_tree_of(
                after.trees@[key],
                region_in(view, key.base_vid, key.algorithm),
                key.root,
            )
        }),
{
    let keys = wanted_keys(0, configured_ect_vids(config), ordered(root_set(after.view->0)));
    kept_keys_bounded(keys, 4096);
    lemma_kept_within(keys, 4096);
    assert(after.trees@.dom().contains(key) <==> kept_keys(keys, 4096).contains(key));
    if keys.len() <= 4096 {
        no_tree_skipped_within_bound(keys, 4096);
        assert(keys.to_set().contains(key) <==> keys.contains(key));
    }
}

/// Only what is wanted is kept.
proof fn lemma_kept_within(keys: Seq<TreeKey>, max: nat)
    ensures
        forall|key: TreeKey| #[trigger] kept_keys(keys, max).contains(key) ==> keys.contains(key),
    decreases keys.len(),
{
    if keys.len() > 0 {
        let q = keys.drop_last();
        lemma_kept_within(q, max);
        assert forall|key: TreeKey| #[trigger] kept_keys(keys, max).contains(key) implies keys.contains(key) by {
            if key == keys.last() {
                assert(keys[keys.len() - 1] == key);
            } else {
                assert(kept_keys(q, max).contains(key));
                let k = choose|k: int| 0 <= k < q.len() && q[k] == key;
                assert(keys[k] == key);
            }
        }
    }
}

/// A computation records the digest of the view that it is based on, and calls
/// for new Hellos if the digest is not the one that was advertised. Agreement is
/// judged against that very digest, and what is held back follows from it.
pub proof fn computation_judges_by_its_own_digest(
    after: SpbState,
    before: SpbState,
    config: SpbConfig,
    interfaces: Seq<SpbInterface>,
    lsps: Seq<Lsp>,
    update: Option<DataplaneUpdate>,
    r: RootKey,
)
    requires
        recomputes(after, before, config, interfaces, lsps, update),
    ensures
        ({
            let view = after.view->0;
            let digest = hmac_sha256("holo-spb".spec_bytes(), digest_input(view.nodes@, view.links@, 0));
            let advertised = before.agreement.valid && before.agreement.digest@ == digest;
            &&& after.agreement.valid
            &&& after.agreement.digest@ == digest
            &&& after.hello_refresh_pending <==> before.hello_refresh_pending || !advertised
            &&& after.agreed_adjacencies <==> all_agree(after.agreement, interfaces)
            &&& after.agreed_adjacencies ==> !after.unsafe_trees@.contains(r)
            &&& !after.agreed_adjacencies ==> (after.unsafe_trees@.contains(r) <==> before.unsafe_trees@.contains(r)
                || unsettled_roots(after.trees@, before.trees@, view.local).contains(r))
        }),
{
}

/// A computation is based on the view of its own configuration and database. It
/// programs all that the view and the trees give rise to, but for the multicast
/// entries of held roots, and counts those that it withholds: none with
/// agreement.
pub proof fn computation_programs_what_it_may(
    after: SpbState,
    before: SpbState,
    config: SpbConfig,
    interfaces: Seq<SpbInterface>,
    lsps: Seq<Lsp>,
    update: Option<DataplaneUpdate>,
) -> (full: FdbState)
    requires
        recomputes(after, before, config, interfaces, lsps, update),
    ensures
        after.view is Some,
        is_view_of(after.view->0, config, lsps),
        is_fdb_of(full, after.view->0, after.trees@, 0, configured_ect_vids(config)),
        after.fdb@.unicast == full.unicast,
        after.fdb@.services == full.services,
        forall|key: MulticastKey| #[trigger]
            after.fdb@.multicast.contains_key(key) <==> full.multicast.contains_key(key) && (after.agreed_adjacencies
                || !after.unsafe_trees@.contains((RootKey { base_vid: key.base_vid, root: full.multicast[key].source }))),
        forall|key: MulticastKey| #[trigger]
            after.fdb@.multicast.contains_key(key) ==> after.fdb@.multicast[key] == full.multicast[key],
        after.withheld == full.multicast.dom().len() - after.fdb@.multicast.dom().len(),
        after.agreed_adjacencies ==> after.withheld == 0,
{
    choose|full: FdbState| #[trigger]
        is_fdb_of(full, after.view->0, after.trees@, 0, configured_ect_vids(config)) && after.fdb@ == programmable(
            full,
            after.unsafe_trees@,
            after.agreed_adjacencies,
        ) && after.withheld == full.multicast.dom().len() - after.fdb@.multicast.dom().len()
}

/// Before anything has been computed there is no view, no tree, no entry, no
/// digest, nothing is held back, and no generation has been counted.
pub proof fn initial_state_is_empty(state: SpbState)
    requires
        state.is_initial(),
    ensures
        state.view is None,
        forall|key: TreeKey| !#[trigger] state.trees@.contains_key(key),
        forall|key: UnicastKey| !#[trigger] state.fdb.unicast@.contains_key(key),
        forall|key: MulticastKey| !#[trigger] state.fdb.multicast@.contains_key(key),
        forall|isid: u32| !#[trigger] state.fdb.services@.contains_key(isid),
        state.trees_skipped == 0,
        state.agreement.digest@.len() == 0,
        state.agreement.agreement == 0,
        state.agreement.discarded == 0,
        !state.agreement.valid,
        forall|r: RootKey| !#[trigger] state.unsafe_trees@.contains(r),
        !state.agreed_adjacencies,
        !state.hello_refresh_pending,
        state.generation == 0,
        state.withheld == 0,
{
    assert forall|key: UnicastKey| !#[trigger] state.fdb.unicast@.contains_key(key) by {
        assert(!state.fdb@.unicast.contains_key(key));
    }
    assert forall|key: MulticastKey| !#[trigger] state.fdb.multicast@.contains_key(key) by {
        assert(!state.fdb@.multicast.contains_key(key));
    }
    assert forall|isid: u32| !#[trigger] state.fdb.services@.contains_key(isid) by {
        assert(!state.fdb@.services.contains_key(isid));
    }
}

} // verus!
