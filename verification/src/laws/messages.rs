//! What is told to the dataplane, field by field.

use vstd::prelude::*;

use crate::dataplane::{
    all_uni_messages, calls_for_snapshot, configure_messages, delta_text, detail_text, event_messages, ifnames_of,
    multicast_text, nni_messages, reply_text, service_text, service_vid, session_after, uni_messages, unicast_text,
    update_messages, views, ControlMsg, ControlText, DataplaneMsg, DataplaneUpdate, Level, PortRole, Session, SessionEvent,
};
use crate::diff::listed;
use crate::fdb::ServiceEntry;
use crate::node::NodeId;
use crate::ordmap::{is_ordered, lemma_ordered_exists, lemma_ordered_is, lemma_push_set, ordered, Key};

verus! {

/// An update becomes one message with its changes and one that commits them,
/// both with its generation.
pub proof fn update_is_delta_then_commit(update: DataplaneUpdate, msgs: Seq<ControlMsg>)
    requires
        views(msgs) == update_messages(update),
    ensures
        msgs.len() == 2,
        msgs[0] is FdbDelta,
        msgs[0]->FdbDelta_0.generation == update.delta.generation,
        msgs[0]->FdbDelta_0.snapshot == update.delta.snapshot,
        msgs[1] is Commit,
        msgs[1]->Commit_generation == update.delta.generation,
{
    lemma_said(update, msgs);
}

/// What the two messages of an update say.
proof fn lemma_said(update: DataplaneUpdate, msgs: Seq<ControlMsg>)
    requires
        views(msgs) == update_messages(update),
    ensures
        msgs.len() == 2,
        msgs[0] is FdbDelta,
        msgs[0]->FdbDelta_0@ == delta_text(update),
        msgs[1] is Commit,
        msgs[1]->Commit_generation == update.delta.generation,
{
    assert(views(msgs).len() == msgs.len());
    assert(views(msgs)[0] == msgs[0]@);
    assert(views(msgs)[1] == msgs[1]@);
}

/// The messages about unicast entries carry what the change lists, one for
/// one: Base VID and B-MAC, the next hop and the interface that reaches it, and
/// the cost. A local address has neither next hop nor interface, and a next hop
/// that is not adjacent has no interface.
pub proof fn unicast_messages_match(update: DataplaneUpdate, msgs: Seq<ControlMsg>, i: int)
    requires
        views(msgs) == update_messages(update),
        0 <= i < update.delta.unicast_added@.len(),
    ensures
        msgs[0]->FdbDelta_0.unicast_added@.len() == update.delta.unicast_added@.len(),
        ({
            let msg = msgs[0]->FdbDelta_0.unicast_added@[i];
            let (key, entry) = update.delta.unicast_added@[i];
            &&& msg.key.b_vid == key.base_vid
            &&& msg.key.b_mac@ == key.bmac@
            &&& msg.cost == entry.cost
            &&& entry.nexthop is None ==> msg.nexthop_system_id@.len() == 0 && msg.out_ifname@.len() == 0
            &&& entry.nexthop is Some ==> msg.nexthop_system_id@ == entry.nexthop->0@
            &&& entry.nexthop is Some && update.nexthops@.contains_key(entry.nexthop->0) ==> msg.out_ifname@
                == update.nexthops@[entry.nexthop->0]@
            &&& entry.nexthop is Some && !update.nexthops@.contains_key(entry.nexthop->0) ==> msg.out_ifname@.len() == 0
        }),
{
    lemma_said(update, msgs);
    let d = msgs[0]->FdbDelta_0;
    assert(views(d.unicast_added@).len() == d.unicast_added@.len());
    assert(listed(update.delta.unicast_added@)[i] == (update.delta.unicast_added@[i].0, update.delta.unicast_added@[i].1@));
    assert(delta_text(update).unicast_added[i] == unicast_text(
        update.nexthops@,
        update.delta.unicast_added@[i].0,
        update.delta.unicast_added@[i].1,
    ));
    assert(views(d.unicast_added@)[i] == d.unicast_added@[i]@);
}

/// The messages about entries that are gone name them, one for one.
pub proof fn removal_messages_match(update: DataplaneUpdate, msgs: Seq<ControlMsg>)
    requires
        views(msgs) == update_messages(update),
    ensures
        ({
            let d = msgs[0]->FdbDelta_0;
            &&& d.unicast_added@.len() == update.delta.unicast_added@.len()
            &&& d.multicast_added@.len() == update.delta.multicast_added@.len()
            &&& d.services_added@.len() == update.delta.services_added@.len()
            &&& d.unicast_removed@.len() == update.delta.unicast_removed@.len()
            &&& d.multicast_removed@.len() == update.delta.multicast_removed@.len()
            &&& d.services_removed@ == update.delta.services_removed@
            &&& forall|i: int|
                #![trigger d.unicast_removed@[i]]
                0 <= i < d.unicast_removed@.len() ==> d.unicast_removed@[i].b_vid == update.delta.unicast_removed@[i].base_vid
                    && d.unicast_removed@[i].b_mac@ == update.delta.unicast_removed@[i].bmac@
            &&& forall|i: int|
                #![trigger d.multicast_removed@[i]]
                0 <= i < d.multicast_removed@.len() ==> d.multicast_removed@[i].b_vid
                    == update.delta.multicast_removed@[i].base_vid && d.multicast_removed@[i].group_bmac@
                    == update.delta.multicast_removed@[i].group_bmac@
        }),
{
    lemma_said(update, msgs);
    let d = msgs[0]->FdbDelta_0;
    let t = delta_text(update);
    assert(views(d.unicast_added@).len() == d.unicast_added@.len());
    assert(views(d.multicast_added@).len() == d.multicast_added@.len());
    assert(views(d.services_added@).len() == d.services_added@.len());
    assert(views(d.unicast_removed@).len() == d.unicast_removed@.len());
    assert(views(d.multicast_removed@).len() == d.multicast_removed@.len());
    assert forall|i: int|
        #![trigger d.unicast_removed@[i]]
        0 <= i < d.unicast_removed@.len() implies d.unicast_removed@[i].b_vid == update.delta.unicast_removed@[i].base_vid
        && d.unicast_removed@[i].b_mac@ == update.delta.unicast_removed@[i].bmac@ by {
        assert(views(d.unicast_removed@)[i] == d.unicast_removed@[i]@);
        assert(t.unicast_removed[i].b_mac == update.delta.unicast_removed@[i].bmac@);
    }
    assert forall|i: int|
        #![trigger d.multicast_removed@[i]]
        0 <= i < d.multicast_removed@.len() implies d.multicast_removed@[i].b_vid == update.delta.multicast_removed@[i].base_vid
        && d.multicast_removed@[i].group_bmac@ == update.delta.multicast_removed@[i].group_bmac@ by {
        assert(views(d.multicast_removed@)[i] == d.multicast_removed@[i]@);
        assert(t.multicast_removed[i].group_bmac == update.delta.multicast_removed@[i].group_bmac@);
    }
}

/// The messages about multicast entries carry what the change lists, one for
/// one: Base VID and group B-MAC, I-SID, source, whether to deliver locally,
/// and the interfaces of those branches that are adjacent, in the order of
/// their System IDs.
pub proof fn multicast_messages_match(update: DataplaneUpdate, msgs: Seq<ControlMsg>, i: int)
    requires
        views(msgs) == update_messages(update),
        0 <= i < update.delta.multicast_added@.len(),
    ensures
        msgs[0]->FdbDelta_0.multicast_added@.len() == update.delta.multicast_added@.len(),
        ({
            let msg = msgs[0]->FdbDelta_0.multicast_added@[i];
            let key = update.delta.multicast_added@[i].0;
            let entry = update.delta.multicast_added@[i].1;
            let reached = ordered(Set::new(|n: NodeId| entry.branches@.contains(n) && update.nexthops@.contains_key(n)));
            &&& msg.key.b_vid == key.base_vid
            &&& msg.key.group_bmac@ == key.group_bmac@
            &&& msg.i_sid == entry.isid
            &&& msg.source_system_id@ == entry.source@
            &&& msg.local_deliver == entry.local_deliver
            &&& msg.out_ifnames@.len() == reached.len()
            &&& forall|k: int|
                0 <= k < reached.len() ==> (#[trigger] msg.out_ifnames@[k])@ == update.nexthops@[reached[k]]@
        }),
{
    lemma_said(update, msgs);
    let d = msgs[0]->FdbDelta_0;
    let msg = d.multicast_added@[i];
    let key = update.delta.multicast_added@[i].0;
    let entry = update.delta.multicast_added@[i].1;
    assert(views(d.multicast_added@).len() == d.multicast_added@.len());
    assert(listed(update.delta.multicast_added@)[i] == (key, entry@));
    assert(delta_text(update).multicast_added[i] == multicast_text(update.nexthops@, key, entry@));
    assert(views(d.multicast_added@)[i] == msg@);
    entry.branches.lemma_finite();
    lemma_ordered_exists(entry.branches@);
    let nodes = ordered(entry.branches@);
    lemma_ifnames(update.nexthops@, nodes);
    let reached = Set::new(|n: NodeId| entry.branches@.contains(n) && update.nexthops@.contains_key(n));
    assert(reached =~= Set::new(|n: NodeId| nodes.contains(n) && update.nexthops@.contains_key(n))) by {
        assert forall|n: NodeId| entry.branches@.contains(n) <==> nodes.contains(n) by {
            assert(nodes.to_set().contains(n) <==> entry.branches@.contains(n));
        }
    }
    assert(views(msg.out_ifnames@).len() == msg.out_ifnames@.len());
    assert forall|k: int| 0 <= k < ordered(reached).len() implies (#[trigger] msg.out_ifnames@[k])@
        == update.nexthops@[ordered(reached)[k]]@ by {
        assert(views(msg.out_ifnames@)[k] == msg.out_ifnames@[k]@);
    }
}

/// The interfaces of a list of nodes are those of its nodes that have one.
proof fn lemma_ifnames(nexthops: Map<NodeId, String>, nodes: Seq<NodeId>)
    requires
        is_ordered(nodes),
    ensures
        ({
            let reached = ordered(Set::new(|n: NodeId| nodes.contains(n) && nexthops.contains_key(n)));
            &&& ifnames_of(nexthops, nodes).len() == reached.len()
            &&& forall|k: int| 0 <= k < reached.len() ==> #[trigger] ifnames_of(nexthops, nodes)[k] == nexthops[reached[k]]@
        }),
    decreases nodes.len(),
{
    let all = Set::new(|n: NodeId| nodes.contains(n) && nexthops.contains_key(n));
    if nodes.len() == 0 {
        let q = Seq::<NodeId>::empty();
        assert(q.to_set() =~= all);
        lemma_ordered_is(q);
    } else {
        let q = nodes.drop_last();
        let last = nodes.last();
        assert(is_ordered(q));
        lemma_ifnames(nexthops, q);
        let some = Set::new(|n: NodeId| q.contains(n) && nexthops.contains_key(n));
        lemma_push_set(q, last);
        assert(nodes =~= q.push(last));
        assert forall|n: NodeId| nodes.contains(n) <==> q.contains(n) || n == last by {
            assert(nodes.to_set().contains(n) <==> q.to_set().insert(last).contains(n));
        }
        vstd::seq_lib::seq_to_set_is_finite(q);
        assert(some.subset_of(q.to_set()));
        vstd::set_lib::lemma_len_subset(some, q.to_set());
        lemma_ordered_exists(some);
        let r = ordered(some);
        if nexthops.contains_key(last) {
            let s = r.push(last);
            assert forall|i: int| 0 <= i < r.len() implies (#[trigger] r[i]).ordinal() < last.ordinal() by {
                assert(r.to_set().contains(r[i]));
                let k = choose|k: int| 0 <= k < q.len() && q[k] == r[i];
                assert(nodes[k].ordinal() < nodes[nodes.len() - 1].ordinal());
            }
            assert(is_ordered(s));
            lemma_push_set(r, last);
            assert(s.to_set() =~= all);
            lemma_ordered_is(s);
            assert(ordered(all) == s);
        } else {
            assert(some =~= all);
        }
    }
}

/// The messages about services carry what the change lists, one for one:
/// I-SID, Base VID, transmit and receive bits, the customer-facing interfaces
/// of the I-SID, and the members' addresses in the order of their System IDs.
pub proof fn service_messages_match(update: DataplaneUpdate, msgs: Seq<ControlMsg>, i: int)
    requires
        views(msgs) == update_messages(update),
        0 <= i < update.delta.services_added@.len(),
    ensures
        msgs[0]->FdbDelta_0.services_added@.len() == update.delta.services_added@.len(),
        ({
            let msg = msgs[0]->FdbDelta_0.services_added@[i];
            let isid = update.delta.services_added@[i].0;
            let entry = update.delta.services_added@[i].1;
            let members = ordered(entry.members@.dom());
            &&& msg.i_sid == isid
            &&& msg.b_vid == entry.base_vid
            &&& msg.transmit == entry.transmit
            &&& msg.receive == entry.receive
            &&& msg.member_bmacs@.len() == members.len()
            &&& forall|k: int| 0 <= k < members.len() ==> (#[trigger] msg.member_bmacs@[k])@ == entry.members@[members[k]]@
            &&& !update.uni_ports@.contains_key(isid) ==> msg.uni_ifnames@.len() == 0
            &&& update.uni_ports@.contains_key(isid) ==> msg.uni_ifnames@.len() == update.uni_ports@[isid]@.len()
            &&& update.uni_ports@.contains_key(isid) ==> forall|k: int|
                0 <= k < msg.uni_ifnames@.len() ==> (#[trigger] msg.uni_ifnames@[k])@ == update.uni_ports@[isid]@[k]@
        }),
{
    lemma_said(update, msgs);
    let d = msgs[0]->FdbDelta_0;
    let msg = d.services_added@[i];
    let isid = update.delta.services_added@[i].0;
    let entry = update.delta.services_added@[i].1;
    assert(views(d.services_added@).len() == d.services_added@.len());
    assert(listed(update.delta.services_added@)[i] == (isid, entry@));
    assert(delta_text(update).services_added[i] == service_text(update.uni_ports@, isid, entry@));
    assert(views(d.services_added@)[i] == msg@);
    let text = service_text(update.uni_ports@, isid, entry@);
    let members = ordered(entry.members@.dom());
    assert(views(msg.member_bmacs@).len() == msg.member_bmacs@.len());
    assert(views(msg.uni_ifnames@).len() == msg.uni_ifnames@.len());
    assert forall|k: int| 0 <= k < members.len() implies (#[trigger] msg.member_bmacs@[k])@ == entry.members@[members[k]]@ by {
        assert(views(msg.member_bmacs@)[k] == msg.member_bmacs@[k]@);
        assert(text.member_bmacs[k] == entry.members@[members[k]]@);
    }
    if update.uni_ports@.contains_key(isid) {
        assert(views(update.uni_ports@[isid]@).len() == update.uni_ports@[isid]@.len());
        assert forall|k: int| 0 <= k < msg.uni_ifnames@.len() implies (#[trigger] msg.uni_ifnames@[k])@
            == update.uni_ports@[isid]@[k]@ by {
            assert(views(msg.uni_ifnames@)[k] == msg.uni_ifnames@[k]@);
            assert(views(update.uni_ports@[isid]@)[k] == update.uni_ports@[isid]@[k]@);
        }
    }
}

/// Two updates that are told in the same words carry the same change.
pub proof fn messages_tell_updates_apart(a: DataplaneUpdate, b: DataplaneUpdate, i: int)
    requires
        update_messages(a) == update_messages(b),
        0 <= i < a.delta.multicast_added@.len(),
    ensures
        a.delta.generation == b.delta.generation,
        a.delta.snapshot == b.delta.snapshot,
        a.delta.services_removed@ == b.delta.services_removed@,
        a.delta.multicast_added@.len() == b.delta.multicast_added@.len(),
        a.delta.multicast_added@[i].0 == b.delta.multicast_added@[i].0,
        a.delta.multicast_added@[i].1.isid == b.delta.multicast_added@[i].1.isid,
        a.delta.multicast_added@[i].1.source == b.delta.multicast_added@[i].1.source,
        a.delta.multicast_added@[i].1.local_deliver == b.delta.multicast_added@[i].1.local_deliver,
{
    assert(update_messages(a)[0] == ControlText::FdbDelta(delta_text(a)));
    assert(update_messages(b)[0] == ControlText::FdbDelta(delta_text(b)));
    let x = a.delta.multicast_added@[i];
    let y = b.delta.multicast_added@[i];
    assert(delta_text(a).multicast_added.len() == a.delta.multicast_added@.len());
    assert(delta_text(b).multicast_added.len() == b.delta.multicast_added@.len());
    assert(listed(a.delta.multicast_added@)[i] == (x.0, x.1@));
    assert(listed(b.delta.multicast_added@)[i] == (y.0, y.1@));
    assert(delta_text(a).multicast_added[i] == multicast_text(a.nexthops@, x.0, x.1@));
    assert(delta_text(b).multicast_added[i] == multicast_text(b.nexthops@, y.0, y.1@));
    assert(x.0.group_bmac@ == y.0.group_bmac@);
    crate::mac::lemma_mac_bytes(x.0.group_bmac, y.0.group_bmac);
    assert(x.1.source@ == y.1.source@);
    NodeId::ordinal_injective(x.1.source, y.1.source);
}

// ===== configuration =====

/// The Base VID of an I-SID is that of the first service listed with it, and 0
/// where none is.
pub proof fn service_vid_is_first_listed(services: Seq<(u32, ServiceEntry)>, isid: u32)
    ensures
        (forall|i: int| 0 <= i < services.len() ==> (#[trigger] services[i]).0 != isid) ==> service_vid(services, isid) == 0,
        forall|i: int|
            #![trigger services[i]]
            0 <= i < services.len() && services[i].0 == isid && (forall|k: int| 0 <= k < i ==> (#[trigger] services[k]).0 != isid)
                ==> service_vid(services, isid) == services[i].1.base_vid,
    decreases services.len(),
{
    if services.len() > 0 {
        let rest = services.skip(1);
        service_vid_is_first_listed(rest, isid);
        if services[0].0 != isid {
            assert(forall|i: int| 0 <= i < rest.len() ==> rest[i] == #[trigger] services[i + 1]);
            assert forall|i: int|
                #![trigger services[i]]
                0 <= i < services.len() && services[i].0 == isid && (forall|k: int|
                    0 <= k < i ==> (#[trigger] services[k]).0 != isid) implies service_vid(services, isid)
                == services[i].1.base_vid by {
                assert(rest[i - 1] == services[i]);
                assert forall|k: int| 0 <= k < i - 1 implies (#[trigger] rest[k]).0 != isid by {
                    assert(services[k + 1].0 != isid);
                }
            }
            if forall|i: int| 0 <= i < services.len() ==> (#[trigger] services[i]).0 != isid {
                assert forall|i: int| 0 <= i < rest.len() implies (#[trigger] rest[i]).0 != isid by {
                    assert(services[i + 1].0 != isid);
                }
            }
        }
    }
}

/// The I-SID and the place among its interfaces that each message about a
/// customer-facing port is owed to.
proof fn lemma_uni_places(update: DataplaneUpdate, isids: Seq<u32>) -> (places: Seq<(u32, int)>)
    requires
        is_ordered(isids),
    ensures
        places.len() == all_uni_messages(update, isids).len(),
        forall|x: int| #![trigger places[x]] 0 <= x < places.len() ==> {
            let (isid, p) = places[x];
            &&& isids.contains(isid)
            &&& 0 <= p < update.uni_ports@[isid]@.len()
            &&& all_uni_messages(update, isids)[x] == (ControlText::PortConfig {
                ifname: update.uni_ports@[isid]@[p]@,
                role: PortRole::Uni,
                i_sid: isid,
                b_vid: service_vid(update.delta.services_added@, isid),
            })
        },
        forall|x: int, y: int|
            0 <= x < y < places.len() ==> (#[trigger] places[x]).0 < (#[trigger] places[y]).0 || (places[x].0 == places[y].0
                && places[x].1 < places[y].1),
        forall|isid: u32, p: int|
            #![trigger places.contains((isid, p))]
            isids.contains(isid) && 0 <= p < update.uni_ports@[isid]@.len() ==> places.contains((isid, p)),
    decreases isids.len(),
{
    if isids.len() == 0 {
        Seq::empty()
    } else {
        let q = isids.drop_last();
        let last = isids.last();
        assert(is_ordered(q));
        let before = lemma_uni_places(update, q);
        let ports = update.uni_ports@[last]@;
        let mine = Seq::new(ports.len(), |p: int| (last, p));
        let places = before + mine;
        let vid = service_vid(update.delta.services_added@, last);
        let tail = uni_messages(views(ports), last, vid);
        assert(views(ports).len() == ports.len());
        assert(tail.len() == ports.len());
        let all = all_uni_messages(update, isids);
        let early = all_uni_messages(update, q);
        assert(all == early + tail);
        lemma_push_set(q, last);
        assert(isids =~= q.push(last));
        assert forall|n: u32| isids.contains(n) <==> q.contains(n) || n == last by {
            assert(isids.to_set().contains(n) <==> q.to_set().insert(last).contains(n));
        }
        assert forall|x: int| #![trigger places[x]] 0 <= x < places.len() implies {
            let (isid, p) = places[x];
            &&& isids.contains(isid)
            &&& 0 <= p < update.uni_ports@[isid]@.len()
            &&& all[x] == (ControlText::PortConfig {
                ifname: update.uni_ports@[isid]@[p]@,
                role: PortRole::Uni,
                i_sid: isid,
                b_vid: service_vid(update.delta.services_added@, isid),
            })
        } by {
            if x < before.len() {
                assert(places[x] == before[x]);
                assert(all[x] == early[x]);
            } else {
                let p = x - before.len();
                assert(places[x] == mine[p]);
                assert(all[x] == tail[p]);
                assert(views(ports)[p] == ports[p]@);
            }
        }
        assert forall|x: int, y: int| 0 <= x < y < places.len() implies (#[trigger] places[x]).0 < (#[trigger] places[y]).0 || (
        places[x].0 == places[y].0 && places[x].1 < places[y].1) by {
            if y < before.len() {
                assert(places[x] == before[x]);
                assert(places[y] == before[y]);
            } else if x < before.len() {
                assert(places[x] == before[x]);
                assert(places[y] == mine[y - before.len()]);
                let k = choose|k: int| 0 <= k < q.len() && q[k] == before[x].0;
                assert(isids[k].ordinal() < isids[isids.len() - 1].ordinal());
            } else {
                assert(places[x] == mine[x - before.len()]);
                assert(places[y] == mine[y - before.len()]);
            }
        }
        assert forall|isid: u32, p: int|
            #![trigger places.contains((isid, p))]
            isids.contains(isid) && 0 <= p < update.uni_ports@[isid]@.len() implies places.contains((isid, p)) by {
            if isid == last {
                assert(places[before.len() + p] == (isid, p));
            } else {
                assert(before.contains((isid, p)));
                let k = choose|k: int| 0 <= k < before.len() && before[k] == (isid, p);
                assert(places[k] == (isid, p));
            }
        }
        places
    }
}

/// A session is configured by the node's identity, then one message for each
/// backbone-facing port, then one for each customer-facing port of each I-SID,
/// which also carries the I-SID and its Base VID. Backbone-facing ports come in
/// the order given, customer-facing ones by I-SID.
pub proof fn configuration_names_identity_and_ports(update: DataplaneUpdate, msgs: Seq<ControlMsg>) -> (places: Seq<(u32, int)>)
    requires
        views(msgs) == configure_messages(update),
    ensures
        msgs.len() == 1 + update.nni_ports@.len() + places.len(),
        msgs[0] is NodeConfig,
        msgs[0]->b_mac@ == update.node.b_mac@,
        msgs[0]->spsource_id == update.node.spsource_id,
        forall|j: int| #![trigger msgs[j]] 1 <= j <= update.nni_ports@.len() ==> {
            &&& msgs[j] is PortConfig
            &&& msgs[j]->ifname@ == update.nni_ports@[j - 1]@
            &&& msgs[j]->role == PortRole::Nni
            &&& msgs[j]->i_sid == 0
            &&& msgs[j]->b_vid == 0
        },
        forall|x: int| #![trigger places[x]] 0 <= x < places.len() ==> {
            let (isid, p) = places[x];
            let msg = msgs[1 + update.nni_ports@.len() + x];
            &&& update.uni_ports@.contains_key(isid)
            &&& 0 <= p < update.uni_ports@[isid]@.len()
            &&& msg is PortConfig
            &&& msg->ifname@ == update.uni_ports@[isid]@[p]@
            &&& msg->role == PortRole::Uni
            &&& msg->i_sid == isid
            &&& msg->b_vid == service_vid(update.delta.services_added@, isid)
        },
        forall|x: int, y: int|
            0 <= x < y < places.len() ==> (#[trigger] places[x]).0 < (#[trigger] places[y]).0 || (places[x].0 == places[y].0
                && places[x].1 < places[y].1),
        forall|isid: u32, p: int|
            #![trigger places.contains((isid, p))]
            update.uni_ports@.contains_key(isid) && 0 <= p < update.uni_ports@[isid]@.len() ==> places.contains((isid, p)),
{
    let dom = update.uni_ports@.dom();
    update.uni_ports.lemma_finite();
    lemma_ordered_exists(dom);
    let isids = ordered(dom);
    let places = lemma_uni_places(update, isids);
    let names = views(update.nni_ports@);
    let nni = nni_messages(names);
    let uni = all_uni_messages(update, isids);
    let all = configure_messages(update);
    assert(views(msgs).len() == msgs.len());
    assert(names.len() == update.nni_ports@.len());
    assert(nni.len() == names.len());
    assert(all.len() == 1 + nni.len() + uni.len());
    assert(views(msgs)[0] == msgs[0]@);
    assert(all[0] == (ControlText::NodeConfig { b_mac: update.node.b_mac@, spsource_id: update.node.spsource_id }));
    assert forall|j: int| #![trigger msgs[j]] 1 <= j <= update.nni_ports@.len() implies {
        &&& msgs[j] is PortConfig
        &&& msgs[j]->ifname@ == update.nni_ports@[j - 1]@
        &&& msgs[j]->role == PortRole::Nni
        &&& msgs[j]->i_sid == 0
        &&& msgs[j]->b_vid == 0
    } by {
        assert(views(msgs)[j] == msgs[j]@);
        assert(all[j] == nni[j - 1]);
        assert(names[j - 1] == update.nni_ports@[j - 1]@);
    }
    assert forall|n: u32| isids.contains(n) <==> update.uni_ports@.contains_key(n) by {
        assert(isids.to_set().contains(n) <==> dom.contains(n));
    }
    assert forall|x: int| #![trigger places[x]] 0 <= x < places.len() implies {
        let (isid, p) = places[x];
        let msg = msgs[1 + update.nni_ports@.len() + x];
        &&& update.uni_ports@.contains_key(isid)
        &&& 0 <= p < update.uni_ports@[isid]@.len()
        &&& msg is PortConfig
        &&& msg->ifname@ == update.uni_ports@[isid]@[p]@
        &&& msg->role == PortRole::Uni
        &&& msg->i_sid == isid
        &&& msg->b_vid == service_vid(update.delta.services_added@, isid)
    } by {
        let at = 1 + update.nni_ports@.len() + x;
        assert(views(msgs)[at] == msgs[at]@);
        assert(all[at] == uni[x]);
    }
    places
}

// ===== sessions =====

/// A snapshot is called for by a change ahead of the first snapshot of a
/// session, by a request for it, and by a dataplane that reports an older
/// generation than it was sent; by nothing else.
pub proof fn snapshot_is_called_for(session: Session, event: SessionEvent)
    ensures
        calls_for_snapshot(session, event) <==> {
            ||| event is Update && !session.synced && !event->Update_0.delta.snapshot
            ||| event is Reply && event->Reply_0 is ResyncRequest
            ||| event is Reply && event->Reply_0 is Hello && event->Reply_0->Hello_generation < session.generation
        },
{
}

/// What is sent is remembered: a session in which an update was sent is
/// configured, has had its snapshot, and is at the generation of the update.
/// Nothing else changes it.
pub proof fn session_remembers_update(session: Session, event: SessionEvent)
    ensures
        event is Update && (session.synced || event->Update_0.delta.snapshot) ==> {
            let after = session_after(session, event);
            &&& after.configured
            &&& after.synced
            &&& after.generation == event->Update_0.delta.generation
            &&& after.established == session.established
        },
        !(event is Update && (session.synced || event->Update_0.delta.snapshot)) ==> session_after(session, event) == session
            && event_messages(session, event).len() == 0,
{
}

/// An update is sent whole and last, with the configuration ahead of it if the
/// session has not been configured.
pub proof fn update_is_sent_after_configuration(session: Session, update: DataplaneUpdate)
    requires
        session.synced || update.delta.snapshot,
    ensures
        ({
            let msgs = event_messages(session, SessionEvent::Update(update));
            let ahead = msgs.len() - 2;
            &&& session.configured ==> ahead == 0
            &&& !session.configured ==> ahead > 0 && msgs.take(ahead) == configure_messages(update)
            &&& msgs.skip(ahead) == update_messages(update)
        }),
{
    let msgs = event_messages(session, SessionEvent::Update(update));
    let ahead = msgs.len() - 2;
    assert(msgs.skip(ahead) =~= update_messages(update));
    if !session.configured {
        assert(msgs.take(ahead) =~= configure_messages(update));
    }
}

/// What is logged about a reply carries the fields of the reply, at a level
/// that only a refusal raises to a warning. Other events are not logged.
pub proof fn replies_are_logged(msg: DataplaneMsg)
    ensures
        reply_text(msg) is None <==> msg is Event,
        msg is Hello ==> reply_text(msg)->0.level == Level::Info && reply_text(msg)->0.version == Some(msg->version@) && reply_text(
            msg,
        )->0.generation == Some(msg->Hello_generation) && reply_text(msg)->0.entries is None && reply_text(msg)->0.reason is None,
        msg is Ack ==> reply_text(msg)->0.level == Level::Debug && reply_text(msg)->0.generation == Some(msg->Ack_generation)
            && reply_text(msg)->0.entries == Some(msg->entries_programmed) && reply_text(msg)->0.version is None && reply_text(
            msg,
        )->0.reason is None,
        msg is Nack ==> reply_text(msg)->0.level == Level::Warn && reply_text(msg)->0.generation == Some(msg->Nack_generation)
            && reply_text(msg)->0.reason == Some(msg->Nack_reason@) && reply_text(msg)->0.version is None && reply_text(
            msg,
        )->0.entries is None,
        msg is ResyncRequest ==> reply_text(msg)->0.level == Level::Info && reply_text(msg)->0.reason == Some(
            msg->ResyncRequest_reason@,
        ) && reply_text(msg)->0.generation is None && reply_text(msg)->0.version is None && reply_text(msg)->0.entries is None,
{
}

/// The description of a failure names every cause: describing more causes
/// extends the description of fewer, each behind a colon.
pub proof fn failure_names_every_cause(error: Seq<char>, causes: Seq<Seq<char>>, cause: Seq<char>)
    ensures
        detail_text(error, Seq::empty()) == error,
        detail_text(error, causes.push(cause)) == detail_text(error, causes) + seq![':', ' '] + cause,
{
    reveal_strlit(": ");
    assert(": "@ =~= seq![':', ' ']);
    assert(causes.push(cause).drop_last() =~= causes);
}

} // verus!
