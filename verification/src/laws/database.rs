//! What a view holds of the configuration and of the link state database.

use vstd::prelude::*;

use crate::dataplane::views;
use crate::isis::{
    configured_ect_vid, configured_ect_vids, configured_node, configured_service, configured_services, described, facts_in,
    is_view_of, known_facts, lsp_links, reach_links, tlv_links, IsReach, IsReachTlv, Lsp, MtCap, SpbConfig, SpbServiceKey,
};
use crate::laws::region::transmitters_have_t_bit;
use crate::node::{lemma_node_of, NodeId};
use crate::ordmap::{lemma_ordered_exists, ordered, Key};
use crate::stlv::SpbInstStlv;
use crate::topology::{selected, NodeView, Role, Selector, ServiceView, TopologyView};

verus! {

/// What a list says of a finite set that it lists in order.
proof fn lemma_listed_in_order<K: Key>(s: Set<K>)
    requires
        s.finite(),
    ensures
        ordered(s).len() == s.len(),
        forall|i: int| 0 <= i < ordered(s).len() ==> s.contains(#[trigger] ordered(s)[i]),
        forall|i: int, j: int| 0 <= i < j < ordered(s).len() ==> (#[trigger] ordered(s)[i]).ordinal() < (#[trigger] ordered(s)[j]).ordinal(),
        forall|k: K| #[trigger] s.contains(k) ==> exists|i: int| 0 <= i < ordered(s).len() && #[trigger] ordered(s)[i] == k,
{
    lemma_ordered_exists(s);
    let q = ordered(s);
    assert forall|i: int| 0 <= i < q.len() implies s.contains(#[trigger] q[i]) by {
        assert(q.to_set().contains(q[i]));
    }
    assert forall|k: K| #[trigger] s.contains(k) implies exists|i: int| 0 <= i < q.len() && #[trigger] q[i] == k by {
        assert(q.to_set().contains(k));
        let i = choose|i: int| 0 <= i < q.len() && q[i] == k;
        assert(q[i] == k);
    }
}

// ===== the local node =====

/// The local tree sets are the configured ones, by Base VID, each with the
/// standard algorithm of its index, or the default one where the index names
/// none.
pub proof fn local_tree_sets_are_configured(config: SpbConfig)
    ensures
        configured_ect_vids(config).len() == config.trees@.dom().len(),
        forall|i: int|
            #![trigger configured_ect_vids(config)[i]]
            0 <= i < configured_ect_vids(config).len() ==> {
                let e = configured_ect_vids(config)[i];
                let cfg = config.trees@[e.base_vid];
                &&& config.trees@.contains_key(e.base_vid)
                &&& e.spvid == cfg.spvid
                &&& e.multicast == cfg.multicast
                &&& 1 <= cfg.algorithm <= 16 ==> e.algorithm.0 == 0x0080_c200 + cfg.algorithm
                &&& !(1 <= cfg.algorithm <= 16) ==> e.algorithm.0 == 0x0080_c201
            },
        forall|i: int, j: int|
            0 <= i < j < configured_ect_vids(config).len() ==> (#[trigger] configured_ect_vids(config)[i]).base_vid < (
            #[trigger] configured_ect_vids(config)[j]).base_vid,
        forall|vid: u16| #[trigger]
            config.trees@.contains_key(vid) ==> exists|i: int|
                0 <= i < configured_ect_vids(config).len() && (#[trigger] configured_ect_vids(config)[i]).base_vid == vid,
{
    config.trees.lemma_finite();
    let vids = ordered(config.trees@.dom());
    lemma_listed_in_order(config.trees@.dom());
    let list = configured_ect_vids(config);
    assert forall|i: int| #![trigger list[i]] 0 <= i < list.len() implies list[i].base_vid == vids[i] && list[i]
        == configured_ect_vid(vids[i], config.trees@[vids[i]]) by {}
    assert forall|i: int, j: int| 0 <= i < j < list.len() implies (#[trigger] list[i]).base_vid < (#[trigger] list[j]).base_vid by {
        assert(vids[i].ordinal() < vids[j].ordinal());
    }
    assert forall|vid: u16| #[trigger] config.trees@.contains_key(vid) implies exists|i: int|
        0 <= i < list.len() && (#[trigger] list[i]).base_vid == vid by {
        assert(config.trees@.dom().contains(vid));
        let i = choose|i: int| 0 <= i < vids.len() && #[trigger] vids[i] == vid;
        assert(list[i].base_vid == vid);
    }
}

/// A view has the local node's own System ID, one instance, which is that of
/// the standard topology and has the configured tree sets, and holds the local
/// node as it is configured.
pub proof fn local_node_is_as_configured(view: TopologyView, config: SpbConfig, lsps: Seq<Lsp>)
    requires
        is_view_of(view, config, lsps),
    ensures
        view.local@ == config.system_id@,
        view.nodes@.contains_key(view.local),
        forall|mt: u16| #[trigger] view.instances@.contains_key(mt) <==> mt == 0,
        view.instances@[0].mt_id == 0,
        view.instances@[0].ect_vids@ == configured_ect_vids(config),
        ({
            let node = view.nodes@[view.local];
            &&& node.bridge_priority == config.bridge_priority
            &&& config.spsource_id is Some ==> node.spsource_id == config.spsource_id->0
            &&& config.spsource_id is None ==> node.spsource_id == 0
            &&& node.spsource_id_auto == config.spsource_id_auto
            &&& !node.overload
            &&& node.ect_vids@ == configured_ect_vids(config)
        }),
{
    lemma_node_of(config.system_id@);
    assert(known_facts(config, lsps, view.local) == Some(configured_node(config)));
    assert(view.nodes@.contains_key(view.local));
    assert(view.nodes@[view.local]@ == configured_node(config));
}

/// The local node offers the configured services, by B-MAC and Base VID, each
/// with its I-SIDs in order and their transmit and receive bits.
#[verifier::rlimit(40)]
#[verifier::spinoff_prover]
pub proof fn local_services_are_configured(view: TopologyView, config: SpbConfig, lsps: Seq<Lsp>)
    requires
        is_view_of(view, config, lsps),
    ensures
        view.nodes@[view.local].services@.len() == config.services@.dom().len(),
        forall|i: int|
            #![trigger view.nodes@[view.local].services@[i]]
            0 <= i < view.nodes@[view.local].services@.len() ==> {
                let svc = view.nodes@[view.local].services@[i];
                let key = SpbServiceKey { bmac: svc.bmac, base_vid: svc.base_vid };
                let isids = config.services@[key].isids@;
                &&& config.services@.contains_key(key)
                &&& svc.isids@.len() == isids.dom().len()
                &&& forall|k: int|
                    #![trigger svc.isids@[k]]
                    0 <= k < svc.isids@.len() ==> isids.contains_key(svc.isids@[k].isid) && svc.isids@[k].transmit
                        == isids[svc.isids@[k].isid].transmit && svc.isids@[k].receive == isids[svc.isids@[k].isid].receive
                &&& forall|k: int, m: int|
                    0 <= k < m < svc.isids@.len() ==> (#[trigger] svc.isids@[k]).isid < (#[trigger] svc.isids@[m]).isid
                &&& forall|isid: u32| #[trigger]
                    isids.contains_key(isid) ==> exists|k: int| 0 <= k < svc.isids@.len() && (#[trigger] svc.isids@[k]).isid == isid
            },
        forall|i: int, j: int|
            0 <= i < j < view.nodes@[view.local].services@.len() ==> (SpbServiceKey {
                bmac: (#[trigger] view.nodes@[view.local].services@[i]).bmac,
                base_vid: view.nodes@[view.local].services@[i].base_vid,
            }).ordinal() < (SpbServiceKey {
                bmac: (#[trigger] view.nodes@[view.local].services@[j]).bmac,
                base_vid: view.nodes@[view.local].services@[j].base_vid,
            }).ordinal(),
        forall|key: SpbServiceKey| #[trigger]
            config.services@.contains_key(key) ==> exists|i: int|
                0 <= i < view.nodes@[view.local].services@.len() && (#[trigger] view.nodes@[view.local].services@[i]).bmac == key.bmac
                    && view.nodes@[view.local].services@[i].base_vid == key.base_vid,
{
    let node = view.nodes@[view.local];
    assert(known_facts(config, lsps, view.local) == Some(configured_node(config)));
    assert(view.nodes@.contains_key(view.local));
    assert(node@ == configured_node(config));
    config.services.lemma_finite();
    let keys = ordered(config.services@.dom());
    lemma_listed_in_order(config.services@.dom());
    let services = node.services@;
    assert(node@.services.len() == services.len());
    assert forall|i: int| #![trigger services[i]] 0 <= i < services.len() implies (SpbServiceKey {
        bmac: services[i].bmac,
        base_vid: services[i].base_vid,
    }) == keys[i] && services[i]@ == configured_service(keys[i], config.services@[keys[i]]) && config.services@.contains_key(
        keys[i],
    ) by {
        assert(node@.services[i] == services[i]@);
        assert(configured_services(config)[i] == configured_service(keys[i], config.services@[keys[i]]));
        crate::mac::lemma_mac_bytes(services[i].bmac, keys[i].bmac);
    }
    assert forall|i: int| #![trigger view.nodes@[view.local].services@[i]] 0 <= i < view.nodes@[view.local].services@.len() implies {
        let svc = view.nodes@[view.local].services@[i];
        let key = SpbServiceKey { bmac: svc.bmac, base_vid: svc.base_vid };
        let isids = config.services@[key].isids@;
        &&& config.services@.contains_key(key)
        &&& svc.isids@.len() == isids.dom().len()
        &&& forall|k: int|
            #![trigger svc.isids@[k]]
            0 <= k < svc.isids@.len() ==> isids.contains_key(svc.isids@[k].isid) && svc.isids@[k].transmit
                == isids[svc.isids@[k].isid].transmit && svc.isids@[k].receive == isids[svc.isids@[k].isid].receive
        &&& forall|k: int, m: int|
            0 <= k < m < svc.isids@.len() ==> (#[trigger] svc.isids@[k]).isid < (#[trigger] svc.isids@[m]).isid
        &&& forall|isid: u32| #[trigger]
            isids.contains_key(isid) ==> exists|k: int| 0 <= k < svc.isids@.len() && (#[trigger] svc.isids@[k]).isid == isid
    } by {
        let svc = services[i];
        let key = SpbServiceKey { bmac: svc.bmac, base_vid: svc.base_vid };
        lemma_configured_isids(key, config.services@[key], svc);
    }
    assert forall|i: int, j: int| 0 <= i < j < services.len() implies (SpbServiceKey {
        bmac: (#[trigger] services[i]).bmac,
        base_vid: services[i].base_vid,
    }).ordinal() < (SpbServiceKey { bmac: (#[trigger] services[j]).bmac, base_vid: services[j].base_vid }).ordinal() by {
        assert(keys[i].ordinal() < keys[j].ordinal());
    }
    assert forall|key: SpbServiceKey| #[trigger] config.services@.contains_key(key) implies exists|i: int|
        0 <= i < services.len() && (#[trigger] services[i]).bmac == key.bmac && services[i].base_vid == key.base_vid by {
        assert(config.services@.dom().contains(key));
        let i = choose|i: int| 0 <= i < keys.len() && #[trigger] keys[i] == key;
        assert(services[i].bmac == key.bmac);
    }
}

proof fn lemma_configured_isids(key: SpbServiceKey, cfg: crate::isis::SpbServiceConfig, svc: ServiceView)
    requires
        svc@ == configured_service(key, cfg),
    ensures
        svc.isids@.len() == cfg.isids@.dom().len(),
        forall|k: int|
            #![trigger svc.isids@[k]]
            0 <= k < svc.isids@.len() ==> cfg.isids@.contains_key(svc.isids@[k].isid) && svc.isids@[k].transmit
                == cfg.isids@[svc.isids@[k].isid].transmit && svc.isids@[k].receive == cfg.isids@[svc.isids@[k].isid].receive,
        forall|k: int, m: int| 0 <= k < m < svc.isids@.len() ==> (#[trigger] svc.isids@[k]).isid < (#[trigger] svc.isids@[m]).isid,
        forall|isid: u32| #[trigger]
            cfg.isids@.contains_key(isid) ==> exists|k: int| 0 <= k < svc.isids@.len() && (#[trigger] svc.isids@[k]).isid == isid,
{
    cfg.isids.lemma_finite();
    let dom = cfg.isids@.dom();
    let ids = ordered(dom);
    lemma_listed_in_order(dom);
    let list = configured_service(key, cfg).isids;
    assert(svc.isids@ == list);
    assert forall|k: int| #![trigger list[k]] 0 <= k < list.len() implies list[k].isid == ids[k] by {}
    assert forall|k: int, m: int| 0 <= k < m < list.len() implies (#[trigger] list[k]).isid < (#[trigger] list[m]).isid by {
        assert(ids[k].ordinal() < ids[m].ordinal());
    }
    assert forall|isid: u32| #[trigger] cfg.isids@.contains_key(isid) implies exists|k: int|
        0 <= k < svc.isids@.len() && (#[trigger] svc.isids@[k]).isid == isid by {
        assert(dom.contains(isid));
        let k = choose|k: int| 0 <= k < ids.len() && #[trigger] ids[k] == isid;
        assert(svc.isids@[k].isid == isid);
    }
}

// ===== other nodes =====

/// The MT-Capability TLV that describes a node.
proof fn lemma_facts_in(caps: Seq<MtCap>)
    ensures
        facts_in(caps) is Some <==> exists|c: int| 0 <= c < caps.len() && (#[trigger] caps[c]).mt_id == 0 && caps[c].spb_inst is Some,
        facts_in(caps) is Some ==> exists|c: int|
            {
                &&& 0 <= c < caps.len()
                &&& (#[trigger] caps[c]).mt_id == 0
                &&& caps[c].spb_inst is Some
                &&& facts_in(caps) == Some(crate::isis::advertised_node(caps[c], caps[c].spb_inst->0))
                &&& forall|d: int| c < d < caps.len() ==> (#[trigger] caps[d]).mt_id != 0 || caps[d].spb_inst is None
            },
    decreases caps.len(),
{
    if caps.len() > 0 {
        let q = caps.drop_last();
        lemma_facts_in(q);
        assert(forall|c: int| 0 <= c < q.len() ==> q[c] == #[trigger] caps[c]);
        if caps.last().mt_id == 0 && caps.last().spb_inst is Some {
            assert(caps[caps.len() - 1].mt_id == 0);
        } else if facts_in(q) is Some {
            let c = choose|c: int|
                {
                    &&& 0 <= c < q.len()
                    &&& (#[trigger] q[c]).mt_id == 0
                    &&& q[c].spb_inst is Some
                    &&& facts_in(q) == Some(crate::isis::advertised_node(q[c], q[c].spb_inst->0))
                    &&& forall|d: int| c < d < q.len() ==> (#[trigger] q[d]).mt_id != 0 || q[d].spb_inst is None
                };
            assert(caps[c] == q[c]);
            assert forall|d: int| c < d < caps.len() implies (#[trigger] caps[d]).mt_id != 0 || caps[d].spb_inst is None by {
                if d < q.len() {
                    assert(q[d] == caps[d]);
                }
            }
        } else {
            assert forall|c: int| 0 <= c < caps.len() implies !((#[trigger] caps[c]).mt_id == 0 && caps[c].spb_inst is Some) by {
                if c < q.len() {
                    assert(q[c] == caps[c]);
                }
            }
        }
    }
}

/// The LSP that describes a node.
proof fn lemma_described(lsps: Seq<Lsp>, id: NodeId) -> (l: int)
    ensures
        described(lsps, id) is None ==> forall|m: int|
            0 <= m < lsps.len() && (#[trigger] lsps[m]).fragment == 0 && !lsps[m].is_pseudonode && lsps[m].system_id@ == id@
                ==> facts_in(lsps[m].mt_cap@) is None,
        described(lsps, id) is Some ==> {
            &&& 0 <= l < lsps.len()
            &&& lsps[l].fragment == 0
            &&& !lsps[l].is_pseudonode
            &&& lsps[l].system_id@ == id@
            &&& described(lsps, id) == facts_in(lsps[l].mt_cap@)
            &&& forall|m: int|
                l < m < lsps.len() && (#[trigger] lsps[m]).fragment == 0 && !lsps[m].is_pseudonode && lsps[m].system_id@ == id@
                    ==> facts_in(lsps[m].mt_cap@) is None
        },
    decreases lsps.len(),
{
    if lsps.len() == 0 {
        0
    } else {
        let q = lsps.drop_last();
        let last = lsps.last();
        let l = lemma_described(q, id);
        lemma_node_of(last.system_id@);
        assert(forall|m: int| 0 <= m < q.len() ==> q[m] == #[trigger] lsps[m]);
        assert(lsps[lsps.len() - 1] == last);
        if facts_in(last.mt_cap@) is Some && last.fragment == 0 && !last.is_pseudonode && NodeId::of(last.system_id@) == id {
            lsps.len() - 1
        } else {
            assert forall|m: int|
                (described(q, id) is Some ==> l < m) && 0 <= m < lsps.len() && (#[trigger] lsps[m]).fragment == 0
                    && !lsps[m].is_pseudonode && lsps[m].system_id@ == id@ implies facts_in(lsps[m].mt_cap@) is None by {
                if m < q.len() {
                    assert(q[m] == lsps[m]);
                }
            }
            l
        }
    }
}

/// A remote node is in the view as its LSP describes it: the last
/// MT-Capability TLV for the standard topology with an SPB-Inst, in the last
/// LSP of the node that has one in fragment zero. Priority, SPSourceID and
/// overload bit are those advertised. Each VLAN-ID tuple is a tree set, which
/// carries multicast if its M flag is set, and has an SPVID if its A flag is.
/// Each SPBM-SI is a service, whose memberships transmit as their T flags and
/// receive as their R flags say.
pub proof fn remote_node_is_as_advertised(view: TopologyView, config: SpbConfig, lsps: Seq<Lsp>, id: NodeId) -> (r: (int, int))
    requires
        is_view_of(view, config, lsps),
        view.nodes@.contains_key(id),
        id != view.local,
    ensures
        ({
            let (l, c) = r;
            let cap = lsps[l].mt_cap@[c];
            let inst = cap.spb_inst->0;
            let node = view.nodes@[id];
            &&& 0 <= l < lsps.len()
            &&& lsps[l].system_id@ == id@
            &&& lsps[l].fragment == 0
            &&& !lsps[l].is_pseudonode
            &&& 0 <= c < lsps[l].mt_cap@.len()
            &&& cap.mt_id == 0
            &&& cap.spb_inst is Some
            &&& forall|d: int|
                c < d < lsps[l].mt_cap@.len() ==> (#[trigger] lsps[l].mt_cap@[d]).mt_id != 0 || lsps[l].mt_cap@[d].spb_inst is None
            &&& forall|m: int, d: int|
                l < m < lsps.len() && lsps[m].fragment == 0 && !lsps[m].is_pseudonode && lsps[m].system_id@ == id@ && 0 <= d
                    < lsps[m].mt_cap@.len() ==> (#[trigger] lsps[m].mt_cap@[d]).mt_id != 0 || lsps[m].mt_cap@[d].spb_inst is None
            &&& node.bridge_priority == inst.bridge_priority
            &&& node.spsource_id == inst.spsource_id
            &&& node.spsource_id_auto == inst.spsource_id_auto
            &&& node.overload == cap.overload
            &&& node.ect_vids@.len() == inst.vlan_id_tuples@.len()
            &&& forall|k: int| #![trigger node.ect_vids@[k]] 0 <= k < node.ect_vids@.len() ==> {
                &&& node.ect_vids@[k].base_vid == inst.vlan_id_tuples@[k].base_vid
                &&& node.ect_vids@[k].algorithm.0 == inst.vlan_id_tuples@[k].ect_algorithm
                &&& node.ect_vids@[k].multicast == inst.vlan_id_tuples@[k].flags.m
                &&& inst.vlan_id_tuples@[k].flags.a ==> node.ect_vids@[k].spvid == Some(inst.vlan_id_tuples@[k].spvid)
                &&& !inst.vlan_id_tuples@[k].flags.a ==> node.ect_vids@[k].spvid is None
            }
            &&& node.services@.len() == cap.spbm_si@.len()
            &&& forall|j: int| #![trigger node.services@[j]] 0 <= j < node.services@.len() ==> {
                &&& node.services@[j].bmac@ == cap.spbm_si@[j].bmac@
                &&& node.services@[j].base_vid == cap.spbm_si@[j].base_vid
                &&& node.services@[j].isids@.len() == cap.spbm_si@[j].isid_entries@.len()
            }
            &&& forall|j: int, k: int|
                #![trigger node.services@[j].isids@[k]]
                0 <= j < node.services@.len() && 0 <= k < node.services@[j].isids@.len() ==> {
                    &&& node.services@[j].isids@[k].isid == cap.spbm_si@[j].isid_entries@[k].isid
                    &&& node.services@[j].isids@[k].transmit == cap.spbm_si@[j].isid_entries@[k].flags.t
                    &&& node.services@[j].isids@[k].receive == cap.spbm_si@[j].isid_entries@[k].flags.r
                }
        }),
{
    assert(known_facts(config, lsps, id) == Some(view.nodes@[id]@));
    let l = lemma_described(lsps, id);
    let caps = lsps[l].mt_cap@;
    lemma_facts_in(caps);
    let c = choose|c: int|
        {
            &&& 0 <= c < caps.len()
            &&& (#[trigger] caps[c]).mt_id == 0
            &&& caps[c].spb_inst is Some
            &&& facts_in(caps) == Some(crate::isis::advertised_node(caps[c], caps[c].spb_inst->0))
            &&& forall|d: int| c < d < caps.len() ==> (#[trigger] caps[d]).mt_id != 0 || caps[d].spb_inst is None
        };
    assert forall|m: int, d: int|
        l < m < lsps.len() && lsps[m].fragment == 0 && !lsps[m].is_pseudonode && lsps[m].system_id@ == id@ && 0 <= d
            < lsps[m].mt_cap@.len() implies (#[trigger] lsps[m].mt_cap@[d]).mt_id != 0 || lsps[m].mt_cap@[d].spb_inst is None by {
        lemma_facts_in(lsps[m].mt_cap@);
    }
    lemma_advertised(view.nodes@[id], caps[c], caps[c].spb_inst->0);
    (l, c)
}

proof fn lemma_advertised(node: NodeView, cap: MtCap, inst: SpbInstStlv)
    requires
        node@ == crate::isis::advertised_node(cap, inst),
    ensures
        node.bridge_priority == inst.bridge_priority,
        node.spsource_id == inst.spsource_id,
        node.spsource_id_auto == inst.spsource_id_auto,
        node.overload == cap.overload,
        node.ect_vids@.len() == inst.vlan_id_tuples@.len(),
        forall|k: int| #![trigger node.ect_vids@[k]] 0 <= k < node.ect_vids@.len() ==> {
            &&& node.ect_vids@[k].base_vid == inst.vlan_id_tuples@[k].base_vid
            &&& node.ect_vids@[k].algorithm.0 == inst.vlan_id_tuples@[k].ect_algorithm
            &&& node.ect_vids@[k].multicast == inst.vlan_id_tuples@[k].flags.m
            &&& inst.vlan_id_tuples@[k].flags.a ==> node.ect_vids@[k].spvid == Some(inst.vlan_id_tuples@[k].spvid)
            &&& !inst.vlan_id_tuples@[k].flags.a ==> node.ect_vids@[k].spvid is None
        },
        node.services@.len() == cap.spbm_si@.len(),
        forall|j: int| #![trigger node.services@[j]] 0 <= j < node.services@.len() ==> {
            &&& node.services@[j].bmac@ == cap.spbm_si@[j].bmac@
            &&& node.services@[j].base_vid == cap.spbm_si@[j].base_vid
            &&& node.services@[j].isids@.len() == cap.spbm_si@[j].isid_entries@.len()
        },
        forall|j: int, k: int|
            #![trigger node.services@[j].isids@[k]]
            0 <= j < node.services@.len() && 0 <= k < node.services@[j].isids@.len() ==> {
                &&& node.services@[j].isids@[k].isid == cap.spbm_si@[j].isid_entries@[k].isid
                &&& node.services@[j].isids@[k].transmit == cap.spbm_si@[j].isid_entries@[k].flags.t
                &&& node.services@[j].isids@[k].receive == cap.spbm_si@[j].isid_entries@[k].flags.r
            },
{
    let facts = crate::isis::advertised_node(cap, inst);
    assert(node.ect_vids@ == facts.ect_vids);
    assert(node@.services.len() == node.services@.len());
    assert forall|j: int| #![trigger node.services@[j]] 0 <= j < node.services@.len() implies node.services@[j]@
        == crate::isis::advertised_service(cap.spbm_si@[j]) by {
        assert(node@.services[j] == node.services@[j]@);
        assert(facts.services[j] == crate::isis::advertised_service(cap.spbm_si@[j]));
    }
    assert forall|j: int, k: int|
        #![trigger node.services@[j].isids@[k]]
        0 <= j < node.services@.len() && 0 <= k < node.services@[j].isids@.len() implies {
        &&& node.services@[j].isids@[k].isid == cap.spbm_si@[j].isid_entries@[k].isid
        &&& node.services@[j].isids@[k].transmit == cap.spbm_si@[j].isid_entries@[k].flags.t
        &&& node.services@[j].isids@[k].receive == cap.spbm_si@[j].isid_entries@[k].flags.r
    } by {
        assert(node.services@[j]@ == crate::isis::advertised_service(cap.spbm_si@[j]));
        assert(node.services@[j]@.isids[k] == node.services@[j].isids@[k]);
    }
}

/// A node that advertises SPB capability is in the view.
pub proof fn advertised_node_is_known(view: TopologyView, config: SpbConfig, lsps: Seq<Lsp>, id: NodeId, l: int, c: int)
    requires
        is_view_of(view, config, lsps),
        0 <= l < lsps.len(),
        lsps[l].system_id@ == id@,
        lsps[l].fragment == 0,
        !lsps[l].is_pseudonode,
        0 <= c < lsps[l].mt_cap@.len(),
        lsps[l].mt_cap@[c].mt_id == 0,
        lsps[l].mt_cap@[c].spb_inst is Some,
    ensures
        view.nodes@.contains_key(id),
{
    let m = lemma_described(lsps, id);
    lemma_facts_in(lsps[l].mt_cap@);
    assert(known_facts(config, lsps, id) is Some);
}

/// A remote node transmits into a service on a Base VID just when an SPBM-SI
/// for that Base VID, in the TLV that describes the node, lists the I-SID with
/// the T flag.
#[verifier::rlimit(40)]
#[verifier::spinoff_prover]
pub proof fn remote_transmitters_advertise_t(
    view: TopologyView,
    config: SpbConfig,
    lsps: Seq<Lsp>,
    id: NodeId,
    isid: u32,
    base_vid: u16,
) -> (r: (int, int))
    requires
        is_view_of(view, config, lsps),
        view.nodes@.contains_key(id),
        id != view.local,
    ensures
        ({
            let (l, c) = r;
            let cap = lsps[l].mt_cap@[c];
            &&& 0 <= l < lsps.len()
            &&& lsps[l].system_id@ == id@
            &&& lsps[l].fragment == 0
            &&& !lsps[l].is_pseudonode
            &&& 0 <= c < lsps[l].mt_cap@.len()
            &&& cap.mt_id == 0
            &&& cap.spb_inst is Some
            &&& forall|d: int|
                c < d < lsps[l].mt_cap@.len() ==> (#[trigger] lsps[l].mt_cap@[d]).mt_id != 0 || lsps[l].mt_cap@[d].spb_inst is None
            &&& forall|m: int, d: int|
                l < m < lsps.len() && lsps[m].fragment == 0 && !lsps[m].is_pseudonode && lsps[m].system_id@ == id@ && 0 <= d
                    < lsps[m].mt_cap@.len() ==> (#[trigger] lsps[m].mt_cap@[d]).mt_id != 0 || lsps[m].mt_cap@[d].spb_inst is None
            &&& selected(view.nodes@, Selector::ListsOn(isid, base_vid, Role::Transmit)).contains(id) <==> exists|j: int, k: int|
                0 <= j < cap.spbm_si@.len() && 0 <= k < cap.spbm_si@[j].isid_entries@.len() && cap.spbm_si@[j].base_vid == base_vid
                    && (#[trigger] cap.spbm_si@[j].isid_entries@[k]).isid == isid && cap.spbm_si@[j].isid_entries@[k].flags.t
        }),
{
    let (l, c) = remote_node_is_as_advertised(view, config, lsps, id);
    let cap = lsps[l].mt_cap@[c];
    let node = view.nodes@[id];
    transmitters_have_t_bit(view.nodes@, id, isid, base_vid);
    if selected(view.nodes@, Selector::ListsOn(isid, base_vid, Role::Transmit)).contains(id) {
        let (j, k) = choose|j: int, k: int|
            0 <= j < node.services@.len() && 0 <= k < node.services@[j].isids@.len() && node.services@[j].base_vid == base_vid && (
            #[trigger] node.services@[j].isids@[k]).isid == isid && node.services@[j].isids@[k].transmit;
        assert(cap.spbm_si@[j].isid_entries@[k].isid == isid);
    }
    if exists|j: int, k: int|
        0 <= j < cap.spbm_si@.len() && 0 <= k < cap.spbm_si@[j].isid_entries@.len() && cap.spbm_si@[j].base_vid == base_vid && (
        #[trigger] cap.spbm_si@[j].isid_entries@[k]).isid == isid && cap.spbm_si@[j].isid_entries@[k].flags.t {
        let (j, k) = choose|j: int, k: int|
            0 <= j < cap.spbm_si@.len() && 0 <= k < cap.spbm_si@[j].isid_entries@.len() && cap.spbm_si@[j].base_vid == base_vid && (
            #[trigger] cap.spbm_si@[j].isid_entries@[k]).isid == isid && cap.spbm_si@[j].isid_entries@[k].flags.t;
        assert(node.services@[j].base_vid == base_vid);
        assert(node.services@[j].isids@[k].isid == isid);
    }
    (l, c)
}

// ===== links =====

/// The reachability entries that links are owed to.
proof fn lemma_reach_places(from: NodeId, list: Seq<IsReach>) -> (places: Seq<int>)
    ensures
        places.len() == reach_links(from, list).len(),
        forall|x: int| #![trigger places[x]] 0 <= x < places.len() ==> {
            let link = reach_links(from, list)[x];
            &&& 0 <= places[x] < list.len()
            &&& list[places[x]].spb_metric is Some
            &&& link.from == from
            &&& link.to@ == list[places[x]].neighbor@
            &&& link.metric == Some(list[places[x]].spb_metric->0.metric)
            &&& link.port_ids == list[places[x]].spb_metric->0.port_ids@
        },
        forall|x: int, y: int| 0 <= x < y < places.len() ==> #[trigger] places[x] < #[trigger] places[y],
        forall|r: int| #![trigger places.contains(r)] 0 <= r < list.len() && list[r].spb_metric is Some ==> places.contains(r),
    decreases list.len(),
{
    if list.len() == 0 {
        Seq::empty()
    } else {
        let q = list.drop_last();
        let last = list.last();
        let before = lemma_reach_places(from, q);
        let early = reach_links(from, q);
        let all = reach_links(from, list);
        assert(forall|r: int| 0 <= r < q.len() ==> q[r] == #[trigger] list[r]);
        lemma_node_of(last.neighbor@);
        if last.spb_metric is Some {
            let at = list.len() - 1;
            let places = before.push(at);
            assert(all.len() == early.len() + 1);
            assert forall|x: int| #![trigger places[x]] 0 <= x < places.len() implies {
                let link = all[x];
                &&& 0 <= places[x] < list.len()
                &&& list[places[x]].spb_metric is Some
                &&& link.from == from
                &&& link.to@ == list[places[x]].neighbor@
                &&& link.metric == Some(list[places[x]].spb_metric->0.metric)
                &&& link.port_ids == list[places[x]].spb_metric->0.port_ids@
            } by {
                if x < before.len() {
                    assert(places[x] == before[x]);
                    assert(all[x] == early[x]);
                    assert(q[before[x]] == list[before[x]]);
                }
            }
            assert forall|x: int, y: int| 0 <= x < y < places.len() implies #[trigger] places[x] < #[trigger] places[y] by {
                assert(places[x] == before[x]);
                if y < before.len() {
                    assert(places[y] == before[y]);
                }
            }
            assert forall|r: int| #![trigger places.contains(r)] 0 <= r < list.len() && list[r].spb_metric is Some implies places.contains(
                r,
            ) by {
                if r == at {
                    assert(places[before.len() as int] == r);
                } else {
                    assert(q[r] == list[r]);
                    assert(before.contains(r));
                    let x = choose|x: int| 0 <= x < before.len() && before[x] == r;
                    assert(places[x] == r);
                }
            }
            places
        } else {
            assert(all == early);
            assert forall|x: int| #![trigger before[x]] 0 <= x < before.len() implies list[before[x]] == q[before[x]] by {}
            assert forall|r: int| #![trigger before.contains(r)] 0 <= r < list.len() && list[r].spb_metric is Some implies before.contains(
                r,
            ) by {
                assert(r < q.len());
                assert(q[r] == list[r]);
            }
            before
        }
    }
}

/// The TLVs and reachability entries that links are owed to.
proof fn lemma_tlv_places(from: NodeId, tlvs: Seq<IsReachTlv>) -> (places: Seq<(int, int)>)
    ensures
        places.len() == tlv_links(from, tlvs).len(),
        forall|x: int| #![trigger places[x]] 0 <= x < places.len() ==> {
            let (t, r) = places[x];
            let link = tlv_links(from, tlvs)[x];
            &&& 0 <= t < tlvs.len()
            &&& 0 <= r < tlvs[t].list@.len()
            &&& tlvs[t].list@[r].spb_metric is Some
            &&& link.from == from
            &&& link.to@ == tlvs[t].list@[r].neighbor@
            &&& link.metric == Some(tlvs[t].list@[r].spb_metric->0.metric)
            &&& link.port_ids == tlvs[t].list@[r].spb_metric->0.port_ids@
        },
        forall|x: int, y: int|
            0 <= x < y < places.len() ==> (#[trigger] places[x]).0 < (#[trigger] places[y]).0 || (places[x].0 == places[y].0
                && places[x].1 < places[y].1),
        forall|t: int, r: int|
            #![trigger places.contains((t, r))]
            0 <= t < tlvs.len() && 0 <= r < tlvs[t].list@.len() && tlvs[t].list@[r].spb_metric is Some ==> places.contains((t, r)),
    decreases tlvs.len(),
{
    if tlvs.len() == 0 {
        Seq::empty()
    } else {
        let q = tlvs.drop_last();
        let last = tlvs.last();
        let at = tlvs.len() - 1;
        let before = lemma_tlv_places(from, q);
        let own = lemma_reach_places(from, last.list@);
        let mine = Seq::new(own.len(), |x: int| (at, own[x]));
        let places = before + mine;
        let early = tlv_links(from, q);
        let late = reach_links(from, last.list@);
        let all = tlv_links(from, tlvs);
        assert(all == early + late);
        assert(forall|t: int| 0 <= t < q.len() ==> q[t] == #[trigger] tlvs[t]);
        assert(tlvs[at] == last);
        assert forall|x: int| #![trigger places[x]] 0 <= x < places.len() implies {
            let (t, r) = places[x];
            let link = all[x];
            &&& 0 <= t < tlvs.len()
            &&& 0 <= r < tlvs[t].list@.len()
            &&& tlvs[t].list@[r].spb_metric is Some
            &&& link.from == from
            &&& link.to@ == tlvs[t].list@[r].neighbor@
            &&& link.metric == Some(tlvs[t].list@[r].spb_metric->0.metric)
            &&& link.port_ids == tlvs[t].list@[r].spb_metric->0.port_ids@
        } by {
            if x < before.len() {
                assert(places[x] == before[x]);
                assert(all[x] == early[x]);
                assert(q[before[x].0] == tlvs[before[x].0]);
            } else {
                let y = x - before.len();
                assert(places[x] == mine[y]);
                assert(all[x] == late[y]);
                assert(own[y] == places[x].1);
            }
        }
        assert forall|x: int, y: int| 0 <= x < y < places.len() implies (#[trigger] places[x]).0 < (#[trigger] places[y]).0 || (
        places[x].0 == places[y].0 && places[x].1 < places[y].1) by {
            if y < before.len() {
                assert(places[x] == before[x]);
                assert(places[y] == before[y]);
            } else {
                assert(places[y] == mine[y - before.len()]);
                if x < before.len() {
                    assert(places[x] == before[x]);
                } else {
                    assert(places[x] == mine[x - before.len()]);
                    assert(own[x - before.len()] < own[y - before.len()]);
                }
            }
        }
        assert forall|t: int, r: int|
            #![trigger places.contains((t, r))]
            0 <= t < tlvs.len() && 0 <= r < tlvs[t].list@.len() && tlvs[t].list@[r].spb_metric is Some implies places.contains(
            (t, r),
        ) by {
            if t == at {
                assert(own.contains(r));
                let x = choose|x: int| 0 <= x < own.len() && own[x] == r;
                assert(mine[x] == (t, r));
                assert(places[before.len() + x] == (t, r));
            } else {
                assert(q[t] == tlvs[t]);
                assert(before.contains((t, r)));
                let x = choose|x: int| 0 <= x < before.len() && before[x] == (t, r);
                assert(places[x] == (t, r));
            }
        }
        places
    }
}

/// The LSPs, TLVs and reachability entries that links are owed to.
#[verifier::rlimit(40)]
#[verifier::spinoff_prover]
proof fn lemma_lsp_places(nodes: Set<NodeId>, lsps: Seq<Lsp>) -> (places: Seq<(int, int, int)>)
    ensures
        places.len() == lsp_links(nodes, lsps).len(),
        forall|x: int| #![trigger places[x]] 0 <= x < places.len() ==> {
            let (l, t, r) = places[x];
            let reach = lsps[l].ext_is_reach@[t].list@[r];
            let link = lsp_links(nodes, lsps)[x];
            &&& 0 <= l < lsps.len()
            &&& !lsps[l].is_pseudonode
            &&& nodes.contains(link.from)
            &&& 0 <= t < lsps[l].ext_is_reach@.len()
            &&& 0 <= r < lsps[l].ext_is_reach@[t].list@.len()
            &&& reach.spb_metric is Some
            &&& link.from@ == lsps[l].system_id@
            &&& link.to@ == reach.neighbor@
            &&& link.metric == Some(reach.spb_metric->0.metric)
            &&& link.port_ids == reach.spb_metric->0.port_ids@
        },
        forall|x: int, y: int|
            0 <= x < y < places.len() ==> (#[trigger] places[x]).0 < (#[trigger] places[y]).0 || (places[x].0 == places[y].0 && (
            places[x].1 < places[y].1 || (places[x].1 == places[y].1 && places[x].2 < places[y].2))),
        forall|id: NodeId, l: int, t: int, r: int|
            #![trigger nodes.contains(id), places.contains((l, t, r))]
            0 <= l < lsps.len() && !lsps[l].is_pseudonode && nodes.contains(id) && id@ == lsps[l].system_id@ && 0 <= t
                < lsps[l].ext_is_reach@.len() && 0 <= r < lsps[l].ext_is_reach@[t].list@.len()
                && lsps[l].ext_is_reach@[t].list@[r].spb_metric is Some ==> places.contains((l, t, r)),
    decreases lsps.len(),
{
    if lsps.len() == 0 {
        Seq::empty()
    } else {
        let q = lsps.drop_last();
        let last = lsps.last();
        let at = lsps.len() - 1;
        let from = NodeId::of(last.system_id@);
        lemma_node_of(last.system_id@);
        let before = lemma_lsp_places(nodes, q);
        let early = lsp_links(nodes, q);
        let all = lsp_links(nodes, lsps);
        assert(forall|l: int| 0 <= l < q.len() ==> q[l] == #[trigger] lsps[l]);
        assert(lsps[at] == last);
        let counts = !last.is_pseudonode && nodes.contains(from);
        let own = lemma_tlv_places(from, last.ext_is_reach@);
        let mine = if counts {
            Seq::new(own.len(), |x: int| (at, own[x].0, own[x].1))
        } else {
            Seq::empty()
        };
        let places = before + mine;
        let late = if counts {
            tlv_links(from, last.ext_is_reach@)
        } else {
            Seq::empty()
        };
        assert(all =~= early + late);
        assert forall|x: int| #![trigger places[x]] 0 <= x < places.len() implies {
            let (l, t, r) = places[x];
            let reach = lsps[l].ext_is_reach@[t].list@[r];
            let link = all[x];
            &&& 0 <= l < lsps.len()
            &&& !lsps[l].is_pseudonode
            &&& nodes.contains(link.from)
            &&& 0 <= t < lsps[l].ext_is_reach@.len()
            &&& 0 <= r < lsps[l].ext_is_reach@[t].list@.len()
            &&& reach.spb_metric is Some
            &&& link.from@ == lsps[l].system_id@
            &&& link.to@ == reach.neighbor@
            &&& link.metric == Some(reach.spb_metric->0.metric)
            &&& link.port_ids == reach.spb_metric->0.port_ids@
        } by {
            if x < before.len() {
                assert(places[x] == before[x]);
                assert(all[x] == early[x]);
                assert(q[before[x].0] == lsps[before[x].0]);
            } else {
                let y = x - before.len();
                assert(places[x] == mine[y]);
                assert(all[x] == late[y]);
                assert(own[y] == (places[x].1, places[x].2));
            }
        }
        assert forall|x: int, y: int| 0 <= x < y < places.len() implies (#[trigger] places[x]).0 < (#[trigger] places[y]).0 || (
        places[x].0 == places[y].0 && (places[x].1 < places[y].1 || (places[x].1 == places[y].1 && places[x].2 < places[y].2))) by {
            if y < before.len() {
                assert(places[x] == before[x]);
                assert(places[y] == before[y]);
            } else {
                assert(places[y] == mine[y - before.len()]);
                if x < before.len() {
                    assert(places[x] == before[x]);
                } else {
                    assert(places[x] == mine[x - before.len()]);
                    let a = own[x - before.len()];
                    let b = own[y - before.len()];
                    assert(a.0 < b.0 || (a.0 == b.0 && a.1 < b.1));
                }
            }
        }
        assert forall|id: NodeId, l: int, t: int, r: int|
            #![trigger nodes.contains(id), places.contains((l, t, r))]
            0 <= l < lsps.len() && !lsps[l].is_pseudonode && nodes.contains(id) && id@ == lsps[l].system_id@ && 0 <= t
                < lsps[l].ext_is_reach@.len() && 0 <= r < lsps[l].ext_is_reach@[t].list@.len()
                && lsps[l].ext_is_reach@[t].list@[r].spb_metric is Some implies places.contains((l, t, r)) by {
            if l == at {
                assert(id == from);
                assert(counts);
                assert(own.contains((t, r)));
                let x = choose|x: int| 0 <= x < own.len() && own[x] == (t, r);
                assert(mine[x] == (l, t, r));
                assert(places[before.len() + x] == (l, t, r));
            } else {
                assert(q[l] == lsps[l]);
                assert(before.contains((l, t, r)));
                let x = choose|x: int| 0 <= x < before.len() && before[x] == (l, t, r);
                assert(places[x] == (l, t, r));
            }
        }
        places
    }
}

/// The links of a view are the reachability entries with an SPB-Metric, one
/// for one and in the order of the database, in the LSPs of the nodes in the
/// view, whatever the fragment. Those of pseudonodes do not count.
pub proof fn links_are_those_advertised(view: TopologyView, config: SpbConfig, lsps: Seq<Lsp>) -> (places: Seq<(int, int, int)>)
    requires
        is_view_of(view, config, lsps),
    ensures
        places.len() == view.links@.len(),
        forall|x: int| #![trigger places[x]] 0 <= x < places.len() ==> {
            let (l, t, r) = places[x];
            let reach = lsps[l].ext_is_reach@[t].list@[r];
            let link = view.links@[x];
            &&& 0 <= l < lsps.len()
            &&& !lsps[l].is_pseudonode
            &&& view.nodes@.contains_key(link.from)
            &&& 0 <= t < lsps[l].ext_is_reach@.len()
            &&& 0 <= r < lsps[l].ext_is_reach@[t].list@.len()
            &&& reach.spb_metric is Some
            &&& link.from@ == lsps[l].system_id@
            &&& link.to@ == reach.neighbor@
            &&& link.metric == Some(reach.spb_metric->0.metric)
            &&& link.port_ids@ == reach.spb_metric->0.port_ids@
        },
        forall|x: int, y: int|
            0 <= x < y < places.len() ==> (#[trigger] places[x]).0 < (#[trigger] places[y]).0 || (places[x].0 == places[y].0 && (
            places[x].1 < places[y].1 || (places[x].1 == places[y].1 && places[x].2 < places[y].2))),
        forall|id: NodeId, l: int, t: int, r: int|
            #![trigger view.nodes@.contains_key(id), places.contains((l, t, r))]
            0 <= l < lsps.len() && !lsps[l].is_pseudonode && view.nodes@.contains_key(id) && id@ == lsps[l].system_id@ && 0 <= t
                < lsps[l].ext_is_reach@.len() && 0 <= r < lsps[l].ext_is_reach@[t].list@.len()
                && lsps[l].ext_is_reach@[t].list@[r].spb_metric is Some ==> places.contains((l, t, r)),
{
    let places = lemma_lsp_places(view.nodes@.dom(), lsps);
    let all = lsp_links(view.nodes@.dom(), lsps);
    assert(views(view.links@).len() == view.links@.len());
    assert forall|x: int| #![trigger places[x]] 0 <= x < places.len() implies {
        let (l, t, r) = places[x];
        let reach = lsps[l].ext_is_reach@[t].list@[r];
        let link = view.links@[x];
        &&& 0 <= l < lsps.len()
        &&& !lsps[l].is_pseudonode
        &&& view.nodes@.contains_key(link.from)
        &&& 0 <= t < lsps[l].ext_is_reach@.len()
        &&& 0 <= r < lsps[l].ext_is_reach@[t].list@.len()
        &&& reach.spb_metric is Some
        &&& link.from@ == lsps[l].system_id@
        &&& link.to@ == reach.neighbor@
        &&& link.metric == Some(reach.spb_metric->0.metric)
        &&& link.port_ids@ == reach.spb_metric->0.port_ids@
    } by {
        assert(views(view.links@)[x] == view.links@[x]@);
        assert(all[x] == view.links@[x]@);
        assert(view.nodes@.dom().contains(all[x].from));
    }
    assert forall|id: NodeId, l: int, t: int, r: int|
        #![trigger view.nodes@.contains_key(id), places.contains((l, t, r))]
        0 <= l < lsps.len() && !lsps[l].is_pseudonode && view.nodes@.contains_key(id) && id@ == lsps[l].system_id@ && 0 <= t
            < lsps[l].ext_is_reach@.len() && 0 <= r < lsps[l].ext_is_reach@[t].list@.len()
            && lsps[l].ext_is_reach@[t].list@[r].spb_metric is Some implies places.contains((l, t, r)) by {
        assert(view.nodes@.dom().contains(id));
    }
    places
}

} // verus!
