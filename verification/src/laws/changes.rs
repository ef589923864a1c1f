//! What changes to the forwarding tables say and do.

use vstd::prelude::*;

use crate::diff::{added, changed_keys, contents, listed, patched, removed, without_keys};
use crate::fdb::{applied, delta_between, snapshot_of, Fdb, FdbDelta, MulticastEntry, MulticastKey, ServiceEntry, UnicastKey};
use crate::ordmap::{lemma_ordered_exists, ordered, Key};

verus! {

/// Two multicast entries say the same just when they agree on source, I-SID,
/// local delivery and branches.
pub proof fn multicast_entries_differ_by_fields(a: MulticastEntry, b: MulticastEntry)
    ensures
        a@ == b@ <==> a.source == b.source && a.isid == b.isid && a.local_deliver == b.local_deliver && a.branches@ == b.branches@,
{
}

/// Two service entries say the same just when they agree on Base VID, transmit
/// and receive bits and members.
pub proof fn service_entries_differ_by_fields(a: ServiceEntry, b: ServiceEntry)
    ensures
        a@ == b@ <==> a.base_vid == b.base_vid && a.transmit == b.transmit && a.receive == b.receive && a.members@ == b.members@,
{
}

/// Two tables say the same just when they have the same keys and agree under
/// each.
pub proof fn tables_differ_by_entries(a: Fdb, b: Fdb)
    ensures
        a@ == b@ <==> {
            &&& a.unicast@ == b.unicast@
            &&& forall|k: MulticastKey| #[trigger] a.multicast@.contains_key(k) <==> b.multicast@.contains_key(k)
            &&& forall|k: MulticastKey| #[trigger] a.multicast@.contains_key(k) ==> a.multicast@[k]@ == b.multicast@[k]@
            &&& forall|k: u32| #[trigger] a.services@.contains_key(k) <==> b.services@.contains_key(k)
            &&& forall|k: u32| #[trigger] a.services@.contains_key(k) ==> a.services@[k]@ == b.services@[k]@
        },
{
    assert(a@.unicast =~= a.unicast@);
    assert(b@.unicast =~= b.unicast@);
    lemma_contents_agree(a.multicast@, b.multicast@);
    lemma_contents_agree(a.services@, b.services@);
}

proof fn lemma_contents_agree<K, E: View>(a: Map<K, E>, b: Map<K, E>)
    ensures
        contents(a) == contents(b) <==> (forall|k: K| #[trigger] a.contains_key(k) <==> b.contains_key(k)) && (forall|k: K| #[trigger]
            a.contains_key(k) ==> a[k]@ == b[k]@),
{
    if contents(a) == contents(b) {
        assert forall|k: K| #[trigger] a.contains_key(k) <==> b.contains_key(k) by {
            assert(contents(a).contains_key(k) <==> contents(b).contains_key(k));
        }
        assert forall|k: K| #[trigger] a.contains_key(k) implies a[k]@ == b[k]@ by {
            assert(contents(a)[k] == a[k]@);
            assert(b.contains_key(k));
            assert(contents(b)[k] == b[k]@);
        }
    }
    if (forall|k: K| #[trigger] a.contains_key(k) <==> b.contains_key(k)) && (forall|k: K| #[trigger]
        a.contains_key(k) ==> a[k]@ == b[k]@) {
        assert forall|k: K| contents(a).dom().contains(k) <==> contents(b).dom().contains(k) by {
            assert(a.contains_key(k) <==> b.contains_key(k));
        }
        assert forall|k: K| contents(a).dom().contains(k) implies contents(a)[k] == contents(b)[k] by {
            assert(a.contains_key(k));
        }
        assert(contents(a) =~= contents(b));
    }
}

/// What a difference lists.
proof fn lemma_difference<K: Key, E: View>(
    now: Map<K, E>,
    before: Map<K, E>,
    fresh: Seq<(K, E)>,
    gone: Seq<K>,
)
    requires
        now.dom().finite(),
        before.dom().finite(),
        listed(fresh) == added(contents(now), contents(before)),
        gone == removed(contents(now), contents(before)),
    ensures
        forall|i: int| #![trigger fresh[i]] 0 <= i < fresh.len() ==> now.contains_key(fresh[i].0) && fresh[i].1@ == now[fresh[i].0]@,
        forall|k: K| #[trigger]
            now.contains_key(k) ==> ((exists|i: int| 0 <= i < fresh.len() && (#[trigger] fresh[i]).0 == k) <==> !(before.contains_key(k)
                && before[k]@ == now[k]@)),
        forall|i: int, j: int| 0 <= i < j < fresh.len() ==> (#[trigger] fresh[i]).0.ordinal() < (#[trigger] fresh[j]).0.ordinal(),
        forall|k: K| #[trigger] gone.contains(k) <==> before.contains_key(k) && !now.contains_key(k),
        forall|i: int, j: int| 0 <= i < j < gone.len() ==> (#[trigger] gone[i]).ordinal() < (#[trigger] gone[j]).ordinal(),
{
    let n = contents(now);
    let b = contents(before);
    assert(n.dom() =~= now.dom());
    assert(b.dom() =~= before.dom());
    let changed = changed_keys(n, b);
    let missing = b.dom().difference(n.dom());
    assert(changed.subset_of(n.dom()));
    assert(missing.subset_of(b.dom()));
    vstd::set_lib::lemma_len_subset(changed, n.dom());
    vstd::set_lib::lemma_len_subset(missing, b.dom());
    lemma_ordered_exists(changed);
    lemma_ordered_exists(missing);
    let keys = ordered(changed);
    let list = added(n, b);
    assert(list.len() == keys.len());
    assert(fresh.len() == list.len());
    assert forall|i: int| #![trigger fresh[i]] 0 <= i < fresh.len() implies fresh[i].0 == keys[i] && changed.contains(fresh[i].0)
        && now.contains_key(fresh[i].0) && fresh[i].1@ == now[fresh[i].0]@ by {
        assert(listed(fresh)[i] == (fresh[i].0, fresh[i].1@));
        assert(list[i] == (keys[i], n[keys[i]]));
        assert(keys.to_set().contains(keys[i]));
    }
    assert forall|k: K| #[trigger] now.contains_key(k) implies ((exists|i: int| 0 <= i < fresh.len() && (#[trigger] fresh[i]).0 == k)
        <==> !(before.contains_key(k) && before[k]@ == now[k]@)) by {
        assert(changed.contains(k) <==> !(before.contains_key(k) && before[k]@ == now[k]@));
        if changed.contains(k) {
            assert(keys.to_set().contains(k));
            let i = choose|i: int| 0 <= i < keys.len() && keys[i] == k;
            assert(fresh[i].0 == k);
        }
    }
    assert forall|i: int, j: int| 0 <= i < j < fresh.len() implies (#[trigger] fresh[i]).0.ordinal() < (
    #[trigger] fresh[j]).0.ordinal() by {
        assert(keys[i].ordinal() < keys[j].ordinal());
    }
    assert forall|k: K| #[trigger] gone.contains(k) <==> before.contains_key(k) && !now.contains_key(k) by {
        assert(gone.to_set().contains(k) <==> missing.contains(k));
    }
}

/// A change lists each entry that is new or says something else than before,
/// with what it now says, and each key that is gone, once and in order, and
/// nothing else.
#[verifier::rlimit(40)]
#[verifier::spinoff_prover]
pub proof fn delta_lists_differences(delta: FdbDelta, now: Fdb, before: Fdb, generation: u64)
    requires
        delta@ == delta_between(now@, before@, generation),
    ensures
        delta.generation == generation,
        !delta.snapshot,
        forall|i: int|
            #![trigger delta.unicast_added@[i]]
            0 <= i < delta.unicast_added@.len() ==> now.unicast@.contains_key(delta.unicast_added@[i].0) && delta.unicast_added@[i].1
                == now.unicast@[delta.unicast_added@[i].0],
        forall|k: UnicastKey| #[trigger]
            now.unicast@.contains_key(k) ==> ((exists|i: int|
                0 <= i < delta.unicast_added@.len() && (#[trigger] delta.unicast_added@[i]).0 == k) <==> !(
            before.unicast@.contains_key(k) && before.unicast@[k] == now.unicast@[k])),
        forall|i: int, j: int|
            0 <= i < j < delta.unicast_added@.len() ==> (#[trigger] delta.unicast_added@[i]).0.ordinal() < (
            #[trigger] delta.unicast_added@[j]).0.ordinal(),
        forall|k: UnicastKey| #[trigger]
            delta.unicast_removed@.contains(k) <==> before.unicast@.contains_key(k) && !now.unicast@.contains_key(k),
        forall|i: int, j: int|
            0 <= i < j < delta.unicast_removed@.len() ==> (#[trigger] delta.unicast_removed@[i]).ordinal() < (
            #[trigger] delta.unicast_removed@[j]).ordinal(),
        forall|i: int|
            #![trigger delta.multicast_added@[i]]
            0 <= i < delta.multicast_added@.len() ==> now.multicast@.contains_key(delta.multicast_added@[i].0)
                && delta.multicast_added@[i].1@ == now.multicast@[delta.multicast_added@[i].0]@,
        forall|k: MulticastKey| #[trigger]
            now.multicast@.contains_key(k) ==> ((exists|i: int|
                0 <= i < delta.multicast_added@.len() && (#[trigger] delta.multicast_added@[i]).0 == k) <==> !(
            before.multicast@.contains_key(k) && before.multicast@[k]@ == now.multicast@[k]@)),
        forall|i: int, j: int|
            0 <= i < j < delta.multicast_added@.len() ==> (#[trigger] delta.multicast_added@[i]).0.ordinal() < (
            #[trigger] delta.multicast_added@[j]).0.ordinal(),
        forall|k: MulticastKey| #[trigger]
            delta.multicast_removed@.contains(k) <==> before.multicast@.contains_key(k) && !now.multicast@.contains_key(k),
        forall|i: int, j: int|
            0 <= i < j < delta.multicast_removed@.len() ==> (#[trigger] delta.multicast_removed@[i]).ordinal() < (
            #[trigger] delta.multicast_removed@[j]).ordinal(),
        forall|i: int|
            #![trigger delta.services_added@[i]]
            0 <= i < delta.services_added@.len() ==> now.services@.contains_key(delta.services_added@[i].0)
                && delta.services_added@[i].1@ == now.services@[delta.services_added@[i].0]@,
        forall|k: u32| #[trigger]
            now.services@.contains_key(k) ==> ((exists|i: int|
                0 <= i < delta.services_added@.len() && (#[trigger] delta.services_added@[i]).0 == k) <==> !(
            before.services@.contains_key(k) && before.services@[k]@ == now.services@[k]@)),
        forall|i: int, j: int|
            0 <= i < j < delta.services_added@.len() ==> (#[trigger] delta.services_added@[i]).0.ordinal() < (
            #[trigger] delta.services_added@[j]).0.ordinal(),
        forall|k: u32| #[trigger]
            delta.services_removed@.contains(k) <==> before.services@.contains_key(k) && !now.services@.contains_key(k),
        forall|i: int, j: int|
            0 <= i < j < delta.services_removed@.len() ==> (#[trigger] delta.services_removed@[i]).ordinal() < (
            #[trigger] delta.services_removed@[j]).ordinal(),
{
    now.unicast.lemma_finite();
    before.unicast.lemma_finite();
    now.multicast.lemma_finite();
    before.multicast.lemma_finite();
    now.services.lemma_finite();
    before.services.lemma_finite();
    lemma_difference(now.unicast@, before.unicast@, delta.unicast_added@, delta.unicast_removed@);
    lemma_difference(now.multicast@, before.multicast@, delta.multicast_added@, delta.multicast_removed@);
    lemma_difference(now.services@, before.services@, delta.services_added@, delta.services_removed@);
}

/// A snapshot lists every entry and removes none.
pub proof fn snapshot_lists_everything(delta: FdbDelta, now: Fdb, generation: u64)
    requires
        delta@ == snapshot_of(now@, generation),
    ensures
        delta.generation == generation,
        delta.snapshot,
        delta.unicast_removed@.len() == 0,
        delta.multicast_removed@.len() == 0,
        delta.services_removed@.len() == 0,
        delta.unicast_added@.len() == now.unicast@.dom().len(),
        delta.multicast_added@.len() == now.multicast@.dom().len(),
        delta.services_added@.len() == now.services@.dom().len(),
        forall|i: int|
            #![trigger delta.unicast_added@[i]]
            0 <= i < delta.unicast_added@.len() ==> now.unicast@.contains_key(delta.unicast_added@[i].0) && delta.unicast_added@[i].1
                == now.unicast@[delta.unicast_added@[i].0],
        forall|i: int|
            #![trigger delta.multicast_added@[i]]
            0 <= i < delta.multicast_added@.len() ==> now.multicast@.contains_key(delta.multicast_added@[i].0)
                && delta.multicast_added@[i].1@ == now.multicast@[delta.multicast_added@[i].0]@,
        forall|i: int|
            #![trigger delta.services_added@[i]]
            0 <= i < delta.services_added@.len() ==> now.services@.contains_key(delta.services_added@[i].0)
                && delta.services_added@[i].1@ == now.services@[delta.services_added@[i].0]@,
        forall|k: UnicastKey| #[trigger]
            now.unicast@.contains_key(k) ==> exists|i: int|
                0 <= i < delta.unicast_added@.len() && (#[trigger] delta.unicast_added@[i]).0 == k,
        forall|k: MulticastKey| #[trigger]
            now.multicast@.contains_key(k) ==> exists|i: int|
                0 <= i < delta.multicast_added@.len() && (#[trigger] delta.multicast_added@[i]).0 == k,
        forall|k: u32| #[trigger]
            now.services@.contains_key(k) ==> exists|i: int|
                0 <= i < delta.services_added@.len() && (#[trigger] delta.services_added@[i]).0 == k,
{
    now.unicast.lemma_finite();
    now.multicast.lemma_finite();
    now.services.lemma_finite();
    lemma_from_nothing(now.unicast@, delta.unicast_added@, delta.unicast_removed@);
    lemma_from_nothing(now.multicast@, delta.multicast_added@, delta.multicast_removed@);
    lemma_from_nothing(now.services@, delta.services_added@, delta.services_removed@);
}

proof fn lemma_from_nothing<K: Key, E: View>(now: Map<K, E>, fresh: Seq<(K, E)>, gone: Seq<K>)
    requires
        now.dom().finite(),
        listed(fresh) == added(contents(now), Map::empty()),
        gone == removed(contents(now), Map::empty()),
    ensures
        gone.len() == 0,
        fresh.len() == now.dom().len(),
        forall|i: int| #![trigger fresh[i]] 0 <= i < fresh.len() ==> now.contains_key(fresh[i].0) && fresh[i].1@ == now[fresh[i].0]@,
        forall|k: K| #[trigger] now.contains_key(k) ==> exists|i: int| 0 <= i < fresh.len() && (#[trigger] fresh[i]).0 == k,
{
    let before = Map::<K, E>::empty();
    assert(contents(before) =~= Map::empty());
    lemma_difference(now, before, fresh, gone);
    if gone.len() > 0 {
        assert(gone.contains(gone[0]));
    }
    let n = contents(now);
    let changed = changed_keys(n, contents(before));
    assert(changed =~= now.dom());
    lemma_ordered_exists(changed);
    assert(listed(fresh).len() == fresh.len());
    assert(added(n, contents(before)).len() == ordered(changed).len());
}

/// What stands under a key after a difference has been applied.
proof fn lemma_patched<K, S>(table: Map<K, S>, gone: Seq<K>, list: Seq<(K, S)>, k: K)
    ensures
        forall|i: int|
            #![trigger list[i]]
            0 <= i < list.len() && list[i].0 == k && (forall|j: int| i < j < list.len() ==> (#[trigger] list[j]).0 != k)
                ==> patched(table, gone, list).contains_key(k) && patched(table, gone, list)[k] == list[i].1,
        (forall|i: int| 0 <= i < list.len() ==> (#[trigger] list[i]).0 != k) ==> {
            &&& patched(table, gone, list).contains_key(k) <==> table.contains_key(k) && !gone.contains(k)
            &&& patched(table, gone, list).contains_key(k) ==> patched(table, gone, list)[k] == table[k]
        },
    decreases list.len(),
{
    if list.len() == 0 {
        lemma_without(table, gone, k);
    } else {
        let q = list.drop_last();
        lemma_patched(table, gone, q, k);
        assert(forall|i: int| 0 <= i < q.len() ==> q[i] == #[trigger] list[i]);
        assert(patched(table, gone, list) == patched(table, gone, q).insert(list.last().0, list.last().1));
        assert forall|i: int|
            #![trigger list[i]]
            0 <= i < list.len() && list[i].0 == k && (forall|j: int| i < j < list.len() ==> (#[trigger] list[j]).0 != k)
            implies patched(table, gone, list).contains_key(k) && patched(table, gone, list)[k] == list[i].1 by {
            if i < q.len() {
                assert(q[i] == list[i]);
                assert(list[list.len() - 1].0 != k);
                assert forall|j: int| i < j < q.len() implies (#[trigger] q[j]).0 != k by {
                    assert(q[j] == list[j]);
                }
            }
        }
        if forall|i: int| 0 <= i < list.len() ==> (#[trigger] list[i]).0 != k {
            assert forall|i: int| 0 <= i < q.len() implies (#[trigger] q[i]).0 != k by {
                assert(q[i] == list[i]);
            }
            assert(list[list.len() - 1].0 != k);
        }
    }
}

proof fn lemma_without<K, S>(table: Map<K, S>, gone: Seq<K>, k: K)
    ensures
        without_keys(table, gone).contains_key(k) <==> table.contains_key(k) && !gone.contains(k),
        without_keys(table, gone).contains_key(k) ==> without_keys(table, gone)[k] == table[k],
    decreases gone.len(),
{
    if gone.len() > 0 {
        let q = gone.drop_last();
        lemma_without(table, q, k);
        assert(gone[gone.len() - 1] == gone.last());
        if gone.contains(k) && k != gone.last() {
            let i = choose|i: int| 0 <= i < gone.len() && gone[i] == k;
            assert(q[i] == k);
        }
        if q.contains(k) {
            let i = choose|i: int| 0 <= i < q.len() && q[i] == k;
            assert(gone[i] == k);
        }
    }
}

/// A change to unicast entries, key by key: the last entry that the change
/// lists under a key stands there afterwards. Under any other key stands what
/// stood there before, unless the key is removed or the change is a snapshot.
pub proof fn applied_unicast(delta: FdbDelta, before: Fdb, after: Fdb, key: UnicastKey)
    requires
        after@ == applied(before@, delta@),
    ensures
        forall|i: int|
            #![trigger delta.unicast_added@[i]]
            0 <= i < delta.unicast_added@.len() && delta.unicast_added@[i].0 == key && (forall|j: int|
                i < j < delta.unicast_added@.len() ==> (#[trigger] delta.unicast_added@[j]).0 != key)
                ==> after.unicast@.contains_key(key) && after.unicast@[key] == delta.unicast_added@[i].1,
        (forall|i: int| 0 <= i < delta.unicast_added@.len() ==> (#[trigger] delta.unicast_added@[i]).0 != key) ==> {
            &&& after.unicast@.contains_key(key) <==> !delta.snapshot && before.unicast@.contains_key(key)
                && !delta.unicast_removed@.contains(key)
            &&& after.unicast@.contains_key(key) ==> after.unicast@[key] == before.unicast@[key]
        },
{
    lemma_applied(before.unicast@, after.unicast@, delta.snapshot, delta.unicast_removed@, delta.unicast_added@, key);
}

/// A change to multicast entries, key by key.
pub proof fn applied_multicast(delta: FdbDelta, before: Fdb, after: Fdb, key: MulticastKey)
    requires
        after@ == applied(before@, delta@),
    ensures
        forall|i: int|
            #![trigger delta.multicast_added@[i]]
            0 <= i < delta.multicast_added@.len() && delta.multicast_added@[i].0 == key && (forall|j: int|
                i < j < delta.multicast_added@.len() ==> (#[trigger] delta.multicast_added@[j]).0 != key)
                ==> after.multicast@.contains_key(key) && after.multicast@[key]@ == delta.multicast_added@[i].1@,
        (forall|i: int| 0 <= i < delta.multicast_added@.len() ==> (#[trigger] delta.multicast_added@[i]).0 != key) ==> {
            &&& after.multicast@.contains_key(key) <==> !delta.snapshot && before.multicast@.contains_key(key)
                && !delta.multicast_removed@.contains(key)
            &&& after.multicast@.contains_key(key) ==> after.multicast@[key]@ == before.multicast@[key]@
        },
{
    lemma_applied(before.multicast@, after.multicast@, delta.snapshot, delta.multicast_removed@, delta.multicast_added@, key);
}

/// A change to service entries, I-SID by I-SID.
pub proof fn applied_services(delta: FdbDelta, before: Fdb, after: Fdb, key: u32)
    requires
        after@ == applied(before@, delta@),
    ensures
        forall|i: int|
            #![trigger delta.services_added@[i]]
            0 <= i < delta.services_added@.len() && delta.services_added@[i].0 == key && (forall|j: int|
                i < j < delta.services_added@.len() ==> (#[trigger] delta.services_added@[j]).0 != key)
                ==> after.services@.contains_key(key) && after.services@[key]@ == delta.services_added@[i].1@,
        (forall|i: int| 0 <= i < delta.services_added@.len() ==> (#[trigger] delta.services_added@[i]).0 != key) ==> {
            &&& after.services@.contains_key(key) <==> !delta.snapshot && before.services@.contains_key(key)
                && !delta.services_removed@.contains(key)
            &&& after.services@.contains_key(key) ==> after.services@[key]@ == before.services@[key]@
        },
{
    lemma_applied(before.services@, after.services@, delta.snapshot, delta.services_removed@, delta.services_added@, key);
}

proof fn lemma_applied<K, E: View>(before: Map<K, E>, after: Map<K, E>, snapshot: bool, gone: Seq<K>, list: Seq<(K, E)>, key: K)
    requires
        contents(after) == patched(
            if snapshot {
                Map::empty()
            } else {
                contents(before)
            },
            gone,
            listed(list),
        ),
    ensures
        forall|i: int|
            #![trigger list[i]]
            0 <= i < list.len() && list[i].0 == key && (forall|j: int| i < j < list.len() ==> (#[trigger] list[j]).0 != key)
                ==> after.contains_key(key) && after[key]@ == list[i].1@,
        (forall|i: int| 0 <= i < list.len() ==> (#[trigger] list[i]).0 != key) ==> {
            &&& after.contains_key(key) <==> !snapshot && before.contains_key(key) && !gone.contains(key)
            &&& after.contains_key(key) ==> after[key]@ == before[key]@
        },
{
    let base = if snapshot {
        Map::empty()
    } else {
        contents(before)
    };
    let texts = listed(list);
    lemma_patched(base, gone, texts, key);
    assert(forall|i: int| 0 <= i < list.len() ==> #[trigger] texts[i] == (list[i].0, list[i].1@));
    assert(contents(after).contains_key(key) <==> after.contains_key(key));
    assert(after.contains_key(key) ==> contents(after)[key] == after[key]@);
    assert(contents(before).contains_key(key) <==> before.contains_key(key));
    assert(before.contains_key(key) ==> contents(before)[key] == before[key]@);
    assert forall|i: int|
        #![trigger list[i]]
        0 <= i < list.len() && list[i].0 == key && (forall|j: int| i < j < list.len() ==> (#[trigger] list[j]).0 != key)
        implies after.contains_key(key) && after[key]@ == list[i].1@ by {
        assert(texts[i].0 == key);
        assert forall|j: int| i < j < texts.len() implies (#[trigger] texts[j]).0 != key by {
            assert(list[j].0 != key);
        }
    }
    if forall|i: int| 0 <= i < list.len() ==> (#[trigger] list[i]).0 != key {
        assert forall|i: int| 0 <= i < texts.len() implies (#[trigger] texts[i]).0 != key by {
            assert(list[i].0 != key);
        }
    }
}

} // verus!
