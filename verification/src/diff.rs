//! Differences between two tables, and their application.

use vstd::prelude::*;

use crate::ordmap::{is_ordered, lemma_ordered_exists, lemma_ordered_is, lemma_push_set, ordered, Key, OrdMap};

verus! {

/// A table entry, which is known by its view.
pub trait Entry: View + Sized {
    /// Returns whether both entries say the same.
    fn same(&self, other: &Self) -> (b: bool)
        ensures
            b == (self@ == other@),
    ;

    /// Returns an entry that says the same.
    fn duplicate(&self) -> (entry: Self)
        ensures
            entry@ == self@,
    ;
}

/// What a table says.
pub open spec fn contents<K, E: View>(table: Map<K, E>) -> Map<K, E::V> {
    table.map_values(|entry: E| entry@)
}

/// What a list of keys and entries says.
pub open spec fn listed<K, E: View>(list: Seq<(K, E)>) -> Seq<(K, E::V)> {
    list.map_values(|pair: (K, E)| (pair.0, pair.1@))
}

/// The keys under which `now` says something that `before` does not.
pub open spec fn changed_keys<K, S>(now: Map<K, S>, before: Map<K, S>) -> Set<K> {
    Set::new(|k: K| now.contains_key(k) && !(before.contains_key(k) && before[k] == now[k]))
}

/// Keys with what a table says under them.
pub open spec fn entries_at<K, S>(table: Map<K, S>, keys: Seq<K>) -> Seq<(K, S)> {
    keys.map_values(|k: K| (k, table[k]))
}

/// What `now` says that `before` does not, in the order of the keys.
pub open spec fn added<K: Key, S>(now: Map<K, S>, before: Map<K, S>) -> Seq<(K, S)> {
    entries_at(now, ordered(changed_keys(now, before)))
}

/// The keys that `before` has and `now` has not, in order.
pub open spec fn removed<K: Key, S>(now: Map<K, S>, before: Map<K, S>) -> Seq<K> {
    ordered(before.dom().difference(now.dom()))
}

/// A table without some keys.
pub open spec fn without_keys<K, S>(table: Map<K, S>, keys: Seq<K>) -> Map<K, S>
    decreases keys.len(),
{
    if keys.len() == 0 {
        table
    } else {
        without_keys(table, keys.drop_last()).remove(keys.last())
    }
}

/// A table with some entries put in, a later one replacing an earlier one
/// under the same key.
pub open spec fn with_entries<K, S>(table: Map<K, S>, list: Seq<(K, S)>) -> Map<K, S>
    decreases list.len(),
{
    if list.len() == 0 {
        table
    } else {
        with_entries(table, list.drop_last()).insert(list.last().0, list.last().1)
    }
}

/// A table after a difference has been applied to it.
pub open spec fn patched<K, S>(table: Map<K, S>, gone: Seq<K>, list: Seq<(K, S)>) -> Map<K, S> {
    with_entries(without_keys(table, gone), list)
}

proof fn lemma_without_keys<K, S>(table: Map<K, S>, keys: Seq<K>)
    ensures
        without_keys(table, keys) == table.remove_keys(keys.to_set()),
    decreases keys.len(),
{
    if keys.len() > 0 {
        let q = keys.drop_last();
        lemma_without_keys(table, q);
        lemma_push_set(q, keys.last());
        assert(keys =~= q.push(keys.last()));
    }
    assert(without_keys(table, keys) =~= table.remove_keys(keys.to_set()));
}

/// Entries with increasing keys all end up in the table.
proof fn lemma_with_entries<K: Key, S>(table: Map<K, S>, keys: Seq<K>, now: Map<K, S>)
    requires
        is_ordered(keys),
    ensures
        with_entries(table, entries_at(now, keys)).dom() == table.dom().union(keys.to_set()),
        forall|k: K| #[trigger]
            with_entries(table, entries_at(now, keys))[k] == (if keys.contains(k) {
                now[k]
            } else {
                table[k]
            }),
    decreases keys.len(),
{
    let list = entries_at(now, keys);
    let t = with_entries(table, list);
    if keys.len() == 0 {
        assert(t.dom() =~= table.dom().union(keys.to_set()));
    } else {
        let q = keys.drop_last();
        let last = keys.last();
        lemma_with_entries(table, q, now);
        assert(list.drop_last() =~= entries_at(now, q));
        lemma_push_set(q, last);
        assert(keys =~= q.push(last));
        assert(t.dom() =~= table.dom().union(keys.to_set()));
        assert forall|k: K| #[trigger] t[k] == (if keys.contains(k) {
            now[k]
        } else {
            table[k]
        }) by {
            if k != last {
                assert(q.contains(k) <==> keys.contains(k)) by {
                    assert(q.to_set().contains(k) <==> keys.to_set().contains(k));
                }
                assert(with_entries(table, entries_at(now, q))[k] == (if q.contains(k) {
                    now[k]
                } else {
                    table[k]
                }));
            } else {
                assert(keys[keys.len() - 1] == last);
            }
        }
    }
}

/// Applying the difference between two tables to the first gives the second.
pub proof fn patch_restores<K: Key, S>(now: Map<K, S>, before: Map<K, S>)
    requires
        now.dom().finite(),
        before.dom().finite(),
    ensures
        patched(before, removed(now, before), added(now, before)) == now,
{
    let gone = before.dom().difference(now.dom());
    let fresh = changed_keys(now, before);
    assert(gone.subset_of(before.dom()));
    assert(fresh.subset_of(now.dom()));
    vstd::set_lib::lemma_len_subset(gone, before.dom());
    vstd::set_lib::lemma_len_subset(fresh, now.dom());
    lemma_ordered_exists(gone);
    lemma_ordered_exists(fresh);
    let kept = without_keys(before, ordered(gone));
    lemma_without_keys(before, ordered(gone));
    lemma_with_entries(kept, ordered(fresh), now);
    let result = patched(before, removed(now, before), added(now, before));
    assert(result.dom() =~= now.dom());
    assert forall|k: K| result.dom().contains(k) implies result[k] == now[k] by {
        assert(ordered(fresh).contains(k) <==> fresh.contains(k)) by {
            assert(ordered(fresh).to_set().contains(k) <==> fresh.contains(k));
        }
    }
    assert(result =~= now);
}

/// A difference is empty just when the tables say the same.
pub proof fn patch_empty_iff_same<K: Key, S>(now: Map<K, S>, before: Map<K, S>)
    requires
        now.dom().finite(),
        before.dom().finite(),
    ensures
        added(now, before).len() == 0 && removed(now, before).len() == 0 <==> now == before,
{
    let gone = before.dom().difference(now.dom());
    let fresh = changed_keys(now, before);
    assert(gone.subset_of(before.dom()));
    assert(fresh.subset_of(now.dom()));
    vstd::set_lib::lemma_len_subset(gone, before.dom());
    vstd::set_lib::lemma_len_subset(fresh, now.dom());
    lemma_ordered_exists(gone);
    lemma_ordered_exists(fresh);
    if now == before {
        assert(gone =~= Set::empty());
        assert(fresh =~= Set::empty());
    } else if gone.len() == 0 && fresh.len() == 0 {
        assert(gone =~= Set::empty());
        assert(fresh =~= Set::empty());
        assert forall|k: K| now.dom().contains(k) <==> before.dom().contains(k) by {
            assert(!gone.contains(k) && !fresh.contains(k));
        }
        assert forall|k: K| now.dom().contains(k) implies now[k] == before[k] by {
            assert(!fresh.contains(k));
        }
        assert(now =~= before);
    }
}

/// Returns what `now` says that `before` does not.
pub fn added_entries<K: Key, E: Entry>(now: &OrdMap<K, E>, before: &OrdMap<K, E>) -> (list: Vec<(K, E)>)
    ensures
        listed(list@) == added(contents(now@), contents(before@)),
{
    let keys = now.keys();
    let ghost a = contents(now@);
    let ghost b = contents(before@);
    let mut list: Vec<(K, E)> = Vec::new();
    let ghost mut ids: Seq<K> = Seq::empty();
    assert(listed(list@) =~= entries_at(a, ids));
    for i in 0..keys.len()
        invariant
            a == contents(now@),
            b == contents(before@),
            is_ordered(keys@),
            keys@.to_set() == now@.dom(),
            forall|j: int| 0 <= j < keys@.len() ==> now@.contains_key(#[trigger] keys@[j]),
            is_ordered(ids),
            listed(list@) == entries_at(a, ids),
            forall|j: int|
                0 <= j < ids.len() ==> changed_keys(a, b).contains(#[trigger] ids[j]) && (i < keys@.len() ==> ids[j].ordinal()
                    < keys@[i as int].ordinal()),
            forall|j: int| 0 <= j < i && changed_keys(a, b).contains(#[trigger] keys@[j]) ==> ids.contains(keys@[j]),
    {
        let key = keys[i];
        let ghost had = list@;
        let ghost had_ids = ids;
        assert(now@.contains_key(keys@[i as int]));
        if let Some(entry) = now.get(&key) {
            let unchanged = match before.get(&key) {
                Some(old_entry) => old_entry.same(entry),
                None => false,
            };
            if !unchanged {
                list.push((key, entry.duplicate()));
                proof {
                    ids = ids.push(key);
                    assert(listed(list@) =~= listed(had).push((key, entry@)));
                    assert(entries_at(a, ids) =~= entries_at(a, had_ids).push((key, a[key])));
                    assert(ids[had_ids.len() as int] == key);
                    assert forall|k: K| had_ids.contains(k) implies ids.contains(k) by {
                        let p = choose|p: int| 0 <= p < had_ids.len() && had_ids[p] == k;
                        assert(ids[p] == k);
                    }
                }
            }
        }
        assert(i + 1 < keys@.len() ==> keys@[i as int].ordinal() < keys@[i + 1].ordinal());
    }
    proof {
        let fresh = changed_keys(a, b);
        assert(ids.to_set() =~= fresh) by {
            assert forall|k: K| fresh.contains(k) implies ids.to_set().contains(k) by {
                assert(keys@.to_set().contains(k));
                let p = choose|p: int| 0 <= p < keys@.len() && keys@[p] == k;
                assert(ids.contains(keys@[p]));
            }
        }
        lemma_ordered_is(ids);
    }
    list
}

/// Returns the keys that `before` has and `now` has not.
pub fn removed_keys<K: Key, E: Entry>(now: &OrdMap<K, E>, before: &OrdMap<K, E>) -> (ids: Vec<K>)
    ensures
        ids@ == removed(contents(now@), contents(before@)),
{
    let keys = before.keys();
    let ghost gone = before@.dom().difference(now@.dom());
    let mut ids: Vec<K> = Vec::new();
    for i in 0..keys.len()
        invariant
            gone == before@.dom().difference(now@.dom()),
            is_ordered(keys@),
            forall|j: int| 0 <= j < keys@.len() ==> before@.contains_key(#[trigger] keys@[j]),
            is_ordered(ids@),
            forall|j: int|
                0 <= j < ids@.len() ==> gone.contains(#[trigger] ids@[j]) && (i < keys@.len() ==> ids@[j].ordinal()
                    < keys@[i as int].ordinal()),
            forall|j: int| 0 <= j < i && gone.contains(#[trigger] keys@[j]) ==> ids@.contains(keys@[j]),
    {
        let key = keys[i];
        let ghost had = ids@;
        assert(before@.contains_key(keys@[i as int]));
        if !now.contains_key(&key) {
            ids.push(key);
            proof {
                assert(ids@[had.len() as int] == key);
                assert forall|k: K| had.contains(k) implies ids@.contains(k) by {
                    let p = choose|p: int| 0 <= p < had.len() && had[p] == k;
                    assert(ids@[p] == k);
                }
            }
        }
        assert(i + 1 < keys@.len() ==> keys@[i as int].ordinal() < keys@[i + 1].ordinal());
    }
    proof {
        assert(ids@.to_set() =~= gone) by {
            assert forall|k: K| gone.contains(k) implies ids@.to_set().contains(k) by {
                assert(keys@.to_set().contains(k));
                let p = choose|p: int| 0 <= p < keys@.len() && keys@[p] == k;
                assert(ids@.contains(keys@[p]));
            }
        }
        lemma_ordered_is(ids@);
        assert(contents(before@).dom().difference(contents(now@).dom()) =~= gone);
    }
    ids
}

/// Takes keys out of a table and puts entries in.
pub fn patch<K: Key, E: Entry>(table: &mut OrdMap<K, E>, gone: &Vec<K>, list: &Vec<(K, E)>)
    ensures
        contents(final(table)@) == patched(contents(old(table)@), gone@, listed(list@)),
{
    let ghost before = contents(table@);
    assert(gone@.take(0) =~= Seq::empty());
    for i in 0..gone.len()
        invariant
            contents(table@) == without_keys(before, gone@.take(i as int)),
    {
        let ghost was = table@;
        table.remove(&gone[i]);
        proof {
            let now = gone@.take(i + 1);
            assert(now.drop_last() =~= gone@.take(i as int));
            assert(contents(table@) =~= contents(was).remove(gone@[i as int]));
        }
    }
    assert(gone@.take(gone@.len() as int) =~= gone@);
    let ghost kept = contents(table@);
    assert(listed(list@).take(0) =~= Seq::empty());
    for i in 0..list.len()
        invariant
            contents(table@) == with_entries(kept, listed(list@).take(i as int)),
    {
        let ghost was = table@;
        table.insert(list[i].0, list[i].1.duplicate());
        proof {
            let now = listed(list@).take(i + 1);
            assert(now.drop_last() =~= listed(list@).take(i as int));
            assert(now.last() == (list@[i as int].0, list@[i as int].1@));
            assert(contents(table@) =~= contents(was).insert(list@[i as int].0, list@[i as int].1@));
        }
    }
    assert(listed(list@).take(list@.len() as int) =~= listed(list@));
}

/// Returns a table that says the same.
pub fn copy_table<K: Key, E: Entry>(table: &OrdMap<K, E>) -> (copy: OrdMap<K, E>)
    ensures
        contents(copy@) == contents(table@),
{
    let keys = table.keys();
    let mut copy: OrdMap<K, E> = OrdMap::new();
    for i in 0..keys.len()
        invariant
            forall|j: int| 0 <= j < keys@.len() ==> table@.contains_key(#[trigger] keys@[j]),
            forall|k: K| #[trigger] copy@.contains_key(k) ==> table@.contains_key(k) && copy@[k]@ == table@[k]@,
            forall|j: int| 0 <= j < i ==> copy@.contains_key(#[trigger] keys@[j]),
    {
        assert(table@.contains_key(keys@[i as int]));
        if let Some(entry) = table.get(&keys[i]) {
            copy.insert(keys[i], entry.duplicate());
        }
    }
    proof {
        assert forall|k: K| table@.dom().contains(k) implies copy@.dom().contains(k) by {
            assert(keys@.to_set().contains(k));
            let j = choose|j: int| 0 <= j < keys@.len() && keys@[j] == k;
            assert(copy@.contains_key(keys@[j]));
        }
        assert forall|k: K| contents(copy@).dom().contains(k) <==> contents(table@).dom().contains(k) by {
            assert(copy@.contains_key(k) ==> table@.contains_key(k));
        }
        assert forall|k: K| contents(copy@).dom().contains(k) implies contents(copy@)[k] == contents(table@)[k] by {
            assert(copy@.contains_key(k));
        }
        assert(contents(copy@) =~= contents(table@));
    }
    copy
}

/// Returns a list of keys and entries that says the same.
pub fn copy_list<K: Key, E: Entry>(list: &Vec<(K, E)>) -> (copy: Vec<(K, E)>)
    ensures
        listed(copy@) == listed(list@),
{
    let mut copy: Vec<(K, E)> = Vec::new();
    for i in 0..list.len()
        invariant
            copy@.len() == i,
            forall|j: int| 0 <= j < i ==> (#[trigger] copy@[j]).0 == list@[j].0 && copy@[j].1@ == list@[j].1@,
    {
        copy.push((list[i].0, list[i].1.duplicate()));
    }
    assert(listed(copy@) =~= listed(list@));
    copy
}

/// Returns a list of the same keys.
pub fn copy_keys<K: Key>(keys: &Vec<K>) -> (copy: Vec<K>)
    ensures
        copy@ == keys@,
{
    let mut copy: Vec<K> = Vec::new();
    for i in 0..keys.len()
        invariant
            copy@.len() == i,
            forall|j: int| 0 <= j < i ==> #[trigger] copy@[j] == keys@[j],
    {
        copy.push(keys[i]);
    }
    assert(copy@ =~= keys@);
    copy
}

} // verus!
