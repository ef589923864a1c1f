//! Ordered maps and sets over keys that embed into the natural numbers.
//!
//! Every key of the forwarding and topology tables is a fixed-width tuple of
//! unsigned fields, so its order is the order of the number its fields spell
//! out. [`Key`] names that number, and [`OrdMap`] keeps its entries sorted by
//! it: walking a map visits the keys in increasing order, each once.

use vstd::prelude::*;

verus! {

/// A key whose order is that of a natural number it determines.
pub trait Key: Copy + Sized {
    /// The number this key is ordered by.
    spec fn ordinal(self) -> nat;

    /// Two keys with the same number are the same key.
    proof fn ordinal_injective(a: Self, b: Self)
        requires
            a.ordinal() == b.ordinal(),
        ensures
            a == b,
    ;

    /// Computes the number this key is ordered by.
    fn ordinal_value(&self) -> (value: u128)
        ensures
            value == self.ordinal(),
    ;
}

impl Key for u16 {
    open spec fn ordinal(self) -> nat {
        self as nat
    }

    proof fn ordinal_injective(a: Self, b: Self) {
    }

    fn ordinal_value(&self) -> (value: u128) {
        *self as u128
    }
}

impl Key for u32 {
    open spec fn ordinal(self) -> nat {
        self as nat
    }

    proof fn ordinal_injective(a: Self, b: Self) {
    }

    fn ordinal_value(&self) -> (value: u128) {
        *self as u128
    }
}

/// The keys of `q` are strictly increasing, so none occurs twice.
pub open spec fn is_ordered<K: Key>(q: Seq<K>) -> bool {
    forall|i: int, j: int| 0 <= i < j < q.len() ==> (#[trigger] q[i]).ordinal() < (#[trigger] q[j]).ordinal()
}

/// The elements of a finite set in increasing order.
pub open spec fn ordered<K: Key>(s: Set<K>) -> Seq<K> {
    choose|q: Seq<K>| is_ordered(q) && #[trigger] q.to_set() == s
}

/// Two increasing sequences with the same elements are equal.
pub proof fn lemma_ordered_unique<K: Key>(a: Seq<K>, b: Seq<K>)
    requires
        is_ordered(a),
        is_ordered(b),
        a.to_set() == b.to_set(),
    ensures
        a == b,
    decreases a.len(),
{
    if a.len() == 0 {
        if b.len() > 0 {
            assert(b.to_set().contains(b[0]));
            assert(a.contains(b[0]));
        }
        assert(a =~= b);
    } else {
        assert(a.to_set().contains(a.last()));
        assert(b.contains(a.last()));
        assert(b.to_set().contains(b.last()));
        assert(a.contains(b.last()));
        let i = choose|i: int| 0 <= i < b.len() && b[i] == a.last();
        let j = choose|j: int| 0 <= j < a.len() && a[j] == b.last();
        assert(a.last().ordinal() == b.last().ordinal()) by {
            if i < b.len() - 1 {
                assert(b[i].ordinal() < b[b.len() - 1].ordinal());
            }
            if j < a.len() - 1 {
                assert(a[j].ordinal() < a[a.len() - 1].ordinal());
            }
        }
        K::ordinal_injective(a.last(), b.last());
        let a1 = a.drop_last();
        let b1 = b.drop_last();
        assert(a1.to_set() =~= b1.to_set()) by {
            assert forall|k: K| a1.to_set().contains(k) implies b1.to_set().contains(k) by {
                let x = choose|x: int| 0 <= x < a1.len() && a1[x] == k;
                assert(a.to_set().contains(a[x]));
                assert(b.contains(k));
                let y = choose|y: int| 0 <= y < b.len() && b[y] == k;
                assert(a[x].ordinal() < a[a.len() - 1].ordinal());
                assert(y != b.len() - 1);
                assert(b1[y] == k);
            }
            assert forall|k: K| b1.to_set().contains(k) implies a1.to_set().contains(k) by {
                let x = choose|x: int| 0 <= x < b1.len() && b1[x] == k;
                assert(b.to_set().contains(b[x]));
                assert(a.contains(k));
                let y = choose|y: int| 0 <= y < a.len() && a[y] == k;
                assert(b[x].ordinal() < b[b.len() - 1].ordinal());
                assert(y != a.len() - 1);
                assert(a1[y] == k);
            }
        }
        lemma_ordered_unique(a1, b1);
        assert(a =~= a1.push(a.last()));
        assert(b =~= b1.push(b.last()));
    }
}

/// An increasing sequence is the ordered form of its set of elements.
pub proof fn lemma_ordered_is<K: Key>(q: Seq<K>)
    requires
        is_ordered(q),
    ensures
        ordered(q.to_set()) == q,
{
    let s = q.to_set();
    let r = ordered(s);
    assert(is_ordered(r) && r.to_set() == s);
    lemma_ordered_unique(r, q);
}

/// An increasing sequence has no duplicates, and as many elements as its set.
pub proof fn lemma_ordered_len<K: Key>(q: Seq<K>)
    requires
        is_ordered(q),
    ensures
        q.no_duplicates(),
        q.to_set().finite(),
        q.to_set().len() == q.len(),
{
    assert forall|i: int, j: int| 0 <= i < q.len() && 0 <= j < q.len() && i != j implies q[i] != q[j] by {
        if i < j {
            assert(q[i].ordinal() < q[j].ordinal());
        } else {
            assert(q[j].ordinal() < q[i].ordinal());
        }
    }
    q.unique_seq_to_set();
}

/// A finite set that is not empty has a greatest key.
proof fn lemma_greatest<K: Key>(s: Set<K>) -> (m: K)
    requires
        s.finite(),
        s.len() > 0,
    ensures
        s.contains(m),
        forall|k: K| #[trigger] s.contains(k) ==> k.ordinal() <= m.ordinal(),
    decreases s.len(),
{
    let a = s.choose();
    let rest = s.remove(a);
    if rest.len() == 0 {
        assert forall|k: K| #[trigger] s.contains(k) implies k.ordinal() <= a.ordinal() by {
            if k != a {
                assert(rest.contains(k));
            }
        }
        a
    } else {
        let b = lemma_greatest(rest);
        let m = if a.ordinal() <= b.ordinal() {
            b
        } else {
            a
        };
        assert forall|k: K| #[trigger] s.contains(k) implies k.ordinal() <= m.ordinal() by {
            if k != a {
                assert(rest.contains(k));
            }
        }
        m
    }
}

/// Every finite set can be put in increasing order.
pub proof fn lemma_ordered_exists<K: Key>(s: Set<K>)
    requires
        s.finite(),
    ensures
        is_ordered(ordered(s)),
        ordered(s).to_set() == s,
        ordered(s).len() == s.len(),
    decreases s.len(),
{
    if s.len() == 0 {
        let q = Seq::<K>::empty();
        assert(q.to_set() =~= s);
        assert(is_ordered(q) && q.to_set() == s);
    } else {
        let m = lemma_greatest(s);
        let rest = s.remove(m);
        lemma_ordered_exists(rest);
        let r = ordered(rest);
        let q = r.push(m);
        lemma_push_set(r, m);
        assert(q.to_set() =~= s);
        assert forall|i: int, j: int| 0 <= i < j < q.len() implies (#[trigger] q[i]).ordinal() < (#[trigger] q[j]).ordinal() by {
            if j == r.len() {
                assert(r.to_set().contains(r[i]));
                assert(s.contains(q[i]));
                if q[i].ordinal() == m.ordinal() {
                    K::ordinal_injective(q[i], m);
                }
            }
        }
        assert(is_ordered(q) && q.to_set() == s);
    }
    lemma_ordered_len(ordered(s));
}

/// Appending to a sequence adds one element to its set.
pub proof fn lemma_push_set<K>(q: Seq<K>, k: K)
    ensures
        q.push(k).to_set() == q.to_set().insert(k),
{
    let r = q.push(k);
    assert(r[q.len() as int] == k);
    assert forall|x: K| q.to_set().contains(x) implies r.to_set().contains(x) by {
        let i = choose|i: int| 0 <= i < q.len() && q[i] == x;
        assert(r[i] == x);
    }
    assert forall|x: K| r.to_set().contains(x) && x != k implies q.to_set().contains(x) by {
        let i = choose|i: int| 0 <= i < r.len() && r[i] == x;
        assert(q[i] == x);
    }
    assert(r.to_set() =~= q.to_set().insert(k));
}

/// A map whose keys are kept sorted.
#[derive(Debug, PartialEq, Eq)]
pub struct OrdMap<K: Key, V> {
    keys: Vec<K>,
    values: Vec<V>,
}

impl<K: Key, V> View for OrdMap<K, V> {
    type V = Map<K, V>;

    closed spec fn view(&self) -> Map<K, V> {
        Map::new(|k: K| self.keys@.contains(k), |k: K| self.values@[self.keys@.index_of(k)])
    }
}

impl<K: Key, V> OrdMap<K, V> {
    #[verifier::type_invariant]
    spec fn sorted(self) -> bool {
        &&& is_ordered(self.keys@)
        &&& self.keys@.len() == self.values@.len()
    }

    proof fn lemma_entry(self, i: int)
        requires
            self.sorted(),
            0 <= i < self.keys@.len(),
        ensures
            self@.contains_key(self.keys@[i]),
            self@[self.keys@[i]] == self.values@[i],
    {
        let q = self.keys@;
        lemma_ordered_len(q);
        assert(q.contains(q[i]));
        let j = q.index_of(q[i]);
        assert(q[j] == q[i]);
    }

    /// Returns an empty map.
    pub fn new() -> (map: Self)
        ensures
            map@ == Map::<K, V>::empty(),
    {
        let map = OrdMap { keys: Vec::new(), values: Vec::new() };
        assert(map@ =~= Map::<K, V>::empty());
        map
    }

    /// A map has finitely many keys.
    pub proof fn lemma_finite(self)
        ensures
            self@.dom().finite(),
    {
        assert(self@.dom() =~= self.keys@.to_set());
        vstd::seq_lib::seq_to_set_is_finite(self.keys@);
    }

    /// Returns the number of keys.
    pub fn len(&self) -> (n: usize)
        ensures
            self@.dom().finite(),
            n == self@.dom().len(),
    {
        proof {
            use_type_invariant(self);
            lemma_ordered_len(self.keys@);
            assert(self.keys@.to_set() =~= self@.dom());
        }
        self.keys.len()
    }

    /// Returns whether the map has no keys.
    pub fn is_empty(&self) -> (b: bool)
        ensures
            b == (self@ == Map::<K, V>::empty()),
            b == self@.dom().is_empty(),
    {
        proof {
            if self.keys@.len() == 0 {
                assert(self@ =~= Map::<K, V>::empty());
            } else {
                use_type_invariant(self);
                self.lemma_entry(0);
            }
        }
        self.keys.len() == 0
    }

    /// Returns the number of keys below `key`, which is where it belongs.
    fn position(&self, key: K) -> (pos: usize)
        ensures
            pos <= self.keys@.len(),
            forall|i: int| 0 <= i < pos ==> (#[trigger] self.keys@[i]).ordinal() < key.ordinal(),
            forall|i: int| pos <= i < self.keys@.len() ==> key.ordinal() <= (#[trigger] self.keys@[i]).ordinal(),
    {
        proof {
            use_type_invariant(self);
        }
        let target: u128 = key.ordinal_value();
        let mut lo: usize = 0;
        let mut hi: usize = self.keys.len();
        while lo < hi
            invariant
                lo <= hi <= self.keys@.len(),
                target == key.ordinal(),
                is_ordered(self.keys@),
                forall|i: int| 0 <= i < lo ==> (#[trigger] self.keys@[i]).ordinal() < key.ordinal(),
                forall|i: int| hi <= i < self.keys@.len() ==> key.ordinal() <= (#[trigger] self.keys@[i]).ordinal(),
            decreases hi - lo,
        {
            let mid: usize = lo + (hi - lo) / 2;
            let value: u128 = self.keys[mid].ordinal_value();
            if value < target {
                lo = mid + 1;
            } else {
                hi = mid;
            }
        }
        lo
    }

    /// Whether `key` is present is decided at the position where it belongs.
    proof fn lemma_lookup(self, key: K, pos: int)
        requires
            self.sorted(),
            0 <= pos <= self.keys@.len(),
            forall|i: int| 0 <= i < pos ==> (#[trigger] self.keys@[i]).ordinal() < key.ordinal(),
            forall|i: int| pos <= i < self.keys@.len() ==> key.ordinal() <= (#[trigger] self.keys@[i]).ordinal(),
        ensures
            self@.contains_key(key) <==> (pos < self.keys@.len() && self.keys@[pos].ordinal() == key.ordinal()),
            self@.contains_key(key) ==> self.keys@[pos] == key && self@[key] == self.values@[pos],
    {
        let q = self.keys@;
        if pos < q.len() && q[pos].ordinal() == key.ordinal() {
            K::ordinal_injective(q[pos], key);
            self.lemma_entry(pos);
        } else if q.contains(key) {
            let i = choose|i: int| 0 <= i < q.len() && q[i] == key;
            if pos < i {
                assert(q[pos].ordinal() < q[i].ordinal());
            }
            assert(false);
        }
    }

    /// Returns the entry of `key`.
    pub fn get(&self, key: &K) -> (value: Option<&V>)
        ensures
            match value {
                Some(v) => self@.contains_key(*key) && *v == self@[*key],
                None => !self@.contains_key(*key),
            },
    {
        let pos: usize = self.position(*key);
        proof {
            use_type_invariant(self);
            self.lemma_lookup(*key, pos as int);
        }
        if pos < self.keys.len() && self.keys[pos].ordinal_value() == key.ordinal_value() {
            Some(&self.values[pos])
        } else {
            None
        }
    }

    /// Returns the entry of `key` for modification in place.
    pub fn get_mut(&mut self, key: &K) -> (value: Option<&mut V>)
        ensures
            match value {
                Some(v) => old(self)@.contains_key(*key) && *v == old(self)@[*key] && final(self)@ == old(self)@.insert(
                    *key,
                    *final(v),
                ),
                None => !old(self)@.contains_key(*key) && final(self)@ == old(self)@,
            },
    {
        let pos: usize = self.position(*key);
        let ghost before = *self;
        proof {
            use_type_invariant(&*self);
            self.lemma_lookup(*key, pos as int);
        }
        if pos < self.keys.len() && self.keys[pos].ordinal_value() == key.ordinal_value() {
            assert forall|after: OrdMap<K, V>, value: V|
                after.keys@ == before.keys@ && after.values@ == #[trigger] before.values@.update(
                    pos as int,
                    value,
                ) implies #[trigger] after@ == before@.insert(*key, value) by {
                lemma_update_contents(before, after, pos as int, *key, value);
            }
            Some(&mut self.values[pos])
        } else {
            None
        }
    }

    /// Returns whether `key` has an entry.
    pub fn contains_key(&self, key: &K) -> (b: bool)
        ensures
            b == self@.contains_key(*key),
    {
        self.get(key).is_some()
    }

    /// Returns the keys in increasing order.
    pub fn keys(&self) -> (keys: Vec<K>)
        ensures
            keys@ == ordered(self@.dom()),
            is_ordered(keys@),
            keys@.no_duplicates(),
            keys@.to_set() == self@.dom(),
            self@.dom().finite(),
            keys@.len() == self@.dom().len(),
            forall|i: int| 0 <= i < keys@.len() ==> self@.contains_key(#[trigger] keys@[i]),
    {
        proof {
            use_type_invariant(self);
        }
        let mut keys: Vec<K> = Vec::new();
        let n: usize = self.keys.len();
        for i in 0..n
            invariant
                n == self.keys@.len(),
                keys@ == self.keys@.take(i as int),
        {
            keys.push(self.keys[i]);
            assert(self.keys@.take(i + 1) =~= self.keys@.take(i as int).push(self.keys@[i as int]));
        }
        proof {
            let q = self.keys@;
            assert(q.take(n as int) =~= q);
            assert(q.to_set() =~= self@.dom());
            lemma_ordered_is(q);
            lemma_ordered_len(q);
        }
        keys
    }

    /// Sets the entry of `key`.
    pub fn insert(&mut self, key: K, value: V)
        ensures
            final(self)@ == old(self)@.insert(key, value),
    {
        let pos: usize = self.position(key);
        let ghost before = *self;
        proof {
            use_type_invariant(&*self);
            self.lemma_lookup(key, pos as int);
        }
        if pos < self.keys.len() && self.keys[pos].ordinal_value() == key.ordinal_value() {
            self.values[pos] = value;
            proof {
                lemma_update_contents(before, *self, pos as int, key, value);
            }
        } else {
            let mut map: OrdMap<K, V> = OrdMap::new();
            std::mem::swap(&mut map, self);
            let OrdMap { mut keys, mut values } = map;
            keys.insert(pos, key);
            values.insert(pos, value);
            proof {
                let p = before.keys@;
                let q = keys@;
                assert(q =~= p.insert(pos as int, key));
                assert forall|i: int, j: int| 0 <= i < j < q.len() implies (#[trigger] q[i]).ordinal() < (#[trigger] q[j]).ordinal() by {
                    let a = if i < pos { i } else { i - 1 };
                    let b = if j < pos { j } else { j - 1 };
                    if i != pos && j != pos {
                        assert(p[a].ordinal() < p[b].ordinal());
                    } else if i == pos {
                        assert(p[b].ordinal() >= key.ordinal());
                        if b > pos {
                            assert(p[pos as int].ordinal() < p[b].ordinal());
                        }
                    } else {
                        assert(p[a].ordinal() < key.ordinal());
                    }
                }
            }
            *self = OrdMap { keys, values };
            proof {
                lemma_insert_contents(before, *self, pos as int, key, value);
            }
        }
    }

    /// Removes the entry of `key`, if it has one.
    pub fn remove(&mut self, key: &K)
        ensures
            final(self)@ == old(self)@.remove(*key),
    {
        let pos: usize = self.position(*key);
        let ghost before = *self;
        proof {
            use_type_invariant(&*self);
            self.lemma_lookup(*key, pos as int);
        }
        if pos < self.keys.len() && self.keys[pos].ordinal_value() == key.ordinal_value() {
            let mut map: OrdMap<K, V> = OrdMap::new();
            std::mem::swap(&mut map, self);
            let OrdMap { mut keys, mut values } = map;
            keys.remove(pos);
            values.remove(pos);
            proof {
                let p = before.keys@;
                let q = keys@;
                assert(q =~= p.remove(pos as int));
                assert forall|i: int, j: int| 0 <= i < j < q.len() implies (#[trigger] q[i]).ordinal() < (#[trigger] q[j]).ordinal() by {
                    let a = if i < pos { i } else { i + 1 };
                    let b = if j < pos { j } else { j + 1 };
                    assert(p[a].ordinal() < p[b].ordinal());
                }
            }
            *self = OrdMap { keys, values };
            proof {
                lemma_remove_contents(before, *self, pos as int, *key);
            }
        } else {
            assert(self@ =~= before@.remove(*key));
        }
    }
}

proof fn lemma_update_contents<K: Key, V>(before: OrdMap<K, V>, after: OrdMap<K, V>, pos: int, key: K, value: V)
    requires
        before.sorted(),
        0 <= pos < before.keys@.len(),
        before.keys@[pos] == key,
        after.keys@ == before.keys@,
        after.values@ == before.values@.update(pos, value),
    ensures
        after@ == before@.insert(key, value),
{
    assert forall|k: K| #[trigger] after@.contains_key(k) implies after@[k] == before@.insert(key, value)[k] by {
        let i = after.keys@.index_of(k);
        assert(after.keys@[i] == k);
        before.lemma_entry(i);
        after.lemma_entry(i);
        before.lemma_entry(pos);
        after.lemma_entry(pos);
    }
    before.lemma_entry(pos);
    assert(after@ =~= before@.insert(key, value));
}

proof fn lemma_insert_contents<K: Key, V>(before: OrdMap<K, V>, after: OrdMap<K, V>, pos: int, key: K, value: V)
    requires
        before.sorted(),
        after.sorted(),
        0 <= pos <= before.keys@.len(),
        after.keys@ == before.keys@.insert(pos, key),
        after.values@ == before.values@.insert(pos, value),
    ensures
        after@ == before@.insert(key, value),
{
    after.lemma_entry(pos);
    assert forall|k: K| before@.contains_key(k) && k != key implies #[trigger] after@.contains_key(k) && after@[k] == before@[k] by {
        let i = before.keys@.index_of(k);
        assert(before.keys@[i] == k);
        let j = if i < pos { i } else { i + 1 };
        before.lemma_entry(i);
        assert(after.keys@[j] == k && after.values@[j] == before.values@[i]);
        after.lemma_entry(j);
    }
    assert forall|k: K| #[trigger] after@.contains_key(k) && k != key implies before@.contains_key(k) by {
        let j = after.keys@.index_of(k);
        assert(after.keys@[j] == k);
        let i = if j < pos { j } else { j - 1 };
        assert(before.keys@[i] == k);
        before.lemma_entry(i);
    }
    assert(after@ =~= before@.insert(key, value));
}

proof fn lemma_remove_contents<K: Key, V>(before: OrdMap<K, V>, after: OrdMap<K, V>, pos: int, key: K)
    requires
        before.sorted(),
        after.sorted(),
        0 <= pos < before.keys@.len(),
        before.keys@[pos] == key,
        after.keys@ == before.keys@.remove(pos),
        after.values@ == before.values@.remove(pos),
    ensures
        after@ == before@.remove(key),
{
    lemma_ordered_len(before.keys@);
    assert forall|k: K| before@.contains_key(k) && k != key implies #[trigger] after@.contains_key(k) && after@[k] == before@[k] by {
        let i = before.keys@.index_of(k);
        assert(before.keys@[i] == k);
        let j = if i < pos { i } else { i - 1 };
        before.lemma_entry(i);
        assert(after.keys@[j] == k && after.values@[j] == before.values@[i]);
        after.lemma_entry(j);
    }
    assert forall|k: K| #[trigger] after@.contains_key(k) implies k != key && before@.contains_key(k) by {
        let j = after.keys@.index_of(k);
        assert(after.keys@[j] == k);
        let i = if j < pos { j } else { j + 1 };
        assert(before.keys@[i] == k);
        before.lemma_entry(i);
    }
    assert(after@ =~= before@.remove(key));
}

impl<K: Key, V: Clone> Clone for OrdMap<K, V> {
    fn clone(&self) -> (map: Self)
        ensures
            map@.dom() == self@.dom(),
            forall|k: K| #[trigger] map@.contains_key(k) ==> cloned::<V>(self@[k], map@[k]),
    {
        let keys = self.keys();
        let mut map: OrdMap<K, V> = OrdMap::new();
        for i in 0..keys.len()
            invariant
                forall|j: int| 0 <= j < keys@.len() ==> self@.contains_key(#[trigger] keys@[j]),
                map@.dom() == keys@.take(i as int).to_set(),
                forall|k: K| #[trigger] map@.contains_key(k) ==> cloned::<V>(self@[k], map@[k]),
        {
            assert(self@.contains_key(keys@[i as int]));
            if let Some(value) = self.get(&keys[i]) {
                map.insert(keys[i], value.clone());
            }
            proof {
                assert(keys@.take(i + 1) =~= keys@.take(i as int).push(keys@[i as int]));
                keys@.take(i as int).lemma_push_to_set_commute(keys@[i as int]);
                assert(map@.dom() =~= keys@.take(i + 1).to_set());
            }
        }
        assert(keys@.take(keys@.len() as int) =~= keys@);
        map
    }
}

impl<K: Key, V> Default for OrdMap<K, V> {
    /// Returns an empty map.
    fn default() -> (map: Self)
        ensures
            map@ == Map::<K, V>::empty(),
    {
        OrdMap::new()
    }
}

/// A set whose elements are kept sorted.
#[derive(Debug, PartialEq, Eq)]
pub struct OrdSet<K: Key> {
    map: OrdMap<K, ()>,
}

impl<K: Key> View for OrdSet<K> {
    type V = Set<K>;

    closed spec fn view(&self) -> Set<K> {
        self.map@.dom()
    }
}

impl<K: Key> Default for OrdSet<K> {
    /// Returns an empty set.
    fn default() -> (set: Self)
        ensures
            set@ == Set::<K>::empty(),
    {
        OrdSet::new()
    }
}

impl<K: Key> OrdSet<K> {
    /// A set has finitely many elements.
    pub proof fn lemma_finite(self)
        ensures
            self@.finite(),
    {
        self.map.lemma_finite();
    }

    /// Returns an empty set.
    pub fn new() -> (set: Self)
        ensures
            set@ == Set::<K>::empty(),
    {
        OrdSet { map: OrdMap::new() }
    }

    /// Returns the number of elements.
    pub fn len(&self) -> (n: usize)
        ensures
            self@.finite(),
            n == self@.len(),
    {
        self.map.len()
    }

    /// Returns whether the set has no elements.
    pub fn is_empty(&self) -> (b: bool)
        ensures
            b == (self@ == Set::<K>::empty()),
    {
        let b = self.map.is_empty();
        proof {
            if self@ == Set::<K>::empty() {
                assert(self.map@ =~= Map::<K, ()>::empty());
            }
        }
        b
    }

    /// Returns whether `key` is an element.
    pub fn contains(&self, key: &K) -> (b: bool)
        ensures
            b == self@.contains(*key),
    {
        self.map.contains_key(key)
    }

    /// Adds an element, and returns whether it was not one before.
    pub fn insert(&mut self, key: K) -> (added: bool)
        ensures
            final(self)@ == old(self)@.insert(key),
            added == !old(self)@.contains(key),
    {
        let present = self.map.contains_key(&key);
        self.map.insert(key, ());
        assert(self@ =~= old(self)@.insert(key));
        !present
    }

    /// Removes every element.
    pub fn clear(&mut self)
        ensures
            final(self)@ == Set::<K>::empty(),
    {
        self.map = OrdMap::new();
    }

    /// Returns the elements in increasing order.
    pub fn to_vec(&self) -> (elements: Vec<K>)
        ensures
            elements@ == ordered(self@),
            is_ordered(elements@),
            elements@.no_duplicates(),
            elements@.to_set() == self@,
            self@.finite(),
            elements@.len() == self@.len(),
            forall|i: int| 0 <= i < elements@.len() ==> self@.contains(#[trigger] elements@[i]),
    {
        self.map.keys()
    }

    /// Returns whether both sets have the same elements.
    pub fn same(&self, other: &Self) -> (b: bool)
        ensures
            b == (self@ == other@),
    {
        let a = self.to_vec();
        let b = other.to_vec();
        if a.len() != b.len() {
            return false;
        }
        for i in 0..a.len()
            invariant
                a@.len() == b@.len(),
                a@ == ordered(self@),
                b@ == ordered(other@),
                forall|j: int| 0 <= j < i ==> a@[j] == b@[j],
        {
            if a[i].ordinal_value() != b[i].ordinal_value() {
                return false;
            }
            proof {
                K::ordinal_injective(a@[i as int], b@[i as int]);
            }
        }
        assert(a@ =~= b@);
        true
    }
}

impl<K: Key> Clone for OrdSet<K> {
    /// Returns a set with the same elements.
    fn clone(&self) -> (set: Self)
        ensures
            set@ == self@,
    {
        let elements = self.to_vec();
        let mut set = OrdSet::new();
        for i in 0..elements.len()
            invariant
                set@ == elements@.take(i as int).to_set(),
        {
            set.insert(elements[i]);
            proof {
                assert(elements@.take(i + 1) =~= elements@.take(i as int).push(elements@[i as int]));
                elements@.take(i as int).lemma_push_to_set_commute(elements@[i as int]);
            }
        }
        assert(elements@.take(elements@.len() as int) =~= elements@);
        set
    }
}

} // verus!
