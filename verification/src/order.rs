//! Sorted sequences of numbers and their lexicographic order.

use vstd::prelude::*;

verus! {

/// The numbers of `s` do not decrease.
pub open spec fn is_sorted(s: Seq<nat>) -> bool {
    forall|i: int, j: int| 0 <= i <= j < s.len() ==> #[trigger] s[i] <= #[trigger] s[j]
}

/// The first `k` numbers of `a` and `b` are the same.
pub open spec fn agree(a: Seq<nat>, b: Seq<nat>, k: int) -> bool {
    &&& 0 <= k <= a.len()
    &&& k <= b.len()
    &&& forall|i: int| 0 <= i < k ==> #[trigger] a[i] == #[trigger] b[i]
}

/// After `k` common numbers, `a` ends or continues with a smaller number.
pub open spec fn falls_below(a: Seq<nat>, b: Seq<nat>, k: int) -> bool {
    &&& agree(a, b, k)
    &&& k < b.len()
    &&& k < a.len() ==> a[k] < b[k]
}

/// `a` comes before `b` in lexicographic order.
pub open spec fn lex_lt(a: Seq<nat>, b: Seq<nat>) -> bool {
    exists|k: int| #[trigger] falls_below(a, b, k)
}

/// `a` comes before `b` in lexicographic order, or is the same.
pub open spec fn lex_le(a: Seq<nat>, b: Seq<nat>) -> bool {
    a == b || lex_lt(a, b)
}

/// No sequence comes before itself.
pub proof fn lemma_lex_irreflexive(a: Seq<nat>)
    ensures
        !lex_lt(a, a),
{
    if lex_lt(a, a) {
        let k = choose|k: int| falls_below(a, a, k);
        assert(falls_below(a, a, k));
    }
}

/// The order is transitive.
pub proof fn lemma_lex_transitive(a: Seq<nat>, b: Seq<nat>, c: Seq<nat>)
    requires
        lex_lt(a, b),
        lex_lt(b, c),
    ensures
        lex_lt(a, c),
{
    let j = choose|k: int| falls_below(a, b, k);
    let k = choose|k: int| falls_below(b, c, k);
    let m = if j <= k { j } else { k };
    assert forall|i: int| 0 <= i < m implies #[trigger] a[i] == #[trigger] c[i] by {
        assert(a[i] == b[i]);
    }
    if m < a.len() && m < b.len() && j > k {
        assert(a[m] == b[m]);
    }
    if m < b.len() && j < k {
        assert(b[m] == c[m]);
    }
    assert(falls_below(a, c, m));
}

/// Of two distinct sequences one comes before the other.
pub proof fn lemma_lex_total(a: Seq<nat>, b: Seq<nat>)
    ensures
        lex_lt(a, b) || a == b || lex_lt(b, a),
{
    lemma_lex_total_from(a, b, 0);
}

proof fn lemma_lex_total_from(a: Seq<nat>, b: Seq<nat>, k: int)
    requires
        agree(a, b, k),
    ensures
        lex_lt(a, b) || a == b || lex_lt(b, a),
    decreases a.len() - k,
{
    if k == a.len() || k == b.len() {
        if k < b.len() {
            assert(falls_below(a, b, k));
        } else if k < a.len() {
            assert(falls_below(b, a, k));
        } else {
            assert(a =~= b);
        }
    } else if a[k] < b[k] {
        assert(falls_below(a, b, k));
    } else if b[k] < a[k] {
        assert(falls_below(b, a, k));
    } else {
        lemma_lex_total_from(a, b, k + 1);
    }
}

/// Two sequences cannot each come before the other.
pub proof fn lemma_lex_asymmetric(a: Seq<nat>, b: Seq<nat>)
    requires
        lex_lt(a, b),
    ensures
        !lex_lt(b, a),
        a != b,
{
    if lex_lt(b, a) {
        lemma_lex_transitive(a, b, a);
    }
    lemma_lex_irreflexive(a);
}

/// The position at which `x` belongs in a sorted sequence, ahead of its equals.
pub open spec fn slot(s: Seq<nat>, x: nat) -> int
    decreases s.len(),
{
    if s.len() == 0 {
        0
    } else if s.last() < x {
        s.len() as int
    } else {
        slot(s.drop_last(), x)
    }
}

/// The sequence with `x` put where it belongs.
pub open spec fn with_number(s: Seq<nat>, x: nat) -> Seq<nat> {
    s.insert(slot(s, x), x)
}

/// Everything ahead of the slot is smaller and nothing behind it is.
pub proof fn lemma_slot(s: Seq<nat>, x: nat)
    requires
        is_sorted(s),
    ensures
        0 <= slot(s, x) <= s.len(),
        forall|i: int| 0 <= i < slot(s, x) ==> #[trigger] s[i] < x,
        forall|i: int| slot(s, x) <= i < s.len() ==> x <= #[trigger] s[i],
    decreases s.len(),
{
    if s.len() > 0 && !(s.last() < x) {
        let t = s.drop_last();
        lemma_slot(t, x);
        assert forall|i: int| 0 <= i < slot(s, x) implies #[trigger] s[i] < x by {
            assert(s[i] == t[i]);
        }
        assert forall|i: int| slot(s, x) <= i < s.len() implies x <= #[trigger] s[i] by {
            if i < s.len() - 1 {
                assert(s[i] == t[i]);
            }
        }
    } else if s.len() > 0 {
        assert forall|i: int| 0 <= i < s.len() implies #[trigger] s[i] < x by {
            assert(s[i] <= s[s.len() - 1]);
        }
    }
}

/// A position with smaller numbers ahead and none behind is the slot.
pub proof fn lemma_slot_unique(s: Seq<nat>, x: nat, p: int)
    requires
        is_sorted(s),
        0 <= p <= s.len(),
        forall|i: int| 0 <= i < p ==> #[trigger] s[i] < x,
        forall|i: int| p <= i < s.len() ==> x <= #[trigger] s[i],
    ensures
        p == slot(s, x),
{
    lemma_slot(s, x);
    let q = slot(s, x);
    if p < q {
        assert(s[p] < x);
    } else if q < p {
        assert(s[q] < x);
    }
}

/// Putting a number where it belongs keeps the sequence sorted, and adds just
/// that number.
pub proof fn lemma_with_number(s: Seq<nat>, x: nat)
    requires
        is_sorted(s),
    ensures
        is_sorted(with_number(s, x)),
        with_number(s, x).len() == s.len() + 1,
        with_number(s, x).to_multiset() == s.to_multiset().insert(x),
{
    lemma_slot(s, x);
    let p = slot(s, x);
    let t = with_number(s, x);
    assert forall|i: int, j: int| 0 <= i <= j < t.len() implies #[trigger] t[i] <= #[trigger] t[j] by {
        let a = if i < p { i } else { i - 1 };
        let b = if j < p { j } else { j - 1 };
        if i == p && j == p {
        } else if i == p {
            assert(x <= s[b]);
        } else if j == p {
            assert(s[a] < x);
        } else {
            assert(s[a] <= s[b]);
        }
    }
    vstd::seq_lib::to_multiset_insert(s, p, x);
}

/// Adding the same number to two sorted sequences of one length keeps their
/// order.
pub proof fn lemma_with_number_monotone(s: Seq<nat>, t: Seq<nat>, x: nat)
    requires
        is_sorted(s),
        is_sorted(t),
        s.len() == t.len(),
        lex_lt(s, t),
    ensures
        lex_lt(with_number(s, x), with_number(t, x)),
{
    let k = choose|k: int| falls_below(s, t, k);
    assert(falls_below(s, t, k));
    lemma_slot(s, x);
    lemma_slot(t, x);
    let p = slot(s, x);
    let q = slot(t, x);
    let u = with_number(s, x);
    let v = with_number(t, x);
    if x <= s[k] {
        assert(p <= k);
        assert(q <= k) by {
            if k < q {
                assert(t[k] < x);
            }
        }
        assert(p == q) by {
            if p < q {
                assert(t[p] < x && s[p] == t[p]);
            } else if q < p {
                assert(s[q] < x && s[q] == t[q]);
            }
        }
        assert(u[k + 1] == s[k]);
        assert(v[k + 1] == t[k]);
        assert(agree(u, v, k + 1)) by {
            assert forall|i: int| 0 <= i < k + 1 implies #[trigger] u[i] == #[trigger] v[i] by {
                if i < p {
                    assert(s[i] == t[i]);
                } else if i > p {
                    assert(s[i - 1] == t[i - 1]);
                }
            }
        }
        assert(falls_below(u, v, k + 1));
    } else {
        assert(k < p);
        assert(k <= q) by {
            if q < k {
                assert(s[q] <= s[k]);
                assert(s[q] == t[q]);
            }
        }
        assert(u[k] == s[k]);
        assert(agree(u, v, k)) by {
            assert forall|i: int| 0 <= i < k implies #[trigger] u[i] == #[trigger] v[i] by {
                assert(s[i] == t[i]);
            }
        }
        if q == k {
            assert(v[k] == x);
        } else {
            assert(v[k] == t[k]);
        }
        assert(falls_below(u, v, k));
    }
}

/// Sorted sequences with the same numbers are equal.
pub proof fn lemma_sorted_same(a: Seq<nat>, b: Seq<nat>)
    requires
        is_sorted(a),
        is_sorted(b),
        a.to_multiset() == b.to_multiset(),
    ensures
        a == b,
{
    let leq = |x: nat, y: nat| x <= y;
    assert(vstd::relations::sorted_by(a, leq));
    assert(vstd::relations::sorted_by(b, leq));
    assert(vstd::relations::total_ordering(leq));
    vstd::seq_lib::lemma_sorted_unique(a, b, leq);
}

} // verus!
