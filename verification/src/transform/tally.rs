//! Counting equal entries of a sequence, with and without a set of claimed
//! positions. First-fit matching of two sequences is stated and proved over
//! these counts.
use vstd::prelude::*;

verus! {

/// How many entries of `s` equal `k`.
pub open spec fn occurrences<K>(s: Seq<K>, k: K) -> nat
    decreases s.len(),
{
    if s.len() == 0 {
        0
    } else {
        occurrences(s.drop_last(), k) + if s.last() == k {
            1nat
        } else {
            0nat
        }
    }
}

/// How many entries of `s` equal `k` at positions that `claimed` marks.
pub open spec fn claimed_occurrences<K>(s: Seq<K>, claimed: Seq<bool>, k: K) -> nat
    recommends
        claimed.len() == s.len(),
    decreases s.len(),
{
    if s.len() == 0 {
        0
    } else {
        claimed_occurrences(s.drop_last(), claimed.drop_last(), k) + if claimed.last() && s.last()
            == k {
            1nat
        } else {
            0nat
        }
    }
}

/// Entry `i` of `a` finds no partner in `b`: counting it, `a` has used its
/// value more often up to `i` than `b` holds it.
pub open spec fn surplus_at<K>(a: Seq<K>, b: Seq<K>, i: int) -> bool {
    occurrences(a.take(i + 1), a[i]) > occurrences(b, a[i])
}

/// The first position of `a`, from `i` on, that finds no partner in `b`.
pub open spec fn first_surplus_from<K>(a: Seq<K>, b: Seq<K>, i: int) -> Option<int>
    decreases a.len() - i,
{
    if i < 0 || i >= a.len() {
        None
    } else if surplus_at(a, b, i) {
        Some(i)
    } else {
        first_surplus_from(a, b, i + 1)
    }
}

/// The first position of `a` that finds no partner in `b`, if there is one.
pub open spec fn first_surplus<K>(a: Seq<K>, b: Seq<K>) -> Option<int> {
    first_surplus_from(a, b, 0)
}

/// Taking one more entry of `a` adds one to the count of that entry's value
/// and leaves the other counts alone.
pub proof fn lemma_occurrences_step<K>(a: Seq<K>, i: int, k: K)
    requires
        0 <= i < a.len(),
    ensures
        occurrences(a.take(i + 1), k) == occurrences(a.take(i), k) + if a[i] == k {
            1nat
        } else {
            0nat
        },
{
    assert(a.take(i + 1).drop_last() =~= a.take(i));
}

/// A prefix holds a value at most as often as the whole sequence.
pub proof fn lemma_occurrences_prefix<K>(a: Seq<K>, i: int, k: K)
    requires
        0 <= i <= a.len(),
    ensures
        occurrences(a.take(i), k) <= occurrences(a, k),
    decreases a.len() - i,
{
    if i == a.len() {
        assert(a.take(i) =~= a);
    } else {
        lemma_occurrences_step(a, i, k);
        lemma_occurrences_prefix(a, i + 1, k);
    }
}

/// With nothing claimed, no value is claimed.
pub proof fn lemma_nothing_claimed<K>(s: Seq<K>, claimed: Seq<bool>, k: K)
    requires
        claimed.len() == s.len(),
        forall|j: int| 0 <= j < claimed.len() ==> !claimed[j],
    ensures
        claimed_occurrences(s, claimed, k) == 0,
    decreases s.len(),
{
    if s.len() > 0 {
        lemma_nothing_claimed(s.drop_last(), claimed.drop_last(), k);
    }
}

/// Claiming a free position adds one to the claimed count of its value and
/// leaves the other counts alone.
pub proof fn lemma_claim<K>(s: Seq<K>, claimed: Seq<bool>, j: int, k: K)
    requires
        claimed.len() == s.len(),
        0 <= j < s.len(),
        !claimed[j],
    ensures
        claimed_occurrences(s, claimed.update(j, true), k) == claimed_occurrences(s, claimed, k)
            + if s[j] == k {
            1nat
        } else {
            0nat
        },
    decreases s.len(),
{
    let after = claimed.update(j, true);
    if j == s.len() - 1 {
        assert(after.drop_last() =~= claimed.drop_last());
    } else {
        assert(after.drop_last() =~= claimed.drop_last().update(j, true));
        lemma_claim(s.drop_last(), claimed.drop_last(), j, k);
    }
}

/// No more entries of a value are claimed than there are.
pub proof fn lemma_claimed_at_most<K>(s: Seq<K>, claimed: Seq<bool>, k: K)
    requires
        claimed.len() == s.len(),
    ensures
        claimed_occurrences(s, claimed, k) <= occurrences(s, k),
    decreases s.len(),
{
    if s.len() > 0 {
        lemma_claimed_at_most(s.drop_last(), claimed.drop_last(), k);
    }
}

/// While an entry of a value is free, fewer are claimed than there are.
pub proof fn lemma_free_entry<K>(s: Seq<K>, claimed: Seq<bool>, j: int, k: K)
    requires
        claimed.len() == s.len(),
        0 <= j < s.len(),
        !claimed[j],
        s[j] == k,
    ensures
        claimed_occurrences(s, claimed, k) < occurrences(s, k),
    decreases s.len(),
{
    if j == s.len() - 1 {
        lemma_claimed_at_most(s.drop_last(), claimed.drop_last(), k);
    } else {
        lemma_free_entry(s.drop_last(), claimed.drop_last(), j, k);
    }
}

/// Once every entry of a value is claimed, as many are claimed as there are.
pub proof fn lemma_all_claimed<K>(s: Seq<K>, claimed: Seq<bool>, k: K)
    requires
        claimed.len() == s.len(),
        forall|j: int| 0 <= j < s.len() && s[j] == k ==> claimed[j],
    ensures
        claimed_occurrences(s, claimed, k) == occurrences(s, k),
    decreases s.len(),
{
    if s.len() > 0 {
        let n = s.len() - 1;
        assert forall|j: int| 0 <= j < n && s.drop_last()[j] == k implies claimed.drop_last()[j] by {
            assert(s[j] == k);
        }
        lemma_all_claimed(s.drop_last(), claimed.drop_last(), k);
    }
}

/// Where no position from `i` up to `j` is in surplus, the search from `i`
/// gives what the search from `j` gives.
pub proof fn lemma_first_surplus_skip<K>(a: Seq<K>, b: Seq<K>, i: int, j: int)
    requires
        0 <= i <= j <= a.len(),
        forall|p: int| i <= p < j ==> !surplus_at(a, b, p),
    ensures
        first_surplus_from(a, b, i) == first_surplus_from(a, b, j),
    decreases j - i,
{
    if i < j {
        lemma_first_surplus_skip(a, b, i + 1, j);
    }
}

/// The search gives the least position in surplus, and gives none only
/// where no position is in surplus.
pub proof fn lemma_first_surplus_least<K>(a: Seq<K>, b: Seq<K>, i: int)
    requires
        0 <= i <= a.len(),
    ensures
        match first_surplus_from(a, b, i) {
            Some(p) => i <= p < a.len() && surplus_at(a, b, p) && forall|q: int|
                i <= q < p ==> !surplus_at(a, b, q),
            None => forall|q: int| i <= q < a.len() ==> !surplus_at(a, b, q),
        },
    decreases a.len() - i,
{
    if i < a.len() && !surplus_at(a, b, i) {
        lemma_first_surplus_least(a, b, i + 1);
    }
}

/// Matched against itself, no position of a sequence is in surplus.
pub proof fn lemma_no_surplus_against_itself<K>(a: Seq<K>)
    ensures
        first_surplus(a, a) is None,
{
    assert forall|p: int| 0 <= p < a.len() implies !surplus_at(a, a, p) by {
        lemma_occurrences_prefix(a, p + 1, a[p]);
    }
    lemma_first_surplus_skip(a, a, 0, a.len() as int);
}

/// A value that a sequence holds at least once stands at some position.
pub proof fn lemma_occurs<K>(s: Seq<K>, k: K)
    requires
        occurrences(s, k) > 0,
    ensures
        exists|j: int| 0 <= j < s.len() && s[j] == k,
    decreases s.len(),
{
    if s.last() == k {
        assert(s[s.len() - 1] == k);
    } else {
        lemma_occurs(s.drop_last(), k);
        let j = choose|j: int| 0 <= j < s.drop_last().len() && s.drop_last()[j] == k;
        assert(s[j] == k);
    }
}

/// Removing an entry takes one from the count of its value and leaves the
/// other counts alone.
pub proof fn lemma_occurrences_remove<K>(s: Seq<K>, j: int, k: K)
    requires
        0 <= j < s.len(),
    ensures
        occurrences(s.remove(j), k) + if s[j] == k {
            1nat
        } else {
            0nat
        } == occurrences(s, k),
    decreases s.len(),
{
    if j == s.len() - 1 {
        assert(s.remove(j) =~= s.drop_last());
    } else {
        assert(s.remove(j).drop_last() =~= s.drop_last().remove(j));
        assert(s.remove(j).last() == s.last());
        lemma_occurrences_remove(s.drop_last(), j, k);
    }
}

/// Two equally long sequences of which the first holds no value more often
/// than the second hold every value equally often.
pub proof fn lemma_equal_counts<K>(a: Seq<K>, b: Seq<K>)
    requires
        a.len() == b.len(),
        forall|k: K| occurrences(a, k) <= occurrences(b, k),
    ensures
        forall|k: K| occurrences(a, k) == occurrences(b, k),
    decreases a.len(),
{
    if a.len() == 0 {
        assert forall|k: K| occurrences(a, k) == occurrences(b, k) by {}
    } else {
        let x = a.last();
        assert(occurrences(a, x) <= occurrences(b, x));
        lemma_occurs(b, x);
        let j = choose|j: int| 0 <= j < b.len() && b[j] == x;
        let shorter = b.remove(j);
        assert forall|k: K| occurrences(a.drop_last(), k) <= occurrences(shorter, k) by {
            lemma_occurrences_remove(b, j, k);
            assert(occurrences(a, k) <= occurrences(b, k));
        }
        lemma_equal_counts(a.drop_last(), shorter);
        assert forall|k: K| occurrences(a, k) == occurrences(b, k) by {
            lemma_occurrences_remove(b, j, k);
            assert(occurrences(a.drop_last(), k) == occurrences(shorter, k));
        }
    }
}

/// Where no position below `n` is in surplus, the first `n` entries of `a`
/// hold no value more often than `b`.
pub proof fn lemma_prefix_within<K>(a: Seq<K>, b: Seq<K>, n: int, k: K)
    requires
        0 <= n <= a.len(),
        forall|p: int| 0 <= p < n ==> !surplus_at(a, b, p),
    ensures
        occurrences(a.take(n), k) <= occurrences(b, k),
    decreases n,
{
    if n > 0 {
        lemma_prefix_within(a, b, n - 1, k);
        lemma_occurrences_step(a, n - 1, k);
        assert(!surplus_at(a, b, n - 1));
    }
}

/// First fit pairs up all of two equally long sequences exactly where one
/// is a rearrangement of the other: where both hold every value equally
/// often. It never fails where some other pairing would succeed.
pub proof fn lemma_first_fit_is_rearrangement<K>(a: Seq<K>, b: Seq<K>)
    requires
        a.len() == b.len(),
    ensures
        first_surplus(a, b) is None <==> forall|k: K| occurrences(a, k) == occurrences(b, k),
{
    lemma_first_surplus_least(a, b, 0);
    if first_surplus(a, b) is None {
        assert forall|k: K| occurrences(a, k) <= occurrences(b, k) by {
            lemma_prefix_within(a, b, a.len() as int, k);
            assert(a.take(a.len() as int) =~= a);
        }
        lemma_equal_counts(a, b);
    }
    if forall|k: K| occurrences(a, k) == occurrences(b, k) {
        assert forall|p: int| 0 <= p < a.len() implies !surplus_at(a, b, p) by {
            lemma_occurrences_prefix(a, p + 1, a[p]);
            assert(occurrences(a, a[p]) == occurrences(b, a[p]));
        }
        lemma_first_surplus_skip(a, b, 0, a.len() as int);
    }
}

} // verus!
