//! Ascending order on sequences of values, and the two reorderings that std supplies.

use vstd::prelude::*;
use vstd::relations::{sorted_by, total_ordering};
use vstd::seq_lib::{lemma_multiset_commutative, lemma_sorted_unique};

verus! {

/// No value is followed by a smaller one.
pub open spec fn ascending(s: Seq<i64>) -> bool {
    forall|i: int, j: int| 0 <= i <= j < s.len() ==> s[i] <= s[j]
}

/// Nothing before position `k` of `v` is greater than `v[k]` and nothing after it is less.
pub open spec fn partitioned_at(v: Seq<i64>, k: int) -> bool {
    &&& 0 <= k < v.len()
    &&& forall|i: int| 0 <= i < k ==> v[i] <= v[k]
    &&& forall|i: int| k < i < v.len() ==> v[k] <= v[i]
}

/// The integer order, as a relation.
pub closed spec fn at_most() -> spec_fn(i64, i64) -> bool {
    |a: i64, b: i64| a <= b
}

/// The values of `s` in ascending order: [`lemma_sorted`] and [`lemma_ascending_unique`]
/// say which sequence this is.
pub closed spec fn sorted(s: Seq<i64>) -> Seq<i64> {
    s.sort_by(at_most())
}

proof fn lemma_at_most_total()
    ensures
        total_ordering(at_most()),
{
    let r = at_most();
    assert(forall|x: i64| #[trigger] r(x, x));
    assert(forall|x: i64, y: i64| #[trigger] r(x, y) && #[trigger] r(y, x) ==> x == y);
    assert(forall|x: i64, y: i64, z: i64| #[trigger] r(x, y) && #[trigger] r(y, z) ==> r(x, z));
    assert(forall|x: i64, y: i64| #[trigger] r(x, y) || #[trigger] r(y, x));
}

proof fn lemma_ascending_is_sorted_by(s: Seq<i64>)
    ensures
        ascending(s) <==> sorted_by(s, at_most()),
{
    let r = at_most();
    if ascending(s) {
        assert forall|i: int, j: int| 0 <= i < j < s.len() implies #[trigger] r(s[i], s[j]) by {}
    }
    if sorted_by(s, r) {
        assert forall|i: int, j: int| 0 <= i <= j < s.len() implies s[i] <= s[j] by {
            if i < j {
                assert(r(s[i], s[j]));
            }
        }
    }
}

/// `sorted(s)` is ascending and holds the values of `s`, each as often as `s` does.
pub proof fn lemma_sorted(s: Seq<i64>)
    ensures
        ascending(sorted(s)),
        sorted(s).to_multiset() == s.to_multiset(),
        sorted(s).len() == s.len(),
{
    broadcast use vstd::seq_lib::group_to_multiset_ensures;

    lemma_at_most_total();
    s.lemma_sort_by_ensures(at_most());
    lemma_ascending_is_sorted_by(sorted(s));
    assert(sorted(s).to_multiset().len() == s.to_multiset().len());
}

/// An ascending sequence with the values of `s` is `sorted(s)`.
pub proof fn lemma_ascending_unique(a: Seq<i64>, s: Seq<i64>)
    requires
        ascending(a),
        a.to_multiset() == s.to_multiset(),
    ensures
        a == sorted(s),
{
    lemma_at_most_total();
    lemma_sorted(s);
    lemma_ascending_is_sorted_by(a);
    lemma_ascending_is_sorted_by(sorted(s));
    lemma_sorted_unique(a, sorted(s), at_most());
}

/// A value occurs in `sorted(s)` exactly if it occurs in `s`.
pub proof fn lemma_sorted_contains(s: Seq<i64>, x: i64)
    ensures
        sorted(s).contains(x) <==> s.contains(x),
{
    broadcast use vstd::seq_lib::group_to_multiset_ensures;

    lemma_sorted(s);
    assert(sorted(s).contains(x) <==> sorted(s).to_multiset().count(x) > 0);
    assert(s.contains(x) <==> s.to_multiset().count(x) > 0);
}

/// A value of `s` that none of `s` is below comes first in `sorted(s)`.
pub proof fn lemma_least_is_first(s: Seq<i64>, x: i64)
    requires
        s.contains(x),
        forall|i: int| 0 <= i < s.len() ==> x <= s[i],
    ensures
        sorted(s).len() > 0,
        sorted(s)[0] == x,
{
    lemma_sorted(s);
    let t = sorted(s);
    lemma_sorted_contains(s, x);
    let j = choose|j: int| 0 <= j < t.len() && t[j] == x;
    assert(t[0] <= t[j]);
    assert(t.contains(t[0]));
    lemma_sorted_contains(s, t[0]);
    let i = choose|i: int| 0 <= i < s.len() && s[i] == t[0];
    assert(x <= s[i]);
}

/// Where `v` is partitioned at `k`, `v[k]` is the value that `sorted(v)` has at `k`, and
/// the least of the values after `k` is the one that follows it there.
pub proof fn lemma_partitioned(v: Seq<i64>, k: int)
    requires
        partitioned_at(v, k),
    ensures
        sorted(v)[k] == v[k],
        k + 1 < v.len() ==> sorted(v)[k + 1] == sorted(v.subrange(k + 1, v.len() as int))[0],
{
    let left = v.subrange(0, k);
    let right = v.subrange(k + 1, v.len() as int);
    let low = sorted(left);
    let high = sorted(right);
    lemma_sorted(left);
    lemma_sorted(right);
    let w = low.push(v[k]) + high;
    assert forall|i: int, j: int| 0 <= i <= j < w.len() implies w[i] <= w[j] by {
        if i < k {
            assert(low.contains(low[i]));
            lemma_sorted_contains(left, low[i]);
            let a = choose|a: int| 0 <= a < left.len() && left[a] == low[i];
            assert(left[a] == v[a]);
        }
        if j < k {
            assert(low.contains(low[j]));
        }
        if i > k {
            assert(high.contains(high[i - k - 1]));
        }
        if j > k {
            assert(high.contains(high[j - k - 1]));
            lemma_sorted_contains(right, high[j - k - 1]);
            let b = choose|b: int| 0 <= b < right.len() && right[b] == high[j - k - 1];
            assert(right[b] == v[k + 1 + b]);
        }
    }
    assert(v =~= left.push(v[k]) + right);
    lemma_multiset_commutative(left.push(v[k]), right);
    lemma_multiset_commutative(low.push(v[k]), high);
    left.to_multiset_ensures();
    low.to_multiset_ensures();
    assert(left.push(v[k]).to_multiset() == low.push(v[k]).to_multiset());
    lemma_ascending_unique(w, v);
    assert(w[k] == v[k]);
    if k + 1 < v.len() {
        assert(w[k + 1] == high[0]);
    }
}

/// Reorders `vals` around position `index` with `select_nth_unstable` of std's slices.
///
/// As std documents it: the values are the same, the one at `index` is where a sort would
/// put it, none before it is greater and none after it is less. It panics for an `index`
/// outside the slice, which the precondition leaves out.
#[verifier::external_body]
pub(crate) fn select_nth(vals: &mut [i64], index: usize)
    requires
        index < old(vals)@.len(),
    ensures
        final(vals)@.to_multiset() == old(vals)@.to_multiset(),
        final(vals)@.len() == old(vals)@.len(),
        partitioned_at(final(vals)@, index as int),
{
    vals.select_nth_unstable(index);
}

/// Sorts `vals` with `sort_unstable` of std's slices.
///
/// As std documents it: the values are the same, in ascending order.
#[verifier::external_body]
pub(crate) fn sort_ascending(vals: &mut [i64])
    ensures
        final(vals)@.to_multiset() == old(vals)@.to_multiset(),
        final(vals)@.len() == old(vals)@.len(),
        ascending(final(vals)@),
{
    vals.sort_unstable();
}

} // verus!
