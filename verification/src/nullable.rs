//! Sequences of slots, each a value or null.

use crate::order::{lemma_sorted, sorted};
use vstd::prelude::*;

verus! {

/// The values `vals`, each as a slot that holds it.
pub open spec fn present(vals: Seq<i64>) -> Seq<Option<i64>> {
    Seq::new(vals.len(), |i: int| Some(vals[i]))
}

/// `n` null slots.
pub open spec fn absent(n: nat) -> Seq<Option<i64>> {
    Seq::new(n, |i: int| None::<i64>)
}

/// The values that `slots` holds, in their order, the nulls left out.
pub open spec fn non_null(slots: Seq<Option<i64>>) -> Seq<i64>
    decreases slots.len(),
{
    if slots.len() == 0 {
        Seq::empty()
    } else {
        match slots.last() {
            Some(v) => non_null(slots.drop_last()).push(v),
            None => non_null(slots.drop_last()),
        }
    }
}

/// How many of `slots` are null.
pub open spec fn null_count_of(slots: Seq<Option<i64>>) -> nat {
    (slots.len() - non_null(slots).len()) as nat
}

/// `slots` in ascending order, the nulls first.
pub open spec fn nulls_first(slots: Seq<Option<i64>>) -> Seq<Option<i64>> {
    absent(null_count_of(slots)) + present(sorted(non_null(slots)))
}

/// There are no more values than slots.
pub proof fn lemma_non_null_len(slots: Seq<Option<i64>>)
    ensures
        non_null(slots).len() <= slots.len(),
        null_count_of(slots) + non_null(slots).len() == slots.len(),
    decreases slots.len(),
{
    if slots.len() > 0 {
        lemma_non_null_len(slots.drop_last());
    }
}

/// One more slot adds its value, if it has one.
pub proof fn lemma_non_null_push(slots: Seq<Option<i64>>, slot: Option<i64>)
    ensures
        non_null(slots.push(slot)) == match slot {
            Some(v) => non_null(slots).push(v),
            None => non_null(slots),
        },
        null_count_of(slots.push(slot)) == null_count_of(slots) + if slot is None {
            1nat
        } else {
            0nat
        },
{
    assert(slots.push(slot).drop_last() =~= slots);
    lemma_non_null_len(slots);
    lemma_non_null_len(slots.push(slot));
}

/// Where no slot is null, every slot holds a value, and the values are the slots.
pub proof fn lemma_no_nulls(slots: Seq<Option<i64>>)
    requires
        null_count_of(slots) == 0,
    ensures
        forall|i: int| 0 <= i < slots.len() ==> slots[i] is Some,
        slots == present(non_null(slots)),
    decreases slots.len(),
{
    lemma_non_null_len(slots);
    if slots.len() > 0 {
        lemma_non_null_len(slots.drop_last());
        lemma_no_nulls(slots.drop_last());
        assert forall|i: int| 0 <= i < slots.len() implies slots[i] is Some by {
            if i < slots.len() - 1 {
                assert(slots.drop_last()[i] == slots[i]);
            }
        }
        assert forall|i: int| 0 <= i < slots.len() implies slots[i] == present(non_null(slots))[i] by {
            if i < slots.len() - 1 {
                assert(slots.drop_last()[i] == slots[i]);
                assert(present(non_null(slots.drop_last()))[i] == slots[i]);
            }
        }
    }
    assert(slots =~= present(non_null(slots)));
}

/// The values of two runs of slots, one after the other.
pub proof fn lemma_non_null_concat(a: Seq<Option<i64>>, b: Seq<Option<i64>>)
    ensures
        non_null(a + b) == non_null(a) + non_null(b),
        null_count_of(a + b) == null_count_of(a) + null_count_of(b),
    decreases b.len(),
{
    lemma_non_null_len(a);
    lemma_non_null_len(b);
    lemma_non_null_len(a + b);
    if b.len() == 0 {
        assert(a + b =~= a);
        assert(non_null(a) + non_null(b) =~= non_null(a));
    } else {
        lemma_non_null_concat(a, b.drop_last());
        assert((a + b).drop_last() =~= a + b.drop_last());
        assert((a + b).last() == b.last());
        match b.last() {
            Some(v) => {
                assert((non_null(a) + non_null(b.drop_last())).push(v) =~= non_null(a) + non_null(
                    b.drop_last(),
                ).push(v));
            },
            None => {},
        }
    }
}

/// Slots that all hold a value have those values and no null.
pub proof fn lemma_non_null_present(vals: Seq<i64>)
    ensures
        non_null(present(vals)) == vals,
        null_count_of(present(vals)) == 0,
    decreases vals.len(),
{
    if vals.len() == 0 {
        assert(non_null(present(vals)) =~= vals);
    } else {
        lemma_non_null_present(vals.drop_last());
        assert(present(vals).drop_last() =~= present(vals.drop_last()));
        assert(non_null(present(vals)) =~= vals);
    }
}

/// Null slots hold no value.
pub proof fn lemma_non_null_absent(n: nat)
    ensures
        non_null(absent(n)).len() == 0,
        null_count_of(absent(n)) == n,
    decreases n,
{
    if n > 0 {
        lemma_non_null_absent((n - 1) as nat);
        assert(absent(n).drop_last() =~= absent((n - 1) as nat));
    }
}

/// In `nulls_first(slots)` the nulls of `slots` come first and its values follow in
/// ascending order: the slot at a position `i` from the null count on holds the value that
/// `sorted(non_null(slots))` has at `i - null_count_of(slots)`.
pub proof fn lemma_nulls_first(slots: Seq<Option<i64>>)
    ensures
        nulls_first(slots).len() == slots.len(),
        forall|i: int| 0 <= i < null_count_of(slots) ==> nulls_first(slots)[i] is None,
        forall|i: int|
            null_count_of(slots) <= i < slots.len() ==> nulls_first(slots)[i] == Some(
                sorted(non_null(slots))[i - null_count_of(slots)],
            ),
        non_null(nulls_first(slots)) == sorted(non_null(slots)),
        null_count_of(nulls_first(slots)) == null_count_of(slots),
{
    lemma_non_null_len(slots);
    lemma_sorted(non_null(slots));
    lemma_non_null_concat(absent(null_count_of(slots)), present(sorted(non_null(slots))));
    lemma_non_null_absent(null_count_of(slots));
    lemma_non_null_present(sorted(non_null(slots)));
    assert(non_null(nulls_first(slots)) =~= sorted(non_null(slots)));
}

} // verus!
