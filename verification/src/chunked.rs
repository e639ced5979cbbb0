//! A chunked array of nullable values.

use crate::nullable::{
    absent, lemma_no_nulls, lemma_non_null_absent, lemma_non_null_concat, lemma_non_null_len,
    lemma_non_null_present, lemma_non_null_push, non_null, null_count_of, nulls_first, present,
};
use crate::order::{lemma_ascending_unique, sort_ascending, sorted};
use vstd::prelude::*;

verus! {

/// One contiguous run of slots: a value for each, and whether it is there.
#[derive(Debug)]
struct Chunk {
    values: Vec<i64>,
    validity: Vec<bool>,
}

/// The slots that a buffer of values and its validity marks stand for.
spec fn marked(values: Seq<i64>, validity: Seq<bool>) -> Seq<Option<i64>> {
    Seq::new(
        values.len(),
        |i: int|
            if validity[i] {
                Some(values[i])
            } else {
                None
            },
    )
}

impl Chunk {
    spec fn wf(self) -> bool {
        self.validity@.len() == self.values@.len()
    }

    spec fn slots(self) -> Seq<Option<i64>> {
        marked(self.values@, self.validity@)
    }

    /// A copy of the chunk.
    fn copy(&self) -> (r: Chunk)
        ensures
            r.values@ == self.values@,
            r.validity@ == self.validity@,
    {
        let values: Vec<i64> = self.values.clone();
        let validity: Vec<bool> = self.validity.clone();
        assert(values@ =~= self.values@);
        assert(validity@ =~= self.validity@);
        Chunk { values, validity }
    }
}

/// The slots of all chunks, one chunk after the other.
spec fn all_slots(chunks: Seq<Chunk>) -> Seq<Option<i64>>
    decreases chunks.len(),
{
    if chunks.len() == 0 {
        Seq::empty()
    } else {
        all_slots(chunks.drop_last()) + chunks.last().slots()
    }
}

proof fn lemma_all_slots_push(chunks: Seq<Chunk>, chunk: Chunk)
    ensures
        all_slots(chunks.push(chunk)) == all_slots(chunks) + chunk.slots(),
{
    assert(chunks.push(chunk).drop_last() =~= chunks);
}

proof fn lemma_all_slots_one(chunk: Chunk)
    ensures
        all_slots(seq![chunk]) == chunk.slots(),
{
    lemma_all_slots_push(Seq::empty(), chunk);
    assert(seq![chunk] =~= Seq::<Chunk>::empty().push(chunk));
    assert(all_slots(Seq::<Chunk>::empty()) + chunk.slots() =~= chunk.slots());
}

/// The slots of the first `k` chunks begin the slots of all, and the next chunk's follow.
proof fn lemma_all_slots_prefix(chunks: Seq<Chunk>, k: int)
    requires
        0 <= k <= chunks.len(),
    ensures
        all_slots(chunks.subrange(0, k)).len() <= all_slots(chunks).len(),
        forall|i: int|
            0 <= i < all_slots(chunks.subrange(0, k)).len() ==> all_slots(chunks)[i] == all_slots(
                chunks.subrange(0, k),
            )[i],
        k < chunks.len() ==> all_slots(chunks.subrange(0, k + 1)) == all_slots(
            chunks.subrange(0, k),
        ) + chunks[k].slots(),
        k == chunks.len() ==> all_slots(chunks.subrange(0, k)) == all_slots(chunks),
    decreases chunks.len(),
{
    if k == chunks.len() {
        assert(chunks.subrange(0, k) =~= chunks);
    } else {
        let front = chunks.drop_last();
        lemma_all_slots_prefix(front, k);
        assert(front.subrange(0, k) =~= chunks.subrange(0, k));
        assert(chunks.subrange(0, k + 1) =~= chunks.subrange(0, k).push(chunks[k]));
        lemma_all_slots_push(chunks.subrange(0, k), chunks[k]);
    }
}

/// Chunks that stand for the same slots, one by one, stand for the same slots together.
proof fn lemma_all_slots_same(a: Seq<Chunk>, b: Seq<Chunk>)
    requires
        a.len() == b.len(),
        forall|i: int| 0 <= i < a.len() ==> (#[trigger] a[i]).slots() == b[i].slots(),
    ensures
        all_slots(a) == all_slots(b),
    decreases a.len(),
{
    if a.len() > 0 {
        assert(a.last().slots() == b.last().slots());
        assert forall|i: int| 0 <= i < a.drop_last().len() implies (#[trigger] a.drop_last()[i]).slots()
            == b.drop_last()[i].slots() by {
            assert(a[i].slots() == b[i].slots());
        }
        lemma_all_slots_same(a.drop_last(), b.drop_last());
    }
}

/// A sequence of slots, each an `i64` or null, stored as chunks, with a flag that says
/// whether the array is known to be in ascending order.
///
/// The view is the sequence of slots. The flag is a hint that the caller sets: no result
/// depends on it.
#[derive(Debug)]
pub struct ChunkedArray {
    chunks: Vec<Chunk>,
    length: usize,
    null_count: usize,
    sorted_ascending: bool,
}

impl View for ChunkedArray {
    type V = Seq<Option<i64>>;

    closed spec fn view(&self) -> Seq<Option<i64>> {
        all_slots(self.chunks@)
    }
}

impl Clone for ChunkedArray {
    /// A copy with the same slots, in as many chunks, and the same flag.
    fn clone(&self) -> (r: ChunkedArray)
        ensures
            r@ == self@,
            r.n_chunks() == self.n_chunks(),
            r.sorted_flag() == self.sorted_flag(),
    {
        proof {
            use_type_invariant(self);
        }
        let mut chunks: Vec<Chunk> = Vec::new();
        let mut c: usize = 0;
        while c < self.chunks.len()
            invariant
                c <= self.chunks@.len(),
                chunks@.len() == c,
                forall|i: int| 0 <= i < c ==> (#[trigger] chunks@[i]).slots() == self.chunks@[i].slots(),
                forall|i: int| 0 <= i < c ==> (#[trigger] chunks@[i]).wf(),
                forall|i: int| 0 <= i < self.chunks@.len() ==> (#[trigger] self.chunks@[i]).wf(),
            decreases self.chunks@.len() - c,
        {
            let chunk = self.chunks[c].copy();
            assert(self.chunks@[c as int].wf());
            chunks.push(chunk);
            c = c + 1;
        }
        proof {
            lemma_all_slots_same(chunks@, self.chunks@);
        }
        ChunkedArray {
            chunks,
            length: self.length,
            null_count: self.null_count,
            sorted_ascending: self.sorted_ascending,
        }
    }
}

/// A chunk for `slots`, and the number of nulls among them.
fn chunk_of(slots: Vec<Option<i64>>) -> (r: (Chunk, usize))
    ensures
        r.0.wf(),
        r.0.slots() == slots@,
        r.1 == null_count_of(slots@),
{
    let mut values: Vec<i64> = Vec::new();
    let mut validity: Vec<bool> = Vec::new();
    let mut nulls: usize = 0;
    let mut i: usize = 0;
    while i < slots.len()
        invariant
            i <= slots@.len(),
            values@.len() == i,
            validity@.len() == i,
            marked(values@, validity@) == slots@.subrange(0, i as int),
            nulls == null_count_of(slots@.subrange(0, i as int)),
            nulls <= i,
        decreases slots@.len() - i,
    {
        let slot: Option<i64> = slots[i];
        proof {
            lemma_non_null_push(slots@.subrange(0, i as int), slot);
            assert(slots@.subrange(0, i as int).push(slot) =~= slots@.subrange(0, i + 1));
        }
        match slot {
            Some(v) => {
                values.push(v);
                validity.push(true);
            },
            None => {
                values.push(0);
                validity.push(false);
                nulls = nulls + 1;
            },
        }
        i = i + 1;
        assert(marked(values@, validity@) =~= slots@.subrange(0, i as int));
    }
    assert(slots@.subrange(0, i as int) =~= slots@);
    (Chunk { values, validity }, nulls)
}

/// `n` marks, all `mark`.
fn marks(n: usize, mark: bool) -> (r: Vec<bool>)
    ensures
        r@.len() == n,
        forall|i: int| 0 <= i < n ==> r@[i] == mark,
{
    let mut r: Vec<bool> = Vec::new();
    let mut i: usize = 0;
    while i < n
        invariant
            i <= n,
            r@.len() == i,
            forall|j: int| 0 <= j < i ==> r@[j] == mark,
        decreases n - i,
    {
        r.push(mark);
        i = i + 1;
    }
    r
}

impl ChunkedArray {
    #[verifier::type_invariant]
    spec fn well_formed(self) -> bool {
        &&& forall|i: int| 0 <= i < self.chunks@.len() ==> (#[trigger] self.chunks@[i]).wf()
        &&& self.length == all_slots(self.chunks@).len()
        &&& self.null_count == null_count_of(all_slots(self.chunks@))
    }

    /// The number of chunks. The slots lie in one buffer exactly if there is one chunk.
    pub closed spec fn n_chunks(&self) -> nat {
        self.chunks@.len()
    }

    /// The flag that says that the array is known to be in ascending order.
    pub closed spec fn sorted_flag(&self) -> bool {
        self.sorted_ascending
    }

    /// An array of one chunk that holds `values`, none of them null. The flag is not set.
    pub fn from_vec(values: Vec<i64>) -> (r: ChunkedArray)
        ensures
            r@ == present(values@),
            r.n_chunks() == 1,
            !r.sorted_flag(),
    {
        let n: usize = values.len();
        let validity: Vec<bool> = marks(n, true);
        let chunk = Chunk { values, validity };
        let mut chunks: Vec<Chunk> = Vec::new();
        chunks.push(chunk);
        proof {
            lemma_all_slots_one(chunk);
            assert(chunks@ =~= seq![chunk]);
            assert(chunk.slots() =~= present(values@));
            lemma_non_null_present(values@);
        }
        ChunkedArray { chunks, length: n, null_count: 0, sorted_ascending: false }
    }

    /// An array of one chunk that holds `slots`. The flag is not set.
    pub fn from_slots(slots: Vec<Option<i64>>) -> (r: ChunkedArray)
        ensures
            r@ == slots@,
            r.n_chunks() == 1,
            !r.sorted_flag(),
    {
        let n: usize = slots.len();
        let (chunk, nulls) = chunk_of(slots);
        let mut chunks: Vec<Chunk> = Vec::new();
        chunks.push(chunk);
        proof {
            lemma_all_slots_one(chunk);
            assert(chunks@ =~= seq![chunk]);
        }
        ChunkedArray { chunks, length: n, null_count: nulls, sorted_ascending: false }
    }

    /// The array with one more chunk that holds `slots`, or nothing where a `usize` does not
    /// hold the new length. The flag is not set.
    pub fn with_chunk(self, slots: Vec<Option<i64>>) -> (r: Option<ChunkedArray>)
        ensures
            r is Some <==> self@.len() + slots@.len() <= usize::MAX,
            r matches Some(a) ==> a@ == self@ + slots@ && a.n_chunks() == self.n_chunks() + 1
                && !a.sorted_flag(),
    {
        proof {
            use_type_invariant(&self);
        }
        let n: usize = slots.len();
        let (chunk, nulls) = chunk_of(slots);
        match self.length.checked_add(n) {
            None => None,
            Some(total) => {
                let ghost before = self.chunks@;
                let ChunkedArray { chunks, null_count, .. } = self;
                let mut chunks = chunks;
                chunks.push(chunk);
                proof {
                    lemma_all_slots_push(before, chunk);
                    lemma_non_null_concat(all_slots(before), chunk.slots());
                    lemma_non_null_len(all_slots(before) + chunk.slots());
                }
                Some(
                    ChunkedArray {
                        chunks,
                        length: total,
                        null_count: null_count + nulls,
                        sorted_ascending: false,
                    },
                )
            },
        }
    }

    /// The array with its flag set to `flag`.
    pub fn with_sorted_flag(self, flag: bool) -> (r: ChunkedArray)
        ensures
            r@ == self@,
            r.n_chunks() == self.n_chunks(),
            r.sorted_flag() == flag,
    {
        proof {
            use_type_invariant(&self);
        }
        let ChunkedArray { chunks, length, null_count, .. } = self;
        ChunkedArray { chunks, length, null_count, sorted_ascending: flag }
    }

    /// The number of slots.
    pub fn len(&self) -> (r: usize)
        ensures
            r == self@.len(),
    {
        proof {
            use_type_invariant(self);
        }
        self.length
    }

    /// The number of null slots.
    pub fn null_count(&self) -> (r: usize)
        ensures
            r == null_count_of(self@),
    {
        proof {
            use_type_invariant(self);
        }
        self.null_count
    }

    /// Whether the array is flagged as being in ascending order.
    pub fn is_sorted_ascending_flag(&self) -> (r: bool)
        ensures
            r == self.sorted_flag(),
    {
        self.sorted_ascending
    }

    /// The values as one slice, where the array has one chunk and no null.
    pub fn cont_slice(&self) -> (r: Option<&[i64]>)
        ensures
            r is Some <==> self.n_chunks() == 1 && null_count_of(self@) == 0,
            r matches Some(s) ==> self@ == present(s@),
    {
        proof {
            use_type_invariant(self);
        }
        if self.chunks.len() == 1 && self.null_count == 0 {
            let chunk = &self.chunks[0];
            proof {
                lemma_all_slots_one(*chunk);
                assert(self.chunks@ =~= seq![*chunk]);
                lemma_no_nulls(chunk.slots());
                assert(chunk.slots() =~= present(chunk.values@));
            }
            Some(chunk.values.as_slice())
        } else {
            None
        }
    }

    /// The values themselves, where the array has one chunk and no null; else the array.
    pub fn into_cont_values(self) -> (r: Result<Vec<i64>, ChunkedArray>)
        ensures
            r is Ok <==> self.n_chunks() == 1 && null_count_of(self@) == 0,
            r matches Ok(v) ==> self@ == present(v@),
            r matches Err(a) ==> a == self,
    {
        proof {
            use_type_invariant(&self);
        }
        if self.chunks.len() == 1 && self.null_count == 0 {
            let ghost before = self.chunks@;
            let ChunkedArray { chunks, .. } = self;
            let mut chunks = chunks;
            let chunk = chunks.pop().unwrap();
            proof {
                lemma_all_slots_one(chunk);
                assert(before =~= seq![chunk]);
                lemma_no_nulls(chunk.slots());
                assert(chunk.slots() =~= present(chunk.values@));
            }
            let Chunk { values, .. } = chunk;
            Ok(values)
        } else {
            Err(self)
        }
    }

    /// The slot at `idx`; null also where the array has no such slot.
    pub fn get(&self, idx: usize) -> (r: Option<i64>)
        ensures
            idx < self@.len() ==> r == self@[idx as int],
            idx >= self@.len() ==> r is None,
    {
        proof {
            use_type_invariant(self);
        }
        if idx >= self.length {
            return None;
        }
        let mut c: usize = 0;
        let mut offset: usize = 0;
        proof {
            assert(self.chunks@.subrange(0, 0) =~= Seq::<Chunk>::empty());
        }
        while c < self.chunks.len()
            invariant
                c <= self.chunks@.len(),
                offset == all_slots(self.chunks@.subrange(0, c as int)).len(),
                offset <= idx < self.length,
                self.length == all_slots(self.chunks@).len(),
                forall|i: int| 0 <= i < self.chunks@.len() ==> (#[trigger] self.chunks@[i]).wf(),
            decreases self.chunks@.len() - c,
        {
            let chunk = &self.chunks[c];
            let n: usize = chunk.values.len();
            proof {
                lemma_all_slots_prefix(self.chunks@, c as int);
                lemma_all_slots_prefix(self.chunks@, c + 1);
                assert(chunk.wf());
            }
            if idx - offset < n {
                let at: usize = idx - offset;
                let ghost upto = all_slots(self.chunks@.subrange(0, c + 1));
                assert(upto[idx as int] == chunk.slots()[at as int]);
                return if chunk.validity[at] {
                    Some(chunk.values[at])
                } else {
                    None
                };
            }
            offset = offset + n;
            c = c + 1;
        }
        proof {
            lemma_all_slots_prefix(self.chunks@, c as int);
        }
        None
    }

    /// A copy in ascending order, the nulls first, in one chunk and flagged as sorted.
    pub fn sort_ascending(&self) -> (r: ChunkedArray)
        ensures
            r@ == nulls_first(self@),
            r.n_chunks() == 1,
            r.sorted_flag(),
    {
        proof {
            use_type_invariant(self);
            assert(self.chunks@.subrange(0, 0) =~= Seq::<Chunk>::empty());
            lemma_non_null_len(self@);
        }
        let mut vals: Vec<i64> = Vec::new();
        let mut c: usize = 0;
        while c < self.chunks.len()
            invariant
                c <= self.chunks@.len(),
                vals@ == non_null(all_slots(self.chunks@.subrange(0, c as int))),
                forall|i: int| 0 <= i < self.chunks@.len() ==> (#[trigger] self.chunks@[i]).wf(),
            decreases self.chunks@.len() - c,
        {
            let chunk = &self.chunks[c];
            let ghost done = all_slots(self.chunks@.subrange(0, c as int));
            let mut i: usize = 0;
            proof {
                assert(chunk.wf());
                assert(done + chunk.slots().subrange(0, 0) =~= done);
            }
            while i < chunk.values.len()
                invariant
                    i <= chunk.values@.len(),
                    chunk.wf(),
                    vals@ == non_null(done + chunk.slots().subrange(0, i as int)),
                decreases chunk.values@.len() - i,
            {
                proof {
                    let seen = done + chunk.slots().subrange(0, i as int);
                    lemma_non_null_push(seen, chunk.slots()[i as int]);
                    assert(seen.push(chunk.slots()[i as int]) =~= done + chunk.slots().subrange(
                        0,
                        i + 1,
                    ));
                }
                if chunk.validity[i] {
                    vals.push(chunk.values[i]);
                }
                i = i + 1;
            }
            proof {
                assert(chunk.slots().subrange(0, i as int) =~= chunk.slots());
                lemma_all_slots_prefix(self.chunks@, c as int);
            }
            c = c + 1;
        }
        proof {
            lemma_all_slots_prefix(self.chunks@, c as int);
        }
        let ghost unsorted = vals@;
        sort_ascending(vals.as_mut_slice());
        proof {
            lemma_ascending_unique(vals@, unsorted);
        }
        let nulls: usize = self.null_count;
        let count: usize = vals.len();
        let mut values: Vec<i64> = Vec::new();
        let mut k: usize = 0;
        while k < nulls
            invariant
                k <= nulls,
                values@.len() == k,
            decreases nulls - k,
        {
            values.push(0);
            k = k + 1;
        }
        values.append(&mut vals);
        let mut validity: Vec<bool> = marks(nulls, false);
        let mut present_marks: Vec<bool> = marks(count, true);
        validity.append(&mut present_marks);
        let chunk = Chunk { values, validity };
        let mut chunks: Vec<Chunk> = Vec::new();
        chunks.push(chunk);
        proof {
            lemma_all_slots_one(chunk);
            assert(chunks@ =~= seq![chunk]);
            assert(chunk.slots() =~= nulls_first(self@));
            lemma_non_null_concat(absent(nulls as nat), present(sorted(unsorted)));
            lemma_non_null_absent(nulls as nat);
            lemma_non_null_present(sorted(unsorted));
        }
        ChunkedArray { chunks, length: self.length, null_count: nulls, sorted_ascending: true }
    }
}

} // verus!
