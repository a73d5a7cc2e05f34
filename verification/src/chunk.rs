use vstd::prelude::*;

use crate::errors::VirtualListError;
use crate::model::{
    largest_prefix_le, lemma_largest_prefix_le, lemma_largest_prefix_le_unique,
    lemma_seq_total_concat,
    lemma_seq_total_constant, lemma_seq_total_element_bound, lemma_seq_total_nonneg,
    lemma_seq_total_push, lemma_seq_total_take_full, lemma_seq_total_take_monotone,
    lemma_seq_total_take_succ, lemma_seq_total_update, lemma_smallest_prefix_ge,
    lemma_smallest_prefix_ge_unique, seq_total, smallest_prefix_ge, MAX_TOTAL_SIZE,
};

verus! {

/// A contiguous slab of item sizes together with its prefix-sum vector
/// and its running total. `prefix_sums[j]` is the sum of the first `j`
/// sizes, so the vector is one longer than `sizes` and starts at zero;
/// `total_size` equals its last entry.
///
/// Its abstract value (the view) is the sequence of stored sizes; the
/// prefix sums and the total are kept exactly consistent with it.
#[derive(Debug)]
pub struct Chunk {
    sizes: Vec<u64>,
    prefix_sums: Vec<u64>,
    total_size: u64,
}

impl View for Chunk {
    type V = Seq<u64>;

    closed spec fn view(&self) -> Seq<u64> {
        self.sizes@
    }
}

impl Clone for Chunk {
    fn clone(&self) -> (r: Self)
        ensures
            r@ == self@,
            r.wf() == self.wf(),
    {
        Chunk {
            sizes: self.sizes.clone(),
            prefix_sums: self.prefix_sums.clone(),
            total_size: self.total_size,
        }
    }
}

impl Chunk {
    /// Every prefix sum is stored exactly, and the running total is the
    /// whole sum, which stays below the safe threshold.
    pub closed spec fn wf(&self) -> bool {
        &&& self.prefix_sums@.len() == self.sizes@.len() + 1
        &&& forall|j: int|
            0 <= j <= self.sizes@.len() ==> self.prefix_sums@[j] == seq_total(
                self.sizes@.take(j),
            )
        &&& self.total_size == seq_total(self.sizes@)
        &&& seq_total(self.sizes@) <= MAX_TOTAL_SIZE
    }

    /// A chunk of `count` items, each of the default size.
    pub fn new(count: usize, default: u64) -> (r: Chunk)
        requires
            (count as int) * (default as int) <= MAX_TOTAL_SIZE,
        ensures
            r.wf(),
            r@ == Seq::new(count as nat, |i: int| default),
    {
        let ghost full = Seq::new(count as nat, |i: int| default);
        let mut sizes: Vec<u64> = Vec::new();
        let mut prefix_sums: Vec<u64> = Vec::new();
        prefix_sums.push(0);
        let mut acc: u64 = 0;
        let mut i: usize = 0;
        while i < count
            invariant
                i <= count,
                (count as int) * (default as int) <= MAX_TOTAL_SIZE,
                sizes@ =~= full.take(i as int),
                full == Seq::new(count as nat, |t: int| default),
                prefix_sums@.len() == i + 1,
                forall|j: int| 0 <= j <= i ==> prefix_sums@[j] == seq_total(full.take(j)),
                acc == seq_total(full.take(i as int)),
            decreases count - i,
        {
            proof {
                lemma_seq_total_take_succ(full, i as int);
                assert(full.take(i as int + 1).take(i as int) =~= full.take(i as int));
                lemma_seq_total_constant(count as nat, default);
                lemma_seq_total_take_monotone(full, i as int + 1, count as int);
                lemma_seq_total_take_full(full);
                assert((i + 1) as int * default <= count * default) by (nonlinear_arith)
                    requires
                        i < count,
                        default >= 0,
                ;
            }
            sizes.push(default);
            acc = acc + default;
            prefix_sums.push(acc);
            i = i + 1;
        }
        proof {
            assert(full.take(count as int) =~= full);
            lemma_seq_total_constant(count as nat, default);
        }
        Chunk { sizes, prefix_sums, total_size: acc }
    }

    /// How many items the chunk holds.
    pub fn len(&self) -> (r: usize)
        ensures
            r == self@.len(),
    {
        self.sizes.len()
    }

    /// The running total of all sizes in the chunk.
    pub fn total_size(&self) -> (r: u64)
        requires
            self.wf(),
        ensures
            r == seq_total(self@),
    {
        self.total_size
    }

    /// The stored size of the item at a local index.
    pub fn size_at(&self, j: usize) -> (r: u64)
        requires
            j < self@.len(),
        ensures
            r == self@[j as int],
    {
        self.sizes[j]
    }

    /// The prefix sum at cut `j`: the summed size of the first `j` items.
    pub fn prefix_at(&self, j: usize) -> (r: u64)
        requires
            self.wf(),
            j <= self@.len(),
        ensures
            r == seq_total(self@.take(j as int)),
    {
        self.prefix_sums[j]
    }

    /// Replace the size of the item at local index `j` and repair the
    /// prefix sums behind it. Returns the signed change of the chunk's
    /// total. Refused when the index is out of range, when the new size
    /// itself is over the threshold, or when it would push the chunk's
    /// total over the threshold; a refused update changes nothing.
    pub fn update_size(&mut self, j: usize, new_size: u64) -> (r: Result<
        i64,
        VirtualListError,
    >)
        requires
            old(self).wf(),
        ensures
            final(self).wf(),
            match r {
                Ok(d) => {
                    &&& j < old(self)@.len()
                    &&& new_size <= MAX_TOTAL_SIZE
                    &&& seq_total(old(self)@) - old(self)@[j as int] + new_size
                        <= MAX_TOTAL_SIZE
                    &&& final(self)@ == old(self)@.update(j as int, new_size)
                    &&& d == new_size - old(self)@[j as int]
                },
                Err(e) => {
                    &&& final(self)@ == old(self)@
                    &&& e == if j >= old(self)@.len() {
                        VirtualListError::IndexOutOfBounds
                    } else if new_size > MAX_TOTAL_SIZE {
                        VirtualListError::InvalidSize
                    } else {
                        VirtualListError::PrecisionLimitExceeded
                    }
                    &&& (j >= old(self)@.len() || new_size > MAX_TOTAL_SIZE || seq_total(
                        old(self)@,
                    ) - old(self)@[j as int] + new_size > MAX_TOTAL_SIZE)
                },
            },
    {
        if j >= self.sizes.len() {
            return Err(VirtualListError::IndexOutOfBounds);
        }
        if new_size > MAX_TOTAL_SIZE {
            return Err(VirtualListError::InvalidSize);
        }
        let old_size = self.sizes[j];
        proof {
            lemma_seq_total_element_bound(self.sizes@, j as int);
        }
        let new_total = self.total_size - old_size + new_size;
        if new_total > MAX_TOTAL_SIZE {
            return Err(VirtualListError::PrecisionLimitExceeded);
        }
        let ghost before = self.sizes@;
        self.sizes[j] = new_size;
        proof {
            lemma_seq_total_update(before, j as int, new_size);
        }
        self.total_size = new_total;
        proof {
            assert(forall|q: int| 0 <= q <= j ==> self.sizes@.take(q) =~= before.take(q));
        }
        // Prefix sums at cuts beyond `j` each move by the same difference.
        let mut t: usize = j + 1;
        while t < self.prefix_sums.len()
            invariant
                old(self).wf(),
                j < before.len(),
                before == old(self)@,
                j + 1 <= t <= self.prefix_sums@.len(),
                old_size == before[j as int],
                self.total_size == seq_total(self.sizes@),
                self.sizes@ == before.update(j as int, new_size),
                self.prefix_sums@.len() == self.sizes@.len() + 1,
                new_size <= MAX_TOTAL_SIZE,
                seq_total(self.sizes@) == seq_total(before) - before[j as int] + new_size,
                seq_total(self.sizes@) <= MAX_TOTAL_SIZE,
                forall|q: int|
                    0 <= q < t ==> self.prefix_sums@[q] == seq_total(self.sizes@.take(q)),
                forall|q: int|
                    t <= q <= self.sizes@.len() ==> self.prefix_sums@[q] == seq_total(
                        before.take(q),
                    ),
            decreases self.prefix_sums@.len() - t,
        {
            proof {
                // The cut at `t` contains the updated element, so its sum
                // moves by the difference; it stays within the total.
                lemma_seq_total_element_bound(before.take(t as int), j as int);
                assert(self.sizes@.take(t as int).update(j as int, before[j as int])
                    =~= before.take(t as int));
                lemma_seq_total_update(before.take(t as int), j as int, new_size);
                assert(before.take(t as int).update(j as int, new_size)
                    =~= self.sizes@.take(t as int));
                lemma_seq_total_take_monotone(self.sizes@, t as int, self.sizes@.len() as int);
                lemma_seq_total_take_full(self.sizes@);
                lemma_seq_total_nonneg(self.sizes@.take(t as int));
                lemma_seq_total_take_monotone(before, t as int, before.len() as int);
                lemma_seq_total_take_full(before);
                lemma_seq_total_nonneg(before.take(t as int));
            }
            let entry = self.prefix_sums[t];
            self.prefix_sums[t] = entry - old_size + new_size;
            t = t + 1;
        }
        Ok(new_size as i64 - old_size as i64)
    }

    /// Cut the chunk down to its first `count` items. The prefix sums
    /// already hold the truncated total, so nothing is recomputed.
    pub fn truncate_to(&mut self, count: usize)
        requires
            old(self).wf(),
            count <= old(self)@.len(),
        ensures
            final(self).wf(),
            final(self)@ == old(self)@.take(count as int),
    {
        let np = self.prefix_sums.len();
        proof {
            assert(count < np);
        }
        self.sizes.truncate(count);
        self.prefix_sums.truncate(count + 1);
        self.total_size = self.prefix_sums[count];
        proof {
            assert(forall|j: int|
                0 <= j <= count ==> old(self)@.take(count as int).take(j) =~= old(
                    self,
                )@.take(j));
            lemma_seq_total_take_monotone(old(self)@, count as int, old(self)@.len() as int);
            lemma_seq_total_take_full(old(self)@);
            lemma_seq_total_nonneg(old(self)@.take(count as int));
        }
    }

    /// Append `added` items of the default size to the chunk.
    pub fn extend_with(&mut self, added: usize, default: u64)
        requires
            old(self).wf(),
            seq_total(old(self)@) + (added as int) * (default as int) <= MAX_TOTAL_SIZE,
        ensures
            final(self).wf(),
            final(self)@ == old(self)@ + Seq::new(added as nat, |i: int| default),
    {
        let ghost target = old(self)@ + Seq::new(added as nat, |i: int| default);
        let mut i: usize = 0;
        while i < added
            invariant
                i <= added,
                target == old(self)@ + Seq::new(added as nat, |t: int| default),
                seq_total(old(self)@) + (added as int) * (default as int) <= MAX_TOTAL_SIZE,
                self.sizes@ =~= target.take(old(self)@.len() + i),
                self.prefix_sums@.len() == self.sizes@.len() + 1,
                self.total_size == seq_total(self.sizes@),
                forall|j: int|
                    0 <= j <= self.sizes@.len() ==> self.prefix_sums@[j] == seq_total(
                        self.sizes@.take(j),
                    ),
            decreases added - i,
        {
            proof {
                let pre = self.sizes@;
                lemma_seq_total_push(pre, default);
                assert(pre.push(default) =~= target.take(old(self)@.len() + i + 1));
                assert(forall|j: int|
                    0 <= j <= pre.len() ==> pre.push(default).take(j) =~= pre.take(j));
                assert(pre.push(default).take(pre.len() as int + 1) =~= pre.push(default));
                // The grown total stays under the threshold.
                lemma_seq_total_constant(added as nat, default);
                lemma_seq_total_constant(i as nat + 1, default);
                assert((i as int) * (default as int) + default <= (added as int) * (
                default as int)) by (nonlinear_arith)
                    requires
                        i < added,
                        default >= 0,
                ;
                assert(pre =~= old(self)@ + Seq::new(i as nat, |t: int| default));
                lemma_seq_total_concat(old(self)@, Seq::new(i as nat, |t: int| default));
                lemma_seq_total_constant(i as nat, default);
            }
            self.sizes.push(default);
            let next = self.total_size + default;
            self.total_size = next;
            self.prefix_sums.push(next);
            i = i + 1;
        }
        proof {
            assert(target.take(old(self)@.len() + added) =~= target);
            lemma_seq_total_concat(old(self)@, Seq::new(added as nat, |t: int| default));
            lemma_seq_total_constant(added as nat, default);
        }
    }

    /// Intra-chunk position query: the largest local cut whose prefix sum
    /// is at most `position`, found by binary search, together with the
    /// remaining offset past that cut. A position beyond the chunk's
    /// total is refused.
    pub fn find_item_at_position(&self, position: u64) -> (r: Result<
        (usize, u64),
        VirtualListError,
    >)
        requires
            self.wf(),
        ensures
            match r {
                Ok((j, off)) => {
                    &&& position <= seq_total(self@)
                    &&& j == largest_prefix_le(self@, position as int)
                    &&& off == position - seq_total(self@.take(j as int))
                },
                Err(e) => {
                    &&& e == VirtualListError::InvalidSize
                    &&& position > seq_total(self@)
                },
            },
    {
        if position > self.total_size {
            return Err(VirtualListError::InvalidSize);
        }
        proof {
            lemma_largest_prefix_le(self@, position as int);
        }
        let np = self.prefix_sums.len();
        proof {
            assert(self@.len() < np);
        }
        let mut lo: usize = 0;
        let mut hi: usize = self.sizes.len();
        while lo < hi
            invariant
                self.wf(),
                position <= seq_total(self@),
                self@.len() < usize::MAX,
                lo <= hi <= self@.len(),
                seq_total(self@.take(lo as int)) <= position,
                forall|t: int|
                    hi < t <= self@.len() ==> seq_total(self@.take(t)) > position,
            decreases hi - lo,
        {
            let mid = lo + (hi - lo + 1) / 2;
            if self.prefix_sums[mid] <= position {
                lo = mid;
            } else {
                proof {
                    assert forall|t: int| mid - 1 < t <= self@.len() implies seq_total(
                        self@.take(t),
                    ) > position by {
                        if t <= hi {
                            lemma_seq_total_take_monotone(self@, mid as int, t);
                        }
                    }
                }
                hi = mid - 1;
            }
        }
        proof {
            lemma_largest_prefix_le_unique(self@, position as int, lo as int);
            lemma_seq_total_nonneg(self@.take(lo as int));
        }
        let off = position - self.prefix_sums[lo];
        Ok((lo, off))
    }

    /// Intra-chunk lower bound: the smallest local cut whose prefix sum
    /// reaches `target`, found by binary search; the chunk's length when
    /// no cut does.
    pub fn prefix_lower_bound(&self, target: u64) -> (j: usize)
        requires
            self.wf(),
        ensures
            j == smallest_prefix_ge(self@, target as int),
    {
        let mut lo: usize = 0;
        let mut hi: usize = self.sizes.len();
        while lo < hi
            invariant
                self.wf(),
                lo <= hi <= self@.len(),
                forall|t: int| 0 <= t < lo ==> seq_total(self@.take(t)) < target,
                hi < self@.len() ==> seq_total(self@.take(hi as int)) >= target,
            decreases hi - lo,
        {
            let mid = lo + (hi - lo) / 2;
            if self.prefix_sums[mid] >= target {
                hi = mid;
            } else {
                proof {
                    assert forall|t: int| 0 <= t < mid + 1 implies seq_total(self@.take(t))
                        < target by {
                        if lo <= t {
                            lemma_seq_total_take_monotone(self@, t, mid as int);
                        }
                    }
                }
                lo = mid + 1;
            }
        }
        proof {
            lemma_smallest_prefix_ge_unique(self@, target as int, lo as int);
        }
        lo
    }
}

} // verus!
