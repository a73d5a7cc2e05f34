use vstd::prelude::*;

use crate::cache::CacheEvictionManager;
use crate::chunk::Chunk;
use crate::config::{Orientation, VirtualListConfig};
use crate::errors::VirtualListError;
use crate::model::{
    lemma_chunk_bounds, lemma_chunk_total_bounds, lemma_cum_monotone, lemma_estimates_sum,
    items_in_chunk_of, lemma_grown, lemma_index_in_chunk, lemma_materialize_step,
    lemma_ceil_div, lemma_num_chunks_le,
    lemma_num_le_num, lemma_seq_total_constant, lemma_shrunk, lemma_update_item_step,
    num_chunks_of, seq_total, ListModel, MAX_ITEM_COUNT, MAX_TOTAL_SIZE,
};

verus! {

/// The index of a virtualized list: chunked item sizes, inter-chunk
/// cumulative sums, a bounded cache of materialized chunks, and the
/// queue of pending updates. Its abstract value (the view) is a
/// [`ListModel`].
#[derive(Debug)]
pub struct VirtualList {
    total_items: u64,
    chunk_size: u64,
    estimated_size: u64,
    orientation: Orientation,
    chunks: Vec<Option<Chunk>>,
    cumulative_sizes: Vec<u64>,
    total_size: u64,
    config: VirtualListConfig,
    cache: CacheEvictionManager,
    pending_updates: Vec<(u64, u64)>,
}

/// The answer to a range query: the half-open item range `[start, end)`
/// to present, with the located edge offsets in size units.
#[derive(Clone, Copy, Debug)]
pub struct VisibleRange {
    pub start: u64,
    pub end: u64,
    pub start_offset: u64,
    pub end_offset: u64,
}

impl VisibleRange {
    pub fn start(&self) -> (r: u64)
        ensures
            r == self.start,
    {
        self.start
    }

    pub fn end(&self) -> (r: u64)
        ensures
            r == self.end,
    {
        self.end
    }

    pub fn start_offset(&self) -> (r: u64)
        ensures
            r == self.start_offset,
    {
        self.start_offset
    }

    pub fn end_offset(&self) -> (r: u64)
        ensures
            r == self.end_offset,
    {
        self.end_offset
    }
}

/// One presented item of a quick visibility query: its index, its
/// starting offset, and its effective size.
#[derive(Clone, Copy, Debug)]
pub struct VisibleItem {
    pub index: u64,
    pub position: u64,
    pub size: u64,
}

impl VisibleItem {
    pub fn index(&self) -> (r: u64)
        ensures
            r == self.index,
    {
        self.index
    }

    pub fn position(&self) -> (r: u64)
        ensures
            r == self.position,
    {
        self.position
    }

    pub fn size(&self) -> (r: u64)
        ensures
            r == self.size,
    {
        self.size
    }
}

impl View for VirtualList {
    type V = ListModel;

    closed spec fn view(&self) -> ListModel {
        ListModel {
            total_items: self.total_items,
            chunk_size: self.chunk_size,
            estimated_size: self.estimated_size,
            orientation: self.orientation,
            chunks: Seq::new(
                self.chunks@.len(),
                |c: int| match self.chunks@[c] {
                    Some(ch) => Some(ch@),
                    None => None,
                },
            ),
            cache: self.cache@,
            pending: self.pending_updates@,
            buffer_size: self.config.buffer_size,
            overscan_items: self.config.overscan_items,
            update_batch_size: self.config.update_batch_size,
            max_loaded_chunks: self.config.max_loaded_chunks,
            policy: self.config.cache_eviction_policy,
        }
    }
}

impl VirtualList {
    /// The list is well formed: its abstract value is well formed, and
    /// the stored cumulative sums, the running total, and every resident
    /// chunk's prefix sums are exactly consistent with it.
    pub closed spec fn wf(&self) -> bool {
        &&& self@.wf()
        &&& self.cumulative_sizes@.len() == self.chunks@.len()
        &&& forall|c: int|
            0 <= c < self.chunks@.len() ==> self.cumulative_sizes@[c] as int
                == self@.cum_through(c)
        &&& self.total_size as int == self@.total()
        &&& forall|c: int|
            0 <= c < self.chunks@.len() && (#[trigger] self.chunks@[c]) is Some
                ==> self.chunks@[c].unwrap().wf()
        &&& self.cache.policy() == self.config.cache_eviction_policy
    }

    /// How many items chunk `c` holds.
    fn items_in_chunk(&self, c: u64) -> (r: u64)
        requires
            self@.chunk_size >= 1,
            self@.total_items <= MAX_ITEM_COUNT,
            0 <= c < self@.num_chunks(),
        ensures
            r == self@.items_in_chunk(c as int),
            1 <= r <= self@.chunk_size,
    {
        proof {
            lemma_chunk_bounds(self.total_items, self.chunk_size, c as int);
        }
        let start = c * self.chunk_size;
        if self.total_items - start >= self.chunk_size {
            self.chunk_size
        } else {
            self.total_items - start
        }
    }

    /// Rebuild the cumulative sums and the running total from the chunk
    /// data. The abstract value is untouched.
#[verifier::rlimit(40)]
    fn refresh_cumulative(&mut self)
        requires
            old(self)@.wf(),
            forall|c: int|
                0 <= c < old(self).chunks@.len() && (#[trigger] old(self).chunks@[c]) is Some
                    ==> old(self).chunks@[c].unwrap().wf(),
            old(self).cache.policy() == old(self).config.cache_eviction_policy,
        ensures
            final(self).wf(),
            final(self)@.wf(),
            final(self)@ == old(self)@,
    {
        let n_chunks = self.chunks.len();
        let mut cumulative: Vec<u64> = Vec::new();
        let mut running: u64 = 0;
        let mut c: usize = 0;
        proof {
            lemma_chunk_total_bounds_all(self@);
        }
        while c < n_chunks
            invariant
                self@.wf(),
                self@ == old(self)@,
                self.chunks@ == old(self).chunks@,
                forall|t: int|
                    0 <= t < self.chunks@.len() && (#[trigger] self.chunks@[t]) is Some
                        ==> self.chunks@[t].unwrap().wf(),
                n_chunks == self.chunks@.len(),
                c <= n_chunks,
                cumulative@.len() == c,
                forall|t: int| 0 <= t < c ==> cumulative@[t] as int == self@.cum_through(t),
                running as int == self@.cum_through(c - 1),
                forall|t: int|
                    -1 <= t < n_chunks ==> self@.cum_through(t) <= 2 * MAX_TOTAL_SIZE
                        && self@.cum_through(t) >= 0,
            decreases n_chunks - c,
        {
            let part = match &self.chunks[c] {
                Some(ch) => ch.total_size(),
                None => {
                    let w = self.items_in_chunk(c as u64);
                    proof {
                        lemma_seq_total_constant(
                            self@.items_in_chunk(c as int) as nat,
                            self.estimated_size,
                        );
                        assert((w as int) * (self.estimated_size as int) <= (
                        self.total_items as int) * (self.estimated_size as int))
                            by (nonlinear_arith)
                            requires
                                0 <= w as int <= self.total_items as int,
                                self.estimated_size >= 0,
                        ;
                    }
                    w * self.estimated_size
                },
            };
            proof {
                assert(part as int == self@.chunk_total(c as int));
                assert(self@.cum_through(c as int) == self@.cum_through(c as int - 1)
                    + self@.chunk_total(c as int));
                assert(self@.cum_through(c as int) <= 2 * MAX_TOTAL_SIZE);
            }
            running = running + part;
            cumulative.push(running);
            c = c + 1;
        }
        self.cumulative_sizes = cumulative;
        self.total_size = running;
    }

    /// Build a list of `total_items` items in chunks of `chunk_size`,
    /// each item starting at the estimated size; no chunk is
    /// materialized. Refused when the chunk size is zero, when the
    /// estimated size or the item count is over its threshold, or when
    /// the estimated total would be.
    pub fn new(
        total_items: u64,
        chunk_size: u64,
        estimated_size: u64,
        orientation: Orientation,
        config: VirtualListConfig,
    ) -> (r: Result<VirtualList, VirtualListError>)
        ensures
            match r {
                Ok(l) => {
                    &&& l.wf()
                    &&& l@.wf()
                    &&& l@.total_items == total_items
                    &&& l@.chunk_size == chunk_size
                    &&& l@.estimated_size == estimated_size
                    &&& l@.orientation == orientation
                    &&& forall|c: int| 0 <= c < l@.num_chunks() ==> !(#[trigger] l@.materialized(c))
                    &&& l@.cache.len() == 0
                    &&& l@.pending.len() == 0
                    &&& l@.buffer_size == config.buffer_size
                    &&& l@.overscan_items == config.overscan_items
                    &&& l@.update_batch_size == config.update_batch_size
                    &&& l@.max_loaded_chunks == config.max_loaded_chunks
                    &&& l@.policy == config.cache_eviction_policy
                    &&& l@.total() == (total_items as int) * (estimated_size as int)
                    &&& chunk_size >= 1
                    &&& config.buffer_size >= 1
                    &&& config.overscan_items >= 1
                    &&& config.update_batch_size >= 1
                    &&& (config.max_loaded_chunks matches Some(mx) ==> mx >= 1)
                    &&& total_items <= MAX_ITEM_COUNT
                    &&& estimated_size <= MAX_TOTAL_SIZE
                    &&& (total_items as int) * (estimated_size as int) <= MAX_TOTAL_SIZE
                },
                Err(e) => {
                    &&& e == if chunk_size == 0 || config.buffer_size == 0
                        || config.overscan_items == 0 || config.update_batch_size == 0
                        || (config.max_loaded_chunks matches Some(mx) && mx == 0) {
                        VirtualListError::InvalidConfiguration
                    } else if estimated_size > MAX_TOTAL_SIZE {
                        VirtualListError::InvalidSize
                    } else {
                        VirtualListError::PrecisionLimitExceeded
                    }
                    &&& (chunk_size == 0 || config.buffer_size == 0
                        || config.overscan_items == 0 || config.update_batch_size == 0
                        || (config.max_loaded_chunks matches Some(mx) && mx == 0)
                        || estimated_size > MAX_TOTAL_SIZE || total_items > MAX_ITEM_COUNT
                        || (total_items as int) * (estimated_size as int) > MAX_TOTAL_SIZE)
                },
            },
    {
        if chunk_size == 0 || config.buffer_size == 0 || config.overscan_items == 0
            || config.update_batch_size == 0 || matches!(config.max_loaded_chunks, Some(0)) {
            return Err(VirtualListError::InvalidConfiguration);
        }
        if estimated_size > MAX_TOTAL_SIZE {
            return Err(VirtualListError::InvalidSize);
        }
        if total_items > MAX_ITEM_COUNT {
            return Err(VirtualListError::PrecisionLimitExceeded);
        }
        if estimated_size > 0 && total_items > MAX_TOTAL_SIZE / estimated_size {
            proof {
                lemma_threshold_div(total_items, estimated_size);
            }
            return Err(VirtualListError::PrecisionLimitExceeded);
        }
        proof {
            lemma_threshold_div(total_items, estimated_size);
        }
        let num = if total_items == 0 {
            0u64
        } else {
            (total_items - 1) / chunk_size + 1
        };
        proof {
            lemma_num_chunks_le(total_items, chunk_size);
        }
        let mut chunks: Vec<Option<Chunk>> = Vec::new();
        let mut c: u64 = 0;
        while c < num
            invariant
                c <= num,
                chunks@.len() == c,
                forall|t: int| 0 <= t < c ==> (#[trigger] chunks@[t]) is None,
            decreases num - c,
        {
            chunks.push(None);
            c = c + 1;
        }
        let mut list = VirtualList {
            total_items,
            chunk_size,
            estimated_size,
            orientation,
            chunks,
            cumulative_sizes: Vec::new(),
            total_size: 0,
            config,
            cache: CacheEvictionManager::new(config.cache_eviction_policy),
            pending_updates: Vec::new(),
        };
        proof {
            lemma_fresh_model_wf(list@);
        }
        list.refresh_cumulative();
        proof {
            lemma_fresh_total(list@, list@.num_chunks());
            lemma_estimates_sum(list@, list@.num_chunks());
            lemma_chunk_floor_end(list@);
        }
        Ok(list)
    }

    /// Touch chunk `c`: record the access and, if the chunk is absent,
    /// materialize it with estimated sizes, evicting the policy's victim
    /// first when the cache is at its ceiling.
    fn ensure_chunk(&mut self, c: u64)
        requires
            old(self).wf(),
            0 <= c < old(self)@.num_chunks(),
        ensures
            final(self).wf(),
            final(self)@.wf(),
            final(self)@ == old(self)@.materialize_step(c as int),
    {
        proof {
            lemma_materialize_step(self@, c as int);
            lemma_num_chunks_le(self.total_items, self.chunk_size);
        }
        let ci = c as usize;
        if self.chunks[ci].is_some() {
            self.cache.on_access(c);
            proof {
                assert(self@ =~= old(self)@.materialize_step(c as int));
                lemma_restore_concrete(old(self)@, self@);
                assert forall|t: int| 0 <= t < self.chunks@.len()
                    implies self.cumulative_sizes@[t] as int == self@.cum_through(t) by {
                    crate::model::lemma_cum_congruent(old(self)@, self@, t);
                }
                crate::model::lemma_cum_congruent(
                    old(self)@,
                    self@,
                    self@.num_chunks() - 1,
                );
            }
            return ;
        }
        match self.config.max_loaded_chunks {
            Some(mx) => {
                if self.cache.len() as u64 >= mx {
                    let victim = self.cache.evict();
                    match victim {
                        Some(vc) => {
                            proof {
                                assert(old(self)@.cache[crate::cache::victim_index(
                                    old(self)@.cache,
                                    old(self)@.policy,
                                )].chunk < old(self)@.num_chunks());
                            }
                            self.chunks[vc as usize] = None;
                        },
                        None => {
                            proof {
                                assert(false);
                            }
                        },
                    }
                }
            },
            None => {},
        }
        let w = self.items_in_chunk(c);
        proof {
            assert((w as int) * (self.estimated_size as int) <= (self.total_items as int) * (
            self.estimated_size as int)) by (nonlinear_arith)
                requires
                    0 <= w as int <= self.total_items as int,
                    self.estimated_size >= 0,
            ;
        }
        let ch = Chunk::new(w as usize, self.estimated_size);
        self.chunks[ci] = Some(ch);
        self.cache.on_access(c);
        proof {
            assert(self@.chunks =~= old(self)@.materialize_step(c as int).chunks);
            assert(self@ =~= old(self)@.materialize_step(c as int));
        }
        self.refresh_cumulative();
    }

    /// The exact starting offset of item `i`, answered from the
    /// cumulative sums and the containing chunk's prefix sums without
    /// materializing anything.
#[verifier::rlimit(40)]
    pub fn get_position(&self, i: u64) -> (r: u64)
        requires
            self.wf(),
            i < self@.total_items,
        ensures
            r == self@.position(i as int),
    {
        proof {
            lemma_index_in_chunk(self.total_items, self.chunk_size, i as int);
            lemma_num_chunks_le(self.total_items, self.chunk_size);
            crate::model::lemma_position_decompose(self@, i as int);
            crate::model::lemma_position_monotone(self@, i as int, self.total_items as int);
            crate::model::lemma_total_is_position_end(self@);
            lemma_chunk_total_bounds_all(self@);
            vstd::arithmetic::div_mod::lemma_fundamental_div_mod(
                i as int,
                self.chunk_size as int,
            );
        }
        let c = i / self.chunk_size;
        let j = i % self.chunk_size;
        let base = if c == 0 {
            0u64
        } else {
            self.cumulative_sizes[(c - 1) as usize]
        };
        proof {
            vstd::arithmetic::mul::lemma_mul_is_commutative(c as int, self.chunk_size as int);
            lemma_chunk_bounds(self.total_items, self.chunk_size, c as int);
            assert(j as int == i as int - (c as int) * self.chunk_size);
            assert((j as int) < self@.items_in_chunk(c as int));
            assert(base as int == self@.cum_through(c as int - 1));
            crate::model::lemma_seq_total_nonneg(
                self@.chunk_sizes(c as int).take(j as int),
            );
        }
        let local = match &self.chunks[c as usize] {
            Some(ch) => {
                proof {
                    assert(self@.chunks[c as int] == Some(ch@));
                    assert(ch@.len() == self@.items_in_chunk(c as int));
                    assert(j as int <= ch@.len());
                }
                ch.prefix_at(j as usize)
            },
            None => {
                proof {
                    assert(self@.chunk_sizes(c as int).len() == self@.items_in_chunk(
                        c as int,
                    ));
                    assert(self@.chunk_sizes(c as int).take(j as int) =~= Seq::new(
                        j as nat,
                        |t: int| self.estimated_size,
                    ));
                    lemma_seq_total_constant(j as nat, self.estimated_size);
                    assert((j as int) * (self.estimated_size as int) <= (
                    self.total_items as int) * (self.estimated_size as int))
                        by (nonlinear_arith)
                        requires
                            0 <= j as int <= self.total_items as int,
                            self.estimated_size >= 0,
                    ;
                }
                j * self.estimated_size
            },
        };
        base + local
    }

    /// `get_position`, with the index checked rather than required.
    pub fn checked_get_position(&self, i: u64) -> (r: Result<u64, VirtualListError>)
        requires
            self.wf(),
        ensures
            match r {
                Ok(p) => i < self@.total_items && p == self@.position(i as int),
                Err(e) => i >= self@.total_items && e == VirtualListError::IndexOutOfBounds,
            },
    {
        if i >= self.total_items {
            return Err(VirtualListError::IndexOutOfBounds);
        }
        Ok(self.get_position(i))
    }

    /// Replace the effective size of item `index` with `new_size`:
    /// materialize its chunk (possibly evicting a victim), apply the
    /// change to the chunk's prefix sums, and repair the cumulative
    /// sums and the running total. An out-of-range index or an oversized
    /// size is refused before anything changes; a change that would push
    /// the running total over the threshold is refused after the chunk
    /// was touched.
#[verifier::rlimit(40)]
    pub fn update_item_size(&mut self, index: u64, new_size: u64) -> (r: Result<
        (),
        VirtualListError,
    >)
        requires
            old(self).wf(),
        ensures
            final(self).wf(),
            final(self)@.wf(),
            match r {
                Ok(()) => {
                    let i = index as int;
                    let c = i / (old(self)@.chunk_size as int);
                    &&& index < old(self)@.total_items
                    &&& new_size <= MAX_TOTAL_SIZE
                    &&& old(self)@.update_fits(i, new_size)
                    &&& final(self)@ == old(self)@.update_item_step(i, new_size)
                    &&& final(self)@.eff_sizes() == old(self)@.materialize_step(
                        c,
                    ).eff_sizes().update(i, new_size)
                    &&& !old(self)@.must_evict(c) ==> final(self)@.eff_sizes() == old(
                        self,
                    )@.eff_sizes().update(i, new_size) && final(self)@.total() == old(
                        self,
                    )@.total() - old(self)@.eff_size(i) + new_size
                },
                Err(e) => {
                    let i = index as int;
                    let c = i / (old(self)@.chunk_size as int);
                    &&& e == if index >= old(self)@.total_items {
                        VirtualListError::IndexOutOfBounds
                    } else if new_size > MAX_TOTAL_SIZE {
                        VirtualListError::InvalidSize
                    } else {
                        VirtualListError::PrecisionLimitExceeded
                    }
                    &&& index >= old(self)@.total_items || new_size > MAX_TOTAL_SIZE || !old(
                        self,
                    )@.update_fits(i, new_size)
                    &&& (index >= old(self)@.total_items || new_size > MAX_TOTAL_SIZE)
                        ==> final(self)@ == old(self)@
                    &&& (index < old(self)@.total_items && new_size <= MAX_TOTAL_SIZE)
                        ==> final(self)@ == old(self)@.materialize_step(c)
                },
            },
    {
        if index >= self.total_items {
            return Err(VirtualListError::IndexOutOfBounds);
        }
        if new_size > MAX_TOTAL_SIZE {
            return Err(VirtualListError::InvalidSize);
        }
        proof {
            lemma_index_in_chunk(self.total_items, self.chunk_size, index as int);
            lemma_num_chunks_le(self.total_items, self.chunk_size);
            vstd::arithmetic::div_mod::lemma_fundamental_div_mod(
                index as int,
                self.chunk_size as int,
            );
        }
        let c = index / self.chunk_size;
        self.ensure_chunk(c);
        proof {
            lemma_materialize_step(old(self)@, c as int);
        }
        let ci = c as usize;
        let j = (index % self.chunk_size) as usize;
        let old_size = match &self.chunks[ci] {
            Some(ch) => {
                proof {
                    assert(self@.chunks[c as int] == Some(ch@));
                    assert(self@.wf());
                    assert(ch@.len() == self@.items_in_chunk(c as int));
                    vstd::arithmetic::mul::lemma_mul_is_commutative(
                        c as int,
                        self.chunk_size as int,
                    );
                    assert(j as int == index as int - (c as int) * self.chunk_size);
                    assert(j < ch@.len());
                }
                ch.size_at(j)
            },
            None => {
                proof {
                    assert(false);
                }
                0
            },
        };
        proof {
            assert(old_size == self@.eff_size(index as int));
            assert(self@.eff_size(index as int) == old(self)@.eff_size(index as int));
            crate::model::lemma_seq_total_element_bound(
                self@.chunk_sizes(c as int),
                j as int,
            );
            lemma_chunk_total_bounds(self@, c as int);
        }
        let new_total = self.total_size - old_size + new_size;
        if new_total > MAX_TOTAL_SIZE {
            return Err(VirtualListError::PrecisionLimitExceeded);
        }
        proof {
            lemma_update_item_step(old(self)@, index as int, new_size);
        }
        let mut ch = match &self.chunks[ci] {
            Some(chunk_ref) => chunk_ref.clone(),
            None => {
                proof {
                    assert(false);
                }
                Chunk::new(0, 0)
            },
        };
        let res = ch.update_size(j, new_size);
        proof {
            assert(res is Ok);
        }
        self.chunks[ci] = Some(ch);
        proof {
            assert(self@.chunks =~= old(self)@.update_item_step(index as int, new_size).chunks);
            assert(self@ =~= old(self)@.update_item_step(index as int, new_size));
        }
        self.refresh_cumulative();
        Ok(())
    }

    /// Route a global position to its chunk by binary search over the
    /// cumulative sums, materialize the chunk, and finish the query with
    /// the chunk's own search. Answers the item index (clamped to the
    /// last item) and the offset of the position past that item's start.
#[verifier::rlimit(40)]
    fn find_item_at_position(&mut self, position: u64) -> (r: (u64, u64))
        requires
            old(self).wf(),
            old(self)@.total_items >= 1,
            position <= old(self)@.total(),
        ensures
            final(self).wf(),
            final(self)@.wf(),
            final(self)@ == old(self)@.materialize_step(
                old(self)@.find_chunk(position as int),
            ),
            r.0 == old(self)@.locate_index(position as int),
            r.1 == old(self)@.locate_offset(position as int),
            r.0 < old(self)@.total_items,
    {
        proof {
            lemma_num_chunks_le(self.total_items, self.chunk_size);
            crate::model::lemma_find_chunk(self@, position as int);
            lemma_chunk_total_bounds_all(self@);
        }
        let num = self.chunks.len();
        let mut lo: usize = 0;
        let mut hi: usize = num - 1;
        while lo < hi
            invariant
                self.wf(),
                self@.num_chunks() >= 1,
                num == self@.num_chunks(),
                num == self.cumulative_sizes@.len(),
                lo <= hi < num,
                forall|t: int| 0 <= t < lo ==> self@.cum_through(t) < position,
                hi < num - 1 ==> self@.cum_through(hi as int) >= position,
            decreases hi - lo,
        {
            let mid = lo + (hi - lo) / 2;
            if self.cumulative_sizes[mid] >= position {
                proof {
                    assert(self@.cum_through(mid as int) >= position);
                }
                hi = mid;
            } else {
                proof {
                    assert forall|t: int| 0 <= t < mid + 1 implies self@.cum_through(t)
                        < position by {
                        if lo <= t {
                            lemma_cum_monotone(self@, t, mid as int);
                        }
                    }
                }
                lo = mid + 1;
            }
        }
        let c = lo as u64;
        proof {
            crate::model::lemma_find_chunk_unique(self@, position as int, lo as int);
        }
        let base = if lo == 0 {
            0u64
        } else {
            self.cumulative_sizes[lo - 1]
        };
        let pos_in_chunk = position - base;
        let ghost m0 = self@;
        self.ensure_chunk(c);
        proof {
            lemma_materialize_step(m0, c as int);
            lemma_chunk_bounds(self.total_items, self.chunk_size, c as int);
        }
        let (local, offset) = match &self.chunks[lo] {
            Some(ch) => {
                proof {
                    assert(self@.chunks[c as int] == Some(ch@));
                    assert(ch@ == m0.chunk_sizes(c as int));
                }
                let res = ch.find_item_at_position(pos_in_chunk);
                match res {
                    Ok(pair) => pair,
                    Err(_) => {
                        proof {
                            assert(false);
                        }
                        (0usize, 0u64)
                    },
                }
            },
            None => {
                proof {
                    assert(false);
                }
                (0usize, 0u64)
            },
        };
        proof {
            crate::model::lemma_largest_prefix_le(
                m0.chunk_sizes(c as int),
                pos_in_chunk as int,
            );
            crate::model::lemma_seq_total_nonneg(m0.chunk_sizes(c as int));
            assert(local as int <= m0.items_in_chunk(c as int));
            assert((c as int) * self.chunk_size + m0.items_in_chunk(c as int)
                <= self.total_items);
        }
        let global = c * self.chunk_size + (local as u64);
        let idx = if global <= self.total_items - 1 {
            global
        } else {
            self.total_items - 1
        };
        (idx, offset)
    }

    /// The half-open index range of items to present for a viewport:
    /// the scroll offset and the viewport's end are each located, then
    /// widened on both sides by the configured buffer and overscan item
    /// counts. The offsets answer how far the located positions lie past
    /// their items' leading edges.
#[verifier::rlimit(40)]
    pub fn get_visible_range(&mut self, scroll_position: u64, viewport_size: u64) -> (r:
        Result<VisibleRange, VirtualListError>)
        requires
            old(self).wf(),
        ensures
            final(self).wf(),
            final(self)@.wf(),
            match r {
                Ok(v) => {
                    let m = old(self)@;
                    let s = vstd::math::min(scroll_position as int, m.total());
                    let m1 = m.materialize_step(m.find_chunk(s));
                    let e = vstd::math::min(
                        vstd::math::min(s + viewport_size, m.total()),
                        m1.total(),
                    );
                    let pad = m.buffer_size + m.overscan_items;
                    &&& viewport_size >= 1
                    &&& m.total_items >= 1
                    &&& v.start == vstd::math::max(0, m.locate_index(s) - pad)
                    &&& v.end == vstd::math::min(
                        m.total_items as int,
                        m1.locate_index(e) + pad + 1,
                    )
                    &&& v.start_offset == m.locate_offset(s)
                    &&& v.end_offset == m1.locate_offset(e)
                    &&& final(self)@ == m1.materialize_step(m1.find_chunk(e))
                },
                Err(err) => {
                    &&& final(self)@ == old(self)@
                    &&& err == if viewport_size == 0 {
                        VirtualListError::InvalidViewport
                    } else {
                        VirtualListError::EmptyList
                    }
                    &&& (viewport_size == 0 || old(self)@.total_items == 0)
                },
            },
    {
        if viewport_size == 0 {
            return Err(VirtualListError::InvalidViewport);
        }
        if self.total_items == 0 {
            return Err(VirtualListError::EmptyList);
        }
        proof {
            lemma_chunk_total_bounds_all(self@);
        }
        let scroll = if scroll_position < self.total_size {
            scroll_position
        } else {
            self.total_size
        };
        let end_position = if viewport_size > self.total_size - scroll {
            self.total_size
        } else {
            scroll + viewport_size
        };
        let ghost m = self@;
        let (start_idx, start_offset) = self.find_item_at_position(scroll);
        let ghost m1 = self@;
        proof {
            crate::model::lemma_find_chunk(m, scroll as int);
            crate::model::lemma_materialize_step(m, m.find_chunk(scroll as int));
            lemma_chunk_total_bounds_all(self@);
        }
        let end_clamped = if end_position < self.total_size {
            end_position
        } else {
            self.total_size
        };
        let (end_idx, end_offset) = self.find_item_at_position(end_clamped);
        let buffer = self.config.buffer_size;
        let overscan = self.config.overscan_items;
        let pad_b = if buffer > self.total_items {
            self.total_items
        } else {
            buffer
        };
        let pad_o = if overscan > self.total_items {
            self.total_items
        } else {
            overscan
        };
        let pad = pad_b + pad_o;
        let start = if start_idx > pad {
            start_idx - pad
        } else {
            0
        };
        let end_wide = end_idx + pad + 1;
        let end = if end_wide < self.total_items {
            end_wide
        } else {
            self.total_items
        };
        Ok(VisibleRange { start, end, start_offset, end_offset })
    }

    /// Apply a batch of `(index, new_size)` updates. The whole batch is
    /// validated first: any out-of-range index or oversized size refuses
    /// it untouched. Valid updates are then applied in queue order, each
    /// through the same step a single update takes; an update whose new
    /// running total would pass the threshold stops the batch there,
    /// and what was applied before it stays applied.
#[verifier::rlimit(40)]
    pub fn batch_update_sizes(&mut self, updates: &Vec<(u64, u64)>) -> (r: Result<
        (),
        VirtualListError,
    >)
        requires
            old(self).wf(),
        ensures
            final(self).wf(),
            final(self)@.wf(),
            final(self)@ == crate::model::batch_step(old(self)@, updates@).0,
            r == crate::model::batch_step(old(self)@, updates@).1,
    {
        let n_updates = updates.len();
        let mut t: usize = 0;
        while t < n_updates
            invariant
                self.wf(),
                self@ == old(self)@,
                n_updates == updates@.len(),
                t <= n_updates,
                forall|q: int|
                    0 <= q < t ==> (#[trigger] updates@[q]).0 < self@.total_items
                        && updates@[q].1 <= MAX_TOTAL_SIZE,
            decreases n_updates - t,
        {
            let pair = updates[t];
            proof {
                crate::model::lemma_batch_first_invalid_skip(old(self)@, updates@, t as int);
            }
            if pair.0 >= self.total_items {
                proof {
                    assert(updates@.skip(t as int)[0] == updates@[t as int]);
                }
                return Err(VirtualListError::IndexOutOfBounds);
            }
            if pair.1 > MAX_TOTAL_SIZE {
                proof {
                    assert(updates@.skip(t as int)[0] == updates@[t as int]);
                }
                return Err(VirtualListError::InvalidSize);
            }
            t = t + 1;
        }
        proof {
            crate::model::lemma_batch_first_invalid_skip(
                old(self)@,
                updates@,
                n_updates as int,
            );
            assert(updates@.skip(n_updates as int) =~= Seq::<(u64, u64)>::empty());
            crate::model::lemma_batch_first_invalid_none(old(self)@, updates@);
        }
        proof {
            assert(updates@.skip(0) =~= updates@);
        }
        t = 0;
        while t < n_updates
            invariant
                self.wf(),
                n_updates == updates@.len(),
                t <= n_updates,
                self@.total_items == old(self)@.total_items,
                self@.chunk_size == old(self)@.chunk_size,
                crate::model::batch_valid(old(self)@, updates@),
                crate::model::batch_apply(old(self)@, updates@) == crate::model::batch_apply(
                    self@,
                    updates@.skip(t as int),
                ),
            decreases n_updates - t,
        {
            let pair = updates[t];
            proof {
                crate::model::lemma_batch_apply_unfold(self@, updates@, t as int);
                assert(updates@.skip(t as int)[0] == updates@[t as int]);
            }
            let ghost before = self@;
            let res = self.update_item_size(pair.0, pair.1);
            match res {
                Ok(()) => {
                    proof {
                        assert(updates@.skip(t as int).drop_first() =~= updates@.skip(
                            t as int + 1,
                        ));
                    }
                },
                Err(e) => {
                    proof {
                        assert(e == VirtualListError::PrecisionLimitExceeded);
                        assert(!before.update_fits(pair.0 as int, pair.1));
                        assert(crate::model::batch_apply(before, updates@.skip(t as int))
                            == (self@, false));
                        crate::model::lemma_batch_first_invalid_none(old(self)@, updates@);
                    }
                    return Err(VirtualListError::PrecisionLimitExceeded);
                },
            }
            t = t + 1;
        }
        proof {
            assert(updates@.skip(n_updates as int) =~= Seq::<(u64, u64)>::empty());
            crate::model::lemma_batch_first_invalid_none(old(self)@, updates@);
        }
        Ok(())
    }

    /// Apply updates given as two parallel arrays of indices and sizes.
    /// Arrays of different lengths are refused as a shape error;
    /// otherwise the pairs form a batch.
    pub fn update_item_sizes(&mut self, indices: &Vec<u64>, sizes: &Vec<u64>) -> (r: Result<
        (),
        VirtualListError,
    >)
        requires
            old(self).wf(),
        ensures
            final(self).wf(),
            final(self)@.wf(),
            indices@.len() != sizes@.len() ==> r == Err::<(), VirtualListError>(
                VirtualListError::InvalidOperation,
            ) && final(self)@ == old(self)@,
            indices@.len() == sizes@.len() ==> {
                let ups = Seq::new(
                    indices@.len(),
                    |t: int| (indices@[t], sizes@[t]),
                );
                &&& final(self)@ == crate::model::batch_step(old(self)@, ups).0
                &&& r == crate::model::batch_step(old(self)@, ups).1
            },
    {
        if indices.len() != sizes.len() {
            return Err(VirtualListError::InvalidOperation);
        }
        let n_updates = indices.len();
        let ghost ups = Seq::new(indices@.len(), |t: int| (indices@[t], sizes@[t]));
        let mut pairs: Vec<(u64, u64)> = Vec::new();
        let mut t: usize = 0;
        while t < n_updates
            invariant
                n_updates == indices@.len(),
                n_updates == sizes@.len(),
                t <= n_updates,
                ups == Seq::new(indices@.len(), |q: int| (indices@[q], sizes@[q])),
                pairs@ =~= ups.take(t as int),
            decreases n_updates - t,
        {
            pairs.push((indices[t], sizes[t]));
            t = t + 1;
        }
        proof {
            assert(pairs@ =~= ups);
        }
        self.batch_update_sizes(&pairs)
    }

    /// Queue one update for a later batch. When the queue reaches the
    /// configured batch threshold it is drained and applied at once,
    /// and any failure of that batch is reported here.
    pub fn queue_update(&mut self, index: u64, new_size: u64) -> (r: Result<
        (),
        VirtualListError,
    >)
        requires
            old(self).wf(),
        ensures
            final(self).wf(),
            final(self)@.wf(),
            ({
                let queued = old(self)@.pending.push((index, new_size));
                if queued.len() >= old(self)@.update_batch_size {
                    let base = ListModel { pending: Seq::empty(), ..old(self)@ };
                    &&& final(self)@ == crate::model::batch_step(base, queued).0
                    &&& r == crate::model::batch_step(base, queued).1
                } else {
                    &&& final(self)@ == ListModel { pending: queued, ..old(self)@ }
                    &&& r == Ok::<(), VirtualListError>(())
                }
            }),
    {
        let pending_len = self.pending_updates.len();
        if (pending_len as u64) + 1 >= self.config.update_batch_size {
            let mut ups: Vec<(u64, u64)> = Vec::new();
            let mut t: usize = 0;
            while t < pending_len
                invariant
                    pending_len == self.pending_updates@.len(),
                    t <= pending_len,
                    self@ == old(self)@,
                    ups@ =~= self.pending_updates@.take(t as int),
                decreases pending_len - t,
            {
                ups.push(self.pending_updates[t]);
                t = t + 1;
            }
            ups.push((index, new_size));
            proof {
                assert(ups@ =~= old(self)@.pending.push((index, new_size)));
            }
            self.pending_updates.clear();
            proof {
                assert(self@ =~= (ListModel { pending: Seq::empty(), ..old(self)@ }));
                lemma_restore_concrete(old(self)@, self@);
                assert(self@.wf());
                assert(self.wf());
            }
            self.batch_update_sizes(&ups)
        } else {
            self.pending_updates.push((index, new_size));
            proof {
                assert(self@ =~= (ListModel {
                    pending: old(self)@.pending.push((index, new_size)),
                    ..old(self)@
                }));
                lemma_restore_concrete(old(self)@, self@);
                assert(self@.wf());
                assert(self.wf());
            }
            Ok(())
        }
    }

    /// Drain the queued updates and apply them as one batch.
    pub fn process_pending_updates(&mut self) -> (r: Result<(), VirtualListError>)
        requires
            old(self).wf(),
        ensures
            final(self).wf(),
            final(self)@.wf(),
            ({
                let base = ListModel { pending: Seq::empty(), ..old(self)@ };
                &&& final(self)@ == crate::model::batch_step(base, old(self)@.pending).0
                &&& r == crate::model::batch_step(base, old(self)@.pending).1
            }),
    {
        let pending_len = self.pending_updates.len();
        let mut ups: Vec<(u64, u64)> = Vec::new();
        let mut t: usize = 0;
        while t < pending_len
            invariant
                pending_len == self.pending_updates@.len(),
                t <= pending_len,
                self@ == old(self)@,
                ups@ =~= self.pending_updates@.take(t as int),
            decreases pending_len - t,
        {
            ups.push(self.pending_updates[t]);
            t = t + 1;
        }
        proof {
            assert(ups@ =~= old(self)@.pending);
        }
        self.pending_updates.clear();
        proof {
            assert(self@ =~= (ListModel { pending: Seq::empty(), ..old(self)@ }));
            lemma_restore_concrete(old(self)@, self@);
            assert(self@.wf());
            assert(self.wf());
        }
        self.batch_update_sizes(&ups)
    }

    /// Drop the materialized chunk at `chunk_idx`, reverting its items
    /// to the estimated size and repairing the cumulative sums; any
    /// per-item updates it carried are lost, which the caller accepts by
    /// calling. Dropping an absent chunk does nothing.
    pub fn unload_chunk(&mut self, chunk_idx: u64) -> (r: Result<(), VirtualListError>)
        requires
            old(self).wf(),
        ensures
            final(self).wf(),
            final(self)@.wf(),
            match r {
                Ok(()) => {
                    &&& chunk_idx < old(self)@.num_chunks()
                    &&& final(self)@ == old(self)@.unload_step(chunk_idx as int)
                },
                Err(e) => {
                    &&& chunk_idx >= old(self)@.num_chunks()
                    &&& e == VirtualListError::IndexOutOfBounds
                    &&& final(self)@ == old(self)@
                },
            },
    {
        let num = self.chunks.len();
        if chunk_idx >= num as u64 {
            return Err(VirtualListError::IndexOutOfBounds);
        }
        let ci = chunk_idx as usize;
        proof {
            crate::model::lemma_unload_step(self@, chunk_idx as int);
        }
        if self.chunks[ci].is_some() {
            self.chunks[ci] = None;
            self.cache.forget(chunk_idx);
            proof {
                assert(self@.chunks =~= old(self)@.unload_step(chunk_idx as int).chunks);
                assert(self@ =~= old(self)@.unload_step(chunk_idx as int));
            }
            self.refresh_cumulative();
        }
        Ok(())
    }

    /// Drop every materialized chunk: all items revert to the estimated
    /// size and the cumulative sums to the estimated totals. Per-item
    /// updates are lost, which the caller accepts by calling.
    pub fn clear_cache(&mut self)
        requires
            old(self).wf(),
        ensures
            final(self).wf(),
            final(self)@.wf(),
            final(self)@ == old(self)@.cleared(),
            final(self)@.total() == (old(self)@.total_items as int) * (
            old(self)@.estimated_size as int),
    {
        proof {
            crate::model::lemma_cleared(self@);
        }
        let num = self.chunks.len();
        let mut c: usize = 0;
        while c < num
            invariant
                num == self.chunks@.len(),
                c <= num,
                self.total_items == old(self).total_items,
                self.chunk_size == old(self).chunk_size,
                self.estimated_size == old(self).estimated_size,
                self.orientation == old(self).orientation,
                self.config == old(self).config,
                self.cache@ == old(self).cache@,
                self.cache.policy() == old(self).cache.policy(),
                self.pending_updates@ == old(self).pending_updates@,
                forall|t: int| 0 <= t < c ==> (#[trigger] self.chunks@[t]) is None,
                forall|t: int|
                    c <= t < num ==> (#[trigger] self.chunks@[t]) == old(self).chunks@[t],
            decreases num - c,
        {
            self.chunks[c] = None;
            c = c + 1;
        }
        self.cache.clear();
        proof {
            assert(self@.chunks =~= old(self)@.cleared().chunks);
            assert(self@ =~= old(self)@.cleared());
        }
        self.refresh_cumulative();
    }

    /// Change the item count. Growing appends items at the estimated
    /// size, completing a partial materialized tail chunk and adding
    /// absent slots; shrinking truncates the chunks, the surviving tail
    /// chunk's sizes, and the cache bookkeeping of the dropped chunks.
    /// Growth past a threshold, of the item count, the estimated total,
    /// or the running total, is refused untouched.
    pub fn set_total_items(&mut self, new_total: u64) -> (r: Result<(), VirtualListError>)
        requires
            old(self).wf(),
        ensures
            final(self).wf(),
            final(self)@.wf(),
            match r {
                Ok(()) => {
                    &&& old(self)@.resize_fits(new_total)
                    &&& final(self)@ == old(self)@.resize_step(new_total)
                    &&& new_total > old(self)@.total_items ==> final(self)@.eff_sizes()
                        == old(self)@.eff_sizes() + Seq::new(
                        (new_total - old(self)@.total_items) as nat,
                        |q: int| old(self)@.estimated_size,
                    )
                    &&& new_total < old(self)@.total_items ==> final(self)@.eff_sizes()
                        == old(self)@.eff_sizes().take(new_total as int)
                },
                Err(e) => {
                    &&& e == VirtualListError::PrecisionLimitExceeded
                    &&& !old(self)@.resize_fits(new_total)
                    &&& final(self)@ == old(self)@
                },
            },
    {
        if new_total == self.total_items {
            return Ok(());
        }
        if new_total > MAX_ITEM_COUNT {
            return Err(VirtualListError::PrecisionLimitExceeded);
        }
        if new_total > self.total_items {
            proof {
                lemma_threshold_div(new_total, self.estimated_size);
            }
            if self.estimated_size > 0 && new_total > MAX_TOTAL_SIZE / self.estimated_size {
                return Err(VirtualListError::PrecisionLimitExceeded);
            }
            let added = new_total - self.total_items;
            proof {
                assert((added as int) * (self.estimated_size as int) <= (new_total as int)
                    * (self.estimated_size as int)) by (nonlinear_arith)
                    requires
                        added <= new_total,
                        self.estimated_size >= 0,
                ;
            }
            let added_est = added * self.estimated_size;
            if self.total_size > MAX_TOTAL_SIZE
                || added_est > MAX_TOTAL_SIZE - self.total_size {
                return Err(VirtualListError::PrecisionLimitExceeded);
            }
            proof {
                lemma_grown(self@, new_total);
            }
            self.grow_to(new_total);
            return Ok(());
        }
        proof {
            lemma_shrunk(self@, new_total);
        }
        self.shrink_to(new_total);
        Ok(())
    }

    /// The growing half of a resize: complete a partial materialized
    /// tail chunk with estimates and append absent slots.
#[verifier::rlimit(40)]
    fn grow_to(&mut self, new_total: u64)
        requires
            old(self).wf(),
            new_total > old(self)@.total_items,
            new_total <= MAX_ITEM_COUNT,
            (new_total as int) * (old(self)@.estimated_size as int) <= MAX_TOTAL_SIZE,
            old(self)@.total() + (new_total - old(self)@.total_items) * (
            old(self)@.estimated_size as int) <= MAX_TOTAL_SIZE,
        ensures
            final(self).wf(),
            final(self)@.wf(),
            final(self)@ == old(self)@.grown(new_total),
    {
        proof {
            lemma_grown(old(self)@, new_total);
            lemma_num_le_num(self.total_items, new_total, self.chunk_size);
            lemma_num_chunks_le(new_total, self.chunk_size);
        }
        let num2 = (new_total - 1) / self.chunk_size + 1;
        self.complete_tail(new_total);
        while self.chunks.len() < num2 as usize
            invariant
                old(self)@.wf(),
                num2 == num_chunks_of(new_total, old(self)@.chunk_size),
                new_total > old(self)@.total_items,
                num2 <= new_total <= MAX_ITEM_COUNT,
                old(self).chunks@.len() <= self.chunks@.len() <= num2 as usize,
                self.total_items == old(self).total_items,
                self.chunk_size == old(self).chunk_size,
                self.estimated_size == old(self).estimated_size,
                self.orientation == old(self).orientation,
                self.config == old(self).config,
                self.cache@ == old(self).cache@,
                self.cache.policy() == old(self).cache.policy(),
                self.pending_updates@ == old(self).pending_updates@,
                forall|t: int|
                    0 <= t < self.chunks@.len()
                        ==> self@.chunks[t] == old(self)@.grown(new_total).chunks[t],
                forall|t: int|
                    0 <= t < self.chunks@.len() && (#[trigger] self.chunks@[t]) is Some
                        ==> self.chunks@[t].unwrap().wf(),
            decreases num2 as usize - self.chunks@.len(),
        {
            let ghost pre = self.chunks@;
            let ghost vpre = self@;
            proof {
                assert(old(self)@.grown(new_total).chunks[pre.len() as int] is None);
            }
            self.chunks.push(None);
            proof {
                assert forall|t: int| 0 <= t < self.chunks@.len() implies self@.chunks[t]
                    == old(self)@.grown(new_total).chunks[t] by {
                    if t < pre.len() {
                        assert(vpre.chunks[t] == old(self)@.grown(new_total).chunks[t]);
                        assert(self.chunks@[t] == pre[t]);
                        assert(self@.chunks[t] == vpre.chunks[t]);
                    } else {
                        assert(self.chunks@[t] is None);
                    }
                }
            }
        }
        let ghost vdone = self@;
        self.total_items = new_total;
        proof {
            assert forall|t: int|
                0 <= t < self.chunks@.len() implies self@.chunks[t] == old(self)@.grown(
                new_total,
            ).chunks[t] by {
                assert(vdone.chunks[t] == old(self)@.grown(new_total).chunks[t]);
                assert(self@.chunks[t] == vdone.chunks[t]);
            }
            assert(self@.chunks =~= old(self)@.grown(new_total).chunks);
            assert(self@ =~= old(self)@.grown(new_total));
        }
        self.refresh_cumulative();
    }

    /// Complete a partial materialized tail chunk with estimated sizes,
    /// so that the chunk slots agree with the grown list as far as they
    /// reach.
#[verifier::rlimit(40)]
    fn complete_tail(&mut self, new_total: u64)
        requires
            old(self).wf(),
            new_total > old(self)@.total_items,
            new_total <= MAX_ITEM_COUNT,
            (new_total as int) * (old(self)@.estimated_size as int) <= MAX_TOTAL_SIZE,
            old(self)@.total() + (new_total - old(self)@.total_items) * (
            old(self)@.estimated_size as int) <= MAX_TOTAL_SIZE,
        ensures
            final(self).chunks@.len() == old(self).chunks@.len(),
            final(self).total_items == old(self).total_items,
            final(self).chunk_size == old(self).chunk_size,
            final(self).estimated_size == old(self).estimated_size,
            final(self).orientation == old(self).orientation,
            final(self).config == old(self).config,
            final(self).cache@ == old(self).cache@,
            final(self).cache.policy() == old(self).cache.policy(),
            final(self).pending_updates@ == old(self).pending_updates@,
            forall|t: int|
                0 <= t < final(self).chunks@.len()
                    ==> final(self)@.chunks[t] == old(self)@.grown(new_total).chunks[t],
            forall|t: int|
                0 <= t < final(self).chunks@.len() && (#[trigger] final(self).chunks@[t])
                    is Some ==> final(self).chunks@[t].unwrap().wf(),
    {
        proof {
            lemma_num_le_num(self.total_items, new_total, self.chunk_size);
            lemma_num_chunks_le(new_total, self.chunk_size);
        }
        let added = new_total - self.total_items;
        let old_num = self.chunks.len();
        if old_num == 0 {
            return ;
        }
        let tc = old_num - 1;
        proof {
            lemma_chunk_bounds(self.total_items, self.chunk_size, tc as int);
            lemma_chunk_bounds(new_total, self.chunk_size, tc as int);
        }
        let start = (tc as u64) * self.chunk_size;
        let w2 = if new_total - start >= self.chunk_size {
            self.chunk_size
        } else {
            new_total - start
        };
        let w1 = self.items_in_chunk(tc as u64);
        proof {
            assert(w2 as int == items_in_chunk_of(new_total, self.chunk_size, tc as int));
            assert(w1 <= w2);
        }
        if w2 > w1 {
            let tail = match &self.chunks[tc] {
                Some(ch) => Some(ch.clone()),
                None => None,
            };
            match tail {
                Some(mut ch) => {
                    proof {
                        assert(old(self)@.chunks[tc as int] == Some(ch@));
                        assert(ch@.len() == w1);
                        lemma_chunk_total_bounds(old(self)@, tc as int);
                        assert(((w2 - w1) as int) * (self.estimated_size as int) <= (
                        added as int) * (self.estimated_size as int)) by (nonlinear_arith)
                            requires
                                0 <= w2 - w1 <= added,
                                self.estimated_size >= 0,
                        ;
                    }
                    ch.extend_with((w2 - w1) as usize, self.estimated_size);
                    self.chunks[tc] = Some(ch);
                    proof {
                        assert forall|t: int| 0 <= t < self.chunks@.len() implies self@.chunks[
                            t] == old(self)@.grown(new_total).chunks[t] by {
                            if t != tc as int {
                                assert(self.chunks@[t] == old(self).chunks@[t]);
                            }
                        }
                    }
                },
                None => {
                    proof {
                        assert forall|t: int| 0 <= t < self.chunks@.len() implies self@.chunks[
                            t] == old(self)@.grown(new_total).chunks[t] by {}
                    }
                },
            }
        } else {
            proof {
                assert forall|t: int| 0 <= t < self.chunks@.len() implies self@.chunks[t]
                    == old(self)@.grown(new_total).chunks[t] by {
                    if t == tc as int {
                        if self.chunks@[t] is Some {
                            assert(self.chunks@[t].unwrap()@.len() == w1);
                        }
                    }
                }
            }
        }
    }

    /// The shrinking half of a resize: truncate the chunk slots, the
    /// surviving tail chunk, and the cache bookkeeping.
#[verifier::rlimit(40)]
    fn shrink_to(&mut self, new_total: u64)
        requires
            old(self).wf(),
            new_total < old(self)@.total_items,
        ensures
            final(self).wf(),
            final(self)@.wf(),
            final(self)@ == old(self)@.shrunk(new_total),
    {
        proof {
            lemma_shrunk(old(self)@, new_total);
            lemma_num_le_num(new_total, self.total_items, self.chunk_size);
            lemma_num_chunks_le(self.total_items, self.chunk_size);
        }
        let num2 = if new_total == 0 {
            0u64
        } else {
            (new_total - 1) / self.chunk_size + 1
        };
        self.chunks.truncate(num2 as usize);
        if num2 > 0 {
            let tc = (num2 - 1) as usize;
            proof {
                lemma_chunk_bounds(new_total, self.chunk_size, tc as int);
                lemma_chunk_bounds(self.total_items, self.chunk_size, tc as int);
            }
            let start = (num2 - 1) * self.chunk_size;
            let w2 = if new_total - start >= self.chunk_size {
                self.chunk_size
            } else {
                new_total - start
            };
            let tail = match &self.chunks[tc] {
                Some(ch) => Some(ch.clone()),
                None => None,
            };
            match tail {
                Some(mut ch) => {
                    proof {
                        assert(old(self)@.chunks[tc as int] == Some(ch@));
                    }
                    if (w2 as usize) < ch.len() {
                        ch.truncate_to(w2 as usize);
                        self.chunks[tc] = Some(ch);
                    }
                },
                None => {},
            }
        }
        self.cache.retain_below(num2);
        self.total_items = new_total;
        proof {
            assert(self@.chunks =~= old(self)@.shrunk(new_total).chunks);
            assert(self@ =~= old(self)@.shrunk(new_total));
        }
        self.refresh_cumulative();
    }

    /// Append `count` items at the estimated size.
    pub fn add_items(&mut self, count: u64) -> (r: Result<(), VirtualListError>)
        requires
            old(self).wf(),
        ensures
            final(self).wf(),
            final(self)@.wf(),
            count > MAX_ITEM_COUNT - old(self)@.total_items ==> r == Err::<
                (),
                VirtualListError,
            >(VirtualListError::PrecisionLimitExceeded) && final(self)@ == old(self)@,
            count <= MAX_ITEM_COUNT - old(self)@.total_items ==> ({
                let n2 = (old(self)@.total_items + count) as u64;
                match r {
                    Ok(()) => old(self)@.resize_fits(n2) && final(self)@ == old(
                        self,
                    )@.resize_step(n2),
                    Err(e) => e == VirtualListError::PrecisionLimitExceeded && !old(
                        self,
                    )@.resize_fits(n2) && final(self)@ == old(self)@,
                }
            }),
    {
        if count > MAX_ITEM_COUNT - self.total_items {
            return Err(VirtualListError::PrecisionLimitExceeded);
        }
        self.set_total_items(self.total_items + count)
    }

    /// Drop the last `count` items.
    pub fn remove_items(&mut self, count: u64) -> (r: Result<(), VirtualListError>)
        requires
            old(self).wf(),
        ensures
            final(self).wf(),
            final(self)@.wf(),
            match r {
                Ok(()) => {
                    &&& count <= old(self)@.total_items
                    &&& final(self)@ == old(self)@.resize_step(
                        (old(self)@.total_items - count) as u64,
                    )
                },
                Err(e) => {
                    &&& count > old(self)@.total_items
                    &&& e == VirtualListError::IndexOutOfBounds
                    &&& final(self)@ == old(self)@
                },
            },
    {
        if count > self.total_items {
            return Err(VirtualListError::IndexOutOfBounds);
        }
        proof {
            if count > 0 {
                assert(self@.resize_fits((self@.total_items - count) as u64));
            }
        }
        let res = self.set_total_items(self.total_items - count);
        proof {
            assert(res is Ok);
        }
        Ok(())
    }

    /// The smallest item cut whose position reaches `p`, or the item
    /// count when none does: a binary search over the cumulative sums
    /// routes to a chunk, and the chunk's prefix sums (or, for an
    /// absent chunk, a division by the estimated size) finish the
    /// search. Nothing is materialized.
#[verifier::rlimit(40)]
    fn item_lower_bound(&self, p: u64) -> (r: u64)
        requires
            self.wf(),
            self@.total_items >= 1,
        ensures
            r == crate::model::item_lower_bound(self@, p as int),
            r <= self@.total_items,
    {
        proof {
            lemma_chunk_total_bounds_all(self@);
            crate::model::lemma_total_is_position_end(self@);
        }
        if p == 0 {
            proof {
                crate::model::lemma_smallest_prefix_ge_unique(self@.eff_sizes(), 0, 0);
            }
            return 0;
        }
        if p > self.total_size {
            proof {
                assert forall|t: int| 0 <= t < self@.total_items implies seq_total(
                    self@.eff_sizes().take(t),
                ) < p as int by {
                    crate::model::lemma_position_monotone(
                        self@,
                        t,
                        self@.total_items as int,
                    );
                }
                crate::model::lemma_smallest_prefix_ge_unique(
                    self@.eff_sizes(),
                    p as int,
                    self@.total_items as int,
                );
            }
            return self.total_items;
        }
        proof {
            lemma_num_chunks_le(self.total_items, self.chunk_size);
        }
        let num = self.chunks.len();
        let mut lo: usize = 0;
        let mut hi: usize = num - 1;
        while lo < hi
            invariant
                self.wf(),
                self@.num_chunks() >= 1,
                num == self@.num_chunks(),
                num == self.cumulative_sizes@.len(),
                p as int <= self@.total(),
                lo <= hi < num,
                forall|t: int| 0 <= t < lo ==> self@.cum_through(t) < p,
                self@.cum_through(hi as int) >= p,
            decreases hi - lo,
        {
            let mid = lo + (hi - lo) / 2;
            if self.cumulative_sizes[mid] >= p {
                hi = mid;
            } else {
                proof {
                    assert forall|t: int| 0 <= t < mid + 1 implies self@.cum_through(t)
                        < p by {
                        if lo <= t {
                            lemma_cum_monotone(self@, t, mid as int);
                        }
                    }
                }
                lo = mid + 1;
            }
        }
        let c = lo as u64;
        proof {
            lemma_chunk_bounds(self.total_items, self.chunk_size, c as int);
            lemma_cum_monotone(self@, -1, c as int - 1);
        }
        let base = if lo == 0 {
            0u64
        } else {
            self.cumulative_sizes[lo - 1]
        };
        let t = p - base;
        proof {
            assert(t as int == p - self@.cum_through(c as int - 1));
            assert(t as int <= self@.chunk_total(c as int));
        }
        let j: u64 = match &self.chunks[lo] {
            Some(ch) => {
                proof {
                    assert(self@.chunks[c as int] == Some(ch@));
                    crate::model::lemma_smallest_prefix_ge(ch@, t as int);
                }
                ch.prefix_lower_bound(t) as u64
            },
            None => {
                let e = self.estimated_size;
                proof {
                    crate::model::lemma_seq_total_constant(
                        self@.items_in_chunk(c as int) as nat,
                        e,
                    );
                    if e == 0 {
                        assert(self@.items_in_chunk(c as int) * 0 == 0) by (nonlinear_arith);
                        assert(self@.chunk_total(c as int) == 0);
                        assert(false);
                    }
                }
                let q = (t + e - 1) / e;
                proof {
                    lemma_ceil_div(t, e, self@.items_in_chunk(c as int));
                }
                q
            },
        };
        proof {
            let w = self@.items_in_chunk(c as int);
            let q = self@.chunk_sizes(c as int);
            assert forall|x: int| 0 <= x < j implies seq_total(q.take(x)) < t as int by {
                if self@.chunks[c as int] is None {
                    assert(q.take(x) =~= Seq::new(x as nat, |i: int| self.estimated_size));
                    crate::model::lemma_seq_total_constant(x as nat, self.estimated_size);
                    assert(x * self.estimated_size <= (j - 1) * self.estimated_size)
                        by (nonlinear_arith)
                        requires
                            x <= j - 1,
                            self.estimated_size >= 0,
                    ;
                }
            }
            if j < w && self@.chunks[c as int] is None {
                assert(q.take(j as int) =~= Seq::new(
                    j as nat,
                    |i: int| self.estimated_size,
                ));
                crate::model::lemma_seq_total_constant(j as nat, self.estimated_size);
            }
            crate::model::lemma_lower_bound_compose(self@, p as int, c as int, j as int);
        }
        c * self.chunk_size + j
    }

    /// The largest item index whose position stays at or under `p`,
    /// seen from the other side: the smallest item whose running prefix
    /// sum reaches `p`, clamped to the last item. Positions past the
    /// total answer the last item.
    pub fn find_smallest_i_where_prefix_sum_ge(&self, p: u64) -> (r: u64)
        requires
            self.wf(),
            self@.total_items >= 1,
        ensures
            ({
                let q = vstd::math::min(p as int, self@.total());
                r == vstd::math::min(
                    crate::model::item_lower_bound(self@, q),
                    self@.total_items - 1,
                )
            }),
    {
        proof {
            lemma_chunk_total_bounds_all(self@);
        }
        let clamped = if p < self.total_size {
            p
        } else {
            self.total_size
        };
        let l = self.item_lower_bound(clamped);
        if l < self.total_items {
            l
        } else {
            self.total_items - 1
        }
    }

    /// The items a viewport presents, answered without materializing
    /// anything: from the first item starting at or past the clamped
    /// scroll offset, one item per average size across the viewport,
    /// widened by `overscan` items on both sides. An empty list, an
    /// empty viewport, or a scroll offset past the total answers
    /// nothing.
#[verifier::rlimit(40)]
    pub fn compute_visible_range(&self, scroll: i64, viewport: u64, overscan: u64) -> (r:
        Vec<VisibleItem>)
        requires
            self.wf(),
        ensures
            ({
                let (lo, hi) = self@.visible_window(
                    scroll as int,
                    viewport as int,
                    overscan as int,
                );
                &&& r@.len() == hi - lo
                &&& forall|q: int|
                    0 <= q < r@.len() ==> {
                        let item = #[trigger] r@[q];
                        &&& item.index == lo + q
                        &&& item.position == self@.position(lo + q)
                        &&& item.size == self@.eff_size(lo + q)
                    }
            }),
    {
        proof {
            lemma_chunk_total_bounds_all(self@);
            crate::model::lemma_total_is_position_end(self@);
        }
        let mut items: Vec<VisibleItem> = Vec::new();
        if self.total_items == 0 || viewport == 0 {
            return items;
        }
        let s: u64 = if scroll < 0 {
            0
        } else {
            scroll as u64
        };
        if s > self.total_size {
            return items;
        }
        let l0 = self.item_lower_bound(s);
        let avg0 = self.total_size / self.total_items;
        let avg = if avg0 >= 1 {
            avg0
        } else {
            1
        };
        let rest = self.total_size - s;
        let veff = if viewport < rest {
            viewport
        } else {
            rest
        };
        let count = (veff + avg - 1) / avg;
        let e0 = if l0 + count < self.total_items {
            l0 + count
        } else {
            self.total_items
        };
        let ov = if overscan < self.total_items {
            overscan
        } else {
            self.total_items
        };
        let lo = if l0 > ov {
            l0 - ov
        } else {
            0
        };
        let hi = if e0 + ov < self.total_items {
            e0 + ov
        } else {
            self.total_items
        };
        proof {
            assert(lo as int == self@.visible_window(
                scroll as int,
                viewport as int,
                overscan as int,
            ).0);
            assert(hi as int == self@.visible_window(
                scroll as int,
                viewport as int,
                overscan as int,
            ).1);
            assert(lo <= hi);
        }
        if lo >= hi {
            return items;
        }
        let mut pos = self.get_position(lo);
        let mut i = lo;
        while i < hi
            invariant
                self.wf(),
                self@.total_items >= 1,
                lo <= i <= hi <= self@.total_items,
                pos as int == self@.position(i as int),
                items@.len() == i - lo,
                forall|q: int|
                    0 <= q < items@.len() ==> {
                        let item = #[trigger] items@[q];
                        &&& item.index == lo + q
                        &&& item.position == self@.position(lo + q)
                        &&& item.size == self@.eff_size(lo + q)
                    },
            decreases hi - i,
        {
            let size = match self.get_item_size(i) {
                Ok(sz) => sz,
                Err(_) => {
                    proof {
                        assert(false);
                    }
                    0
                },
            };
            items.push(VisibleItem { index: i, position: pos, size });
            proof {
                crate::model::lemma_seq_total_take_succ(self@.eff_sizes(), i as int);
                crate::model::lemma_position_monotone(
                    self@,
                    i as int + 1,
                    self@.total_items as int,
                );
                crate::model::lemma_total_is_position_end(self@);
                lemma_chunk_total_bounds_all(self@);
            }
            pos = pos + size;
            i = i + 1;
        }
        items
    }

    /// The running total of all effective item sizes.
    pub fn total_size(&self) -> (r: u64)
        requires
            self.wf(),
        ensures
            r == self@.total(),
    {
        self.total_size
    }

    /// How many items the list holds.
    pub fn total_items(&self) -> (r: u64)
        ensures
            r == self@.total_items,
    {
        self.total_items
    }

    /// The stored orientation tag.
    pub fn orientation(&self) -> (r: Orientation)
        ensures
            r == self@.orientation,
    {
        self.orientation
    }

    /// How many chunks are currently materialized.
    pub fn loaded_count(&self) -> (r: u64)
        requires
            self.wf(),
        ensures
            r == self@.loaded_count(),
    {
        self.cache.len() as u64
    }

    /// The effective size of item `i`: the stored size when its chunk is
    /// materialized, the estimated size otherwise. Nothing is
    /// materialized by asking.
    pub fn get_item_size(&self, i: u64) -> (r: Result<u64, VirtualListError>)
        requires
            self.wf(),
        ensures
            match r {
                Ok(s) => i < self@.total_items && s == self@.eff_size(i as int),
                Err(e) => i >= self@.total_items && e == VirtualListError::IndexOutOfBounds,
            },
    {
        if i >= self.total_items {
            return Err(VirtualListError::IndexOutOfBounds);
        }
        proof {
            lemma_index_in_chunk(self.total_items, self.chunk_size, i as int);
            lemma_num_chunks_le(self.total_items, self.chunk_size);
        }
        let c = i / self.chunk_size;
        let j = i % self.chunk_size;
        proof {
            vstd::arithmetic::div_mod::lemma_fundamental_div_mod(
                i as int,
                self.chunk_size as int,
            );
        }
        match &self.chunks[c as usize] {
            Some(ch) => {
                proof {
                    assert(self@.chunks[c as int] == Some(ch@));
                    assert(ch@.len() == self@.items_in_chunk(c as int));
                    assert(j as int == i as int - (c as int) * self.chunk_size);
                }
                Ok(ch.size_at(j as usize))
            },
            None => Ok(self.estimated_size),
        }
    }
}

/// Every cumulative partial sum of a well-formed model sits between zero
/// and the headroom bound.
proof fn lemma_chunk_total_bounds_all(m: ListModel)
    requires
        m.wf(),
    ensures
        forall|t: int|
            -1 <= t < m.num_chunks() ==> m.cum_through(t) <= 2 * MAX_TOTAL_SIZE
                && m.cum_through(t) >= 0,
{
    assert forall|t: int|
        -1 <= t < m.num_chunks() implies m.cum_through(t) <= 2 * MAX_TOTAL_SIZE
        && m.cum_through(t) >= 0 by {
        lemma_cum_monotone(m, -1, t);
        lemma_cum_monotone(m, t, m.num_chunks() - 1);
        crate::model::lemma_cum_le_padded(m, m.num_chunks() - 1);
    }
}

/// Division check for the estimated total: within the quotient bound the
/// product stays under the threshold, beyond it the product is over.
proof fn lemma_threshold_div(n: u64, e: u64)
    requires
        e <= MAX_TOTAL_SIZE,
    ensures
        e > 0 && n > MAX_TOTAL_SIZE / e ==> (n as int) * (e as int) > MAX_TOTAL_SIZE,
        e == 0 ==> (n as int) * (e as int) == 0,
        e > 0 && n <= MAX_TOTAL_SIZE / e ==> (n as int) * (e as int) <= MAX_TOTAL_SIZE,
{
    if e > 0 {
        let q = MAX_TOTAL_SIZE as int / e as int;
        vstd::arithmetic::div_mod::lemma_fundamental_div_mod(MAX_TOTAL_SIZE as int, e as int);
        vstd::arithmetic::div_mod::lemma_mod_bound(MAX_TOTAL_SIZE as int, e as int);
        if n > q {
            assert((n as int) * (e as int) >= (q + 1) * (e as int)) by (nonlinear_arith)
                requires
                    n as int >= q + 1,
                    e as int >= 1,
            ;
            assert((q + 1) * (e as int) == q * (e as int) + e as int) by (nonlinear_arith);
        } else {
            assert((n as int) * (e as int) <= q * (e as int)) by (nonlinear_arith)
                requires
                    n as int <= q,
                    e as int >= 1,
            ;
        }
    } else {
        assert((n as int) * 0 == 0) by (nonlinear_arith);
    }
}

/// A just-built list, all chunks absent and nothing cached, is well
/// formed.
proof fn lemma_fresh_model_wf(m: ListModel)
    requires
        m.chunk_size >= 1,
        m.total_items <= MAX_ITEM_COUNT,
        m.estimated_size <= MAX_TOTAL_SIZE,
        (m.total_items as int) * (m.estimated_size as int) <= MAX_TOTAL_SIZE,
        m.chunks.len() == m.num_chunks(),
        forall|c: int| 0 <= c < m.chunks.len() ==> (#[trigger] m.chunks[c]) is None,
        m.cache.len() == 0,
        m.pending.len() == 0,
        m.buffer_size >= 1,
        m.overscan_items >= 1,
        m.update_batch_size >= 1,
        m.max_loaded_chunks matches Some(mx) ==> mx >= 1,
    ensures
        m.wf(),
{
    lemma_fresh_padded(m, m.num_chunks() - 1);
    crate::model::lemma_padded_le_cum_plus_est(m, m.num_chunks() - 1);
    lemma_estimates_sum(m, m.num_chunks());
    lemma_chunk_floor_end(m);
    lemma_fresh_total(m, m.num_chunks());
}

/// In an all-absent list every chunk contributes its estimate, so the
/// cumulative sums are the estimated sums.
proof fn lemma_fresh_total(m: ListModel, c: int)
    requires
        m.chunk_size >= 1,
        forall|t: int| 0 <= t < m.chunks.len() ==> (#[trigger] m.chunks[t]) is None,
        m.chunks.len() == m.num_chunks(),
        c <= m.num_chunks(),
    ensures
        m.cum_through(c - 1) == crate::model::est_through(m, c - 1),
    decreases c + 1,
{
    if c - 1 >= 0 {
        lemma_fresh_total(m, c - 1);
        if c - 1 < m.num_chunks() {
            lemma_chunk_bounds(m.total_items, m.chunk_size, c - 1);
            lemma_seq_total_constant(m.items_in_chunk(c - 1) as nat, m.estimated_size);
        }
    }
}

/// The chunk floor at the end of the chunk sequence is the item count.
proof fn lemma_chunk_floor_end(m: ListModel)
    requires
        m.chunk_size >= 1,
    ensures
        m.chunk_floor(m.num_chunks()) == m.total_items,
{
    if m.total_items > 0 {
        let lc = m.num_chunks() - 1;
        let k = m.chunk_size as int;
        lemma_chunk_bounds(m.total_items, m.chunk_size, lc);
        assert((lc + 1) * k == lc * k + k) by (nonlinear_arith);
    }
}

/// Padded contributions of an all-absent list are the estimates, whose
/// sum is under the threshold.
proof fn lemma_fresh_padded(m: ListModel, c: int)
    requires
        m.chunk_size >= 1,
        forall|t: int| 0 <= t < m.chunks.len() ==> (#[trigger] m.chunks[t]) is None,
        m.chunks.len() == m.num_chunks(),
        c < m.num_chunks(),
    ensures
        m.padded_through(c) == crate::model::est_through(m, c),
    decreases c + 1,
{
    if c >= 0 {
        lemma_fresh_padded(m, c - 1);
        lemma_chunk_bounds(m.total_items, m.chunk_size, c);
        lemma_seq_total_constant(m.items_in_chunk(c) as nat, m.estimated_size);
    }
}

} // verus!

verus! {

/// Materializing or touching chunks does not change where any chunk
/// boundary or any width lies, so the concrete cumulative sums stay
/// valid whenever the chunk data is unchanged.
proof fn lemma_restore_concrete(m1: ListModel, m2: ListModel)
    requires
        m1.wf(),
        m2.total_items == m1.total_items,
        m2.chunk_size == m1.chunk_size,
        m2.estimated_size == m1.estimated_size,
        m2.chunks == m1.chunks,
    ensures
        forall|t: int| m2.cum_through(t) == m1.cum_through(t),
        forall|t: int| m2.padded_through(t) == m1.padded_through(t),
        m2.total() == m1.total(),
        m2.padded_total() == m1.padded_total(),
{
    assert forall|t: int| m2.cum_through(t) == m1.cum_through(t) by {
        crate::model::lemma_cum_congruent(m1, m2, t);
    }
    assert forall|t: int| m2.padded_through(t) == m1.padded_through(t) by {
        crate::model::lemma_padded_congruent(m1, m2, t);
    }
}

} // verus!
