use vstd::prelude::*;

use crate::cache::{distinct_chunks, tracks, CacheEntry};
use crate::config::{CachePolicy, Orientation};

verus! {

/// Safe threshold for every size, offset and running total, chosen so
/// that prefix-sum arithmetic never loses a unit step and, with the
/// headroom left below `u64::MAX`, never overflows. An operation whose
/// outcome would push a total beyond this bound is refused with
/// `PrecisionLimitExceeded`.
pub const MAX_TOTAL_SIZE: u64 = 1_000_000_000_000_000;

/// Greatest admissible item count, chosen so that every item index fits
/// the machine's word size.
pub const MAX_ITEM_COUNT: u64 = 4_294_967_295;

/// Mathematical sum of a sequence of sizes.
pub open spec fn seq_total(s: Seq<u64>) -> int
    decreases s.len(),
{
    if s.len() == 0 {
        0
    } else {
        seq_total(s.drop_last()) + s.last()
    }
}

pub proof fn lemma_seq_total_nonneg(s: Seq<u64>)
    ensures
        seq_total(s) >= 0,
    decreases s.len(),
{
    if s.len() > 0 {
        lemma_seq_total_nonneg(s.drop_last());
    }
}

/// The sum of one more element of a prefix.
pub proof fn lemma_seq_total_take_succ(s: Seq<u64>, i: int)
    requires
        0 <= i < s.len(),
    ensures
        seq_total(s.take(i + 1)) == seq_total(s.take(i)) + s[i],
{
    assert(s.take(i + 1).drop_last() =~= s.take(i));
    assert(s.take(i + 1).last() == s[i]);
}

pub proof fn lemma_seq_total_take_full(s: Seq<u64>)
    ensures
        seq_total(s.take(s.len() as int)) == seq_total(s),
{
    assert(s.take(s.len() as int) =~= s);
}

/// Prefix sums grow with the prefix.
pub proof fn lemma_seq_total_take_monotone(s: Seq<u64>, i: int, j: int)
    requires
        0 <= i <= j <= s.len(),
    ensures
        seq_total(s.take(i)) <= seq_total(s.take(j)),
    decreases j - i,
{
    if i < j {
        lemma_seq_total_take_succ(s, j - 1);
        lemma_seq_total_take_monotone(s, i, j - 1);
    }
}

/// A sum splits at any cut into the sum of the prefix and the sum of the
/// rest.
pub proof fn lemma_seq_total_split(s: Seq<u64>, i: int)
    requires
        0 <= i <= s.len(),
    ensures
        seq_total(s) == seq_total(s.take(i)) + seq_total(s.skip(i)),
    decreases s.len() - i,
{
    if i == s.len() {
        lemma_seq_total_take_full(s);
        assert(s.skip(i) =~= Seq::<u64>::empty());
    } else {
        lemma_seq_total_split(s, i + 1);
        lemma_seq_total_take_succ(s, i);
        assert(s.skip(i).drop_first() =~= s.skip(i + 1));
        lemma_seq_total_skip_first(s.skip(i));
    }
}

/// Peeling the first element off a nonempty sum.
pub proof fn lemma_seq_total_skip_first(s: Seq<u64>)
    requires
        s.len() > 0,
    ensures
        seq_total(s) == s[0] + seq_total(s.drop_first()),
    decreases s.len(),
{
    if s.len() == 1 {
        assert(s.drop_first() =~= Seq::<u64>::empty());
        assert(s.drop_last() =~= Seq::<u64>::empty());
    } else {
        lemma_seq_total_skip_first(s.drop_last());
        assert(s.drop_last().drop_first() =~= s.drop_first().drop_last());
        assert(s.drop_first().last() == s.last());
    }
}

/// No element exceeds the sum around it.
pub proof fn lemma_seq_total_element_bound(s: Seq<u64>, i: int)
    requires
        0 <= i < s.len(),
    ensures
        s[i] <= seq_total(s),
{
    lemma_seq_total_split(s, i);
    lemma_seq_total_skip_first(s.skip(i));
    lemma_seq_total_nonneg(s.take(i));
    lemma_seq_total_nonneg(s.skip(i).drop_first());
    assert(s.skip(i)[0] == s[i]);
}

/// The sum of a constant sequence.
pub proof fn lemma_seq_total_constant(len: nat, v: u64)
    ensures
        seq_total(Seq::new(len, |i: int| v)) == len * v,
    decreases len,
{
    let s = Seq::new(len, |i: int| v);
    if len == 0 {
        assert(seq_total(s) == 0);
    } else {
        lemma_seq_total_constant((len - 1) as nat, v);
        assert(s.drop_last() =~= Seq::new((len - 1) as nat, |i: int| v));
        assert(seq_total(s) == (len - 1) * v + v);
        assert((len - 1) * v + v == len * v) by (nonlinear_arith);
    }
}

/// Replacing one element moves the sum by the difference.
pub proof fn lemma_seq_total_update(s: Seq<u64>, i: int, v: u64)
    requires
        0 <= i < s.len(),
    ensures
        seq_total(s.update(i, v)) == seq_total(s) - s[i] + v,
    decreases s.len(),
{
    if i == s.len() - 1 {
        assert(s.update(i, v).drop_last() =~= s.drop_last());
        assert(s.update(i, v).last() == v);
    } else {
        lemma_seq_total_update(s.drop_last(), i, v);
        assert(s.update(i, v).drop_last() =~= s.drop_last().update(i, v));
        assert(s.update(i, v).last() == s.last());
    }
}

/// Appending extends the sum.
pub proof fn lemma_seq_total_push(s: Seq<u64>, v: u64)
    ensures
        seq_total(s.push(v)) == seq_total(s) + v,
{
    assert(s.push(v).drop_last() =~= s);
    assert(s.push(v).last() == v);
}

/// A sum of two glued sequences is the sum of the parts.
pub proof fn lemma_seq_total_concat(a: Seq<u64>, b: Seq<u64>)
    ensures
        seq_total(a + b) == seq_total(a) + seq_total(b),
{
    lemma_seq_total_split(a + b, a.len() as int);
    assert((a + b).take(a.len() as int) =~= a);
    assert((a + b).skip(a.len() as int) =~= b);
}

/// Helper for `largest_prefix_le`: the search started at cut `j` and
/// walking down.
pub open spec fn largest_prefix_le_from(s: Seq<u64>, p: int, j: int) -> int
    decreases j,
{
    if j <= 0 {
        0
    } else if seq_total(s.take(j)) <= p {
        j
    } else {
        largest_prefix_le_from(s, p, j - 1)
    }
}

/// The largest cut `j` in `[0, s.len()]` whose prefix sum is at most `p`.
/// For `p >= 0` it always exists, since the empty prefix sums to zero.
pub open spec fn largest_prefix_le(s: Seq<u64>, p: int) -> int {
    largest_prefix_le_from(s, p, s.len() as int)
}

pub proof fn lemma_largest_prefix_le_from(s: Seq<u64>, p: int, j: int)
    requires
        p >= 0,
        0 <= j <= s.len(),
    ensures
        0 <= largest_prefix_le_from(s, p, j) <= j,
        seq_total(s.take(largest_prefix_le_from(s, p, j))) <= p,
        forall|t: int|
            largest_prefix_le_from(s, p, j) < t <= j ==> seq_total(s.take(t)) > p,
    decreases j,
{
    if j > 0 && seq_total(s.take(j)) > p {
        lemma_largest_prefix_le_from(s, p, j - 1);
    }
}

/// What `largest_prefix_le` returns: the unique cut at or below `p` whose
/// successor cuts all lie above `p`.
pub proof fn lemma_largest_prefix_le(s: Seq<u64>, p: int)
    requires
        p >= 0,
    ensures
        0 <= largest_prefix_le(s, p) <= s.len(),
        seq_total(s.take(largest_prefix_le(s, p))) <= p,
        forall|t: int|
            largest_prefix_le(s, p) < t <= s.len() ==> seq_total(s.take(t)) > p,
{
    lemma_largest_prefix_le_from(s, p, s.len() as int);
}

/// Any cut that satisfies the characterization is the one returned.
pub proof fn lemma_largest_prefix_le_unique(s: Seq<u64>, p: int, j: int)
    requires
        p >= 0,
        0 <= j <= s.len(),
        seq_total(s.take(j)) <= p,
        forall|t: int| j < t <= s.len() ==> seq_total(s.take(t)) > p,
    ensures
        j == largest_prefix_le(s, p),
{
    lemma_largest_prefix_le(s, p);
}

/// Helper for `smallest_prefix_ge`: the search started at cut `j` and
/// walking up.
pub open spec fn smallest_prefix_ge_from(s: Seq<u64>, p: int, j: int) -> int
    decreases s.len() - j,
{
    if j >= s.len() {
        s.len() as int
    } else if seq_total(s.take(j)) >= p {
        j
    } else {
        smallest_prefix_ge_from(s, p, j + 1)
    }
}

/// The smallest cut `j` in `[0, s.len()]` whose prefix sum is at least
/// `p`, or `s.len()` when no cut reaches `p`.
pub open spec fn smallest_prefix_ge(s: Seq<u64>, p: int) -> int {
    smallest_prefix_ge_from(s, p, 0)
}

pub proof fn lemma_smallest_prefix_ge_from(s: Seq<u64>, p: int, j: int)
    requires
        0 <= j <= s.len(),
    ensures
        j <= smallest_prefix_ge_from(s, p, j) <= s.len(),
        smallest_prefix_ge_from(s, p, j) < s.len() ==> seq_total(
            s.take(smallest_prefix_ge_from(s, p, j)),
        ) >= p,
        forall|t: int|
            j <= t < smallest_prefix_ge_from(s, p, j) ==> seq_total(s.take(t)) < p,
    decreases s.len() - j,
{
    if j < s.len() && seq_total(s.take(j)) < p {
        lemma_smallest_prefix_ge_from(s, p, j + 1);
    }
}

/// What `smallest_prefix_ge` returns: every cut below it lies under `p`,
/// and it reaches `p` itself unless even the whole sum falls short.
pub proof fn lemma_smallest_prefix_ge(s: Seq<u64>, p: int)
    ensures
        0 <= smallest_prefix_ge(s, p) <= s.len(),
        smallest_prefix_ge(s, p) < s.len() ==> seq_total(s.take(smallest_prefix_ge(s, p)))
            >= p,
        seq_total(s) >= p ==> seq_total(s.take(smallest_prefix_ge(s, p))) >= p,
        forall|t: int| 0 <= t < smallest_prefix_ge(s, p) ==> seq_total(s.take(t)) < p,
{
    lemma_smallest_prefix_ge_from(s, p, 0);
    if smallest_prefix_ge(s, p) == s.len() {
        lemma_seq_total_take_full(s);
    }
}

/// Any cut that satisfies the characterization is the one returned.
pub proof fn lemma_smallest_prefix_ge_unique(s: Seq<u64>, p: int, j: int)
    requires
        0 <= j <= s.len(),
        forall|t: int| 0 <= t < j ==> seq_total(s.take(t)) < p,
        j < s.len() ==> seq_total(s.take(j)) >= p,
    ensures
        j == smallest_prefix_ge(s, p),
{
    lemma_smallest_prefix_ge(s, p);
    let r = smallest_prefix_ge(s, p);
    if r < j {
        assert(seq_total(s.take(r)) < p);
        assert(seq_total(s.take(r)) >= p);
    }
    if j < r {
        assert(seq_total(s.take(j)) < p);
    }
}

} // verus!

// === The abstract state of a virtual list ===================================

verus! {

/// How many chunks a list of `n` items takes at `k` items per chunk.
pub open spec fn num_chunks_of(n: u64, k: u64) -> int {
    if n == 0 {
        0
    } else {
        (n - 1) / (k as int) + 1
    }
}

/// How many items chunk `c` holds: the chunk width, except that the last
/// chunk holds only what is left.
pub open spec fn items_in_chunk_of(n: u64, k: u64, c: int) -> int {
    if n - c * k >= k {
        k as int
    } else {
        n - c * k
    }
}

/// The abstract state of a virtual list: the geometry, the per-chunk
/// stored sizes where materialized, the cache bookkeeping, the queued
/// updates, and the configuration. Everything a contract says about a
/// `VirtualList` is said about this value.
#[verifier::ext_equal]
pub struct ListModel {
    pub total_items: u64,
    pub chunk_size: u64,
    pub estimated_size: u64,
    pub orientation: Orientation,
    /// Stored sizes per chunk slot; `None` marks a chunk that is not
    /// materialized and whose items all weigh the estimated size.
    pub chunks: Seq<Option<Seq<u64>>>,
    /// Cache entries, least recently accessed first.
    pub cache: Seq<CacheEntry>,
    /// Queued `(index, size)` updates awaiting a batch flush.
    pub pending: Seq<(u64, u64)>,
    pub buffer_size: u64,
    pub overscan_items: u64,
    pub update_batch_size: u64,
    pub max_loaded_chunks: Option<u64>,
    pub policy: CachePolicy,
}

impl ListModel {
    pub open spec fn num_chunks(self) -> int {
        num_chunks_of(self.total_items, self.chunk_size)
    }

    pub open spec fn items_in_chunk(self, c: int) -> int {
        items_in_chunk_of(self.total_items, self.chunk_size, c)
    }

    pub open spec fn materialized(self, c: int) -> bool {
        self.chunks[c] is Some
    }

    /// The sizes chunk `c` answers with: its stored sizes when
    /// materialized, else one estimated size per item.
    pub open spec fn chunk_sizes(self, c: int) -> Seq<u64> {
        match self.chunks[c] {
            Some(s) => s,
            None => Seq::new(self.items_in_chunk(c) as nat, |i: int| self.estimated_size),
        }
    }

    /// What chunk `c` adds to the running total.
    pub open spec fn chunk_total(self, c: int) -> int {
        seq_total(self.chunk_sizes(c))
    }

    /// The cumulative size through chunk `c` inclusive.
    pub open spec fn cum_through(self, c: int) -> int
        decreases c + 1,
    {
        if c < 0 {
            0
        } else {
            self.cum_through(c - 1) + self.chunk_total(c)
        }
    }

    /// The total size of the whole list.
    pub open spec fn total(self) -> int {
        self.cum_through(self.num_chunks() - 1)
    }

    /// The effective size of item `i`.
    pub open spec fn eff_size(self, i: int) -> u64 {
        let c = i / (self.chunk_size as int);
        self.chunk_sizes(c)[i - c * self.chunk_size]
    }

    /// The effective sizes of all items, in order.
    pub open spec fn eff_sizes(self) -> Seq<u64> {
        Seq::new(self.total_items as nat, |i: int| self.eff_size(i))
    }

    /// The starting offset of item `i`: the summed size of everything
    /// before it.
    pub open spec fn position(self, i: int) -> int {
        seq_total(self.eff_sizes().take(i))
    }

    /// How many chunks are materialized, as the cache tracks them.
    pub open spec fn loaded_count(self) -> int {
        self.cache.len() as int
    }

    /// What chunk `c` would contribute if it were reverted to estimates.
    pub open spec fn estimated_total(self, c: int) -> int {
        self.items_in_chunk(c) * self.estimated_size
    }

    /// The larger of a chunk's real and estimated contribution: the
    /// worst the chunk can contribute across evictions.
    pub open spec fn padded_chunk(self, c: int) -> int {
        vstd::math::max(self.chunk_total(c), self.estimated_total(c))
    }

    pub open spec fn padded_through(self, c: int) -> int
        decreases c + 1,
    {
        if c < 0 {
            0
        } else {
            self.padded_through(c - 1) + self.padded_chunk(c)
        }
    }

    /// An upper bound on the total that no eviction can raise.
    pub open spec fn padded_total(self) -> int {
        self.padded_through(self.num_chunks() - 1)
    }

    /// The geometric part of well-formedness: a positive chunk width,
    /// the right number of chunk slots, and the right width in every
    /// materialized chunk.
    pub open spec fn geom_wf(self) -> bool {
        &&& self.chunk_size >= 1
        &&& self.chunks.len() == self.num_chunks()
        &&& forall|c: int|
            0 <= c < self.num_chunks() && (#[trigger] self.chunks[c]) is Some
                ==> self.chunks[c].unwrap().len() == self.items_in_chunk(c)
    }

    /// Well-formedness: the geometry is sane and within the thresholds,
    /// every materialized chunk has the right width, the headroom bound
    /// holds, and the cache tracks exactly the materialized chunks,
    /// within the configured ceiling.
    pub open spec fn wf(self) -> bool {
        &&& self.chunk_size >= 1
        &&& self.total_items <= MAX_ITEM_COUNT
        &&& self.estimated_size <= MAX_TOTAL_SIZE
        &&& (self.total_items as int) * (self.estimated_size as int) <= MAX_TOTAL_SIZE
        &&& self.chunks.len() == self.num_chunks()
        &&& forall|c: int|
            0 <= c < self.num_chunks() && (#[trigger] self.chunks[c]) is Some
                ==> self.chunks[c].unwrap().len() == self.items_in_chunk(c)
        &&& self.padded_total() <= 2 * MAX_TOTAL_SIZE
        &&& forall|i: int|
            0 <= i < self.cache.len() ==> (#[trigger] self.cache[i]).chunk
                < self.num_chunks() && self.chunks[self.cache[i].chunk as int] is Some
        &&& distinct_chunks(self.cache)
        &&& forall|c: int|
            0 <= c < self.num_chunks() && (#[trigger] self.chunks[c]) is Some ==> tracks(
                self.cache,
                c as u64,
            )
        &&& match self.max_loaded_chunks {
            Some(mx) => mx >= 1 && self.cache.len() <= mx,
            None => true,
        }
        &&& self.buffer_size >= 1
        &&& self.overscan_items >= 1
        &&& self.update_batch_size >= 1
        &&& self.pending.len() < self.update_batch_size
    }
}

// === Chunk geometry =========================================================

/// Where chunk `c` starts and ends in the item order: for any index in
/// the list, its chunk is in range, starts at or before it, and reaches
/// past it.
pub proof fn lemma_index_in_chunk(n: u64, k: u64, i: int)
    requires
        k >= 1,
        0 <= i < n,
    ensures
        0 <= i / (k as int) < num_chunks_of(n, k),
        (i / (k as int)) * k <= i,
        i - (i / (k as int)) * k < items_in_chunk_of(n, k, i / (k as int)),
        items_in_chunk_of(n, k, i / (k as int)) >= 1,
{
    let c = i / (k as int);
    vstd::arithmetic::div_mod::lemma_fundamental_div_mod(i, k as int);
    vstd::arithmetic::div_mod::lemma_mod_bound(i, k as int);
    vstd::arithmetic::div_mod::lemma_div_is_ordered(i, n - 1, k as int);
    vstd::arithmetic::mul::lemma_mul_is_commutative(c, k as int);
    lemma_chunk_bounds(n, k, c);
}

/// The basic bounds of a chunk's slot in the item order.
pub proof fn lemma_chunk_bounds(n: u64, k: u64, c: int)
    requires
        k >= 1,
        n >= 1,
        0 <= c < num_chunks_of(n, k),
    ensures
        0 <= c * k <= n - 1,
        1 <= items_in_chunk_of(n, k, c) <= k,
        c * k + items_in_chunk_of(n, k, c) <= n,
        c < num_chunks_of(n, k) - 1 ==> items_in_chunk_of(n, k, c) == k,
        c == num_chunks_of(n, k) - 1 ==> c * k + items_in_chunk_of(n, k, c) == n,
{
    let q = (n - 1) / (k as int);
    vstd::arithmetic::div_mod::lemma_fundamental_div_mod(n - 1, k as int);
    vstd::arithmetic::div_mod::lemma_mod_bound(n - 1, k as int);
    assert(c * k <= q * k) by (nonlinear_arith)
        requires
            c <= q,
            k >= 1,
    ;
    assert(q * k <= n - 1);
    assert(c >= 0) by {
        if c < 0 {
            assert(c * k <= 0 - k) by (nonlinear_arith)
                requires
                    c <= -1,
                    k >= 1,
            ;
        }
    }
    if c < num_chunks_of(n, k) - 1 {
        assert((c + 1) * k <= q * k) by (nonlinear_arith)
            requires
                c + 1 <= q,
                k >= 1,
        ;
        assert((c + 1) * k == c * k + k) by (nonlinear_arith);
    }
    if c == num_chunks_of(n, k) - 1 {
        // One more full chunk would reach past the end.
        assert((q + 1) * k == q * k + k) by (nonlinear_arith);
        assert(q * k + k >= n);
        if n - c * k >= k {
            assert(n - c * k == k);
        }
    }
}

} // verus!

// === Sums across the chunk structure ========================================

verus! {

impl ListModel {
    /// Where chunk `c` starts in the item order, capped at the end.
    pub open spec fn chunk_floor(self, c: int) -> int {
        if c * self.chunk_size <= self.total_items {
            c * self.chunk_size
        } else {
            self.total_items as int
        }
    }
}

/// The effective sizes inside one chunk are exactly what the chunk
/// answers with.
pub proof fn lemma_chunk_slice(m: ListModel, c: int)
    requires
        m.geom_wf(),
        0 <= c < m.num_chunks(),
    ensures
        m.eff_sizes().subrange(
            c * m.chunk_size,
            c * m.chunk_size + m.items_in_chunk(c),
        ) =~= m.chunk_sizes(c),
        m.chunk_sizes(c).len() == m.items_in_chunk(c),
{
    let k = m.chunk_size as int;
    let n = m.total_items;
    lemma_chunk_bounds(n, m.chunk_size, c);
    let lo = c * k;
    let w = m.items_in_chunk(c);
    assert forall|t: int| 0 <= t < w implies m.eff_sizes()[lo + t] == m.chunk_sizes(c)[t] by {
        let i = lo + t;
        assert(i / k == c && i - (i / k) * k == t) by {
            vstd::arithmetic::div_mod::lemma_fundamental_div_mod(i, k);
            vstd::arithmetic::div_mod::lemma_mod_bound(i, k);
            let q = i / k;
            let r = i % k;
            assert(c * k + t == k * q + r);
            assert(q == c && r == t) by (nonlinear_arith)
                requires
                    c * k + t == k * q + r,
                    0 <= t < k,
                    0 <= r < k,
            ;
        }
    }
}

/// The position of each chunk's first item is the cumulative size of the
/// chunks before it.
pub proof fn lemma_position_chunk_floor(m: ListModel, c: int)
    requires
        m.geom_wf(),
        0 <= c <= m.num_chunks(),
    ensures
        m.position(m.chunk_floor(c)) == m.cum_through(c - 1),
    decreases c,
{
    if c == 0 {
        assert(m.eff_sizes().take(0) =~= Seq::<u64>::empty());
    } else {
        let k = m.chunk_size as int;
        let n = m.total_items;
        lemma_position_chunk_floor(m, c - 1);
        lemma_chunk_bounds(n, m.chunk_size, c - 1);
        let lo = (c - 1) * k;
        let w = m.items_in_chunk(c - 1);
        assert(c * k == (c - 1) * k + k) by (nonlinear_arith);
        // This chunk's floor sits exactly one chunk width past the last,
        // capped at the end of the items.
        assert(m.chunk_floor(c - 1) == lo);
        assert(m.chunk_floor(c) == lo + w) by {
            if c < m.num_chunks() {
                lemma_chunk_bounds(n, m.chunk_size, c);
            }
        }
        lemma_chunk_slice(m, c - 1);
        lemma_seq_total_split(m.eff_sizes().take(lo + w), lo);
        assert(m.eff_sizes().take(lo + w).take(lo) =~= m.eff_sizes().take(lo));
        assert(m.eff_sizes().take(lo + w).skip(lo) =~= m.eff_sizes().subrange(lo, lo + w));
    }
}

/// The position of any item decomposes into the cumulative size of the
/// chunks before its chunk, plus the intra-chunk prefix sum.
pub proof fn lemma_position_decompose(m: ListModel, i: int)
    requires
        m.geom_wf(),
        0 <= i < m.total_items,
    ensures
        m.position(i) == m.cum_through(i / (m.chunk_size as int) - 1) + seq_total(
            m.chunk_sizes(i / (m.chunk_size as int)).take(
                i - (i / (m.chunk_size as int)) * m.chunk_size,
            ),
        ),
{
    let k = m.chunk_size as int;
    let c = i / k;
    lemma_index_in_chunk(m.total_items, m.chunk_size, i);
    lemma_chunk_bounds(m.total_items, m.chunk_size, c);
    let lo = c * k;
    lemma_position_chunk_floor(m, c);
    assert(m.chunk_floor(c) == lo);
    lemma_chunk_slice(m, c);
    lemma_seq_total_split(m.eff_sizes().take(i), lo);
    assert(m.eff_sizes().take(i).take(lo) =~= m.eff_sizes().take(lo));
    assert(m.eff_sizes().take(i).skip(lo) =~= m.eff_sizes().subrange(lo, i));
    assert(m.eff_sizes().subrange(lo, i) =~= m.eff_sizes().subrange(
        lo,
        lo + m.items_in_chunk(c),
    ).take(i - lo));
    assert(m.chunk_sizes(c).take(i - lo) == m.eff_sizes().subrange(
        lo,
        lo + m.items_in_chunk(c),
    ).take(i - lo));
}

/// Cumulative sizes are non-decreasing in the chunk index.
pub proof fn lemma_cum_monotone(m: ListModel, a: int, b: int)
    requires
        a <= b,
    ensures
        m.cum_through(a) <= m.cum_through(b),
    decreases b - a,
{
    if a < b {
        lemma_cum_monotone(m, a, b - 1);
        lemma_seq_total_nonneg(m.chunk_sizes(b));
    }
}

/// The whole position sequence is the cumulative size of all chunks.
pub proof fn lemma_total_is_position_end(m: ListModel)
    requires
        m.geom_wf(),
    ensures
        m.total() == m.position(m.total_items as int),
        m.total() == seq_total(m.eff_sizes()),
{
    if m.total_items == 0 {
        assert(m.eff_sizes().take(0) =~= m.eff_sizes());
        lemma_seq_total_take_full(m.eff_sizes());
    } else {
        lemma_chunk_bounds(m.total_items, m.chunk_size, m.num_chunks() - 1);
        lemma_position_chunk_floor(m, m.num_chunks());
        assert(m.chunk_floor(m.num_chunks()) == m.total_items) by {
            let c = m.num_chunks() - 1;
            let k = m.chunk_size as int;
            assert((c + 1) * k == c * k + k) by (nonlinear_arith);
        }
        lemma_seq_total_take_full(m.eff_sizes());
    }
}

/// Positions are non-decreasing in the item index.
pub proof fn lemma_position_monotone(m: ListModel, a: int, b: int)
    requires
        0 <= a <= b <= m.total_items,
    ensures
        m.position(a) <= m.position(b),
{
    lemma_seq_total_take_monotone(m.eff_sizes(), a, b);
}

// === The headroom bound =====================================================

/// Padded partial sums dominate the cumulative ones, and both are
/// non-negative.
pub proof fn lemma_cum_le_padded(m: ListModel, c: int)
    ensures
        0 <= m.cum_through(c) <= m.padded_through(c),
    decreases c + 1,
{
    if c >= 0 {
        lemma_cum_le_padded(m, c - 1);
        lemma_seq_total_nonneg(m.chunk_sizes(c));
    }
}

/// One chunk's contribution is within the padded total of a well-formed
/// list, as is the cumulative size through any chunk.
pub proof fn lemma_chunk_total_bounds(m: ListModel, c: int)
    requires
        m.wf(),
        0 <= c < m.num_chunks(),
    ensures
        0 <= m.chunk_total(c) <= m.total(),
        m.cum_through(c) <= m.total(),
        m.total() <= m.padded_total() <= 2 * MAX_TOTAL_SIZE,
    decreases c,
{
    lemma_seq_total_nonneg(m.chunk_sizes(c));
    lemma_cum_monotone(m, c, m.num_chunks() - 1);
    lemma_cum_monotone(m, -1, c - 1);
    lemma_cum_le_padded(m, m.num_chunks() - 1);
}

/// The estimated contributions of all chunks together weigh the whole
/// list at the estimated size.
pub proof fn lemma_estimates_sum(m: ListModel, c: int)
    requires
        m.chunk_size >= 1,
        0 <= c <= m.num_chunks(),
    ensures
        est_through(m, c - 1) == m.chunk_floor(c) * m.estimated_size,
    decreases c,
{
    let k = m.chunk_size as int;
    let e = m.estimated_size as int;
    if c == 0 {
        assert(m.chunk_floor(0) == 0);
    } else {
        lemma_estimates_sum(m, c - 1);
        lemma_chunk_bounds(m.total_items, m.chunk_size, c - 1);
        let lo = (c - 1) * k;
        let w = m.items_in_chunk(c - 1);
        assert(c * k == (c - 1) * k + k) by (nonlinear_arith);
        assert(m.chunk_floor(c) == lo + w) by {
            if c < m.num_chunks() {
                lemma_chunk_bounds(m.total_items, m.chunk_size, c);
            }
        }
        assert(m.chunk_floor(c - 1) == lo);
        assert(est_through(m, c - 1) == est_through(m, c - 2) + w * e);
        assert(est_through(m, c - 2) == lo * e);
        assert((lo + w) * e == lo * e + w * e) by (nonlinear_arith);
        assert(m.chunk_floor(c) * e == (lo + w) * e);
    }
}

/// Partial sums of the estimated contributions.
pub open spec fn est_through(m: ListModel, c: int) -> int
    decreases c + 1,
{
    if c < 0 {
        0
    } else {
        est_through(m, c - 1) + m.estimated_total(c)
    }
}

/// The padded total never exceeds the real total plus the all-estimated
/// total: the headroom bound is re-established whenever the real total
/// is driven back under the threshold.
pub proof fn lemma_padded_le_cum_plus_est(m: ListModel, c: int)
    requires
        m.chunk_size >= 1,
        c < m.num_chunks(),
    ensures
        m.padded_through(c) <= m.cum_through(c) + est_through(m, c),
    decreases c + 1,
{
    if c >= 0 {
        lemma_padded_le_cum_plus_est(m, c - 1);
        lemma_chunk_bounds(m.total_items, m.chunk_size, c);
        lemma_seq_total_nonneg(m.chunk_sizes(c));
        assert(m.items_in_chunk(c) * m.estimated_size >= 0) by (nonlinear_arith)
            requires
                m.items_in_chunk(c) >= 0,
                m.estimated_size >= 0,
        ;
    }
}

/// Models that agree chunk by chunk on their padded contributions, or
/// shrink them pointwise, only shrink the padded sums.
pub proof fn lemma_padded_pointwise_le(m1: ListModel, m2: ListModel, c: int)
    requires
        forall|t: int| 0 <= t <= c ==> m2.padded_chunk(t) <= m1.padded_chunk(t),
    ensures
        m2.padded_through(c) <= m1.padded_through(c),
    decreases c + 1,
{
    if c >= 0 {
        lemma_padded_pointwise_le(m1, m2, c - 1);
    }
}

/// Models that agree on every chunk's data below `c` have equal partial
/// sums there.
pub proof fn lemma_cum_congruent(m1: ListModel, m2: ListModel, c: int)
    requires
        forall|t: int| 0 <= t <= c ==> m2.chunk_sizes(t) == m1.chunk_sizes(t),
    ensures
        m2.cum_through(c) == m1.cum_through(c),
    decreases c + 1,
{
    if c >= 0 {
        lemma_cum_congruent(m1, m2, c - 1);
    }
}

/// Like `lemma_cum_congruent`, for the padded sums.
pub proof fn lemma_padded_congruent(m1: ListModel, m2: ListModel, c: int)
    requires
        forall|t: int|
            0 <= t <= c ==> m2.chunk_sizes(t) == m1.chunk_sizes(t) && m2.estimated_total(t)
                == m1.estimated_total(t),
    ensures
        m2.padded_through(c) == m1.padded_through(c),
    decreases c + 1,
{
    if c >= 0 {
        lemma_padded_congruent(m1, m2, c - 1);
    }
}

} // verus!

// === Transitions ============================================================

verus! {

use crate::cache::{cache_accessed, entry_index, victim_index};

impl ListModel {
    /// The estimated sizes a chunk is born with.
    pub open spec fn estimated_sizes(self, c: int) -> Seq<u64> {
        Seq::new(self.items_in_chunk(c) as nat, |i: int| self.estimated_size)
    }

    /// Whether touching chunk `c` must first evict a victim.
    pub open spec fn must_evict(self, c: int) -> bool {
        !self.materialized(c) && match self.max_loaded_chunks {
            Some(mx) => self.cache.len() >= mx,
            None => false,
        }
    }

    /// The state after the eviction victim is dropped: its slot reverts
    /// to estimates and its bookkeeping goes.
    pub open spec fn evicted(self) -> ListModel {
        let vi = victim_index(self.cache, self.policy);
        let vc = self.cache[vi].chunk;
        ListModel {
            chunks: self.chunks.update(vc as int, None),
            cache: self.cache.remove(vi),
            ..self
        }
    }

    /// The state after chunk `c` is touched: an access is recorded, and
    /// an absent chunk is materialized with estimated sizes, evicting one
    /// victim first when the cache is full.
    pub open spec fn materialize_step(self, c: int) -> ListModel {
        if self.materialized(c) {
            ListModel { cache: cache_accessed(self.cache, c as u64), ..self }
        } else {
            let m1 = if self.must_evict(c) {
                self.evicted()
            } else {
                self
            };
            ListModel {
                chunks: m1.chunks.update(c, Some(m1.estimated_sizes(c))),
                cache: cache_accessed(m1.cache, c as u64),
                ..m1
            }
        }
    }

    /// The state after item `i` takes size `v`: its chunk is touched and
    /// the stored size replaced.
    pub open spec fn update_item_step(self, i: int, v: u64) -> ListModel {
        let c = i / (self.chunk_size as int);
        let m1 = self.materialize_step(c);
        let j = i - c * self.chunk_size;
        ListModel {
            chunks: m1.chunks.update(c, Some(m1.chunks[c].unwrap().update(j, v))),
            ..m1
        }
    }

    /// Whether replacing item `i`'s size with `v` keeps the running total
    /// under the safe threshold.
    pub open spec fn update_keeps_threshold(self, i: int, v: u64) -> bool {
        self.total() - self.eff_size(i) + v <= MAX_TOTAL_SIZE
    }
}

// === Cache bookkeeping under the transitions ================================

/// What an access does to the entries, as a set of tracked chunks.
pub proof fn lemma_cache_accessed_set(s: Seq<CacheEntry>, c: u64)
    requires
        distinct_chunks(s),
    ensures
        distinct_chunks(cache_accessed(s, c)),
        forall|c2: u64| tracks(cache_accessed(s, c), c2) <==> (tracks(s, c2) || c2 == c),
        cache_accessed(s, c).len() == if tracks(s, c) {
            s.len() as int
        } else {
            s.len() + 1int
        },
        forall|t: int|
            0 <= t < cache_accessed(s, c).len() ==> (#[trigger] cache_accessed(s, c)[t]).chunk
                == c || tracks(s, cache_accessed(s, c)[t].chunk),
{
    if tracks(s, c) {
        crate::cache::lemma_entry_index(s, c);
        let i = entry_index(s, c);
        let r = s.remove(i).push(CacheEntry { chunk: c, count: crate::cache::saturated_inc(s[i].count) });
        assert forall|t: int| 0 <= t < r.len() implies r[t].chunk == c || tracks(
            s,
            r[t].chunk,
        ) by {
            if t < r.len() - 1 {
                if t < i {
                    assert(s.remove(i)[t] == s[t]);
                } else {
                    assert(s.remove(i)[t] == s[t + 1]);
                }
            }
        }
        assert forall|c2: u64| tracks(r, c2) implies (tracks(s, c2) || c2 == c) by {
            let t = choose|t: int| 0 <= t < r.len() && r[t].chunk == c2;
            if t < r.len() - 1 {
                if t < i {
                    assert(s.remove(i)[t] == s[t]);
                } else {
                    assert(s.remove(i)[t] == s[t + 1]);
                }
            }
        }
        assert forall|c2: u64| tracks(s, c2) implies tracks(r, c2) by {
            let t = choose|t: int| 0 <= t < s.len() && s[t].chunk == c2;
            if c2 != c {
                if t < i {
                    assert(r[t] == s[t]);
                } else {
                    assert(t > i);
                    assert(r[t - 1] == s[t]);
                }
            } else {
                assert(r[r.len() - 1].chunk == c);
            }
        }
        assert forall|a: int, b: int| 0 <= a < b < r.len() implies r[a].chunk
            != r[b].chunk by {
            let sa = if a < i { s[a] } else { s[a + 1] };
            if a < r.len() - 1 {
                if a < i {
                    assert(r[a] == s[a]);
                } else {
                    assert(r[a] == s[a + 1]);
                }
            }
            if b < r.len() - 1 {
                if b < i {
                    assert(r[b] == s[b]);
                } else {
                    assert(r[b] == s[b + 1]);
                }
            } else {
                // The moved entry keeps its chunk, which no other entry
                // holds.
            }
        }
    } else {
        let r = s.push(CacheEntry { chunk: c, count: 1 });
        assert forall|c2: u64| tracks(r, c2) implies (tracks(s, c2) || c2 == c) by {
            let t = choose|t: int| 0 <= t < r.len() && r[t].chunk == c2;
            if t < s.len() {
                assert(s[t].chunk == c2);
            }
        }
        assert forall|c2: u64| tracks(s, c2) || c2 == c implies tracks(r, c2) by {
            if tracks(s, c2) {
                let t = choose|t: int| 0 <= t < s.len() && s[t].chunk == c2;
                assert(r[t].chunk == c2);
            } else {
                assert(r[s.len() as int].chunk == c);
            }
        }
    }
}

/// What removing one entry does to the tracked set, under distinctness.
pub proof fn lemma_cache_removed_set(s: Seq<CacheEntry>, i: int)
    requires
        distinct_chunks(s),
        0 <= i < s.len(),
    ensures
        distinct_chunks(s.remove(i)),
        forall|c2: u64|
            tracks(s.remove(i), c2) <==> (tracks(s, c2) && c2 != s[i].chunk),
        s.remove(i).len() == s.len() - 1,
        forall|t: int|
            0 <= t < s.remove(i).len() ==> tracks(s, (#[trigger] s.remove(i)[t]).chunk),
{
    let r = s.remove(i);
    assert forall|t: int| 0 <= t < r.len() implies tracks(s, r[t].chunk) by {
        if t < i {
            assert(s[t] == r[t]);
        } else {
            assert(s[t + 1] == r[t]);
        }
    }
    assert forall|c2: u64| tracks(r, c2) implies (tracks(s, c2) && c2 != s[i].chunk) by {
        let t = choose|t: int| 0 <= t < r.len() && r[t].chunk == c2;
        if t < i {
            assert(s[t] == r[t]);
        } else {
            assert(s[t + 1] == r[t]);
        }
    }
    assert forall|c2: u64| tracks(s, c2) && c2 != s[i].chunk implies tracks(r, c2) by {
        let t = choose|t: int| 0 <= t < s.len() && s[t].chunk == c2;
        if t < i {
            assert(r[t] == s[t]);
        } else {
            assert(r[t - 1] == s[t]);
        }
    }
    assert forall|a: int, b: int| 0 <= a < b < r.len() implies r[a].chunk != r[b].chunk by {
        let sa = if a < i { s[a] } else { s[a + 1] };
        let sb = if b < i { s[b] } else { s[b + 1] };
        if a < i {
            assert(r[a] == s[a]);
        } else {
            assert(r[a] == s[a + 1]);
        }
        if b < i {
            assert(r[b] == s[b]);
        } else {
            assert(r[b] == s[b + 1]);
        }
    }
}

} // verus!

// === Preservation of well-formedness under the transitions ==================

verus! {

impl ListModel {
    /// The chunk the next eviction would drop.
    pub open spec fn victim_chunk(self) -> int {
        self.cache[victim_index(self.cache, self.policy)].chunk as int
    }
}

/// Two lists of the same geometry whose chunks answer the same sizes
/// have the same effective sizes and totals.
pub proof fn lemma_eff_congruent(m1: ListModel, m2: ListModel)
    requires
        m1.chunk_size >= 1,
        m2.total_items == m1.total_items,
        m2.chunk_size == m1.chunk_size,
        forall|c: int| 0 <= c < m1.num_chunks() ==> m2.chunk_sizes(c) == m1.chunk_sizes(c),
    ensures
        m2.eff_sizes() == m1.eff_sizes(),
        m2.total() == m1.total(),
{
    assert forall|i: int| 0 <= i < m1.total_items implies m2.eff_size(i) == m1.eff_size(
        i,
    ) by {
        lemma_index_in_chunk(m1.total_items, m1.chunk_size, i);
    }
    assert(m2.eff_sizes() =~= m1.eff_sizes());
    lemma_cum_congruent(m1, m2, m1.num_chunks() - 1);
}

/// Replacing one stored size inside one chunk replaces exactly one
/// effective size.
pub proof fn lemma_eff_update_one(m1: ListModel, m2: ListModel, c: int, j: int, v: u64)
    requires
        m1.wf(),
        0 <= c < m1.num_chunks(),
        0 <= j < m1.items_in_chunk(c),
        m2.total_items == m1.total_items,
        m2.chunk_size == m1.chunk_size,
        forall|t: int|
            0 <= t < m1.num_chunks() && t != c ==> m2.chunk_sizes(t) == m1.chunk_sizes(t),
        m2.chunk_sizes(c) == m1.chunk_sizes(c).update(j, v),
    ensures
        m2.eff_sizes() == m1.eff_sizes().update(c * m1.chunk_size + j, v),
{
    let k = m1.chunk_size as int;
    lemma_chunk_bounds(m1.total_items, m1.chunk_size, c);
    lemma_chunk_slice(m1, c);
    assert forall|i: int| 0 <= i < m1.total_items implies m2.eff_sizes()[i]
        == m1.eff_sizes().update(c * k + j, v)[i] by {
        lemma_index_in_chunk(m1.total_items, m1.chunk_size, i);
        let ci = i / k;
        if ci == c {
            assert(c * k <= i < c * k + m1.items_in_chunk(c));
        } else {
            assert(i != c * k + j) by {
                if c * k <= i < c * k + m1.items_in_chunk(c) {
                    vstd::arithmetic::div_mod::lemma_fundamental_div_mod(i, k);
                    vstd::arithmetic::div_mod::lemma_mod_bound(i, k);
                    assert(ci == c) by (nonlinear_arith)
                        requires
                            i == k * ci + (i % k),
                            0 <= i % k < k,
                            c * k <= i < c * k + m1.items_in_chunk(c),
                            m1.items_in_chunk(c) <= k,
                    ;
                }
            }
        }
    }
    assert(m2.eff_sizes() =~= m1.eff_sizes().update(c * k + j, v));
}

/// Touching a chunk keeps the list well formed; when nothing is evicted
/// it changes no effective size, and in every case the touched chunk
/// keeps the sizes it answered before.
#[verifier::rlimit(40)]
pub proof fn lemma_materialize_step(m: ListModel, c: int)
    requires
        m.wf(),
        0 <= c < m.num_chunks(),
    ensures
        m.materialize_step(c).wf(),
        m.materialize_step(c).materialized(c),
        m.materialize_step(c).chunk_sizes(c) == m.chunk_sizes(c),
        m.materialize_step(c).cache.len() >= 1,
        !m.must_evict(c) ==> forall|t: int|
            0 <= t < m.num_chunks() ==> m.materialize_step(c).chunk_sizes(t)
                == m.chunk_sizes(t),
        !m.must_evict(c) ==> m.materialize_step(c).eff_sizes() == m.eff_sizes()
            && m.materialize_step(c).total() == m.total(),
        m.must_evict(c) ==> {
            let vc = m.victim_chunk();
            &&& vc != c
            &&& 0 <= vc < m.num_chunks()
            &&& forall|t: int|
                0 <= t < m.num_chunks() && t != vc ==> m.materialize_step(c).chunk_sizes(t)
                    == m.chunk_sizes(t)
            &&& m.materialize_step(c).chunk_sizes(vc) == m.estimated_sizes(vc)
        },
{
    let m2 = m.materialize_step(c);
    if m.materialized(c) {
        lemma_cache_accessed_set(m.cache, c as u64);
        assert(tracks(m.cache, c as u64));
        lemma_padded_congruent(m, m2, m.num_chunks() - 1);
        lemma_eff_congruent(m, m2);
        assert(m2.wf());
    } else {
        let m1 = if m.must_evict(c) {
            m.evicted()
        } else {
            m
        };
        if m.must_evict(c) {
            let vi = victim_index(m.cache, m.policy);
            assert(0 <= vi < m.cache.len()) by {
                if m.policy is Lfu {
                    crate::cache::lemma_lfu_index(m.cache);
                }
            }
            let vc = m.victim_chunk();
            assert(m.chunks[vc] is Some);
            assert(vc != c);
            lemma_cache_removed_set(m.cache, vi);
            // The victim's padded contribution only shrinks.
            assert forall|t: int| 0 <= t <= m.num_chunks() - 1 implies m1.padded_chunk(t)
                <= m.padded_chunk(t) by {
                if t == vc {
                    lemma_seq_total_constant(
                        m.items_in_chunk(vc) as nat,
                        m.estimated_size,
                    );
                } else {
                    assert(m1.chunk_sizes(t) == m.chunk_sizes(t));
                }
            }
            lemma_padded_pointwise_le(m, m1, m.num_chunks() - 1);
            assert forall|t: int|
                0 <= t < m1.cache.len() implies (#[trigger] m1.cache[t]).chunk
                < m1.num_chunks() && m1.chunks[m1.cache[t].chunk as int] is Some by {
                assert(tracks(m.cache, m1.cache[t].chunk));
                let q = choose|q: int|
                    0 <= q < m.cache.len() && m.cache[q].chunk == m1.cache[t].chunk;
                assert(m1.cache[t].chunk != m.cache[vi].chunk);
            }
            assert forall|t: int|
                0 <= t < m1.num_chunks() && (#[trigger] m1.chunks[t]) is Some implies tracks(
                m1.cache,
                t as u64,
            ) by {
                assert(t != vc);
                assert(tracks(m.cache, t as u64));
            }
            assert(m1.wf());
        }
        // Materializing with estimates answers the same sizes the absent
        // slot answered.
        lemma_seq_total_constant(m1.items_in_chunk(c) as nat, m1.estimated_size);
        lemma_cache_accessed_set(m1.cache, c as u64);
        assert(!tracks(m1.cache, c as u64)) by {
            if tracks(m1.cache, c as u64) {
                let t = choose|t: int|
                    0 <= t < m1.cache.len() && m1.cache[t].chunk == c as u64;
                if m.must_evict(c) {
                    assert(tracks(m.cache, c as u64));
                }
            }
        }
        assert(m2.chunks[c] == Some(m1.estimated_sizes(c)));
        assert forall|t: int| 0 <= t < m2.num_chunks() implies m2.chunk_sizes(t)
            == m1.chunk_sizes(t) by {
            if t == c {
                assert(m1.chunk_sizes(c) =~= m1.estimated_sizes(c));
                assert(m2.chunk_sizes(c) =~= m1.estimated_sizes(c));
            }
        }
        assert forall|t: int| 0 <= t <= m2.num_chunks() - 1 implies m2.padded_chunk(t)
            == m1.padded_chunk(t) && m2.estimated_total(t) == m1.estimated_total(t) by {
            assert(m2.chunk_sizes(t) == m1.chunk_sizes(t));
        }
        lemma_padded_congruent(m1, m2, m1.num_chunks() - 1);
        lemma_eff_congruent(m1, m2);
        if !m.must_evict(c) {
            lemma_eff_congruent(m, m2);
        }
        assert forall|t: int|
            0 <= t < m2.cache.len() implies (#[trigger] m2.cache[t]).chunk < m2.num_chunks()
            && m2.chunks[m2.cache[t].chunk as int] is Some by {
            if m2.cache[t].chunk != c as u64 {
                assert(tracks(m1.cache, m2.cache[t].chunk));
                let q = choose|q: int|
                    0 <= q < m1.cache.len() && m1.cache[q].chunk == m2.cache[t].chunk;
            }
        }
        assert forall|t: int|
            0 <= t < m2.num_chunks() && (#[trigger] m2.chunks[t]) is Some implies tracks(
            m2.cache,
            t as u64,
        ) by {
            if t != c {
                assert(m1.chunks[t] is Some);
                assert(tracks(m1.cache, t as u64));
            }
        }
        assert(m2.cache.len() <= match m2.max_loaded_chunks {
            Some(mx) => mx as int,
            None => m2.cache.len() as int,
        });
        lemma_chunk_bounds(m.total_items, m.chunk_size, c);
        assert forall|t: int|
            0 <= t < m2.num_chunks() && (#[trigger] m2.chunks[t]) is Some
            implies m2.chunks[t].unwrap().len() == m2.items_in_chunk(t) by {
            if t != c {
                assert(m2.chunks[t] == m1.chunks[t]);
            }
        }
        assert(m2.wf());
    }
}

} // verus!

// === Updating one item ======================================================

verus! {

/// When only chunk `c`'s data changes, every cumulative sum from `c` on
/// moves by the change of that chunk's total.
pub proof fn lemma_cum_one_changed(ma: ListModel, mb: ListModel, c: int, q: int)
    requires
        forall|t: int| 0 <= t <= q && t != c ==> mb.chunk_sizes(t) == ma.chunk_sizes(t),
    ensures
        mb.cum_through(q) == ma.cum_through(q) + if 0 <= c <= q {
            mb.chunk_total(c) - ma.chunk_total(c)
        } else {
            0
        },
    decreases q + 1,
{
    if q >= 0 {
        lemma_cum_one_changed(ma, mb, c, q - 1);
    }
}

/// Replacing one item's stored size keeps the list well formed when the
/// new running total stays under the threshold, and changes exactly that
/// item's effective size.
#[verifier::rlimit(40)]
pub proof fn lemma_update_item_step(m: ListModel, i: int, v: u64)
    requires
        m.wf(),
        0 <= i < m.total_items,
        v <= MAX_TOTAL_SIZE,
        m.materialize_step(i / (m.chunk_size as int)).total() - m.eff_size(i) + v
            <= MAX_TOTAL_SIZE,
    ensures
        ({
            let c = i / (m.chunk_size as int);
            let m1 = m.materialize_step(c);
            let m3 = m.update_item_step(i, v);
            &&& m3.wf()
            &&& m3.eff_sizes() == m1.eff_sizes().update(i, v)
            &&& m3.total() == m1.total() - m.eff_size(i) + v
            &&& !m.must_evict(c) ==> m3.eff_sizes() == m.eff_sizes().update(i, v)
                && m3.total() == m.total() - m.eff_size(i) + v
        }),
{
    let k = m.chunk_size as int;
    let c = i / k;
    let j = i - c * k;
    lemma_index_in_chunk(m.total_items, m.chunk_size, i);
    lemma_chunk_bounds(m.total_items, m.chunk_size, c);
    lemma_materialize_step(m, c);
    let m1 = m.materialize_step(c);
    let m3 = m.update_item_step(i, v);
    assert(m1.chunk_sizes(c) == m.chunk_sizes(c));
    assert(m.eff_size(i) == m.chunk_sizes(c)[j]);
    assert(m3.chunks[c] == Some(m1.chunks[c].unwrap().update(j, v)));
    assert(m3.chunk_sizes(c) == m1.chunk_sizes(c).update(j, v));
    assert forall|t: int| 0 <= t < m1.num_chunks() && t != c implies m3.chunk_sizes(t)
        == m1.chunk_sizes(t) by {}
    lemma_seq_total_update(m1.chunk_sizes(c), j, v);
    lemma_eff_update_one(m1, m3, c, j, v);
    assert(c * k + j == i);
    lemma_cum_one_changed(m1, m3, c, m1.num_chunks() - 1);
    assert(m3.total() == m1.total() - m.eff_size(i) + v);
    // Well-formedness: the widths are untouched, the cache still tracks
    // exactly the materialized chunks, and the headroom bound follows
    // from the new total being under the threshold.
    assert forall|t: int|
        0 <= t < m3.num_chunks() && (#[trigger] m3.chunks[t]) is Some
        implies m3.chunks[t].unwrap().len() == m3.items_in_chunk(t) by {
        if t != c {
            assert(m3.chunks[t] == m1.chunks[t]);
        }
    }
    assert forall|t: int|
        0 <= t < m3.cache.len() implies (#[trigger] m3.cache[t]).chunk < m3.num_chunks()
        && m3.chunks[m3.cache[t].chunk as int] is Some by {
        assert(m1.cache[t].chunk < m1.num_chunks());
        assert(m1.chunks[m1.cache[t].chunk as int] is Some);
    }
    assert forall|t: int|
        0 <= t < m3.num_chunks() && (#[trigger] m3.chunks[t]) is Some implies tracks(
        m3.cache,
        t as u64,
    ) by {
        if t != c {
            assert(m1.chunks[t] is Some);
        }
    }
    lemma_padded_le_cum_plus_est(m3, m3.num_chunks() - 1);
    lemma_estimates_sum(m3, m3.num_chunks());
    assert(m3.chunk_floor(m3.num_chunks()) == m3.total_items) by {
        if m3.total_items > 0 {
            let lc = m3.num_chunks() - 1;
            assert((lc + 1) * k == lc * k + k) by (nonlinear_arith);
            lemma_chunk_bounds(m3.total_items, m3.chunk_size, lc);
        }
    }
    assert(m3.padded_total() <= 2 * MAX_TOTAL_SIZE);
    assert(m3.wf());
    if !m.must_evict(c) {
        assert(m1.eff_sizes() == m.eff_sizes());
        assert(m1.total() == m.total());
    }
}

} // verus!

verus! {

/// A list never has more chunks than items.
pub proof fn lemma_num_chunks_le(n: u64, k: u64)
    requires
        k >= 1,
    ensures
        num_chunks_of(n, k) <= n,
{
    if n > 0 {
        let q = (n - 1) / (k as int);
        vstd::arithmetic::div_mod::lemma_fundamental_div_mod(n - 1, k as int);
        vstd::arithmetic::div_mod::lemma_mod_bound(n - 1, k as int);
        assert(q <= q * k) by (nonlinear_arith)
            requires
                k >= 1,
                q >= 0,
        ;
    }
}

} // verus!

verus! {

impl ListModel {
    /// Whether item `i` can take size `v` without the running total,
    /// measured after its chunk is touched, passing the threshold.
    pub open spec fn update_fits(self, i: int, v: u64) -> bool {
        self.materialize_step(i / (self.chunk_size as int)).total() - self.eff_size(i) + v
            <= MAX_TOTAL_SIZE
    }
}

} // verus!

// === Locating positions =====================================================

verus! {

impl ListModel {
    /// Helper for `find_chunk`: the scan from chunk `c` upward.
    pub open spec fn find_chunk_from(self, p: int, c: int) -> int
        decreases self.num_chunks() - c,
    {
        if c >= self.num_chunks() - 1 {
            self.num_chunks() - 1
        } else if self.cum_through(c) >= p {
            c
        } else {
            self.find_chunk_from(p, c + 1)
        }
    }

    /// The chunk a position belongs to: the smallest chunk index whose
    /// cumulative size reaches `p`, the last chunk when none does.
    pub open spec fn find_chunk(self, p: int) -> int {
        self.find_chunk_from(p, 0)
    }

    /// Where `p` falls inside its chunk.
    pub open spec fn position_in_chunk(self, p: int) -> int {
        p - self.cum_through(self.find_chunk(p) - 1)
    }

    /// The item index a position query answers: the largest cut of the
    /// found chunk whose prefix sum is at or under the intra-chunk
    /// position, translated to a global index and clamped to the last
    /// item.
    pub open spec fn locate_index(self, p: int) -> int {
        let c = self.find_chunk(p);
        let j = largest_prefix_le(self.chunk_sizes(c), self.position_in_chunk(p));
        let g = c * self.chunk_size + j;
        if g <= self.total_items - 1 {
            g
        } else {
            self.total_items - 1
        }
    }

    /// The offset a position query answers: what is left of `p` past the
    /// found cut.
    pub open spec fn locate_offset(self, p: int) -> int {
        let c = self.find_chunk(p);
        let j = largest_prefix_le(self.chunk_sizes(c), self.position_in_chunk(p));
        self.position_in_chunk(p) - seq_total(self.chunk_sizes(c).take(j))
    }
}

pub proof fn lemma_find_chunk_from(m: ListModel, p: int, c: int)
    requires
        m.num_chunks() >= 1,
        0 <= c <= m.num_chunks() - 1,
    ensures
        c <= m.find_chunk_from(p, c) <= m.num_chunks() - 1,
        forall|t: int| c <= t < m.find_chunk_from(p, c) ==> m.cum_through(t) < p,
        m.find_chunk_from(p, c) < m.num_chunks() - 1 ==> m.cum_through(
            m.find_chunk_from(p, c),
        ) >= p,
    decreases m.num_chunks() - c,
{
    if c < m.num_chunks() - 1 && m.cum_through(c) < p {
        lemma_find_chunk_from(m, p, c + 1);
    }
}

/// What `find_chunk` returns: all earlier chunks fall short of `p`, and
/// the found chunk reaches it whenever `p` is within the total.
pub proof fn lemma_find_chunk(m: ListModel, p: int)
    requires
        m.num_chunks() >= 1,
    ensures
        0 <= m.find_chunk(p) <= m.num_chunks() - 1,
        forall|t: int| 0 <= t < m.find_chunk(p) ==> m.cum_through(t) < p,
        m.find_chunk(p) < m.num_chunks() - 1 ==> m.cum_through(m.find_chunk(p)) >= p,
        p <= m.total() ==> m.cum_through(m.find_chunk(p)) >= p,
        0 <= p && p <= m.total() ==> 0 <= m.position_in_chunk(p) <= m.chunk_total(
            m.find_chunk(p),
        ),
{
    lemma_find_chunk_from(m, p, 0);
    let c = m.find_chunk(p);
    if p <= m.total() && c == m.num_chunks() - 1 {
        assert(m.cum_through(c) == m.total());
    }
    if 0 <= p && p <= m.total() {
        if c >= 1 {
            assert(m.cum_through(c - 1) < p);
        } else {
            assert(m.cum_through(-1) == 0);
        }
        lemma_cum_monotone(m, -1, c - 1);
    }
}

/// Any chunk that satisfies the characterization is the one found.
pub proof fn lemma_find_chunk_unique(m: ListModel, p: int, c: int)
    requires
        m.num_chunks() >= 1,
        0 <= c <= m.num_chunks() - 1,
        forall|t: int| 0 <= t < c ==> m.cum_through(t) < p,
        c < m.num_chunks() - 1 ==> m.cum_through(c) >= p,
    ensures
        c == m.find_chunk(p),
{
    lemma_find_chunk(m, p);
    let r = m.find_chunk(p);
    if r < c {
        assert(m.cum_through(r) < p);
        assert(r < m.num_chunks() - 1);
        assert(m.cum_through(r) >= p);
        assert(false);
    }
    if c < r {
        assert(m.cum_through(c) < p);
        assert(c < m.num_chunks() - 1);
        assert(m.cum_through(c) >= p);
        assert(false);
    }
}

/// The smallest item cut whose position reaches `p`: positions are the
/// prefix sums of the effective sizes.
pub open spec fn item_lower_bound(m: ListModel, p: int) -> int {
    smallest_prefix_ge(m.eff_sizes(), p)
}

} // verus!

// === Batched updates ========================================================

verus! {

/// Whether every queued update names an item in range with an
/// admissible size.
pub open spec fn batch_valid(m: ListModel, ups: Seq<(u64, u64)>) -> bool {
    forall|t: int|
        0 <= t < ups.len() ==> (#[trigger] ups[t]).0 < m.total_items && ups[t].1
            <= MAX_TOTAL_SIZE
}

/// The first validation failure among queued updates, scanned in order,
/// the index checked before the size.
pub open spec fn batch_first_invalid(m: ListModel, ups: Seq<(u64, u64)>) -> Option<
    crate::errors::VirtualListError,
>
    decreases ups.len(),
{
    if ups.len() == 0 {
        None
    } else if ups[0].0 >= m.total_items {
        Some(crate::errors::VirtualListError::IndexOutOfBounds)
    } else if ups[0].1 > MAX_TOTAL_SIZE {
        Some(crate::errors::VirtualListError::InvalidSize)
    } else {
        batch_first_invalid(m, ups.drop_first())
    }
}

pub proof fn lemma_batch_first_invalid_none(m: ListModel, ups: Seq<(u64, u64)>)
    ensures
        batch_first_invalid(m, ups) is None <==> batch_valid(m, ups),
    decreases ups.len(),
{
    if ups.len() > 0 {
        lemma_batch_first_invalid_none(m, ups.drop_first());
        if ups[0].0 < m.total_items && ups[0].1 <= MAX_TOTAL_SIZE {
            if batch_valid(m, ups.drop_first()) {
                assert forall|t: int| 0 <= t < ups.len() implies (#[trigger] ups[t]).0
                    < m.total_items && ups[t].1 <= MAX_TOTAL_SIZE by {
                    if t >= 1 {
                        assert(ups[t] == ups.drop_first()[t - 1]);
                    }
                }
            } else {
                let t = choose|t: int|
                    0 <= t < ups.drop_first().len() && !((#[trigger] ups.drop_first()[t]).0
                        < m.total_items && ups.drop_first()[t].1 <= MAX_TOTAL_SIZE);
                assert(ups[t + 1] == ups.drop_first()[t]);
            }
        }
    }
}

/// Applying queued updates one at a time, in order, each through the
/// same touch-then-replace step a single update takes; an update whose
/// new running total would pass the threshold stops the batch there,
/// with its chunk touched but nothing replaced.
pub open spec fn batch_apply(m: ListModel, ups: Seq<(u64, u64)>) -> (ListModel, bool)
    decreases ups.len(),
{
    if ups.len() == 0 {
        (m, true)
    } else {
        let i = ups[0].0 as int;
        let v = ups[0].1;
        if !m.update_fits(i, v) {
            (m.materialize_step(i / (m.chunk_size as int)), false)
        } else {
            batch_apply(m.update_item_step(i, v), ups.drop_first())
        }
    }
}

/// What a batch call leaves behind and answers: an invalid update
/// refuses the whole batch untouched; otherwise the updates are applied
/// in order until done or until one passes the threshold.
pub open spec fn batch_step(m: ListModel, ups: Seq<(u64, u64)>) -> (
    ListModel,
    Result<(), crate::errors::VirtualListError>,
) {
    match batch_first_invalid(m, ups) {
        Some(e) => (m, Err(e)),
        None => {
            let (m2, ok) = batch_apply(m, ups);
            (
                m2,
                if ok {
                    Ok(())
                } else {
                    Err(crate::errors::VirtualListError::PrecisionLimitExceeded)
                },
            )
        },
    }
}

/// Validation scans compose: with a valid prefix, the first failure of
/// the whole queue is the first failure of the rest.
pub proof fn lemma_batch_first_invalid_skip(m: ListModel, ups: Seq<(u64, u64)>, t: int)
    requires
        0 <= t <= ups.len(),
        forall|q: int|
            0 <= q < t ==> (#[trigger] ups[q]).0 < m.total_items && ups[q].1
                <= MAX_TOTAL_SIZE,
    ensures
        batch_first_invalid(m, ups) == batch_first_invalid(m, ups.skip(t)),
    decreases t,
{
    if t > 0 {
        lemma_batch_first_invalid_skip(m, ups.drop_first(), t - 1);
        assert(ups.drop_first().skip(t - 1) =~= ups.skip(t));
        assert forall|q: int|
            0 <= q < t - 1 implies (#[trigger] ups.drop_first()[q]).0 < m.total_items
            && ups.drop_first()[q].1 <= MAX_TOTAL_SIZE by {
            assert(ups.drop_first()[q] == ups[q + 1]);
        }
    } else {
        assert(ups.skip(0) =~= ups);
    }
}

/// A batch with a valid next update steps once and continues on the
/// rest.
pub proof fn lemma_batch_apply_unfold(m: ListModel, ups: Seq<(u64, u64)>, t: int)
    requires
        0 <= t < ups.len(),
    ensures
        ups.skip(t).len() == ups.len() - t,
        ups.skip(t)[0] == ups[t],
        ups.skip(t).drop_first() =~= ups.skip(t + 1),
{
    assert(ups.skip(t).drop_first() =~= ups.skip(t + 1));
}

} // verus!

// === Unloading and clearing =================================================

verus! {

impl ListModel {
    /// The state after chunk `c` is dropped back to estimates: its slot
    /// empties and its bookkeeping goes.
    pub open spec fn unload_step(self, c: int) -> ListModel {
        if self.materialized(c) {
            ListModel {
                chunks: self.chunks.update(c, None),
                cache: if tracks(self.cache, c as u64) {
                    self.cache.remove(entry_index(self.cache, c as u64))
                } else {
                    self.cache
                },
                ..self
            }
        } else {
            self
        }
    }

    /// The state after every chunk is dropped back to estimates.
    pub open spec fn cleared(self) -> ListModel {
        ListModel {
            chunks: Seq::new(self.num_chunks() as nat, |c: int| None),
            cache: Seq::empty(),
            ..self
        }
    }
}

/// Unloading keeps the list well formed, reverts exactly the unloaded
/// chunk to estimated sizes, and touches nothing else.
pub proof fn lemma_unload_step(m: ListModel, c: int)
    requires
        m.wf(),
        0 <= c < m.num_chunks(),
    ensures
        m.unload_step(c).wf(),
        !m.materialized(c) ==> m.unload_step(c) == m,
        m.unload_step(c).chunk_sizes(c) == m.estimated_sizes(c) || !m.materialized(c),
        forall|t: int|
            0 <= t < m.num_chunks() && t != c ==> m.unload_step(c).chunk_sizes(t)
                == m.chunk_sizes(t),
        m.unload_step(c).total() == m.total() - m.chunk_total(c) + m.estimated_total(c)
            || !m.materialized(c),
{
    let u = m.unload_step(c);
    if m.materialized(c) {
        assert(tracks(m.cache, c as u64));
        crate::cache::lemma_entry_index(m.cache, c as u64);
        let i = entry_index(m.cache, c as u64);
        lemma_cache_removed_set(m.cache, i);
        lemma_chunk_bounds(m.total_items, m.chunk_size, c);
        lemma_seq_total_constant(m.items_in_chunk(c) as nat, m.estimated_size);
        assert(u.chunk_sizes(c) =~= m.estimated_sizes(c));
        assert forall|t: int| 0 <= t <= m.num_chunks() - 1 implies u.padded_chunk(t)
            <= m.padded_chunk(t) by {
            if t != c {
                assert(u.chunk_sizes(t) == m.chunk_sizes(t));
            }
        }
        lemma_padded_pointwise_le(m, u, m.num_chunks() - 1);
        lemma_cum_one_changed(m, u, c, m.num_chunks() - 1);
        assert forall|t: int|
            0 <= t < u.cache.len() implies (#[trigger] u.cache[t]).chunk < u.num_chunks()
            && u.chunks[u.cache[t].chunk as int] is Some by {
            assert(tracks(m.cache, u.cache[t].chunk));
            let q = choose|q: int|
                0 <= q < m.cache.len() && m.cache[q].chunk == u.cache[t].chunk;
            assert(u.cache[t].chunk != c as u64);
        }
        assert forall|t: int|
            0 <= t < u.num_chunks() && (#[trigger] u.chunks[t]) is Some implies tracks(
            u.cache,
            t as u64,
        ) by {
            assert(t != c);
            assert(tracks(m.cache, t as u64));
        }
        assert forall|t: int|
            0 <= t < u.num_chunks() && (#[trigger] u.chunks[t]) is Some implies u.chunks[
            t].unwrap().len() == u.items_in_chunk(t) by {
            assert(t != c);
            assert(u.chunks[t] == m.chunks[t]);
        }
        assert(u.wf());
    }
}

/// Clearing the cache keeps the list well formed and reverts every
/// chunk to estimated sizes, whose total is the whole list at the
/// estimated size.
pub proof fn lemma_cleared(m: ListModel)
    requires
        m.wf(),
    ensures
        m.cleared().wf(),
        m.cleared().total() == (m.total_items as int) * (m.estimated_size as int),
        forall|t: int|
            0 <= t < m.num_chunks() ==> m.cleared().chunk_sizes(t) == m.estimated_sizes(t),
{
    let u = m.cleared();
    assert forall|t: int| 0 <= t < m.num_chunks() implies u.chunk_sizes(t)
        == m.estimated_sizes(t) by {
        assert(u.chunks[t] is None);
        assert(u.chunk_sizes(t) =~= m.estimated_sizes(t));
    }
    lemma_cleared_sums(m, m.num_chunks() - 1);
    lemma_estimates_sum(u, u.num_chunks());
    assert(u.chunk_floor(u.num_chunks()) == u.total_items) by {
        if u.total_items > 0 {
            let lc = u.num_chunks() - 1;
            let k = u.chunk_size as int;
            lemma_chunk_bounds(u.total_items, u.chunk_size, lc);
            assert((lc + 1) * k == lc * k + k) by (nonlinear_arith);
        }
    }
    assert(u.wf());
}

/// In a cleared list both the cumulative and the padded sums are the
/// estimated sums.
proof fn lemma_cleared_sums(m: ListModel, c: int)
    requires
        m.wf(),
        c < m.num_chunks(),
    ensures
        m.cleared().cum_through(c) == est_through(m.cleared(), c),
        m.cleared().padded_through(c) == est_through(m.cleared(), c),
    decreases c + 1,
{
    if c >= 0 {
        lemma_cleared_sums(m, c - 1);
        lemma_chunk_bounds(m.total_items, m.chunk_size, c);
        lemma_seq_total_constant(m.cleared().items_in_chunk(c) as nat, m.estimated_size);
    }
}

} // verus!

// === Resizing ===============================================================

verus! {

use crate::cache::entries_below;

impl ListModel {
    /// The state after growing to `n2` items: the old tail chunk, if
    /// materialized and partial, is completed with estimated sizes; new
    /// absent slots follow.
    pub open spec fn grown(self, n2: u64) -> ListModel {
        let old_num = self.num_chunks();
        let k = self.chunk_size;
        ListModel {
            total_items: n2,
            chunks: Seq::new(
                num_chunks_of(n2, k) as nat,
                |c: int|
                    if c < old_num - 1 {
                        self.chunks[c]
                    } else if c == old_num - 1 {
                        match self.chunks[c] {
                            Some(s) => if s.len() == items_in_chunk_of(n2, k, c) {
                                Some(s)
                            } else {
                                Some(
                                    s + Seq::new(
                                        (items_in_chunk_of(n2, k, c) - s.len()) as nat,
                                        |q: int| self.estimated_size,
                                    ),
                                )
                            },
                            None => None,
                        }
                    } else {
                        None
                    },
            ),
            ..self
        }
    }

    /// The state after shrinking to `n2` items: chunk slots past the new
    /// end are discarded with their bookkeeping, and the new tail chunk,
    /// if materialized, keeps only its surviving sizes.
    pub open spec fn shrunk(self, n2: u64) -> ListModel {
        let num2 = num_chunks_of(n2, self.chunk_size);
        ListModel {
            total_items: n2,
            chunks: Seq::new(
                num2 as nat,
                |c: int|
                    if c < num2 - 1 {
                        self.chunks[c]
                    } else {
                        match self.chunks[c] {
                            Some(s) => if s.len() == items_in_chunk_of(
                                n2,
                                self.chunk_size,
                                c,
                            ) {
                                Some(s)
                            } else {
                                Some(s.take(items_in_chunk_of(n2, self.chunk_size, c)))
                            },
                            None => None,
                        }
                    },
            ),
            cache: entries_below(self.cache, num2 as u64),
            ..self
        }
    }

    /// The state a resize leaves behind.
    pub open spec fn resize_step(self, n2: u64) -> ListModel {
        if n2 > self.total_items {
            self.grown(n2)
        } else if n2 < self.total_items {
            self.shrunk(n2)
        } else {
            self
        }
    }

    /// Whether growing to `n2` keeps the estimated total and the new
    /// running total under their thresholds.
    pub open spec fn resize_fits(self, n2: u64) -> bool {
        &&& n2 <= MAX_ITEM_COUNT
        &&& n2 > self.total_items ==> (n2 as int) * (self.estimated_size as int)
            <= MAX_TOTAL_SIZE && self.total() + (n2 - self.total_items) * (
        self.estimated_size as int) <= MAX_TOTAL_SIZE
    }
}

/// Chunks strictly before the last are always full.
proof fn lemma_full_chunk_agree(n1: u64, n2: u64, k: u64, c: int)
    requires
        k >= 1,
        1 <= n1 <= n2,
        0 <= c < num_chunks_of(n1, k) - 1,
    ensures
        items_in_chunk_of(n1, k, c) == k,
        items_in_chunk_of(n2, k, c) == k,
        c < num_chunks_of(n2, k) - 1,
    decreases 1int,
{
    lemma_chunk_bounds(n1, k, c);
    lemma_num_le_num(n1, n2, k);
    assert((c + 1) * k == c * k + k) by (nonlinear_arith);
    if c >= num_chunks_of(n2, k) - 1 {
        lemma_chunk_bounds(n2, k, num_chunks_of(n2, k) - 1);
        assert(num_chunks_of(n1, k) - 1 > num_chunks_of(n2, k) - 1);
        lemma_chunk_bounds(n1, k, num_chunks_of(n1, k) - 1);
        assert((num_chunks_of(n2, k) - 1) * k < (num_chunks_of(n1, k) - 1) * k)
            by (nonlinear_arith)
            requires
                num_chunks_of(n2, k) - 1 < num_chunks_of(n1, k) - 1,
                k >= 1,
        ;
        assert(n2 - (num_chunks_of(n2, k) - 1) * k >= n1 - (num_chunks_of(n2, k) - 1) * k);
        assert(false);
    }
}

/// More items never means fewer chunks.
pub proof fn lemma_num_le_num(n1: u64, n2: u64, k: u64)
    requires
        k >= 1,
        n1 <= n2,
    ensures
        num_chunks_of(n1, k) <= num_chunks_of(n2, k),
{
    if n1 > 0 {
        vstd::arithmetic::div_mod::lemma_div_is_ordered(n1 - 1, n2 - 1, k as int);
    }
}

/// Growing appends estimated items: the list stays well formed, the
/// surviving items keep their sizes, and the total grows by the
/// estimate per added item.
#[verifier::rlimit(40)]
pub proof fn lemma_grown(m: ListModel, n2: u64)
    requires
        m.wf(),
        n2 > m.total_items,
        n2 <= MAX_ITEM_COUNT,
        (n2 as int) * (m.estimated_size as int) <= MAX_TOTAL_SIZE,
        m.total() + (n2 - m.total_items) * (m.estimated_size as int) <= MAX_TOTAL_SIZE,
    ensures
        m.grown(n2).wf(),
        m.grown(n2).eff_sizes() == m.eff_sizes() + Seq::new(
            (n2 - m.total_items) as nat,
            |q: int| m.estimated_size,
        ),
        m.grown(n2).total() == m.total() + (n2 - m.total_items) * (
        m.estimated_size as int),
{
    let g = m.grown(n2);
    let k = m.chunk_size;
    let old_num = m.num_chunks();
    let num2 = num_chunks_of(n2, k);
    lemma_num_le_num(m.total_items, n2, k);
    lemma_num_chunks_le(n2, k);
    // The geometry: every materialized chunk of the grown list has the
    // width its slot asks for.
    assert forall|c: int|
        0 <= c < num2 && (#[trigger] g.chunks[c]) is Some implies g.chunks[c].unwrap().len()
        == g.items_in_chunk(c) by {
        lemma_chunk_bounds(n2, k, c);
        if c < old_num - 1 {
            lemma_full_chunk_agree(m.total_items, n2, k, c);
        } else if c == old_num - 1 {
            lemma_chunk_bounds(m.total_items, k, c);
            assert(m.items_in_chunk(c) <= items_in_chunk_of(n2, k, c));
        }
    }
    assert(g.geom_wf());
    // Surviving items keep their sizes; the added ones weigh the
    // estimate.
    assert forall|c: int| 0 <= c < old_num implies g.chunk_sizes(c).take(
        m.items_in_chunk(c),
    ) =~= m.chunk_sizes(c) && g.chunk_sizes(c).len() >= m.items_in_chunk(c) && (forall|
        q: int,
    |
        m.items_in_chunk(c) <= q < g.chunk_sizes(c).len() ==> g.chunk_sizes(c)[q]
            == m.estimated_size) by {
        lemma_chunk_bounds(m.total_items, k, c);
        lemma_chunk_bounds(n2, k, c);
        if c < old_num - 1 {
            lemma_full_chunk_agree(m.total_items, n2, k, c);
        } else {
            assert(m.items_in_chunk(c) <= items_in_chunk_of(n2, k, c)) by {
                lemma_num_le_num(m.total_items, n2, k);
            }
        }
    }
    assert forall|i: int| 0 <= i < n2 implies g.eff_sizes()[i] == (m.eff_sizes()
        + Seq::new((n2 - m.total_items) as nat, |q: int| m.estimated_size))[i] by {
        lemma_index_in_chunk(n2, k, i);
        let c = i / (k as int);
        if i < m.total_items {
            lemma_index_in_chunk(m.total_items, k, i);
            assert(g.chunk_sizes(c)[i - c * k] == m.chunk_sizes(c)[i - c * k]);
        } else {
            if c < old_num {
                assert(i - c * k >= m.items_in_chunk(c)) by {
                    lemma_chunk_bounds(m.total_items, k, c);
                }
                assert(g.chunk_sizes(c)[i - c * k] == m.estimated_size);
            } else {
                assert(g.chunks[c] is None);
                assert(g.chunk_sizes(c)[i - c * k] == m.estimated_size);
            }
        }
    }
    assert(g.eff_sizes() =~= m.eff_sizes() + Seq::new(
        (n2 - m.total_items) as nat,
        |q: int| m.estimated_size,
    ));
    lemma_total_is_position_end(g);
    lemma_total_is_position_end(m);
    lemma_seq_total_concat(
        m.eff_sizes(),
        Seq::new((n2 - m.total_items) as nat, |q: int| m.estimated_size),
    );
    lemma_seq_total_constant((n2 - m.total_items) as nat, m.estimated_size);
    // Well-formedness: the headroom bound from the new total, the cache
    // unchanged.
    lemma_padded_le_cum_plus_est(g, g.num_chunks() - 1);
    lemma_estimates_sum(g, g.num_chunks());
    assert(g.chunk_floor(g.num_chunks()) == n2) by {
        let lc = g.num_chunks() - 1;
        lemma_chunk_bounds(n2, k, lc);
        assert((lc + 1) * (k as int) == lc * (k as int) + k) by (nonlinear_arith);
    }
    assert forall|t: int|
        0 <= t < g.cache.len() implies (#[trigger] g.cache[t]).chunk < g.num_chunks()
        && g.chunks[g.cache[t].chunk as int] is Some by {
        let tc = g.cache[t].chunk as int;
        assert(m.chunks[tc] is Some);
        if tc < old_num - 1 {
        } else {
            assert(tc == old_num - 1);
        }
    }
    assert forall|t: int|
        0 <= t < g.num_chunks() && (#[trigger] g.chunks[t]) is Some implies tracks(
        g.cache,
        t as u64,
    ) by {
        assert(t < old_num);
        assert(m.chunks[t] is Some);
    }
    assert(g.wf());
}

} // verus!

verus! {

/// Padded partial sums are non-decreasing in the chunk index.
proof fn lemma_padded_through_monotone(m: ListModel, a: int, b: int)
    requires
        a <= b,
    ensures
        m.padded_through(a) <= m.padded_through(b),
    decreases b - a,
{
    if a < b {
        lemma_padded_through_monotone(m, a, b - 1);
        lemma_seq_total_nonneg(m.chunk_sizes(b));
    }
}

/// Shrinking truncates: the list stays well formed, the surviving items
/// keep their sizes, and the total becomes the position of the new end.
#[verifier::rlimit(40)]
pub proof fn lemma_shrunk(m: ListModel, n2: u64)
    requires
        m.wf(),
        n2 < m.total_items,
    ensures
        m.shrunk(n2).wf(),
        m.shrunk(n2).eff_sizes() == m.eff_sizes().take(n2 as int),
        m.shrunk(n2).total() == m.position(n2 as int),
{
    let s = m.shrunk(n2);
    let k = m.chunk_size;
    let num2 = num_chunks_of(n2, k);
    lemma_num_le_num(n2, m.total_items, k);
    crate::cache::lemma_entries_below(m.cache, num2 as u64);
    assert forall|c: int|
        0 <= c < num2 && (#[trigger] s.chunks[c]) is Some implies s.chunks[c].unwrap().len()
        == s.items_in_chunk(c) by {
        lemma_chunk_bounds(n2, k, c);
        lemma_chunk_bounds(m.total_items, k, c);
        if c < num2 - 1 {
            lemma_full_chunk_agree(n2, m.total_items, k, c);
        } else {
            assert(items_in_chunk_of(n2, k, c) <= m.items_in_chunk(c));
        }
    }
    assert(s.geom_wf());
    assert forall|c: int| 0 <= c < num2 implies s.chunk_sizes(c) =~= m.chunk_sizes(c).take(
        s.items_in_chunk(c),
    ) by {
        lemma_chunk_bounds(n2, k, c);
        lemma_chunk_bounds(m.total_items, k, c);
        if c < num2 - 1 {
            lemma_full_chunk_agree(n2, m.total_items, k, c);
        } else {
            assert(items_in_chunk_of(n2, k, c) <= m.items_in_chunk(c));
        }
    }
    assert forall|i: int| 0 <= i < n2 implies s.eff_sizes()[i] == m.eff_sizes().take(
        n2 as int,
    )[i] by {
        lemma_index_in_chunk(n2, k, i);
        lemma_index_in_chunk(m.total_items, k, i);
        let c = i / (k as int);
        assert(s.chunk_sizes(c)[i - c * k] == m.chunk_sizes(c)[i - c * k]);
    }
    assert(s.eff_sizes() =~= m.eff_sizes().take(n2 as int));
    lemma_total_is_position_end(s);
    // The headroom bound: every surviving chunk's padded contribution
    // only shrinks.
    assert forall|t: int| 0 <= t <= num2 - 1 implies s.padded_chunk(t) <= m.padded_chunk(
        t,
    ) by {
        lemma_chunk_bounds(n2, k, t);
        lemma_chunk_bounds(m.total_items, k, t);
        assert(s.chunk_sizes(t) =~= m.chunk_sizes(t).take(s.items_in_chunk(t)));
        lemma_seq_total_take_monotone(
            m.chunk_sizes(t),
            s.items_in_chunk(t),
            m.chunk_sizes(t).len() as int,
        );
        lemma_seq_total_take_full(m.chunk_sizes(t));
        assert(s.items_in_chunk(t) <= m.items_in_chunk(t));
        assert(s.estimated_total(t) <= m.estimated_total(t)) by (nonlinear_arith)
            requires
                s.items_in_chunk(t) <= m.items_in_chunk(t),
                s.estimated_size == m.estimated_size,
                m.estimated_size >= 0,
                s.estimated_total(t) == s.items_in_chunk(t) * s.estimated_size,
                m.estimated_total(t) == m.items_in_chunk(t) * m.estimated_size,
        ;
    }
    lemma_padded_pointwise_le(m, s, num2 - 1);
    lemma_padded_through_monotone(m, num2 - 1, m.num_chunks() - 1);
    assert((n2 as int) * (m.estimated_size as int) <= (m.total_items as int) * (
    m.estimated_size as int)) by (nonlinear_arith)
        requires
            n2 <= m.total_items,
            m.estimated_size >= 0,
    ;
    assert forall|t: int|
        0 <= t < s.cache.len() implies (#[trigger] s.cache[t]).chunk < s.num_chunks()
        && s.chunks[s.cache[t].chunk as int] is Some by {
        assert(tracks(m.cache, s.cache[t].chunk));
        let q = choose|q: int|
            0 <= q < m.cache.len() && m.cache[q].chunk == s.cache[t].chunk;
        assert(m.chunks[s.cache[t].chunk as int] is Some);
    }
    assert forall|t: int|
        0 <= t < s.num_chunks() && (#[trigger] s.chunks[t]) is Some implies tracks(
        s.cache,
        t as u64,
    ) by {
        assert(m.chunks[t] is Some);
        assert(tracks(m.cache, t as u64));
    }
    assert(s.wf());
}

} // verus!

// === Item lower bounds and the quick visibility window =====================

verus! {

/// A chunk-routed lower-bound search answers the item-level lower
/// bound: if every chunk before `c` falls short of `p`, chunk `c`
/// reaches it, and `j` is a local lower-bound cut for what is left of
/// `p` inside chunk `c`, then `c*k + j` is the smallest item cut whose
/// position reaches `p`.
#[verifier::rlimit(40)]
pub proof fn lemma_lower_bound_compose(m: ListModel, p: int, c: int, j: int)
    requires
        m.wf(),
        m.total_items >= 1,
        1 <= p <= m.total(),
        0 <= c < m.num_chunks(),
        forall|t: int| 0 <= t < c ==> m.cum_through(t) < p,
        m.cum_through(c) >= p,
        0 <= j <= m.items_in_chunk(c),
        forall|x: int|
            0 <= x < j ==> seq_total(m.chunk_sizes(c).take(x)) < p - m.cum_through(c - 1),
        j < m.items_in_chunk(c) ==> seq_total(m.chunk_sizes(c).take(j)) >= p
            - m.cum_through(c - 1),
    ensures
        c * m.chunk_size + j == item_lower_bound(m, p),
        0 <= c * m.chunk_size + j <= m.total_items,
{
    let k = m.chunk_size as int;
    let n = m.total_items as int;
    let w = m.items_in_chunk(c);
    let t = p - m.cum_through(c - 1);
    let g = c * k + j;
    lemma_chunk_bounds(m.total_items, m.chunk_size, c);
    lemma_position_chunk_floor(m, c);
    assert(m.chunk_floor(c) == c * k);
    lemma_cum_monotone(m, -1, c - 1);
    lemma_chunk_slice(m, c);
    lemma_total_is_position_end(m);
    // Every cut before `g` falls short of `p`.
    assert forall|q: int| 0 <= q < g implies seq_total(m.eff_sizes().take(q)) < p by {
        if q <= c * k {
            lemma_position_monotone(m, q, c * k);
            assert(m.position(c * k) == m.cum_through(c - 1));
            assert(m.cum_through(c - 1) < p);
        } else {
            lemma_position_decompose(m, q);
            vstd::arithmetic::div_mod::lemma_fundamental_div_mod(q, k);
            vstd::arithmetic::div_mod::lemma_mod_bound(q, k);
            let qc = q / k;
            assert(qc == c) by (nonlinear_arith)
                requires
                    q == k * qc + (q % k),
                    0 <= q % k < k,
                    c * k < q,
                    q < c * k + j,
                    j <= w <= k,
            ;
            vstd::arithmetic::mul::lemma_mul_is_commutative(c, k);
            assert(seq_total(m.chunk_sizes(c).take(q - c * k)) < t);
        }
    }
    // The cut at `g` reaches `p`, unless it is the very end.
    if g < n {
        if j < w {
            lemma_position_decompose(m, g);
            vstd::arithmetic::div_mod::lemma_fundamental_div_mod(g, k);
            vstd::arithmetic::div_mod::lemma_mod_bound(g, k);
            assert(g / k == c) by (nonlinear_arith)
                requires
                    g == k * (g / k) + (g % k),
                    0 <= g % k < k,
                    g == c * k + j,
                    0 <= j < w <= k,
            ;
            vstd::arithmetic::mul::lemma_mul_is_commutative(c, k);
            assert(m.position(g) == m.cum_through(c - 1) + seq_total(
                m.chunk_sizes(c).take(j),
            ));
        } else {
            // The cut is the next chunk's floor.
            assert(j == w);
            assert(c < m.num_chunks() - 1) by {
                if c == m.num_chunks() - 1 {
                    assert(c * k + w == n);
                }
            }
            assert(w == k as int);
            assert((c + 1) * k == c * k + k) by (nonlinear_arith);
            lemma_position_chunk_floor(m, c + 1);
            lemma_chunk_bounds(m.total_items, m.chunk_size, c + 1);
            assert(m.chunk_floor(c + 1) == (c + 1) * k);
            assert(m.position(g) == m.cum_through(c));
        }
        assert(seq_total(m.eff_sizes().take(g)) >= p);
    }
    lemma_smallest_prefix_ge_unique(m.eff_sizes(), p, g);
}

impl ListModel {
    /// The average effective item size, at least one unit.
    pub open spec fn average_size(self) -> int {
        vstd::math::max(1, self.total() / (self.total_items as int))
    }

    /// How many items a viewport is worth at the average size, rounding
    /// up, after the viewport is clipped to what lies past the scroll
    /// offset.
    pub open spec fn visible_count(self, s: int, viewport: int) -> int {
        let veff = vstd::math::min(viewport, self.total() - s);
        (veff + self.average_size() - 1) / self.average_size()
    }

    /// The half-open item window a quick visibility query answers: from
    /// the first item starting at or past the clamped scroll offset,
    /// one item per average size across the viewport, widened by the
    /// overscan count on both sides and clipped to the list.
    pub open spec fn visible_window(self, scroll: int, viewport: int, ov: int) -> (
        int,
        int,
    ) {
        if self.total_items == 0 || viewport <= 0 || vstd::math::max(scroll, 0)
            > self.total() {
            (0, 0)
        } else {
            let s = vstd::math::max(scroll, 0);
            let l0 = item_lower_bound(self, s);
            let e0 = vstd::math::min(
                l0 + self.visible_count(s, viewport),
                self.total_items as int,
            );
            (
                vstd::math::max(l0 - ov, 0),
                vstd::math::min(e0 + ov, self.total_items as int),
            )
        }
    }
}

} // verus!

verus! {

/// The rounded-up quotient is the least multiplier whose multiple
/// reaches the dividend.
pub proof fn lemma_ceil_div(t: u64, e: u64, w: int)
    requires
        e >= 1,
        t >= 1,
        t as int <= w * e,
    ensures
        ({
            let q = ((t + e - 1) as int) / (e as int);
            &&& 1 <= q <= w
            &&& (q - 1) * e < t
            &&& q * e >= t
        }),
{
    let q = ((t + e - 1) as int) / (e as int);
    vstd::arithmetic::div_mod::lemma_fundamental_div_mod(t + e - 1, e as int);
    vstd::arithmetic::div_mod::lemma_mod_bound(t + e - 1, e as int);
    let r = (t + e - 1) as int % (e as int);
    assert(q * e == t + e - 1 - r) by (nonlinear_arith)
        requires
            t + e - 1 == e * q + r,
    ;
    assert((q - 1) * e == q * e - e) by (nonlinear_arith);
    assert(q <= w) by {
        if q > w {
            assert(w * e <= (q - 1) * e) by (nonlinear_arith)
                requires
                    w <= q - 1,
                    e >= 1,
            ;
        }
    }
    assert(q >= 1) by {
        if q <= 0 {
            assert(q * e <= 0) by (nonlinear_arith)
                requires
                    q <= 0,
                    e >= 1,
            ;
        }
    }
}

} // verus!
