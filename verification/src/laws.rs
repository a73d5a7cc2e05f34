use vstd::prelude::*;

use crate::model::{
    batch_apply, batch_valid, lemma_chunk_bounds, lemma_cum_monotone,
    lemma_seq_total_constant, lemma_seq_total_nonneg, lemma_seq_total_take_monotone,
    lemma_seq_total_take_succ, lemma_total_is_position_end, lemma_update_item_step,
    seq_total, ListModel, MAX_TOTAL_SIZE,
};

verus! {

/// Within every materialized chunk the prefix sums are non-decreasing,
/// and consecutive prefix sums differ by exactly the stored size
/// between them.
pub proof fn law_monotone_prefix_sums(m: ListModel, c: int, j: int)
    requires
        m.wf(),
        0 <= c < m.num_chunks(),
        m.materialized(c),
        0 <= j < m.items_in_chunk(c),
    ensures
        seq_total(m.chunk_sizes(c).take(j)) <= seq_total(m.chunk_sizes(c).take(j + 1)),
        seq_total(m.chunk_sizes(c).take(j + 1)) - seq_total(m.chunk_sizes(c).take(j))
            == m.chunk_sizes(c)[j],
{
    lemma_seq_total_take_succ(m.chunk_sizes(c), j);
}

/// The cumulative sizes are non-decreasing, and each chunk's share of
/// them is its stored total when materialized, the estimated total
/// otherwise.
pub proof fn law_cumulative_consistency(m: ListModel, c: int)
    requires
        m.wf(),
        0 <= c < m.num_chunks(),
    ensures
        m.cum_through(c - 1) <= m.cum_through(c),
        m.cum_through(c) - m.cum_through(c - 1) == m.chunk_total(c),
        m.materialized(c) ==> m.chunk_total(c) == seq_total(m.chunks[c].unwrap()),
        !m.materialized(c) ==> m.chunk_total(c) == m.items_in_chunk(c) * m.estimated_size,
{
    lemma_cum_monotone(m, c - 1, c);
    if !m.materialized(c) {
        lemma_chunk_bounds(m.total_items, m.chunk_size, c);
        lemma_seq_total_constant(m.items_in_chunk(c) as nat, m.estimated_size);
    }
}

/// The running total agrees with the cumulative sizes: it is the last
/// cumulative sum when there are items, zero otherwise, and equally the
/// sum of every effective item size.
pub proof fn law_total_agreement(m: ListModel)
    requires
        m.wf(),
    ensures
        m.total_items > 0 ==> m.total() == m.cum_through(m.num_chunks() - 1),
        m.total_items == 0 ==> m.total() == 0,
        m.total() == seq_total(m.eff_sizes()),
{
    lemma_total_is_position_end(m);
}

/// With every item at least one unit wide, locating an item's own
/// position answers that item with a zero offset.
///
/// With zero-sized items this fails: locating the shared boundary
/// position answers the last zero-sized item at it, by design.
#[verifier::rlimit(40)]
pub proof fn law_locate_inverts_position(m: ListModel, i: int)
    requires
        m.wf(),
        0 <= i < m.total_items,
        forall|t: int| 0 <= t < m.total_items ==> m.eff_sizes()[t] >= 1,
    ensures
        m.locate_index(m.position(i)) == i,
        m.locate_offset(m.position(i)) == 0,
{
    let k = m.chunk_size as int;
    let p = m.position(i);
    let ci = i / k;
    let j = i - ci * k;
    crate::model::lemma_index_in_chunk(m.total_items, m.chunk_size, i);
    lemma_chunk_bounds(m.total_items, m.chunk_size, ci);
    crate::model::lemma_position_decompose(m, i);
    crate::model::lemma_chunk_slice(m, ci);
    lemma_seq_total_nonneg(m.eff_sizes().take(i));
    // The located chunk: every earlier cumulative sum falls short of
    // `p` when the local prefix is positive, else the previous chunk
    // reaches it exactly at its end.
    let q = m.chunk_sizes(ci);
    assert(q.len() == m.items_in_chunk(ci));
    lemma_local_prefix_positive(m, ci, j);
    let c = if j == 0 && ci > 0 {
        ci - 1
    } else {
        ci
    };
    assert forall|t: int| 0 <= t < c implies m.cum_through(t) < p by {
        lemma_strict_cum(m, t, ci, j);
    }
    if c < m.num_chunks() - 1 {
        assert(m.cum_through(c) >= p) by {
            if c == ci {
                lemma_cum_monotone(m, ci - 1, ci);
                lemma_seq_total_take_monotone(q, j, q.len() as int);
                crate::model::lemma_seq_total_take_full(q);
            }
        }
    }
    crate::model::lemma_find_chunk_unique(m, p, c);
    let t = p - m.cum_through(c - 1);
    if c == ci {
        assert(t == seq_total(q.take(j)));
        assert forall|x: int| j < x <= q.len() implies seq_total(q.take(x)) > t by {
            lemma_local_strict(m, ci, j, x);
        }
        crate::model::lemma_largest_prefix_le_unique(q, t, j);
        assert(m.locate_index(p) == if ci * k + j <= m.total_items - 1 {
            ci * k + j
        } else {
            m.total_items - 1
        });
    } else {
        // The boundary case: the previous chunk is located and the
        // search runs off its end, landing on item `i` exactly.
        let qp = m.chunk_sizes(c);
        lemma_chunk_bounds(m.total_items, m.chunk_size, c);
        crate::model::lemma_chunk_slice(m, c);
        assert(t == m.cum_through(c) - m.cum_through(c - 1));
        crate::model::lemma_seq_total_take_full(qp);
        assert(seq_total(qp.take(qp.len() as int)) == t);
        assert forall|x: int| qp.len() < x <= qp.len() implies seq_total(qp.take(x))
            > t by {}
        crate::model::lemma_largest_prefix_le_unique(qp, t, qp.len() as int);
        assert(c * k + qp.len() == i) by {
            assert(qp.len() == m.items_in_chunk(c));
            assert((c + 1) * k == c * k + k) by (nonlinear_arith);
            assert(m.items_in_chunk(c) == k) by {
                if c < m.num_chunks() - 1 {
                } else {
                    assert(c * k + m.items_in_chunk(c) == m.total_items);
                    assert(i == ci * k);
                }
            }
        }
    }
}

/// The local prefix at a positive local index is positive, when every
/// item is at least one unit.
proof fn lemma_local_prefix_positive(m: ListModel, ci: int, j: int)
    requires
        m.wf(),
        forall|t: int| 0 <= t < m.total_items ==> m.eff_sizes()[t] >= 1,
        0 <= ci < m.num_chunks(),
        0 <= j <= m.items_in_chunk(ci),
    ensures
        seq_total(m.chunk_sizes(ci).take(j)) >= j,
    decreases j,
{
    lemma_chunk_bounds(m.total_items, m.chunk_size, ci);
    crate::model::lemma_chunk_slice(m, ci);
    if j > 0 {
        lemma_local_prefix_positive(m, ci, j - 1);
        lemma_seq_total_take_succ(m.chunk_sizes(ci), j - 1);
        let k = m.chunk_size as int;
        assert(m.chunk_sizes(ci)[j - 1] == m.eff_sizes()[ci * k + j - 1]);
    }
}

/// Every cumulative sum strictly before the located chunk falls short
/// of the position, when every item is at least one unit.
proof fn lemma_strict_cum(m: ListModel, t: int, ci: int, j: int)
    requires
        m.wf(),
        forall|q: int| 0 <= q < m.total_items ==> m.eff_sizes()[q] >= 1,
        0 <= ci < m.num_chunks(),
        0 <= j < m.items_in_chunk(ci),
        0 <= t <= ci - 1,
        j == 0 ==> t < ci - 1,
    ensures
        m.cum_through(t) < m.position(ci * m.chunk_size + j),
{
    let k = m.chunk_size as int;
    let i = ci * k + j;
    crate::model::lemma_position_chunk_floor(m, t + 1);
    lemma_chunk_bounds(m.total_items, m.chunk_size, t + 1);
    lemma_chunk_bounds(m.total_items, m.chunk_size, ci);
    assert(m.chunk_floor(t + 1) == (t + 1) * k);
    assert((t + 1) * k < i) by {
        assert((t + 1) * k <= ci * k) by (nonlinear_arith)
            requires
                t + 1 <= ci,
                k >= 1,
        ;
        if j == 0 {
            assert((t + 1) * k <= (ci - 1) * k) by (nonlinear_arith)
                requires
                    t + 1 <= ci - 1,
                    k >= 1,
            ;
            assert((ci - 1) * k < ci * k) by (nonlinear_arith)
                requires
                    k >= 1,
            ;
        }
    }
    lemma_position_strictly_monotone(m, (t + 1) * k, i);
}

/// Positions are strictly increasing, when every item is at least one
/// unit wide.
proof fn lemma_position_strictly_monotone(m: ListModel, a: int, b: int)
    requires
        m.wf(),
        forall|q: int| 0 <= q < m.total_items ==> m.eff_sizes()[q] >= 1,
        0 <= a < b <= m.total_items,
    ensures
        m.position(a) < m.position(b),
    decreases b - a,
{
    lemma_seq_total_take_succ(m.eff_sizes(), a);
    if a + 1 < b {
        lemma_position_strictly_monotone(m, a + 1, b);
    }
}

/// The strict side of the local search: cuts past the located one
/// exceed the intra-chunk position, when every item is at least one
/// unit.
proof fn lemma_local_strict(m: ListModel, ci: int, j: int, x: int)
    requires
        m.wf(),
        forall|q: int| 0 <= q < m.total_items ==> m.eff_sizes()[q] >= 1,
        0 <= ci < m.num_chunks(),
        0 <= j < m.items_in_chunk(ci),
        j < x <= m.items_in_chunk(ci),
    ensures
        seq_total(m.chunk_sizes(ci).take(x)) > seq_total(m.chunk_sizes(ci).take(j)),
    decreases x - j,
{
    lemma_chunk_bounds(m.total_items, m.chunk_size, ci);
    crate::model::lemma_chunk_slice(m, ci);
    lemma_seq_total_take_succ(m.chunk_sizes(ci), x - 1);
    let k = m.chunk_size as int;
    assert(m.chunk_sizes(ci)[x - 1] == m.eff_sizes()[ci * k + x - 1]);
    if j < x - 1 {
        lemma_local_strict(m, ci, j, x - 1);
    }
}

/// Locating is monotone: a position at or before another never answers
/// a later item.
pub proof fn law_locate_monotone(m: ListModel, p1: int, p2: int)
    requires
        m.wf(),
        m.total_items >= 1,
        0 <= p1 <= p2 <= m.total(),
    ensures
        m.locate_index(p1) <= m.locate_index(p2),
{
    let k = m.chunk_size as int;
    crate::model::lemma_find_chunk(m, p1);
    crate::model::lemma_find_chunk(m, p2);
    let c1 = m.find_chunk(p1);
    let c2 = m.find_chunk(p2);
    assert(c1 <= c2) by {
        if c2 < c1 {
            assert(m.cum_through(c2) < p1);
            assert(m.cum_through(c2) >= p2);
        }
    }
    let t1 = m.position_in_chunk(p1);
    let t2 = m.position_in_chunk(p2);
    let q1 = m.chunk_sizes(c1);
    let q2 = m.chunk_sizes(c2);
    crate::model::lemma_largest_prefix_le(q1, t1);
    crate::model::lemma_largest_prefix_le(q2, t2);
    let j1 = crate::model::largest_prefix_le(q1, t1);
    let j2 = crate::model::largest_prefix_le(q2, t2);
    lemma_chunk_bounds(m.total_items, m.chunk_size, c1);
    lemma_chunk_bounds(m.total_items, m.chunk_size, c2);
    crate::model::lemma_chunk_slice(m, c1);
    crate::model::lemma_chunk_slice(m, c2);
    if c1 == c2 {
        assert(j1 <= j2) by {
            if j2 < j1 {
                assert(seq_total(q1.take(j1)) > t2);
                assert(seq_total(q1.take(j1)) <= t1);
            }
        }
        assert(c1 * k + j1 <= c2 * k + j2);
    } else {
        assert(c1 * k + j1 <= (c1 + 1) * k) by {
            assert(j1 <= q1.len());
            assert((c1 + 1) * k == c1 * k + k) by (nonlinear_arith);
        }
        assert((c1 + 1) * k <= c2 * k) by (nonlinear_arith)
            requires
                c1 + 1 <= c2,
                k >= 1,
        ;
        assert(c2 * k <= c2 * k + j2);
    }
}

/// Applying a batch of fitting updates leaves the same state as
/// applying the same updates one at a time in the same order.
pub open spec fn applied_one_at_a_time(m: ListModel, ups: Seq<(u64, u64)>) -> ListModel
    decreases ups.len(),
{
    if ups.len() == 0 {
        m
    } else {
        applied_one_at_a_time(
            m.update_item_step(ups[0].0 as int, ups[0].1),
            ups.drop_first(),
        )
    }
}

/// Batching commutes with one-at-a-time application: when the batch
/// runs to completion, the state it leaves is exactly the state the
/// same updates leave when each is applied alone, in the same order.
pub proof fn law_batch_matches_sequential(m: ListModel, ups: Seq<(u64, u64)>)
    requires
        batch_apply(m, ups).1,
    ensures
        batch_apply(m, ups).0 == applied_one_at_a_time(m, ups),
    decreases ups.len(),
{
    if ups.len() > 0 {
        law_batch_matches_sequential(
            m.update_item_step(ups[0].0 as int, ups[0].1),
            ups.drop_first(),
        );
    }
}

/// The cache bound: a well-formed list never holds more materialized
/// chunks than the configured ceiling.
pub proof fn law_cache_bound(m: ListModel)
    requires
        m.wf(),
    ensures
        m.max_loaded_chunks matches Some(mx) ==> m.loaded_count() <= mx,
{
}

/// Writing back an item's own effective size is a no-op: every
/// effective size and the running total stay as they were.
///
/// This needs the chunk to be touchable without an eviction (the chunk
/// resident, or the cache under its ceiling) and the running total
/// under the threshold; an eviction during the write-back could revert
/// an unrelated chunk, and an over-threshold total refuses the write.
pub proof fn law_update_roundtrip(m: ListModel, i: int)
    requires
        m.wf(),
        0 <= i < m.total_items,
        !m.must_evict(i / (m.chunk_size as int)),
        m.total() <= MAX_TOTAL_SIZE,
    ensures
        m.update_item_step(i, m.eff_size(i)).eff_sizes() == m.eff_sizes(),
        m.update_item_step(i, m.eff_size(i)).total() == m.total(),
        m.update_fits(i, m.eff_size(i)),
{
    let v = m.eff_size(i);
    let c = i / (m.chunk_size as int);
    crate::model::lemma_index_in_chunk(m.total_items, m.chunk_size, i);
    crate::model::lemma_materialize_step(m, c);
    crate::model::lemma_seq_total_element_bound(m.eff_sizes(), i);
    lemma_total_is_position_end(m);
    assert(m.eff_sizes()[i] == v);
    lemma_update_item_step(m, i, v);
    assert(m.update_item_step(i, v).eff_sizes() =~= m.eff_sizes());
}

} // verus!
