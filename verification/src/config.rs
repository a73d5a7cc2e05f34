use vstd::prelude::*;

verus! {

/// The axis a list runs along. Stored with the list and reported back to
/// the caller; the index itself has no axis-dependent logic.
#[derive(Clone, Copy, Debug, PartialEq, Eq, Structural)]
pub enum Orientation {
    Vertical,
    Horizontal,
}

/// The policy under which resident chunks are chosen for eviction.
#[derive(Clone, Copy, Debug, PartialEq, Eq, Structural)]
pub enum CachePolicy {
    /// Evict the least recently accessed chunk.
    Lru,
    /// Evict the chunk with the fewest recorded accesses; among equals,
    /// the one whose count grew least recently.
    Lfu,
}

/// Tuning knobs of a list. Counts are in items; `max_loaded_chunks` is in
/// chunks. Setters clamp to at least one where a zero would make the
/// engine degenerate, so a value built through this interface is always
/// valid.
#[derive(Clone, Copy, Debug)]
pub struct VirtualListConfig {
    pub buffer_size: u64,
    pub overscan_items: u64,
    pub update_batch_size: u64,
    pub max_loaded_chunks: Option<u64>,
    pub cache_eviction_policy: CachePolicy,
}

impl VirtualListConfig {
    /// All defaults: buffer 5, overscan 3, batch threshold 10, at most 100
    /// resident chunks, least-recently-used eviction.
    pub fn new() -> (r: Self)
        ensures
            r.buffer_size == 5u64,
            r.overscan_items == 3u64,
            r.update_batch_size == 10u64,
            r.max_loaded_chunks == Some(100u64),
            r.cache_eviction_policy == CachePolicy::Lru,
    {
        Self {
            buffer_size: 5,
            overscan_items: 3,
            update_batch_size: 10,
            max_loaded_chunks: Some(100),
            cache_eviction_policy: CachePolicy::Lru,
        }
    }

    /// Item count added on each side of a located viewport edge.
    pub fn buffer_size(&self) -> (r: u64)
        ensures
            r == self.buffer_size,
    {
        self.buffer_size
    }

    pub fn set_buffer_size(&mut self, size: u64)
        ensures
            final(self).buffer_size == if size >= 1 { size } else { 1u64 },
            final(self).overscan_items == old(self).overscan_items,
            final(self).update_batch_size == old(self).update_batch_size,
            final(self).max_loaded_chunks == old(self).max_loaded_chunks,
            final(self).cache_eviction_policy == old(self).cache_eviction_policy,
    {
        self.buffer_size = if size >= 1 { size } else { 1 };
    }

    /// Further item count added on each side, beyond the buffer.
    pub fn overscan_items(&self) -> (r: u64)
        ensures
            r == self.overscan_items,
    {
        self.overscan_items
    }

    pub fn set_overscan_items(&mut self, items: u64)
        ensures
            final(self).overscan_items == if items >= 1 { items } else { 1u64 },
            final(self).buffer_size == old(self).buffer_size,
            final(self).update_batch_size == old(self).update_batch_size,
            final(self).max_loaded_chunks == old(self).max_loaded_chunks,
            final(self).cache_eviction_policy == old(self).cache_eviction_policy,
    {
        self.overscan_items = if items >= 1 { items } else { 1 };
    }

    /// Queue length at which `queue_update` flushes the pending updates.
    pub fn update_batch_size(&self) -> (r: u64)
        ensures
            r == self.update_batch_size,
    {
        self.update_batch_size
    }

    pub fn set_update_batch_size(&mut self, size: u64)
        ensures
            final(self).update_batch_size == if size >= 1 { size } else { 1u64 },
            final(self).buffer_size == old(self).buffer_size,
            final(self).overscan_items == old(self).overscan_items,
            final(self).max_loaded_chunks == old(self).max_loaded_chunks,
            final(self).cache_eviction_policy == old(self).cache_eviction_policy,
    {
        self.update_batch_size = if size >= 1 { size } else { 1 };
    }

    /// Greatest number of simultaneously materialized chunks, or `None`
    /// for no ceiling.
    pub fn max_loaded_chunks(&self) -> (r: Option<u64>)
        ensures
            r == self.max_loaded_chunks,
    {
        self.max_loaded_chunks
    }

    pub fn set_max_loaded_chunks(&mut self, max: Option<u64>)
        ensures
            final(self).max_loaded_chunks == match max {
                Some(m) => if m >= 1 { Some(m) } else { Some(1u64) },
                None => None::<u64>,
            },
            final(self).buffer_size == old(self).buffer_size,
            final(self).overscan_items == old(self).overscan_items,
            final(self).update_batch_size == old(self).update_batch_size,
            final(self).cache_eviction_policy == old(self).cache_eviction_policy,
    {
        self.max_loaded_chunks = match max {
            Some(m) => if m >= 1 { Some(m) } else { Some(1) },
            None => None,
        };
    }

    /// The active eviction policy.
    pub fn cache_eviction_policy(&self) -> (r: CachePolicy)
        ensures
            r == self.cache_eviction_policy,
    {
        self.cache_eviction_policy
    }

    pub fn set_cache_eviction_policy(&mut self, policy: CachePolicy)
        ensures
            final(self).cache_eviction_policy == policy,
            final(self).buffer_size == old(self).buffer_size,
            final(self).overscan_items == old(self).overscan_items,
            final(self).update_batch_size == old(self).update_batch_size,
            final(self).max_loaded_chunks == old(self).max_loaded_chunks,
    {
        self.cache_eviction_policy = policy;
    }
}

} // verus!
