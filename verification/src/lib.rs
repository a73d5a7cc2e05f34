//! Index engine for virtualized lists.
//!
//! Given a one-dimensional sequence of items, each with a measurable size
//! along one axis, the engine answers position queries (item index to
//! starting offset) and range queries (scroll offset and viewport extent to
//! the index range of items to present) in logarithmic time, while item
//! sizes are updated one at a time or in batches.
//!
//! Sizes, offsets and totals are integers: a size is a count of fixed
//! sub-pixel units chosen by the caller. All running totals are kept below
//! a safe threshold so that no addition in the engine can overflow.
//!
//! Storage is chunked: item sizes live in fixed-width chunks, each with its
//! intra-chunk prefix sums, and an inter-chunk cumulative-sum vector routes
//! global queries to the right chunk. Chunks are materialized lazily on
//! first touch and evicted under a configurable LRU or LFU policy with a
//! bounded number of resident chunks.

pub mod cache;
pub mod chunk;
pub mod config;
pub mod errors;
pub mod laws;
pub mod list;
pub mod model;

pub use cache::CacheEntry;
pub use config::{CachePolicy, Orientation, VirtualListConfig};
pub use errors::VirtualListError;
pub use list::{VirtualList, VisibleItem, VisibleRange};
pub use model::{MAX_ITEM_COUNT, MAX_TOTAL_SIZE};
