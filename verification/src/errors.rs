use vstd::prelude::*;

verus! {

/// The failure taxonomy of the engine. Every public operation that can
/// fail reports exactly one of these kinds; no error is recovered
/// internally.
#[derive(Clone, Copy, Debug, PartialEq, Eq, Structural)]
pub enum VirtualListError {
    /// An item index at or beyond the item count, or a chunk index at or
    /// beyond the chunk count.
    IndexOutOfBounds,
    /// A size argument larger than the engine can represent; also an
    /// out-of-range position handed to an intra-chunk query.
    InvalidSize,
    /// A viewport extent of zero.
    InvalidViewport,
    /// A configuration parameter that is zero where at least one is
    /// required.
    InvalidConfiguration,
    /// A query that needs at least one item, asked of an empty list.
    EmptyList,
    /// An operation whose result would push a running total beyond the
    /// safe threshold `MAX_TOTAL_SIZE`, or an item count beyond
    /// `MAX_ITEM_COUNT`.
    PrecisionLimitExceeded,
    /// A shape error at the boundary, such as batch arrays of different
    /// lengths.
    InvalidOperation,
}

impl VirtualListError {
    /// The stable tag under which this kind is reported across the host
    /// boundary.
    pub fn kind(&self) -> (r: &'static str)
        ensures
            self is IndexOutOfBounds ==> r@ == "IndexOutOfBounds"@,
            self is InvalidSize ==> r@ == "InvalidSize"@,
            self is InvalidViewport ==> r@ == "InvalidViewport"@,
            self is InvalidConfiguration ==> r@ == "InvalidConfiguration"@,
            self is EmptyList ==> r@ == "EmptyList"@,
            self is PrecisionLimitExceeded ==> r@ == "PrecisionLimitExceeded"@,
            self is InvalidOperation ==> r@ == "InvalidOperation"@,
    {
        match self {
            VirtualListError::IndexOutOfBounds => "IndexOutOfBounds",
            VirtualListError::InvalidSize => "InvalidSize",
            VirtualListError::InvalidViewport => "InvalidViewport",
            VirtualListError::InvalidConfiguration => "InvalidConfiguration",
            VirtualListError::EmptyList => "EmptyList",
            VirtualListError::PrecisionLimitExceeded => "PrecisionLimitExceeded",
            VirtualListError::InvalidOperation => "InvalidOperation",
        }
    }
}

} // verus!
