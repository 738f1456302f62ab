use vstd::prelude::*;

verus! {

/// Every failure the storage core reports to its immediate caller.
#[derive(Debug, Clone, Copy, PartialEq, Eq, Structural)]
pub enum QuarkError {
    /// A value does not fit the bit width of its metadata field.
    FieldOverflow,
    /// The slotted page has no room for the record; the caller may grow or flush.
    PageFull,
    /// A single record does not fit even after the page grew.
    OversizedRecord,
    /// The mini-page is at disk page size and must be flushed to the page store.
    MustMerge,
    /// An on-page offset or length is inconsistent with the page capacity.
    CorruptedMeta,
    /// The arena cannot hold the requested size even after evicting everything.
    OutOfSpace,
}

} // verus!
