//! The interface to the page-mapping and physical-frame collaborators that
//! back the heap region.  The heap-initialization protocol consumes exactly
//! two capabilities from that layer: a page-mapping operation that
//! establishes one present-and-writable translation per call, and a
//! physical-frame source that yields one unused frame per call or signals
//! exhaustion.  The surrounding system implements these traits; the
//! protocol in [`crate::allocator`] is verified against every
//! implementation that honors them.

use vstd::prelude::*;

verus! {

/// Flags of one page-table entry.  Heap pages are always mapped present
/// and writable.
#[derive(Clone, Copy, PartialEq, Eq, Structural, Debug)]
pub struct PageFlags {
    pub present: bool,
    pub writable: bool,
}

/// The page-mapping capability: establishes one virtual-to-physical
/// translation for the page beginning at `page_start`, backed by `frame`,
/// with the given flags.  Returns false when the translation cannot be
/// established; pages already mapped stay mapped.
pub trait PageMapper {
    /// The translations established so far: each mapped page's start
    /// address, with the frame backing it and the flags it was mapped
    /// with.  An implementation the verifier checks overrides this with
    /// its own translation model; the default is an empty table.
    open spec fn mapped(&self) -> Map<usize, (u64, PageFlags)> {
        Map::empty()
    }

    /// Maps one page.  Success records exactly this translation; a
    /// refusal establishes nothing and forgets nothing.
    fn map_page(&mut self, page_start: usize, frame: u64, flags: PageFlags) -> (r: bool)
        ensures
            r ==> final(self).mapped() == old(self).mapped().insert(
                page_start,
                (frame, flags),
            ),
            !r ==> final(self).mapped() == old(self).mapped(),
    ;
}

/// The physical-frame source: yields one unused physical frame per call,
/// or `None` once exhausted.
pub trait FrameSource {
    fn allocate_frame(&mut self) -> Option<u64>;
}

} // verus!
