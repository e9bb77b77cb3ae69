//! Intrusive free-list allocation: the heap's free space is a singly linked
//! list of free regions, searched first-fit.  List order is reverse
//! chronological free order (the most recently freed region is found first),
//! and adjacent free regions are deliberately never coalesced.
//!
//! In the running kernel each free region stores its own descriptor in place,
//! inside the free bytes themselves; here the list of descriptors is held
//! beside the region addresses, and the header size and alignment of the
//! in-place descriptor remain as the normalization constants that every
//! request is rounded to, so that any region this allocator ever creates
//! could host such a header.

use vstd::prelude::*;
use crate::allocator::{
    align_up, spec_align_up, lemma_align_up_properties, lemma_pow2_divides,
    lemma_divides_transitive, spec_is_power_of_two, ListNode, node_end, nodes_disjoint,
};
use vstd::arithmetic::div_mod::{lemma_add_mod_noop, lemma_mod_multiples_basic};

verus! {

/// Byte size of the in-place free-region header (a size word and a next
/// pointer) on the 64-bit kernel target: the least size any free region may
/// have.
pub const NODE_SIZE: usize = 16;

/// Alignment of the in-place free-region header: every free region's start
/// address is a multiple of this.
pub const NODE_ALIGN: usize = 8;

/// The least alignment every request is normalized to (the byte size of a
/// layout descriptor on the 64-bit kernel target).
pub const MIN_ALLOC_ALIGN: usize = 16;

/// Requested alignment raised to the normalization floor.
pub open spec fn norm_align(align: int) -> int {
    if align >= MIN_ALLOC_ALIGN {
        align
    } else {
        MIN_ALLOC_ALIGN as int
    }
}

/// Requested size padded to a multiple of the normalized alignment and
/// raised to at least the header size, so that the block handed out can
/// later be refreed as a valid region.
pub open spec fn norm_size(size: int, align: int) -> int {
    let padded = spec_align_up(size, norm_align(align));
    if padded >= NODE_SIZE {
        padded
    } else {
        NODE_SIZE as int
    }
}

/// A region that may stand on the free list: big enough for the in-place
/// header, aligned for it, and within the address space.
pub open spec fn valid_free_node(r: ListNode) -> bool {
    &&& r.size >= NODE_SIZE
    &&& r.start % NODE_ALIGN == 0
    &&& r.start + r.size <= usize::MAX
}

/// The aligned start of a request inside region `r`, together with the
/// leftover, make the region usable: the request fits, and the leftover is
/// either nothing or big enough to become a region of its own.
pub open spec fn region_fits(r: ListNode, size: int, align: int) -> bool {
    let start = spec_align_up(r.start as int, align);
    &&& start + size <= node_end(r)
    &&& (node_end(r) - (start + size) == 0 || node_end(r) - (start + size) >= NODE_SIZE)
}

/// Index of the first region in list order that can host the request, or -1
/// when none can.
pub open spec fn first_fit_index(regions: Seq<ListNode>, size: int, align: int) -> int
    decreases regions.len(),
{
    if regions.len() == 0 {
        -1
    } else if region_fits(regions[0], size, align) {
        0
    } else {
        let t = first_fit_index(regions.drop_first(), size, align);
        if t == -1 {
            -1
        } else {
            t + 1
        }
    }
}

/// What `first_fit_index` returns: -1 exactly when no region fits, else the
/// least index of a fitting region.
pub proof fn lemma_first_fit_index_spec(regions: Seq<ListNode>, size: int, align: int)
    ensures
        first_fit_index(regions, size, align) == -1 ==> forall|k: int|
            0 <= k < regions.len() ==> !region_fits(#[trigger] regions[k], size, align),
        first_fit_index(regions, size, align) != -1 ==> {
            let i = first_fit_index(regions, size, align);
            &&& 0 <= i < regions.len()
            &&& region_fits(regions[i], size, align)
            &&& forall|k: int| 0 <= k < i ==> !region_fits(#[trigger] regions[k], size, align)
        },
    decreases regions.len(),
{
    if regions.len() > 0 && !region_fits(regions[0], size, align) {
        lemma_first_fit_index_spec(regions.drop_first(), size, align);
        let t = first_fit_index(regions.drop_first(), size, align);
        if t == -1 {
            assert forall|k: int| 0 <= k < regions.len() implies !region_fits(
                #[trigger] regions[k],
                size,
                align,
            ) by {
                if k > 0 {
                    assert(regions[k] == regions.drop_first()[k - 1]);
                }
            }
        } else {
            assert forall|k: int| 0 <= k < t + 1 implies !region_fits(
                #[trigger] regions[k],
                size,
                align,
            ) by {
                if k > 0 {
                    assert(regions[k] == regions.drop_first()[k - 1]);
                }
            }
        }
    }
}

/// Mathematical state of a free-list allocator: the free regions in list
/// order, and the currently-live allocations (with their normalized sizes).
#[verifier::ext_equal]
pub struct FreeListModel {
    pub regions: Seq<ListNode>,
    pub live: Seq<ListNode>,
}

impl FreeListModel {
    /// Well-formedness: every free region could host a header, free regions
    /// and live blocks are pairwise disjoint, and live blocks keep their
    /// normalized shape so they can be refreed.
    pub open spec fn wf(self) -> bool {
        &&& forall|i: int| 0 <= i < self.regions.len() ==> valid_free_node(#[trigger] self.regions[i])
        &&& forall|i: int, j: int|
            0 <= i < self.regions.len() && 0 <= j < self.regions.len() && i != j ==> nodes_disjoint(
                #[trigger] self.regions[i],
                #[trigger] self.regions[j],
            )
        &&& forall|i: int| 0 <= i < self.live.len() ==> valid_free_node(#[trigger] self.live[i])
        &&& forall|i: int, j: int|
            0 <= i < self.live.len() && 0 <= j < self.live.len() && i != j ==> nodes_disjoint(
                #[trigger] self.live[i],
                #[trigger] self.live[j],
            )
        &&& forall|i: int, j: int|
            0 <= i < self.regions.len() && 0 <= j < self.live.len() ==> nodes_disjoint(
                #[trigger] self.regions[i],
                #[trigger] self.live[j],
            )
    }
}

/// An allocation succeeds exactly when its normalized size is representable
/// and some free region can host it.
pub open spec fn fl_can_allocate(m: FreeListModel, size: int, align: int) -> bool {
    &&& norm_size(size, align) <= usize::MAX
    &&& first_fit_index(m.regions, norm_size(size, align), norm_align(align)) >= 0
}

/// Address of a successful allocation: the aligned start of the first
/// fitting region.
pub open spec fn fl_allocate_result(m: FreeListModel, size: int, align: int) -> int {
    let i = first_fit_index(m.regions, norm_size(size, align), norm_align(align));
    spec_align_up(m.regions[i].start as int, norm_align(align))
}

/// State after a successful allocation: the first fitting region leaves the
/// list, its leftover (if any) is pushed back at the head, and the block
/// handed out joins the live set.
pub open spec fn fl_after_allocate(m: FreeListModel, size: int, align: int) -> FreeListModel {
    let ns = norm_size(size, align);
    let na = norm_align(align);
    let i = first_fit_index(m.regions, ns, na);
    let r = m.regions[i];
    let start = spec_align_up(r.start as int, na);
    let end = start + ns;
    let excess = node_end(r) - end;
    let removed = m.regions.remove(i);
    FreeListModel {
        regions: if excess > 0 {
            seq![ListNode { start: end as usize, size: excess as usize }] + removed
        } else {
            removed
        },
        live: m.live.push(ListNode { start: start as usize, size: ns as usize }),
    }
}

/// State after freeing the live block at index `j`: it becomes the new head
/// of the free list, uncoalesced.
pub open spec fn fl_after_deallocate(m: FreeListModel, j: int) -> FreeListModel {
    FreeListModel {
        regions: seq![m.live[j]] + m.regions,
        live: m.live.remove(j),
    }
}

/// General-purpose first-fit strategy over explicit free regions; used
/// standalone or as the fallback of the segregated fixed-size-block
/// strategy.
pub struct LinkedListAllocator {
    regions: Vec<ListNode>,
    live: Ghost<Seq<ListNode>>,
}

impl View for LinkedListAllocator {
    type V = FreeListModel;

    closed spec fn view(&self) -> FreeListModel {
        FreeListModel { regions: self.regions@, live: self.live@ }
    }
}

impl LinkedListAllocator {
    /// An allocator with an empty free list: every allocation fails until a
    /// region is handed to it.
    pub fn new() -> (r: LinkedListAllocator)
        ensures
            r@.wf(),
            r@.regions == Seq::<ListNode>::empty(),
            r@.live == Seq::<ListNode>::empty(),
    {
        LinkedListAllocator { regions: Vec::new(), live: Ghost(Seq::empty()) }
    }

    /// Pushes the free region `[addr, addr + size)` onto the head of the
    /// free list.  The region must be able to host a header and must not
    /// touch any listed region or live block.
    pub fn add_free_region(&mut self, addr: usize, size: usize)
        requires
            old(self)@.wf(),
            addr % NODE_ALIGN == 0,
            size >= NODE_SIZE,
            addr + size <= usize::MAX,
            forall|i: int|
                0 <= i < old(self)@.regions.len() ==> nodes_disjoint(
                    ListNode { start: addr, size },
                    #[trigger] old(self)@.regions[i],
                ),
            forall|i: int|
                0 <= i < old(self)@.live.len() ==> nodes_disjoint(
                    ListNode { start: addr, size },
                    #[trigger] old(self)@.live[i],
                ),
        ensures
            final(self)@.wf(),
            final(self)@.regions =~= seq![ListNode { start: addr, size }] + old(self)@.regions,
            final(self)@.live == old(self)@.live,
    {
        self.regions.insert(0, ListNode::new(addr, size));
        proof {
            let node = ListNode { start: addr, size };
            let m0 = old(self)@;
            let m1 = self@;
            assert(m1.regions =~= seq![node] + m0.regions);
            assert(m1.live == m0.live);
            assert forall|a: int| 0 <= a < m1.regions.len() implies valid_free_node(
                #[trigger] m1.regions[a],
            ) by {
                if a > 0 {
                    assert(m1.regions[a] == m0.regions[a - 1]);
                    assert(valid_free_node(m0.regions[a - 1]));
                }
            }
            assert forall|a: int, b: int|
                0 <= a < m1.regions.len() && 0 <= b < m1.regions.len() && a
                    != b implies nodes_disjoint(
                #[trigger] m1.regions[a],
                #[trigger] m1.regions[b],
            ) by {
                if a > 0 && b > 0 {
                    assert(m1.regions[a] == m0.regions[a - 1]);
                    assert(m1.regions[b] == m0.regions[b - 1]);
                    assert(nodes_disjoint(m0.regions[a - 1], m0.regions[b - 1]));
                } else if a == 0 {
                    assert(m1.regions[b] == m0.regions[b - 1]);
                    assert(nodes_disjoint(node, m0.regions[b - 1]));
                } else {
                    assert(m1.regions[a] == m0.regions[a - 1]);
                    assert(nodes_disjoint(node, m0.regions[a - 1]));
                }
            }
            assert forall|a: int, b: int|
                0 <= a < m1.regions.len() && 0 <= b < m1.live.len() implies nodes_disjoint(
                #[trigger] m1.regions[a],
                #[trigger] m1.live[b],
            ) by {
                if a > 0 {
                    assert(m1.regions[a] == m0.regions[a - 1]);
                    assert(nodes_disjoint(m0.regions[a - 1], m0.live[b]));
                } else {
                    assert(nodes_disjoint(node, m0.live[b]));
                }
            }
        }
    }

    /// Hands the heap region `[heap_start, heap_start + heap_size)` to the
    /// allocator as its initial single free region.  To be called exactly
    /// once, before any allocation: the allocator must still be empty.
    pub fn init(&mut self, heap_start: usize, heap_size: usize)
        requires
            old(self)@.regions.len() == 0,
            old(self)@.live.len() == 0,
            heap_start % NODE_ALIGN == 0,
            heap_size >= NODE_SIZE,
            heap_start + heap_size <= usize::MAX,
        ensures
            final(self)@.wf(),
            final(self)@.regions =~= seq![ListNode { start: heap_start, size: heap_size }],
            final(self)@.live == old(self)@.live,
    {
        self.add_free_region(heap_start, heap_size);
        proof {
            assert(final(self)@.regions =~= seq![ListNode { start: heap_start, size: heap_size }]
                + old(self)@.regions);
        }
    }

    /// Computes the aligned start a request would get inside `region`, and
    /// whether the region can host it: the request must fit, and the
    /// leftover must be nothing or room for another header.
    pub fn alloc_from_region(region: &ListNode, size: usize, align: usize) -> (r: Result<
        usize,
        (),
    >)
        requires
            valid_free_node(*region),
            align >= 1,
        ensures
            r is Ok <==> region_fits(*region, size as int, align as int),
            r is Ok ==> {
                &&& r->Ok_0 == spec_align_up(region.start as int, align as int)
                &&& region.start <= r->Ok_0
                &&& r->Ok_0 + size <= node_end(*region)
                &&& r->Ok_0 % align == 0
            },
    {
        proof {
            lemma_align_up_properties(region.start as int, align as int);
        }
        let rem = region.start % align;
        let start: usize = if rem == 0 {
            region.start
        } else {
            if region.start - rem > usize::MAX - align {
                // The aligned start does not fit in an address, so it lies
                // beyond the region's end.
                return Err(());
            }
            region.start - rem + align
        };
        let region_end = region.start + region.size;
        if start > region_end || size > region_end - start {
            return Err(());
        }
        let excess = region_end - (start + size);
        if excess > 0 && excess < NODE_SIZE {
            return Err(());
        }
        Ok(start)
    }

    /// Scans the free list head-to-tail for the first region that can host
    /// the request, unlinks it, and returns its end address together with
    /// the aligned allocation start; fails exactly when no region fits.
    pub fn find_region(&mut self, size: usize, align: usize) -> (r: Option<(usize, usize)>)
        requires
            old(self)@.wf(),
            align >= 1,
        ensures
            final(self)@.wf(),
            r is Some <==> first_fit_index(old(self)@.regions, size as int, align as int) >= 0,
            r is None ==> final(self)@ == old(self)@,
            r is Some ==> {
                let i = first_fit_index(old(self)@.regions, size as int, align as int);
                let reg = old(self)@.regions[i];
                &&& (r->0).0 == node_end(reg)
                &&& (r->0).1 == spec_align_up(reg.start as int, align as int)
                &&& region_fits(reg, size as int, align as int)
                &&& reg.start <= (r->0).1
                &&& (r->0).1 + size <= node_end(reg)
                &&& (r->0).1 % align == 0
                &&& final(self)@.regions =~= old(self)@.regions.remove(i)
                &&& final(self)@.live == old(self)@.live
            },
    {
        let ghost m0 = self@;
        let mut idx: usize = 0;
        while idx < self.regions.len()
            invariant
                self@ == m0,
                m0 == old(self)@,
                m0.wf(),
                align >= 1,
                idx <= m0.regions.len(),
                forall|k: int| 0 <= k < idx ==> !region_fits(#[trigger] m0.regions[k], size as int, align as int),
            decreases m0.regions.len() - idx,
        {
            let region = self.regions[idx];
            match Self::alloc_from_region(&region, size, align) {
                Ok(start) => {
                    proof {
                        assert(region_fits(m0.regions[idx as int], size as int, align as int));
                        lemma_first_fit_index_spec(m0.regions, size as int, align as int);
                        if first_fit_index(m0.regions, size as int, align as int) != idx {
                            // first_fit_index is the least fitting index and
                            // idx fits while everything below does not.
                            let i = first_fit_index(m0.regions, size as int, align as int);
                            if i == -1 {
                                assert(!region_fits(m0.regions[idx as int], size as int, align as int));
                            } else if i < idx {
                                assert(!region_fits(m0.regions[i], size as int, align as int));
                            } else {
                                assert(!region_fits(m0.regions[idx as int], size as int, align as int));
                            }
                        }
                    }
                    proof {
                        assert(first_fit_index(m0.regions, size as int, align as int) == idx);
                    }
                    let region_end = region.start + region.size;
                    self.regions.remove(idx);
                    proof {
                        lemma_wf_regions_remove(m0, idx as int);
                        assert(self@.regions =~= m0.regions.remove(idx as int));
                        assert(self@.wf());
                    }
                    return Some((region_end, start));
                },
                Err(()) => {
                    idx = idx + 1;
                },
            }
        }
        proof {
            lemma_first_fit_index_spec(m0.regions, size as int, align as int);
            if first_fit_index(m0.regions, size as int, align as int) >= 0 {
                let i = first_fit_index(m0.regions, size as int, align as int);
                assert(!region_fits(m0.regions[i], size as int, align as int));
            }
        }
        None
    }

    /// Normalizes a request: alignment raised to the layout floor, size
    /// padded to a multiple of that alignment and to at least the header
    /// size.  Fails exactly when the padded size does not fit in an address.
    pub fn size_align(size: usize, align: usize) -> (r: Option<(usize, usize)>)
        requires
            align >= 1,
        ensures
            r is Some <==> norm_size(size as int, align as int) <= usize::MAX,
            r is Some ==> (r->0).0 == norm_size(size as int, align as int) && (r->0).1 == norm_align(
                align as int,
            ),
    {
        let na: usize = if align < MIN_ALLOC_ALIGN {
            MIN_ALLOC_ALIGN
        } else {
            align
        };
        proof {
            lemma_align_up_properties(size as int, na as int);
        }
        let rem = size % na;
        let padded: usize = if rem == 0 {
            size
        } else {
            if size - rem > usize::MAX - na {
                // The padded size does not fit in an address.
                return None;
            }
            size - rem + na
        };
        let ns: usize = if padded < NODE_SIZE {
            NODE_SIZE
        } else {
            padded
        };
        Some((ns, na))
    }

    /// Allocates a block for a request of `size` bytes aligned to `align`
    /// (a power of two).  The request is normalized, then served first-fit
    /// from the free list; the leftover of the chosen region, if any,
    /// becomes the new head of the list.  Succeeds if and only if some free
    /// region can host the normalized request; the address returned is the
    /// aligned start of the first such region, respects the requested
    /// alignment, and overlaps no other currently-live allocation.
    pub fn allocate(&mut self, size: usize, align: usize) -> (r: Option<usize>)
        requires
            old(self)@.wf(),
            spec_is_power_of_two(align as int),
        ensures
            final(self)@.wf(),
            r is Some <==> fl_can_allocate(old(self)@, size as int, align as int),
            r is None ==> final(self)@ == old(self)@,
            r is Some ==> {
                let ns = norm_size(size as int, align as int);
                let i = first_fit_index(old(self)@.regions, ns, norm_align(align as int));
                &&& r->0 == fl_allocate_result(old(self)@, size as int, align as int)
                &&& final(self)@ =~= fl_after_allocate(old(self)@, size as int, align as int)
                &&& r->0 % align == 0
                &&& old(self)@.regions[i].start <= r->0
                &&& r->0 + ns <= node_end(old(self)@.regions[i])
                &&& size <= ns
                &&& forall|j: int|
                    0 <= j < old(self)@.live.len() ==> nodes_disjoint(
                        ListNode { start: r->0, size: ns as usize },
                        #[trigger] old(self)@.live[j],
                    )
            },
    {
        proof {
            crate::allocator::lemma_pow2_pos_int(align as int);
        }
        let (ns, na) = match Self::size_align(size, align) {
            Some(p) => p,
            None => {
                return None;
            },
        };
        proof {
            lemma_norm_align_divides(align as int);
            lemma_align_up_properties(size as int, na as int);
        }
        let ghost m0 = self@;
        match self.find_region(ns, na) {
            Some((region_end, start)) => {
                let ghost i = first_fit_index(m0.regions, ns as int, na as int);
                let ghost reg = m0.regions[i];
                let end = start + ns;
                let excess = region_end - end;
                proof {
                    lemma_first_fit_index_spec(m0.regions, ns as int, na as int);
                    // The handed-out block lies inside the chosen region, so
                    // it is disjoint from every other region and live block.
                    lemma_block_within_region(m0, i, start as int, ns as int);
                    // The leftover also lies inside the chosen region.
                    if excess > 0 {
                        lemma_block_within_region(m0, i, end as int, excess as int);
                    }
                    // The start respects the requested alignment, which
                    // divides the normalized one.
                    lemma_divides_transitive(start as int, na as int, align as int);
                    // End of the block is header-aligned.
                    lemma_divides_transitive(start as int, na as int, NODE_ALIGN as int);
                    lemma_norm_size_align(size as int, align as int);
                    lemma_add_mod_noop(start as int, ns as int, NODE_ALIGN as int);
                    // The leftover is disjoint from what remains on the list
                    // and from every live block.
                    if excess > 0 {
                        let leftover = ListNode { start: end, size: excess };
                        assert forall|k: int|
                            0 <= k < self@.regions.len() implies nodes_disjoint(
                            leftover,
                            #[trigger] self@.regions[k],
                        ) by {
                            if k < i {
                                assert(self@.regions[k] == m0.regions[k]);
                            } else {
                                assert(self@.regions[k] == m0.regions[k + 1]);
                            }
                        }
                    }
                }
                if excess > 0 {
                    self.add_free_region(end, excess);
                }
                proof {
                    self.live@ = self.live@.push(ListNode { start, size: ns });
                    assert(self@ =~= fl_after_allocate(m0, size as int, align as int));
                    lemma_fl_allocate_preserves_wf(m0, size as int, align as int);
                }
                Some(start)
            },
            None => None,
        }
    }

    /// Returns the block at `ptr` that was handed out for a request of
    /// `size` bytes aligned to `align` — the same pair given to `allocate`
    /// — to the free list: it becomes the new head, and is never merged
    /// with its neighbours.
    pub fn deallocate(&mut self, ptr: usize, size: usize, align: usize)
        requires
            old(self)@.wf(),
            align >= 1,
            norm_size(size as int, align as int) <= usize::MAX,
            old(self)@.live.contains(
                ListNode { start: ptr, size: norm_size(size as int, align as int) as usize },
            ),
        ensures
            final(self)@.wf(),
            ({
                let node = ListNode {
                    start: ptr,
                    size: norm_size(size as int, align as int) as usize,
                };
                let j = old(self)@.live.index_of(node);
                &&& 0 <= j < old(self)@.live.len()
                &&& old(self)@.live[j] == node
                &&& final(self)@ =~= fl_after_deallocate(old(self)@, j)
            }),
    {
        let (ns, _na) = match Self::size_align(size, align) {
            Some(p) => p,
            None => {
                proof {
                    assert(false);
                }
                (0, 0)
            },
        };
        let ghost node = ListNode { start: ptr, size: ns };
        let ghost j = self.live@.index_of(node);
        proof {
            assert(self.live@.contains(node));
            assert(0 <= j < self.live@.len() && self.live@[j] == node);
            lemma_wf_live_remove(self@, j);
            self.live@ = self.live@.remove(j);
            assert forall|i: int| 0 <= i < self.live@.len() implies nodes_disjoint(
                node,
                #[trigger] self.live@[i],
            ) by {
                if i < j {
                    assert(self.live@[i] == old(self)@.live[i]);
                } else {
                    assert(self.live@[i] == old(self)@.live[i + 1]);
                }
            }
        }
        self.add_free_region(ptr, ns);
    }
}

/// The normalized alignment is a power-of-two multiple of the requested one.
proof fn lemma_norm_align_divides(align: int)
    requires
        spec_is_power_of_two(align),
    ensures
        norm_align(align) % align == 0,
        norm_align(align) % (NODE_ALIGN as int) == 0,
        spec_is_power_of_two(norm_align(align)),
{
    crate::allocator::lemma_is_pow2_16();
    crate::allocator::lemma_is_pow2_8();
    if align >= MIN_ALLOC_ALIGN {
        lemma_mod_multiples_basic(1, align);
        lemma_pow2_divides(NODE_ALIGN as int, align);
    } else {
        lemma_pow2_divides(align, MIN_ALLOC_ALIGN as int);
    }
}

/// The normalized size is a multiple of the header alignment.
proof fn lemma_norm_size_align(size: int, align: int)
    requires
        spec_is_power_of_two(align),
        size >= 0,
    ensures
        norm_size(size, align) % (NODE_ALIGN as int) == 0,
        norm_size(size, align) >= NODE_SIZE,
{
    let na = norm_align(align);
    lemma_norm_align_divides(align);
    lemma_align_up_properties(size, na);
    let padded = spec_align_up(size, na);
    if padded >= NODE_SIZE {
        lemma_divides_transitive(padded, na, NODE_ALIGN as int);
    }
}

/// Unlinking a free region keeps the free-list state well-formed.
proof fn lemma_wf_regions_remove(m: FreeListModel, i: int)
    requires
        m.wf(),
        0 <= i < m.regions.len(),
    ensures
        (FreeListModel { regions: m.regions.remove(i), live: m.live }).wf(),
{
    let m1 = FreeListModel { regions: m.regions.remove(i), live: m.live };
    assert forall|a: int| 0 <= a < m1.regions.len() implies valid_free_node(
        #[trigger] m1.regions[a],
    ) && (forall|b: int|
        0 <= b < m1.live.len() ==> nodes_disjoint(m1.regions[a], #[trigger] m1.live[b])) by {
        let a0 = if a < i {
            a
        } else {
            a + 1
        };
        assert(m1.regions[a] == m.regions[a0]);
        assert forall|b: int| 0 <= b < m1.live.len() implies nodes_disjoint(
            m1.regions[a],
            #[trigger] m1.live[b],
        ) by {
            assert(nodes_disjoint(m.regions[a0], m.live[b]));
        }
    }
    assert forall|a: int, b: int|
        0 <= a < m1.regions.len() && 0 <= b < m1.regions.len() && a != b implies nodes_disjoint(
        #[trigger] m1.regions[a],
        #[trigger] m1.regions[b],
    ) by {
        let a0 = if a < i {
            a
        } else {
            a + 1
        };
        let b0 = if b < i {
            b
        } else {
            b + 1
        };
        assert(m1.regions[a] == m.regions[a0] && m1.regions[b] == m.regions[b0]);
        assert(nodes_disjoint(m.regions[a0], m.regions[b0]));
    }
}

/// Dropping a live block keeps the free-list state well-formed.
proof fn lemma_wf_live_remove(m: FreeListModel, j: int)
    requires
        m.wf(),
        0 <= j < m.live.len(),
    ensures
        (FreeListModel { regions: m.regions, live: m.live.remove(j) }).wf(),
{
    let m1 = FreeListModel { regions: m.regions, live: m.live.remove(j) };
    assert forall|a: int| 0 <= a < m1.live.len() implies valid_free_node(
        #[trigger] m1.live[a],
    ) && (forall|k: int|
        0 <= k < m1.regions.len() ==> nodes_disjoint(#[trigger] m1.regions[k], m1.live[a])) by {
        let a0 = if a < j {
            a
        } else {
            a + 1
        };
        assert(m1.live[a] == m.live[a0]);
    }
    assert forall|a: int, b: int|
        0 <= a < m1.live.len() && 0 <= b < m1.live.len() && a != b implies nodes_disjoint(
        #[trigger] m1.live[a],
        #[trigger] m1.live[b],
    ) by {
        let a0 = if a < j {
            a
        } else {
            a + 1
        };
        let b0 = if b < j {
            b
        } else {
            b + 1
        };
        assert(m1.live[a] == m.live[a0] && m1.live[b] == m.live[b0]);
        assert(nodes_disjoint(m.live[a0], m.live[b0]));
    }
}

/// A block contained in one region of a well-formed free list is disjoint
/// from every other region and from every live block.
pub(crate) proof fn lemma_block_within_region(m: FreeListModel, i: int, start: int, size: int)
    requires
        m.wf(),
        0 <= i < m.regions.len(),
        m.regions[i].start <= start,
        start + size <= node_end(m.regions[i]),
        start <= usize::MAX,
        size >= 0,
    ensures
        forall|k: int|
            0 <= k < m.regions.len() && k != i ==> nodes_disjoint(
                ListNode { start: start as usize, size: size as usize },
                #[trigger] m.regions[k],
            ),
        forall|j: int|
            0 <= j < m.live.len() ==> nodes_disjoint(
                ListNode { start: start as usize, size: size as usize },
                #[trigger] m.live[j],
            ),
{
    let b = ListNode { start: start as usize, size: size as usize };
    assert forall|k: int| 0 <= k < m.regions.len() && k != i implies nodes_disjoint(
        b,
        #[trigger] m.regions[k],
    ) by {
        assert(nodes_disjoint(m.regions[i], m.regions[k]));
    }
    assert forall|j: int| 0 <= j < m.live.len() implies nodes_disjoint(
        b,
        #[trigger] m.live[j],
    ) by {
        assert(nodes_disjoint(m.regions[i], m.live[j]));
    }
}

/// A successful allocation preserves well-formedness.
pub proof fn lemma_fl_allocate_preserves_wf(m: FreeListModel, size: int, align: int)
    requires
        m.wf(),
        spec_is_power_of_two(align),
        size >= 0,
        fl_can_allocate(m, size, align),
    ensures
        fl_after_allocate(m, size, align).wf(),
{
    let ns = norm_size(size, align);
    let na = norm_align(align);
    let i = first_fit_index(m.regions, ns, na);
    lemma_first_fit_index_spec(m.regions, ns, na);
    let r = m.regions[i];
    let start = spec_align_up(r.start as int, na);
    lemma_align_up_properties(r.start as int, na);
    let end = start + ns;
    let excess = node_end(r) - end;
    let removed = m.regions.remove(i);
    let m1 = fl_after_allocate(m, size, align);
    let newblock = ListNode { start: start as usize, size: ns as usize };

    lemma_norm_align_divides(align);
    lemma_norm_size_align(size, align);
    lemma_divides_transitive(start, na, NODE_ALIGN as int);
    lemma_add_mod_noop(start, ns, NODE_ALIGN as int);
    lemma_block_within_region(m, i, start, ns);
    if excess > 0 {
        lemma_block_within_region(m, i, end, excess);
    }

    // Every entry of the shortened list is one of the old regions other
    // than i: removed[k] == m.regions[k] below i, == m.regions[k + 1] from i on.
    assert forall|k: int| 0 <= k < removed.len() implies valid_free_node(
        #[trigger] removed[k],
    ) && nodes_disjoint(removed[k], m.regions[i]) && (forall|b: int|
        0 <= b < m.live.len() ==> nodes_disjoint(removed[k], #[trigger] m.live[b])) by {
        let k0 = if k < i {
            k
        } else {
            k + 1
        };
        assert(removed[k] == m.regions[k0]);
        assert(nodes_disjoint(m.regions[k0], m.regions[i]));
        assert forall|b: int| 0 <= b < m.live.len() implies nodes_disjoint(
            removed[k],
            #[trigger] m.live[b],
        ) by {
            assert(nodes_disjoint(m.regions[k0], m.live[b]));
        }
    }
    assert forall|k: int, l: int|
        0 <= k < removed.len() && 0 <= l < removed.len() && k != l implies nodes_disjoint(
        #[trigger] removed[k],
        #[trigger] removed[l],
    ) by {
        let k0 = if k < i {
            k
        } else {
            k + 1
        };
        let l0 = if l < i {
            l
        } else {
            l + 1
        };
        assert(removed[k] == m.regions[k0] && removed[l] == m.regions[l0]);
        assert(nodes_disjoint(m.regions[k0], m.regions[l0]));
    }

    assert(m1.live == m.live.push(newblock));
    assert forall|a: int, b: int|
        0 <= a < m1.live.len() && 0 <= b < m1.live.len() && a != b implies nodes_disjoint(
        #[trigger] m1.live[a],
        #[trigger] m1.live[b],
    ) by {
        if a < m.live.len() && b < m.live.len() {
            assert(nodes_disjoint(m.live[a], m.live[b]));
        } else if a < m.live.len() {
            assert(m1.live[b] == newblock);
            assert(nodes_disjoint(newblock, m.live[a]));
        } else {
            assert(m1.live[a] == newblock);
            assert(nodes_disjoint(newblock, m.live[b]));
        }
    }

    if excess > 0 {
        let leftover = ListNode { start: end as usize, size: excess as usize };
        assert(m1.regions =~= seq![leftover] + removed);
        assert(valid_free_node(leftover));
        assert forall|a: int|
            0 <= a < m1.regions.len() implies valid_free_node(#[trigger] m1.regions[a]) by {
            if a > 0 {
                assert(m1.regions[a] == removed[a - 1]);
            }
        }
        assert forall|a: int, b: int|
            0 <= a < m1.regions.len() && 0 <= b < m1.regions.len() && a != b implies nodes_disjoint(
            #[trigger] m1.regions[a],
            #[trigger] m1.regions[b],
        ) by {
            if a > 0 && b > 0 {
                assert(m1.regions[a] == removed[a - 1] && m1.regions[b] == removed[b - 1]);
            } else if a == 0 {
                assert(m1.regions[b] == removed[b - 1]);
                assert(nodes_disjoint(removed[b - 1], m.regions[i]));
            } else {
                assert(m1.regions[a] == removed[a - 1]);
                assert(nodes_disjoint(removed[a - 1], m.regions[i]));
            }
        }
        assert forall|a: int, b: int|
            0 <= a < m1.regions.len() && 0 <= b < m1.live.len() implies nodes_disjoint(
            #[trigger] m1.regions[a],
            #[trigger] m1.live[b],
        ) by {
            if a == 0 {
                if b < m.live.len() {
                    assert(nodes_disjoint(leftover, m.live[b]));
                } else {
                    assert(m1.live[b] == newblock);
                    // The leftover starts exactly where the new block ends.
                }
            } else {
                assert(m1.regions[a] == removed[a - 1]);
                if b < m.live.len() {
                    assert(nodes_disjoint(removed[a - 1], m.live[b]));
                } else {
                    assert(m1.live[b] == newblock);
                    assert(nodes_disjoint(removed[a - 1], m.regions[i]));
                }
            }
        }
    } else {
        assert(m1.regions == removed);
        assert forall|a: int, b: int|
            0 <= a < m1.regions.len() && 0 <= b < m1.live.len() implies nodes_disjoint(
            #[trigger] m1.regions[a],
            #[trigger] m1.live[b],
        ) by {
            if b < m.live.len() {
                assert(nodes_disjoint(removed[a], m.live[b]));
            } else {
                assert(m1.live[b] == newblock);
                assert(nodes_disjoint(removed[a], m.regions[i]));
            }
        }
    }
}

/// A deallocation preserves well-formedness: the freed block leaves the
/// live set and becomes the head of the free list, disjoint from every
/// listed region and from every remaining live block.
pub proof fn lemma_fl_deallocate_preserves_wf(m: FreeListModel, j: int)
    requires
        m.wf(),
        0 <= j < m.live.len(),
    ensures
        fl_after_deallocate(m, j).wf(),
{
    let node = m.live[j];
    let m1 = fl_after_deallocate(m, j);
    lemma_wf_live_remove(m, j);
    let mid = FreeListModel { regions: m.regions, live: m.live.remove(j) };
    assert(m1.regions =~= seq![node] + m.regions);
    assert(m1.live == mid.live);

    assert forall|a: int| 0 <= a < m1.regions.len() implies valid_free_node(
        #[trigger] m1.regions[a],
    ) by {
        if a > 0 {
            assert(m1.regions[a] == m.regions[a - 1]);
        }
    }
    assert forall|a: int, b: int|
        0 <= a < m1.regions.len() && 0 <= b < m1.regions.len() && a != b implies nodes_disjoint(
        #[trigger] m1.regions[a],
        #[trigger] m1.regions[b],
    ) by {
        if a > 0 && b > 0 {
            assert(m1.regions[a] == m.regions[a - 1]);
            assert(m1.regions[b] == m.regions[b - 1]);
            assert(nodes_disjoint(m.regions[a - 1], m.regions[b - 1]));
        } else if a == 0 {
            assert(m1.regions[b] == m.regions[b - 1]);
            assert(nodes_disjoint(m.regions[b - 1], m.live[j]));
        } else {
            assert(m1.regions[a] == m.regions[a - 1]);
            assert(nodes_disjoint(m.regions[a - 1], m.live[j]));
        }
    }
    assert forall|a: int, b: int|
        0 <= a < m1.regions.len() && 0 <= b < m1.live.len() implies nodes_disjoint(
        #[trigger] m1.regions[a],
        #[trigger] m1.live[b],
    ) by {
        let b0 = if b < j {
            b
        } else {
            b + 1
        };
        assert(m1.live[b] == m.live[b0]);
        if a > 0 {
            assert(m1.regions[a] == m.regions[a - 1]);
            assert(nodes_disjoint(m.regions[a - 1], m.live[b0]));
        } else {
            assert(m1.regions[a] == node);
            assert(nodes_disjoint(m.live[j], m.live[b0]));
        }
    }
}

/// The block a successful allocation hands out is aligned to the
/// normalized alignment, fits in the address space, and overlaps no
/// currently-live allocation.
pub proof fn lemma_fl_fresh_block_disjoint(fm: FreeListModel, size: int, align: int)
    requires
        fm.wf(),
        spec_is_power_of_two(align),
        size >= 0,
        fl_can_allocate(fm, size, align),
    ensures
        ({
            let a = fl_allocate_result(fm, size, align);
            let ns = norm_size(size, align);
            &&& 0 <= a
            &&& a + ns <= usize::MAX
            &&& a % norm_align(align) == 0
            &&& forall|j: int|
                0 <= j < fm.live.len() ==> nodes_disjoint(
                    ListNode { start: a as usize, size: ns as usize },
                    #[trigger] fm.live[j],
                )
        }),
{
    let ns = norm_size(size, align);
    let na = norm_align(align);
    crate::allocator::lemma_pow2_pos_int(align);
    lemma_first_fit_index_spec(fm.regions, ns, na);
    let i = first_fit_index(fm.regions, ns, na);
    lemma_align_up_properties(fm.regions[i].start as int, na);
    let a = fl_allocate_result(fm, size, align);
    lemma_block_within_region(fm, i, a, ns);
}

/// Every free region and every live block lies inside `[lo, hi)`.
pub open spec fn fl_bounded(m: FreeListModel, lo: int, hi: int) -> bool {
    &&& forall|i: int|
        0 <= i < m.regions.len() ==> lo <= (#[trigger] m.regions[i]).start && node_end(
            m.regions[i],
        ) <= hi
    &&& forall|i: int|
        0 <= i < m.live.len() ==> lo <= (#[trigger] m.live[i]).start && node_end(m.live[i]) <= hi
}

/// An allocation hands out memory taken from a listed region, so it keeps
/// every region and block inside the heap bounds.
pub proof fn lemma_fl_allocate_preserves_bounded(
    m: FreeListModel,
    size: int,
    align: int,
    lo: int,
    hi: int,
)
    requires
        m.wf(),
        spec_is_power_of_two(align),
        size >= 0,
        fl_can_allocate(m, size, align),
        fl_bounded(m, lo, hi),
    ensures
        fl_bounded(fl_after_allocate(m, size, align), lo, hi),
{
    let ns = norm_size(size, align);
    let na = norm_align(align);
    crate::allocator::lemma_pow2_pos_int(align);
    lemma_first_fit_index_spec(m.regions, ns, na);
    let i = first_fit_index(m.regions, ns, na);
    let r = m.regions[i];
    lemma_align_up_properties(r.start as int, na);
    let m1 = fl_after_allocate(m, size, align);
    let removed = m.regions.remove(i);
    assert forall|k: int|
        0 <= k < m1.regions.len() implies lo <= (#[trigger] m1.regions[k]).start && node_end(
        m1.regions[k],
    ) <= hi by {
        let excess = node_end(r) - (spec_align_up(r.start as int, na) + ns);
        let base = if excess > 0 {
            k - 1
        } else {
            k
        };
        if excess > 0 && k == 0 {
            // the leftover lies inside the chosen region
        } else {
            let k0 = if base < i {
                base
            } else {
                base + 1
            };
            assert(m1.regions[k] == m.regions[k0]);
        }
    }
    assert forall|k: int|
        0 <= k < m1.live.len() implies lo <= (#[trigger] m1.live[k]).start && node_end(m1.live[k])
        <= hi by {
        if k < m.live.len() {
            assert(m1.live[k] == m.live[k]);
        }
    }
}

/// A deallocation moves one live block to the free list, so it keeps
/// every region and block inside the heap bounds.
pub proof fn lemma_fl_deallocate_preserves_bounded(m: FreeListModel, j: int, lo: int, hi: int)
    requires
        0 <= j < m.live.len(),
        fl_bounded(m, lo, hi),
    ensures
        fl_bounded(fl_after_deallocate(m, j), lo, hi),
{
    let m1 = fl_after_deallocate(m, j);
    assert forall|k: int|
        0 <= k < m1.regions.len() implies lo <= (#[trigger] m1.regions[k]).start && node_end(
        m1.regions[k],
    ) <= hi by {
        if k > 0 {
            assert(m1.regions[k] == m.regions[k - 1]);
        } else {
            assert(m1.regions[k] == m.live[j]);
        }
    }
    assert forall|k: int|
        0 <= k < m1.live.len() implies lo <= (#[trigger] m1.live[k]).start && node_end(m1.live[k])
        <= hi by {
        let k0 = if k < j {
            k
        } else {
            k + 1
        };
        assert(m1.live[k] == m.live[k0]);
    }
}

/// Any two currently-live free-list allocations are disjoint: together with
/// the alignment clause of `allocate`, every address this strategy returns
/// respects the requested alignment and overlaps no other live allocation.
pub proof fn lemma_fl_live_disjoint(m: FreeListModel, i: int, j: int)
    requires
        m.wf(),
        0 <= i < m.live.len(),
        0 <= j < m.live.len(),
        i != j,
    ensures
        nodes_disjoint(m.live[i], m.live[j]),
{
}

/// If exactly one region of the list can host the request, the allocation
/// returns that region's aligned start — wherever the region stands in the
/// list, so independent of the order in which regions were freed.
pub proof fn lemma_single_candidate(m: FreeListModel, size: int, align: int, i: int)
    requires
        m.wf(),
        spec_is_power_of_two(align),
        norm_size(size, align) <= usize::MAX,
        0 <= i < m.regions.len(),
        region_fits(m.regions[i], norm_size(size, align), norm_align(align)),
        forall|k: int|
            0 <= k < m.regions.len() && k != i ==> !region_fits(
                #[trigger] m.regions[k],
                norm_size(size, align),
                norm_align(align),
            ),
    ensures
        fl_can_allocate(m, size, align),
        fl_allocate_result(m, size, align) == spec_align_up(
            m.regions[i].start as int,
            norm_align(align),
        ),
{
    let ns = norm_size(size, align);
    let na = norm_align(align);
    lemma_first_fit_index_spec(m.regions, ns, na);
    let f = first_fit_index(m.regions, ns, na);
    if f == -1 {
        assert(!region_fits(m.regions[i], ns, na));
    }
    if f != i {
        assert(!region_fits(m.regions[f], ns, na));
    }
}

} // verus!
