//! Bump allocation: a monotonic cursor walks the heap from its start; a
//! live-allocation counter allows bulk reclamation of the whole arena once
//! every allocation has been freed.

use vstd::prelude::*;
use crate::allocator::{spec_align_up, lemma_align_up_properties, ListNode, nodes_disjoint};

verus! {

/// Mathematical state of a bump allocator: the heap bounds, the cursor, the
/// live-allocation counter, and the set of currently-live blocks.
#[verifier::ext_equal]
pub struct BumpModel {
    pub heap_start: usize,
    pub heap_end: usize,
    pub next: usize,
    pub allocations: usize,
    pub live: Seq<ListNode>,
}

impl BumpModel {
    /// Well-formedness: the cursor stays inside the heap, the counter counts
    /// the live blocks, and every live block lies below the cursor, disjoint
    /// from every other.
    pub open spec fn wf(self) -> bool {
        &&& self.heap_start <= self.next <= self.heap_end
        &&& self.allocations == self.live.len()
        &&& forall|i: int|
            0 <= i < self.live.len() ==> self.heap_start <= #[trigger] self.live[i].start
                && node_end_le_cursor(self.live[i], self.next as int)
        &&& forall|i: int, j: int|
            0 <= i < self.live.len() && 0 <= j < self.live.len() && i != j ==> nodes_disjoint(
                #[trigger] self.live[i],
                #[trigger] self.live[j],
            )
    }
}

/// The block `b` ends at or below address `cursor`.
pub open spec fn node_end_le_cursor(b: ListNode, cursor: int) -> bool {
    b.start + b.size <= cursor
}

/// Address handed out by a bump allocation: the cursor rounded up to the
/// requested alignment.
pub open spec fn bump_alloc_start(m: BumpModel, align: int) -> int {
    spec_align_up(m.next as int, align)
}

/// A bump allocation succeeds exactly when the aligned cursor plus the
/// requested size stays within the heap.
pub open spec fn bump_can_alloc(m: BumpModel, size: int, align: int) -> bool {
    bump_alloc_start(m, align) + size <= m.heap_end
}

/// State after a successful bump allocation: the cursor advances past the
/// new block and the block joins the live set.
pub open spec fn bump_after_alloc(m: BumpModel, size: usize, align: usize) -> BumpModel {
    let start = bump_alloc_start(m, align as int);
    BumpModel {
        next: (start + size) as usize,
        allocations: (m.allocations + 1) as usize,
        live: m.live.push(ListNode { start: start as usize, size }),
        ..m
    }
}

/// State after freeing the live block at index `j`: the counter drops, and
/// once it reaches zero the cursor returns to the heap start.
pub open spec fn bump_after_dealloc(m: BumpModel, j: int) -> BumpModel {
    BumpModel {
        next: if m.allocations == 1 {
            m.heap_start
        } else {
            m.next
        },
        allocations: (m.allocations - 1) as usize,
        live: m.live.remove(j),
        ..m
    }
}

/// Monotonic-cursor strategy: O(1) allocation and deallocation, zero
/// fragmentation bookkeeping, but the arena is reclaimed only once every
/// live allocation has been freed.
pub struct BumpAllocator {
    heap_start: usize,
    heap_end: usize,
    next: usize,
    allocations: usize,
    live: Ghost<Seq<ListNode>>,
}

impl View for BumpAllocator {
    type V = BumpModel;

    closed spec fn view(&self) -> BumpModel {
        BumpModel {
            heap_start: self.heap_start,
            heap_end: self.heap_end,
            next: self.next,
            allocations: self.allocations,
            live: self.live@,
        }
    }
}

impl BumpAllocator {
    /// An empty bump allocator over the empty region at address zero.
    pub fn new() -> (r: BumpAllocator)
        ensures
            r@.wf(),
            r@.heap_start == 0,
            r@.heap_end == 0,
            r@.next == 0,
            r@.allocations == 0,
            r@.live == Seq::<ListNode>::empty(),
    {
        BumpAllocator {
            heap_start: 0,
            heap_end: 0,
            next: 0,
            allocations: 0,
            live: Ghost(Seq::empty()),
        }
    }

    /// Hands the heap region `[heap_start, heap_start + heap_size)` to the
    /// allocator.  To be called exactly once, before any allocation: the
    /// allocator must still be empty.
    pub fn init(&mut self, heap_start: usize, heap_size: usize)
        requires
            old(self)@.allocations == 0,
            old(self)@.live.len() == 0,
            heap_start + heap_size <= usize::MAX,
        ensures
            final(self)@.wf(),
            final(self)@ =~= (BumpModel {
                heap_start,
                heap_end: (heap_start + heap_size) as usize,
                next: heap_start,
                allocations: 0,
                live: Seq::empty(),
            }),
    {
        self.heap_start = heap_start;
        self.heap_end = heap_start + heap_size;
        self.next = heap_start;
        proof {
            assert(self.live@ =~= Seq::<ListNode>::empty());
        }
    }

    /// The cursor: the next unaligned address to be handed out.
    pub fn next(&self) -> (r: usize)
        ensures
            r == self@.next,
    {
        self.next
    }

    /// Number of currently-live allocations.
    pub fn allocations(&self) -> (r: usize)
        ensures
            r == self@.allocations,
    {
        self.allocations
    }

    /// Rounds the cursor up to `align`, and on success hands out the block
    /// there and advances the cursor past it; fails exactly when the aligned
    /// block would overrun the heap end.  The block returned is aligned as
    /// requested and overlaps no other currently-live allocation.
    pub fn allocate(&mut self, size: usize, align: usize) -> (r: Option<usize>)
        requires
            old(self)@.wf(),
            align >= 1,
            bump_can_alloc(old(self)@, size as int, align as int) ==> old(self)@.allocations
                < usize::MAX,
        ensures
            r is Some <==> bump_can_alloc(old(self)@, size as int, align as int),
            r is None ==> final(self)@ == old(self)@,
            r is Some ==> {
                &&& r->0 == bump_alloc_start(old(self)@, align as int)
                &&& final(self)@ =~= bump_after_alloc(old(self)@, size, align)
                &&& r->0 % align == 0
                &&& old(self)@.next <= r->0
                &&& r->0 + size <= old(self)@.heap_end
                &&& forall|i: int|
                    0 <= i < old(self)@.live.len() ==> nodes_disjoint(
                        ListNode { start: r->0, size },
                        #[trigger] old(self)@.live[i],
                    )
            },
            final(self)@.wf(),
    {
        proof {
            lemma_align_up_properties(self.next as int, align as int);
        }
        let rem = self.next % align;
        let rounded: usize = if rem == 0 {
            self.next
        } else {
            if self.next - rem > usize::MAX - align {
                // The aligned cursor does not even fit in an address, so it
                // certainly exceeds the heap end.
                return None;
            }
            self.next - rem + align
        };
        if rounded > self.heap_end || size > self.heap_end - rounded {
            return None;
        }
        self.next = rounded + size;
        self.allocations = self.allocations + 1;
        proof {
            self.live@ = self.live@.push(ListNode { start: rounded, size });
        }
        Some(rounded)
    }

    /// Frees the block that was returned by an earlier `alloc` of the same
    /// size.  Only the live-allocation counter changes, until it reaches
    /// zero: then the cursor returns to the heap start and the whole arena
    /// is reusable.
    pub fn deallocate(&mut self, ptr: usize, size: usize)
        requires
            old(self)@.wf(),
            old(self)@.live.contains(ListNode { start: ptr, size }),
        ensures
            final(self)@.wf(),
            ({
                let j = old(self)@.live.index_of(ListNode { start: ptr, size });
                0 <= j < old(self)@.live.len() && old(self)@.live[j] == (ListNode {
                    start: ptr,
                    size,
                }) && final(self)@ =~= bump_after_dealloc(old(self)@, j)
            }),
            final(self)@.allocations == old(self)@.allocations - 1,
            final(self)@.next == if old(self)@.allocations == 1 {
                old(self)@.heap_start
            } else {
                old(self)@.next
            },
            final(self)@.heap_start == old(self)@.heap_start,
            final(self)@.heap_end == old(self)@.heap_end,
    {
        let ghost j = self.live@.index_of(ListNode { start: ptr, size });
        proof {
            assert(0 <= j < self.live@.len() && self.live@[j] == (ListNode { start: ptr, size }));
        }
        self.allocations = self.allocations - 1;
        if self.allocations == 0 {
            self.next = self.heap_start;
        }
        proof {
            self.live@ = self.live@.remove(j);
        }
    }
}

/// Any two currently-live bump allocations are disjoint: together with the
/// alignment clause of `alloc`, every address the strategy returns respects
/// the request and overlaps no other live block.
pub proof fn lemma_bump_live_disjoint(m: BumpModel, i: int, j: int)
    requires
        m.wf(),
        0 <= i < m.live.len(),
        0 <= j < m.live.len(),
        i != j,
    ensures
        nodes_disjoint(m.live[i], m.live[j]),
{
}

/// Freeing any live block — whichever order the blocks are freed in —
/// keeps the counter equal to the number of live blocks and moves the
/// cursor only when the count reaches zero: then it returns to the heap
/// start.
pub proof fn lemma_bump_dealloc_any_order(m: BumpModel, j: int)
    requires
        m.wf(),
        0 <= j < m.live.len(),
    ensures
        bump_after_dealloc(m, j).wf(),
        bump_after_dealloc(m, j).next == if m.allocations == 1 {
            m.heap_start
        } else {
            m.next
        },
{
    let m1 = bump_after_dealloc(m, j);
    assert forall|a: int|
        0 <= a < m1.live.len() implies m.heap_start <= #[trigger] m1.live[a].start
        && node_end_le_cursor(m1.live[a], m1.next as int) by {
        let a0 = if a < j {
            a
        } else {
            a + 1
        };
        assert(m1.live[a] == m.live[a0]);
    }
    assert forall|a: int, b: int|
        0 <= a < m1.live.len() && 0 <= b < m1.live.len() && a != b implies nodes_disjoint(
        #[trigger] m1.live[a],
        #[trigger] m1.live[b],
    ) by {
        let a0 = if a < j {
            a
        } else {
            a + 1
        };
        let b0 = if b < j {
            b
        } else {
            b + 1
        };
        assert(m1.live[a] == m.live[a0] && m1.live[b] == m.live[b0]);
        assert(nodes_disjoint(m.live[a0], m.live[b0]));
    }
}

/// Applies a sequence of allocation requests, in order.
pub open spec fn bump_apply_allocs(m: BumpModel, reqs: Seq<(usize, usize)>) -> BumpModel
    decreases reqs.len(),
{
    if reqs.len() == 0 {
        m
    } else {
        bump_apply_allocs(bump_after_alloc(m, reqs[0].0, reqs[0].1), reqs.drop_first())
    }
}

/// Every request in the sequence succeeds when applied in order.
pub open spec fn bump_allocs_all_succeed(m: BumpModel, reqs: Seq<(usize, usize)>) -> bool
    decreases reqs.len(),
{
    if reqs.len() == 0 {
        true
    } else {
        bump_can_alloc(m, reqs[0].0 as int, reqs[0].1 as int) && bump_allocs_all_succeed(
            bump_after_alloc(m, reqs[0].0, reqs[0].1),
            reqs.drop_first(),
        )
    }
}

/// Frees `k` live blocks, youngest first.
pub open spec fn bump_apply_deallocs(m: BumpModel, k: nat) -> BumpModel
    decreases k,
{
    if k == 0 || m.live.len() == 0 {
        m
    } else {
        bump_apply_deallocs(bump_after_dealloc(m, m.live.len() - 1), (k - 1) as nat)
    }
}

proof fn lemma_bump_apply_allocs_frame(m: BumpModel, reqs: Seq<(usize, usize)>)
    requires
        m.allocations + reqs.len() <= usize::MAX,
    ensures
        bump_apply_allocs(m, reqs).heap_start == m.heap_start,
        bump_apply_allocs(m, reqs).allocations == m.allocations + reqs.len(),
    decreases reqs.len(),
{
    if reqs.len() > 0 {
        lemma_bump_apply_allocs_frame(bump_after_alloc(m, reqs[0].0, reqs[0].1), reqs.drop_first());
    }
}

proof fn lemma_bump_apply_allocs_counter(m: BumpModel, reqs: Seq<(usize, usize)>)
    requires
        m.allocations == m.live.len(),
        m.allocations + reqs.len() <= usize::MAX,
    ensures
        bump_apply_allocs(m, reqs).allocations == bump_apply_allocs(m, reqs).live.len(),
    decreases reqs.len(),
{
    if reqs.len() > 0 {
        lemma_bump_apply_allocs_counter(
            bump_after_alloc(m, reqs[0].0, reqs[0].1),
            reqs.drop_first(),
        );
    }
}

proof fn lemma_bump_deallocs_drain(m: BumpModel, k: nat)
    requires
        m.allocations == m.live.len(),
        k == m.allocations,
        k > 0,
    ensures
        bump_apply_deallocs(m, k).next == m.heap_start,
        bump_apply_deallocs(m, k).allocations == 0,
        bump_apply_deallocs(m, k).heap_start == m.heap_start,
    decreases k,
{
    let m1 = bump_after_dealloc(m, m.live.len() - 1);
    assert(bump_apply_deallocs(m, k) == bump_apply_deallocs(m1, (k - 1) as nat));
    if k > 1 {
        lemma_bump_deallocs_drain(m1, (k - 1) as nat);
    } else {
        assert(bump_apply_deallocs(m1, 0) == m1);
    }
}

/// Allocating `k` objects and then freeing all `k` of them returns the
/// cursor to the heap start: the whole arena is reclaimed exactly when the
/// last live allocation is freed.
pub proof fn lemma_bump_full_reclamation(m: BumpModel, reqs: Seq<(usize, usize)>)
    requires
        m.wf(),
        m.allocations == 0,
        0 < reqs.len() <= usize::MAX,
    ensures
        bump_apply_deallocs(bump_apply_allocs(m, reqs), reqs.len()).next == m.heap_start,
        bump_apply_deallocs(bump_apply_allocs(m, reqs), reqs.len()).allocations == 0,
{
    let ma = bump_apply_allocs(m, reqs);
    lemma_bump_apply_allocs_frame(m, reqs);
    lemma_bump_apply_allocs_counter(m, reqs);
    lemma_bump_deallocs_drain(ma, reqs.len());
}

/// While any allocation is still live the cursor does not move back, so an
/// allocation whose aligned block would overrun the heap end fails.
pub proof fn lemma_bump_exhausted_alloc_fails(m: BumpModel, size: int, align: int)
    requires
        spec_align_up(m.next as int, align) + size > m.heap_end,
    ensures
        !bump_can_alloc(m, size, align),
{
}

} // verus!
