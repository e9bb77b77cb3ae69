//! Segregated fixed-size-block allocation: requests are rounded up to a
//! fixed set of power-of-two block sizes, each served O(1) from a per-class
//! list of recycled blocks.  An empty class is refilled with exactly one
//! fresh block carved from an embedded free-list allocator, which also
//! serves every request too large for the largest class.  Blocks carved for
//! a class are never returned to the fallback: the flow is one-way.

use vstd::prelude::*;
use crate::allocator::{
    spec_align_up, lemma_align_up_properties, lemma_pow2_divides, lemma_divides_transitive,
    lemma_pow2_pos_int, spec_is_power_of_two, ListNode, node_end, nodes_disjoint,
};
use crate::allocator::linked_list::{
    LinkedListAllocator, FreeListModel, norm_align, norm_size, valid_free_node, fl_can_allocate,
    fl_allocate_result, fl_after_allocate, fl_after_deallocate, first_fit_index, NODE_SIZE,
};
use vstd::arithmetic::power2::is_pow2;

verus! {

/// How many block classes the strategy tracks.
pub const BLOCK_SIZES_COUNT: usize = 9;

/// The byte size of class `i`: the fixed, strictly increasing sequence of
/// powers of two 8, 16, ..., 2048.
pub open spec fn spec_block_size(i: int) -> int {
    if i == 0 {
        8
    } else if i == 1 {
        16
    } else if i == 2 {
        32
    } else if i == 3 {
        64
    } else if i == 4 {
        128
    } else if i == 5 {
        256
    } else if i == 6 {
        512
    } else if i == 7 {
        1024
    } else {
        2048
    }
}

/// The byte size of class `index`.
pub fn block_size(index: usize) -> (r: usize)
    requires
        index < BLOCK_SIZES_COUNT,
    ensures
        r == spec_block_size(index as int),
{
    if index == 0 {
        8
    } else if index == 1 {
        16
    } else if index == 2 {
        32
    } else if index == 3 {
        64
    } else if index == 4 {
        128
    } else if index == 5 {
        256
    } else if index == 6 {
        512
    } else if index == 7 {
        1024
    } else {
        2048
    }
}

/// Every class size is a power of two.
pub proof fn lemma_block_size_pow2(i: int)
    ensures
        spec_is_power_of_two(spec_block_size(i)),
        spec_block_size(i) >= 8,
{
    reveal_with_fuel(is_pow2, 12);
}

/// Index of the smallest class that can hold a request of `size` bytes at
/// alignment `align` (both must fit in the class size), or -1 when the
/// request exceeds the largest class.
pub open spec fn spec_list_index(size: int, align: int) -> int {
    let req = if size >= align {
        size
    } else {
        align
    };
    if req <= 8 {
        0
    } else if req <= 16 {
        1
    } else if req <= 32 {
        2
    } else if req <= 64 {
        3
    } else if req <= 128 {
        4
    } else if req <= 256 {
        5
    } else if req <= 512 {
        6
    } else if req <= 1024 {
        7
    } else if req <= 2048 {
        8
    } else {
        -1
    }
}

/// Returns the index of the smallest block class that can hold the given
/// request, or `None` when it is too big for every class and must go to the
/// fallback allocator.
pub fn list_index(size: usize, align: usize) -> (r: Option<usize>)
    ensures
        r is Some <==> spec_list_index(size as int, align as int) >= 0,
        r is Some ==> r->0 == spec_list_index(size as int, align as int),
{
    let req = if size >= align {
        size
    } else {
        align
    };
    if req <= 8 {
        Some(0)
    } else if req <= 16 {
        Some(1)
    } else if req <= 32 {
        Some(2)
    } else if req <= 64 {
        Some(3)
    } else if req <= 128 {
        Some(4)
    } else if req <= 256 {
        Some(5)
    } else if req <= 512 {
        Some(6)
    } else if req <= 1024 {
        Some(7)
    } else if req <= 2048 {
        Some(8)
    } else {
        None
    }
}

/// The footprint a class block occupies inside the fallback allocator: the
/// class size as the fallback normalizes it when one block of layout
/// `(class size, class size)` is carved.
pub open spec fn spec_carved(i: int) -> int {
    if spec_block_size(i) >= NODE_SIZE {
        spec_block_size(i)
    } else {
        NODE_SIZE as int
    }
}

/// Carving one block of class `i` from the fallback normalizes the class
/// layout to exactly the carved footprint.
pub proof fn lemma_carved_is_norm(i: int)
    requires
        0 <= i < BLOCK_SIZES_COUNT,
    ensures
        norm_size(spec_block_size(i), spec_block_size(i)) == spec_carved(i),
        norm_align(spec_block_size(i)) == spec_carved(i),
        spec_block_size(i) <= spec_carved(i),
        spec_carved(i) % spec_block_size(i) == 0,
{
    let bs = spec_block_size(i);
    let na = norm_align(bs);
    lemma_align_up_properties(bs, na);
    if i == 0 {
        assert(8int % 16int == 8);
        assert(spec_align_up(8, 16) == 16);
        assert(16int % 8int == 0);
    } else {
        vstd::arithmetic::div_mod::lemma_mod_self_0(bs);
        assert(spec_align_up(bs, bs) == bs);
    }
}

/// One currently-live allocation of the segregated strategy: its address,
/// the class it was served from (`None` for a fallback pass-through), and
/// the byte size granted to the caller.
pub struct FsbBlock {
    pub addr: usize,
    pub class: Option<usize>,
    pub size: usize,
}

/// The footprint a live block occupies inside the fallback allocator.
pub open spec fn carved_node(b: FsbBlock) -> ListNode {
    match b.class {
        Some(i) => ListNode { start: b.addr, size: spec_carved(i as int) as usize },
        None => ListNode { start: b.addr, size: b.size },
    }
}

/// The block as the caller sees it: the granted bytes at its address.
pub open spec fn user_node(b: FsbBlock) -> ListNode {
    ListNode { start: b.addr, size: b.size }
}

/// Mathematical state of a segregated fixed-size-block allocator: one stack
/// of free block addresses per class (the last element is the head), the
/// embedded fallback allocator, and the currently-live allocations.
#[verifier::ext_equal]
pub struct FsbModel {
    pub lists: Seq<Seq<usize>>,
    pub fallback: FreeListModel,
    pub live: Seq<FsbBlock>,
}

impl FsbModel {
    /// A live block is properly shaped: a class block carries its class size
    /// and sits on a carved-footprint boundary; a pass-through block carries
    /// its fallback-normalized size.
    pub open spec fn live_block_ok(self, b: FsbBlock) -> bool {
        &&& match b.class {
            Some(i) => 0 <= i < BLOCK_SIZES_COUNT && b.size == spec_block_size(i as int)
                && b.addr % (spec_carved(i as int) as usize) == 0
            ,
            None => b.size >= NODE_SIZE,
        }
        &&& self.fallback.live.contains(carved_node(b))
    }

    /// Well-formedness: the fallback is well-formed; every class entry and
    /// every live block stands, with its carved footprint, in the fallback's
    /// live set; and all of them have pairwise different addresses, so each
    /// occupies a fallback block of its own.
    pub open spec fn wf(self) -> bool {
        &&& self.lists.len() == BLOCK_SIZES_COUNT
        &&& self.fallback.wf()
        &&& forall|i: int, p: int|
            0 <= i < self.lists.len() && 0 <= p < self.lists[i].len() ==> self.fallback.live.contains(
                ListNode {
                    start: #[trigger] self.lists[i][p],
                    size: spec_carved(i) as usize,
                },
            ) && self.lists[i][p] % (spec_carved(i) as usize) == 0
        &&& forall|j: int| 0 <= j < self.live.len() ==> self.live_block_ok(#[trigger] self.live[j])
        &&& forall|i: int, p: int, i2: int, p2: int|
            0 <= i < self.lists.len() && 0 <= p < self.lists[i].len() && 0 <= i2 < self.lists.len()
                && 0 <= p2 < self.lists[i2].len() && (i != i2 || p != p2) ==> #[trigger] self.lists[i][p]
                != #[trigger] self.lists[i2][p2]
        &&& forall|i: int, p: int, j: int|
            0 <= i < self.lists.len() && 0 <= p < self.lists[i].len() && 0 <= j < self.live.len()
                ==> #[trigger] self.lists[i][p] != (#[trigger] self.live[j]).addr
        &&& forall|j: int, j2: int|
            0 <= j < self.live.len() && 0 <= j2 < self.live.len() && j != j2 ==> (
            #[trigger] self.live[j]).addr != (#[trigger] self.live[j2]).addr
    }
}

/// Appending an element keeps everything already contained, and the
/// element itself, contained.
proof fn lemma_contains_push(s: Seq<ListNode>, x: ListNode, y: ListNode)
    requires
        s.contains(y) || y == x,
    ensures
        s.push(x).contains(y),
{
    if y == x {
        assert(s.push(x)[s.len() as int] == y);
    } else {
        let ix = choose|ix: int| 0 <= ix < s.len() && s[ix] == y;
        assert(s.push(x)[ix] == y);
    }
}

/// Removing one element keeps every other element contained.
proof fn lemma_contains_remove(s: Seq<ListNode>, k: int, y: ListNode)
    requires
        0 <= k < s.len(),
        s.contains(y),
        y != s[k],
    ensures
        s.remove(k).contains(y),
{
    let ix = choose|ix: int| 0 <= ix < s.len() && s[ix] == y;
    if ix < k {
        assert(s.remove(k)[ix] == y);
    } else {
        assert(s.remove(k)[ix - 1] == y);
    }
}

/// Two distinct blocks of a well-formed fallback live set are disjoint.
proof fn lemma_fallback_blocks_disjoint(fm: FreeListModel, a: ListNode, b: ListNode)
    requires
        fm.wf(),
        fm.live.contains(a),
        fm.live.contains(b),
        a.start != b.start,
    ensures
        nodes_disjoint(a, b),
{
    let ja = choose|j: int| 0 <= j < fm.live.len() && fm.live[j] == a;
    let jb = choose|j: int| 0 <= j < fm.live.len() && fm.live[j] == b;
    assert(fm.live[ja] == a && fm.live[jb] == b);
    assert(ja != jb);
    assert(nodes_disjoint(fm.live[ja], fm.live[jb]));
}

/// Any two currently-live allocations of the segregated strategy are
/// disjoint: each occupies a carved block of its own inside the fallback,
/// and those are pairwise disjoint.
pub proof fn lemma_fsb_live_disjoint(m: FsbModel, j: int, j2: int)
    requires
        m.wf(),
        0 <= j < m.live.len(),
        0 <= j2 < m.live.len(),
        j != j2,
    ensures
        nodes_disjoint(user_node(m.live[j]), user_node(m.live[j2])),
{
    let a = m.live[j];
    let b = m.live[j2];
    assert(m.live_block_ok(a));
    assert(m.live_block_ok(b));
    if a.class is Some {
        lemma_carved_is_norm(a.class->0 as int);
    }
    if b.class is Some {
        lemma_carved_is_norm(b.class->0 as int);
    }
    lemma_fallback_blocks_disjoint(m.fallback, carved_node(a), carved_node(b));
}

/// A class index returned for a request bounds both its size and its
/// alignment by the class size.
proof fn lemma_list_index_fits(size: int, align: int)
    requires
        spec_list_index(size, align) >= 0,
    ensures
        0 <= spec_list_index(size, align) < BLOCK_SIZES_COUNT,
        size <= spec_block_size(spec_list_index(size, align)),
        align <= spec_block_size(spec_list_index(size, align)),
{
}

/// Popping the head block of a non-empty class list preserves
/// well-formedness: the block moves from the class list to the live set.
proof fn lemma_wf_class_pop(m: FsbModel, i: int)
    requires
        m.wf(),
        0 <= i < BLOCK_SIZES_COUNT,
        m.lists[i].len() > 0,
    ensures
        (FsbModel {
            lists: m.lists.update(i, m.lists[i].drop_last()),
            fallback: m.fallback,
            live: m.live.push(
                FsbBlock {
                    addr: m.lists[i].last(),
                    class: Some(i as usize),
                    size: spec_block_size(i) as usize,
                },
            ),
        }).wf(),
{
    let last = m.lists[i].len() - 1;
    let a = m.lists[i][last];
    let newb = FsbBlock { addr: a, class: Some(i as usize), size: spec_block_size(i) as usize };
    let m1 = FsbModel {
        lists: m.lists.update(i, m.lists[i].drop_last()),
        fallback: m.fallback,
        live: m.live.push(newb),
    };
    assert(m.fallback.live.contains(ListNode { start: a, size: spec_carved(i) as usize }));

    assert forall|i2: int, p: int|
        0 <= i2 < m1.lists.len() && 0 <= p < m1.lists[i2].len() implies m1.fallback.live.contains(
        ListNode { start: #[trigger] m1.lists[i2][p], size: spec_carved(i2) as usize },
    ) && m1.lists[i2][p] % (spec_carved(i2) as usize) == 0 by {
        assert(m1.lists[i2][p] == m.lists[i2][p]);
    }

    assert forall|j: int| 0 <= j < m1.live.len() implies m1.live_block_ok(
        #[trigger] m1.live[j],
    ) by {
        if j < m.live.len() {
            assert(m1.live[j] == m.live[j]);
            assert(m.live_block_ok(m.live[j]));
        } else {
            assert(m1.live[j] == newb);
        }
    }

    assert forall|i2: int, p: int, i3: int, p3: int|
        0 <= i2 < m1.lists.len() && 0 <= p < m1.lists[i2].len() && 0 <= i3 < m1.lists.len() && 0
            <= p3 < m1.lists[i3].len() && (i2 != i3 || p != p3) implies #[trigger] m1.lists[i2][p]
        != #[trigger] m1.lists[i3][p3] by {
        assert(m1.lists[i2][p] == m.lists[i2][p]);
        assert(m1.lists[i3][p3] == m.lists[i3][p3]);
    }

    assert forall|i2: int, p: int, j: int|
        0 <= i2 < m1.lists.len() && 0 <= p < m1.lists[i2].len() && 0 <= j
            < m1.live.len() implies #[trigger] m1.lists[i2][p] != (#[trigger] m1.live[j]).addr by {
        assert(m1.lists[i2][p] == m.lists[i2][p]);
        if j < m.live.len() {
            assert(m1.live[j] == m.live[j]);
        } else {
            assert(m1.live[j] == newb);
            // The popped entry and the remaining one are distinct entries
            // of the old lists.
            assert(m.lists[i2][p] != m.lists[i][last]);
        }
    }

    assert forall|j: int, j2: int|
        0 <= j < m1.live.len() && 0 <= j2 < m1.live.len() && j != j2 implies (
    #[trigger] m1.live[j]).addr != (#[trigger] m1.live[j2]).addr by {
        if j < m.live.len() && j2 < m.live.len() {
            assert(m1.live[j] == m.live[j] && m1.live[j2] == m.live[j2]);
        } else if j < m.live.len() {
            assert(m1.live[j] == m.live[j] && m1.live[j2] == newb);
            assert(m.lists[i][last] != m.live[j].addr);
        } else {
            assert(m1.live[j] == newb && m1.live[j2] == m.live[j2]);
            assert(m.lists[i][last] != m.live[j2].addr);
        }
    }
}

/// Growing the fallback by one fresh block that becomes live preserves
/// well-formedness: the new block is disjoint from everything the fallback
/// already accounted for, so its address is fresh.
proof fn lemma_wf_after_fallback_grow(m: FsbModel, newb: FsbBlock, fb1: FreeListModel)
    requires
        m.wf(),
        fb1.wf(),
        fb1.live =~= m.fallback.live.push(carved_node(newb)),
        match newb.class {
            Some(i) => 0 <= i < BLOCK_SIZES_COUNT && newb.size == spec_block_size(i as int)
                && newb.addr % (spec_carved(i as int) as usize) == 0,
            None => newb.size >= NODE_SIZE,
        },
        carved_node(newb).size >= 1,
        forall|j: int|
            0 <= j < m.fallback.live.len() ==> nodes_disjoint(
                carved_node(newb),
                #[trigger] m.fallback.live[j],
            ),
    ensures
        (FsbModel { lists: m.lists, fallback: fb1, live: m.live.push(newb) }).wf(),
{
    let m1 = FsbModel { lists: m.lists, fallback: fb1, live: m.live.push(newb) };
    let cn = carved_node(newb);
    assert(fb1.live == m.fallback.live.push(cn));

    assert forall|i2: int, p: int|
        0 <= i2 < m1.lists.len() && 0 <= p < m1.lists[i2].len() implies m1.fallback.live.contains(
        ListNode { start: #[trigger] m1.lists[i2][p], size: spec_carved(i2) as usize },
    ) && m1.lists[i2][p] % (spec_carved(i2) as usize) == 0 by {
        let en = ListNode { start: m.lists[i2][p], size: spec_carved(i2) as usize };
        assert(m.fallback.live.contains(en));
        lemma_contains_push(m.fallback.live, cn, en);
    }

    assert forall|j: int| 0 <= j < m1.live.len() implies m1.live_block_ok(
        #[trigger] m1.live[j],
    ) by {
        if j < m.live.len() {
            assert(m1.live[j] == m.live[j]);
            assert(m.live_block_ok(m.live[j]));
            lemma_contains_push(m.fallback.live, cn, carved_node(m.live[j]));
        } else {
            assert(m1.live[j] == newb);
            lemma_contains_push(m.fallback.live, cn, cn);
        }
    }

    // The fresh address differs from every entry and every live block:
    // their carved footprints stand in the old fallback live set, and the
    // new block is disjoint from all of them.
    assert forall|i2: int, p: int, j: int|
        0 <= i2 < m1.lists.len() && 0 <= p < m1.lists[i2].len() && 0 <= j
            < m1.live.len() implies #[trigger] m1.lists[i2][p] != (#[trigger] m1.live[j]).addr by {
        assert(m1.lists[i2][p] == m.lists[i2][p]);
        if j < m.live.len() {
            assert(m1.live[j] == m.live[j]);
        } else {
            assert(m1.live[j] == newb);
            let en = ListNode { start: m.lists[i2][p], size: spec_carved(i2) as usize };
            assert(m.fallback.live.contains(en));
            let ix = choose|ix: int| 0 <= ix < m.fallback.live.len() && m.fallback.live[ix] == en;
            assert(nodes_disjoint(cn, m.fallback.live[ix]));
        }
    }

    assert forall|j: int, j2: int|
        0 <= j < m1.live.len() && 0 <= j2 < m1.live.len() && j != j2 implies (
    #[trigger] m1.live[j]).addr != (#[trigger] m1.live[j2]).addr by {
        if j < m.live.len() && j2 < m.live.len() {
            assert(m1.live[j] == m.live[j] && m1.live[j2] == m.live[j2]);
        } else {
            let jo = if j < m.live.len() {
                j
            } else {
                j2
            };
            assert(m1.live[jo] == m.live[jo]);
            let en = carved_node(m.live[jo]);
            assert(m.live_block_ok(m.live[jo]));
            let ix = choose|ix: int| 0 <= ix < m.fallback.live.len() && m.fallback.live[ix] == en;
            assert(nodes_disjoint(cn, m.fallback.live[ix]));
        }
    }

    assert forall|i2: int, p: int, i3: int, p3: int|
        0 <= i2 < m1.lists.len() && 0 <= p < m1.lists[i2].len() && 0 <= i3 < m1.lists.len() && 0
            <= p3 < m1.lists[i3].len() && (i2 != i3 || p != p3) implies #[trigger] m1.lists[i2][p]
        != #[trigger] m1.lists[i3][p3] by {
        assert(m1.lists[i2][p] == m.lists[i2][p]);
        assert(m1.lists[i3][p3] == m.lists[i3][p3]);
    }
}

/// An allocation succeeds exactly when its class has a recycled block, or
/// the fallback can carve one fresh block of the class layout, or — for a
/// request beyond every class — the fallback can serve it directly.
pub open spec fn fsb_can_allocate(m: FsbModel, size: int, align: int) -> bool {
    let i = spec_list_index(size, align);
    if i >= 0 {
        m.lists[i].len() > 0 || fl_can_allocate(m.fallback, spec_block_size(i), spec_block_size(i))
    } else {
        fl_can_allocate(m.fallback, size, align)
    }
}

/// Address of a successful allocation: the head of the class list if it has
/// one, else what the fallback hands out.
pub open spec fn fsb_allocate_result(m: FsbModel, size: int, align: int) -> int {
    let i = spec_list_index(size, align);
    if i >= 0 {
        if m.lists[i].len() > 0 {
            m.lists[i].last() as int
        } else {
            fl_allocate_result(m.fallback, spec_block_size(i), spec_block_size(i))
        }
    } else {
        fl_allocate_result(m.fallback, size, align)
    }
}

/// State after a successful allocation.
pub open spec fn fsb_after_allocate(m: FsbModel, size: int, align: int) -> FsbModel {
    let i = spec_list_index(size, align);
    if i >= 0 {
        if m.lists[i].len() > 0 {
            FsbModel {
                lists: m.lists.update(i, m.lists[i].drop_last()),
                fallback: m.fallback,
                live: m.live.push(
                    FsbBlock {
                        addr: m.lists[i].last(),
                        class: Some(i as usize),
                        size: spec_block_size(i) as usize,
                    },
                ),
            }
        } else {
            FsbModel {
                lists: m.lists,
                fallback: fl_after_allocate(m.fallback, spec_block_size(i), spec_block_size(i)),
                live: m.live.push(
                    FsbBlock {
                        addr: fl_allocate_result(
                            m.fallback,
                            spec_block_size(i),
                            spec_block_size(i),
                        ) as usize,
                        class: Some(i as usize),
                        size: spec_block_size(i) as usize,
                    },
                ),
            }
        }
    } else {
        FsbModel {
            lists: m.lists,
            fallback: fl_after_allocate(m.fallback, size, align),
            live: m.live.push(
                FsbBlock {
                    addr: fl_allocate_result(m.fallback, size, align) as usize,
                    class: None,
                    size: norm_size(size, align) as usize,
                },
            ),
        }
    }
}

/// The live block that a deallocation of `(ptr, size, align)` must match:
/// the same class routing as the matching allocation.
pub open spec fn fsb_block_for(ptr: usize, size: int, align: int) -> FsbBlock {
    let i = spec_list_index(size, align);
    if i >= 0 {
        FsbBlock { addr: ptr, class: Some(i as usize), size: spec_block_size(i) as usize }
    } else {
        FsbBlock { addr: ptr, class: None, size: norm_size(size, align) as usize }
    }
}

/// State after freeing the live block at index `j`: a class block becomes
/// the new head of its class list, a pass-through block returns to the
/// fallback's free list.
pub open spec fn fsb_after_deallocate(m: FsbModel, j: int, size: int, align: int) -> FsbModel {
    let i = spec_list_index(size, align);
    if i >= 0 {
        FsbModel {
            lists: m.lists.update(i, m.lists[i].push(m.live[j].addr)),
            fallback: m.fallback,
            live: m.live.remove(j),
        }
    } else {
        FsbModel {
            lists: m.lists,
            fallback: fl_after_deallocate(
                m.fallback,
                m.fallback.live.index_of(carved_node(m.live[j])),
            ),
            live: m.live.remove(j),
        }
    }
}

/// Pushing a freed class block onto its class list preserves
/// well-formedness: the block moves from the live set to the class list.
proof fn lemma_wf_dealloc_class(m: FsbModel, j: int, i: int)
    requires
        m.wf(),
        0 <= j < m.live.len(),
        0 <= i < BLOCK_SIZES_COUNT,
        m.live[j].class == Some(i as usize),
    ensures
        (FsbModel {
            lists: m.lists.update(i, m.lists[i].push(m.live[j].addr)),
            fallback: m.fallback,
            live: m.live.remove(j),
        }).wf(),
{
    let b = m.live[j];
    assert(m.live_block_ok(b));
    let m1 = FsbModel {
        lists: m.lists.update(i, m.lists[i].push(b.addr)),
        fallback: m.fallback,
        live: m.live.remove(j),
    };
    let newp = m.lists[i].len();

    assert forall|i2: int, p: int|
        0 <= i2 < m1.lists.len() && 0 <= p < m1.lists[i2].len() implies m1.fallback.live.contains(
        ListNode { start: #[trigger] m1.lists[i2][p], size: spec_carved(i2) as usize },
    ) && m1.lists[i2][p] % (spec_carved(i2) as usize) == 0 by {
        if i2 == i && p == newp {
            assert(m1.lists[i2][p] == b.addr);
        } else {
            assert(m1.lists[i2][p] == m.lists[i2][p]);
        }
    }

    assert forall|j2: int| 0 <= j2 < m1.live.len() implies m1.live_block_ok(
        #[trigger] m1.live[j2],
    ) by {
        let j0 = if j2 < j {
            j2
        } else {
            j2 + 1
        };
        assert(m1.live[j2] == m.live[j0]);
        assert(m.live_block_ok(m.live[j0]));
    }

    assert forall|i2: int, p: int, i3: int, p3: int|
        0 <= i2 < m1.lists.len() && 0 <= p < m1.lists[i2].len() && 0 <= i3 < m1.lists.len() && 0
            <= p3 < m1.lists[i3].len() && (i2 != i3 || p != p3) implies #[trigger] m1.lists[i2][p]
        != #[trigger] m1.lists[i3][p3] by {
        if i2 == i && p == newp {
            assert(m1.lists[i2][p] == b.addr);
            assert(m1.lists[i3][p3] == m.lists[i3][p3]);
            assert(m.lists[i3][p3] != m.live[j].addr);
        } else if i3 == i && p3 == newp {
            assert(m1.lists[i3][p3] == b.addr);
            assert(m1.lists[i2][p] == m.lists[i2][p]);
            assert(m.lists[i2][p] != m.live[j].addr);
        } else {
            assert(m1.lists[i2][p] == m.lists[i2][p]);
            assert(m1.lists[i3][p3] == m.lists[i3][p3]);
        }
    }

    assert forall|i2: int, p: int, j2: int|
        0 <= i2 < m1.lists.len() && 0 <= p < m1.lists[i2].len() && 0 <= j2
            < m1.live.len() implies #[trigger] m1.lists[i2][p] != (#[trigger] m1.live[j2]).addr by {
        let j0 = if j2 < j {
            j2
        } else {
            j2 + 1
        };
        assert(m1.live[j2] == m.live[j0]);
        if i2 == i && p == newp {
            assert(m1.lists[i2][p] == b.addr);
            assert(m.live[j].addr != m.live[j0].addr);
        } else {
            assert(m1.lists[i2][p] == m.lists[i2][p]);
            assert(m.lists[i2][p] != m.live[j0].addr);
        }
    }

    assert forall|j2: int, j3: int|
        0 <= j2 < m1.live.len() && 0 <= j3 < m1.live.len() && j2 != j3 implies (
    #[trigger] m1.live[j2]).addr != (#[trigger] m1.live[j3]).addr by {
        let j20 = if j2 < j {
            j2
        } else {
            j2 + 1
        };
        let j30 = if j3 < j {
            j3
        } else {
            j3 + 1
        };
        assert(m1.live[j2] == m.live[j20] && m1.live[j3] == m.live[j30]);
        assert(m.live[j20].addr != m.live[j30].addr);
    }
}

/// Returning a pass-through block to the fallback preserves
/// well-formedness: every other entry and live block keeps its own carved
/// footprint inside the shrunken fallback live set.
proof fn lemma_wf_dealloc_fallback(m: FsbModel, j: int, fb1: FreeListModel, jf: int)
    requires
        m.wf(),
        0 <= j < m.live.len(),
        m.live[j].class is None,
        fb1.wf(),
        0 <= jf < m.fallback.live.len(),
        m.fallback.live[jf] == carved_node(m.live[j]),
        fb1.live =~= m.fallback.live.remove(jf),
    ensures
        (FsbModel { lists: m.lists, fallback: fb1, live: m.live.remove(j) }).wf(),
{
    let b = m.live[j];
    let cn = carved_node(b);
    let m1 = FsbModel { lists: m.lists, fallback: fb1, live: m.live.remove(j) };
    assert(fb1.live == m.fallback.live.remove(jf));

    assert forall|i2: int, p: int|
        0 <= i2 < m1.lists.len() && 0 <= p < m1.lists[i2].len() implies m1.fallback.live.contains(
        ListNode { start: #[trigger] m1.lists[i2][p], size: spec_carved(i2) as usize },
    ) && m1.lists[i2][p] % (spec_carved(i2) as usize) == 0 by {
        let en = ListNode { start: m.lists[i2][p], size: spec_carved(i2) as usize };
        assert(m.fallback.live.contains(en));
        assert(m.lists[i2][p] != b.addr);
        lemma_contains_remove(m.fallback.live, jf, en);
    }

    assert forall|j2: int| 0 <= j2 < m1.live.len() implies m1.live_block_ok(
        #[trigger] m1.live[j2],
    ) by {
        let j0 = if j2 < j {
            j2
        } else {
            j2 + 1
        };
        assert(m1.live[j2] == m.live[j0]);
        assert(m.live_block_ok(m.live[j0]));
        assert(m.live[j0].addr != b.addr);
        lemma_contains_remove(m.fallback.live, jf, carved_node(m.live[j0]));
    }

    assert forall|i2: int, p: int, j2: int|
        0 <= i2 < m1.lists.len() && 0 <= p < m1.lists[i2].len() && 0 <= j2
            < m1.live.len() implies #[trigger] m1.lists[i2][p] != (#[trigger] m1.live[j2]).addr by {
        let j0 = if j2 < j {
            j2
        } else {
            j2 + 1
        };
        assert(m1.live[j2] == m.live[j0]);
        assert(m.lists[i2][p] != m.live[j0].addr);
    }

    assert forall|j2: int, j3: int|
        0 <= j2 < m1.live.len() && 0 <= j3 < m1.live.len() && j2 != j3 implies (
    #[trigger] m1.live[j2]).addr != (#[trigger] m1.live[j3]).addr by {
        let j20 = if j2 < j {
            j2
        } else {
            j2 + 1
        };
        let j30 = if j3 < j {
            j3
        } else {
            j3 + 1
        };
        assert(m1.live[j2] == m.live[j20] && m1.live[j3] == m.live[j30]);
        assert(m.live[j20].addr != m.live[j30].addr);
    }
}

/// A successful allocation preserves well-formedness, whichever path
/// served it: class pop, class carve, or fallback pass-through.
pub proof fn lemma_fsb_allocate_preserves_wf(m: FsbModel, size: int, align: int)
    requires
        m.wf(),
        spec_is_power_of_two(align),
        size >= 0,
        fsb_can_allocate(m, size, align),
    ensures
        fsb_after_allocate(m, size, align).wf(),
{
    let i = spec_list_index(size, align);
    if i >= 0 {
        lemma_list_index_fits(size, align);
        if m.lists[i].len() > 0 {
            lemma_wf_class_pop(m, i);
        } else {
            let bs = spec_block_size(i);
            lemma_block_size_pow2(i);
            lemma_carved_is_norm(i);
            let a = fl_allocate_result(m.fallback, bs, bs);
            let newb = FsbBlock {
                addr: a as usize,
                class: Some(i as usize),
                size: bs as usize,
            };
            crate::allocator::linked_list::lemma_fl_fresh_block_disjoint(m.fallback, bs, bs);
            assert(carved_node(newb) == ListNode {
                start: a as usize,
                size: spec_carved(i) as usize,
            });
            assert(a % spec_carved(i) == 0);
            crate::allocator::linked_list::lemma_fl_allocate_preserves_wf(m.fallback, bs, bs);
            let fb1 = fl_after_allocate(m.fallback, bs, bs);
            assert(fb1.live =~= m.fallback.live.push(carved_node(newb)));
            lemma_wf_after_fallback_grow(m, newb, fb1);
        }
    } else {
        let ns = norm_size(size, align);
        let a = fl_allocate_result(m.fallback, size, align);
        let newb = FsbBlock { addr: a as usize, class: None, size: ns as usize };
        crate::allocator::linked_list::lemma_fl_fresh_block_disjoint(m.fallback, size, align);
        assert(carved_node(newb) == ListNode { start: a as usize, size: ns as usize });
        crate::allocator::linked_list::lemma_fl_allocate_preserves_wf(m.fallback, size, align);
        let fb1 = fl_after_allocate(m.fallback, size, align);
        assert(fb1.live =~= m.fallback.live.push(carved_node(newb)));
        lemma_wf_after_fallback_grow(m, newb, fb1);
    }
}

/// A matching deallocation preserves well-formedness: the block moves to
/// its class list, or back to the fallback's free list.
pub proof fn lemma_fsb_deallocate_preserves_wf(m: FsbModel, ptr: usize, size: int, align: int)
    requires
        m.wf(),
        m.live.contains(fsb_block_for(ptr, size, align)),
    ensures
        fsb_after_deallocate(
            m,
            m.live.index_of(fsb_block_for(ptr, size, align)),
            size,
            align,
        ).wf(),
{
    let b = fsb_block_for(ptr, size, align);
    let j = m.live.index_of(b);
    assert(0 <= j < m.live.len() && m.live[j] == b);
    let i = spec_list_index(size, align);
    if i >= 0 {
        lemma_list_index_fits(size, align);
        lemma_wf_dealloc_class(m, j, i);
    } else {
        assert(m.live_block_ok(b));
        assert(m.fallback.live.contains(carved_node(b)));
        let jf = m.fallback.live.index_of(carved_node(b));
        assert(0 <= jf < m.fallback.live.len() && m.fallback.live[jf] == carved_node(b));
        crate::allocator::linked_list::lemma_fl_deallocate_preserves_wf(m.fallback, jf);
        let fb1 = fl_after_deallocate(m.fallback, jf);
        assert(fb1.live =~= m.fallback.live.remove(jf));
        lemma_wf_dealloc_fallback(m, j, fb1, jf);
    }
}

/// One request to an allocator engine.
pub enum HeapOp {
    Allocate { size: usize, align: usize },
    Deallocate { ptr: usize, size: usize, align: usize },
}

/// One step of the engine: a request that the engine's contract admits is
/// applied; any other — a failed allocation, or a deallocation that
/// matches no live block — leaves the state unchanged.
pub open spec fn fsb_step(m: FsbModel, op: HeapOp) -> FsbModel {
    match op {
        HeapOp::Allocate { size, align } => {
            if spec_is_power_of_two(align as int) && fsb_can_allocate(
                m,
                size as int,
                align as int,
            ) {
                fsb_after_allocate(m, size as int, align as int)
            } else {
                m
            }
        },
        HeapOp::Deallocate { ptr, size, align } => {
            let b = fsb_block_for(ptr, size as int, align as int);
            if m.live.contains(b) {
                fsb_after_deallocate(m, m.live.index_of(b), size as int, align as int)
            } else {
                m
            }
        },
    }
}

/// The engine's state after a whole sequence of requests, first to last.
pub open spec fn fsb_run(m: FsbModel, ops: Seq<HeapOp>) -> FsbModel
    decreases ops.len(),
{
    if ops.len() == 0 {
        m
    } else {
        fsb_run(fsb_step(m, ops[0]), ops.drop_first())
    }
}

/// Each single step preserves well-formedness.
pub proof fn lemma_fsb_step_wf(m: FsbModel, op: HeapOp)
    requires
        m.wf(),
    ensures
        fsb_step(m, op).wf(),
{
    match op {
        HeapOp::Allocate { size, align } => {
            if spec_is_power_of_two(align as int) && fsb_can_allocate(
                m,
                size as int,
                align as int,
            ) {
                lemma_fsb_allocate_preserves_wf(m, size as int, align as int);
            }
        },
        HeapOp::Deallocate { ptr, size, align } => {
            let b = fsb_block_for(ptr, size as int, align as int);
            if m.live.contains(b) {
                lemma_fsb_deallocate_preserves_wf(m, ptr, size as int, align as int);
            }
        },
    }
}

/// Well-formedness holds after any sequence of requests.
pub proof fn lemma_fsb_run_wf(m: FsbModel, ops: Seq<HeapOp>)
    requires
        m.wf(),
    ensures
        fsb_run(m, ops).wf(),
    decreases ops.len(),
{
    if ops.len() > 0 {
        lemma_fsb_step_wf(m, ops[0]);
        lemma_fsb_run_wf(fsb_step(m, ops[0]), ops.drop_first());
    }
}

/// For every sequence of allocations and deallocations applied to a
/// well-formed engine, any two allocations still live at its end occupy
/// non-overlapping memory.
pub proof fn lemma_fsb_trace_live_disjoint(m: FsbModel, ops: Seq<HeapOp>, j: int, j2: int)
    requires
        m.wf(),
        0 <= j < fsb_run(m, ops).live.len(),
        0 <= j2 < fsb_run(m, ops).live.len(),
        j != j2,
    ensures
        nodes_disjoint(
            user_node(fsb_run(m, ops).live[j]),
            user_node(fsb_run(m, ops).live[j2]),
        ),
{
    lemma_fsb_run_wf(m, ops);
    lemma_fsb_live_disjoint(fsb_run(m, ops), j, j2);
}

/// Every byte the engine administers lies inside `[lo, hi)`: all of its
/// fallback's free regions and carved blocks do.
pub open spec fn fsb_bounded(m: FsbModel, lo: int, hi: int) -> bool {
    crate::allocator::linked_list::fl_bounded(m.fallback, lo, hi)
}

/// Each single step keeps the engine inside the heap bounds.
pub proof fn lemma_fsb_step_bounded(m: FsbModel, op: HeapOp, lo: int, hi: int)
    requires
        m.wf(),
        fsb_bounded(m, lo, hi),
    ensures
        fsb_bounded(fsb_step(m, op), lo, hi),
{
    match op {
        HeapOp::Allocate { size, align } => {
            if spec_is_power_of_two(align as int) && fsb_can_allocate(
                m,
                size as int,
                align as int,
            ) {
                let i = spec_list_index(size as int, align as int);
                if i >= 0 {
                    lemma_list_index_fits(size as int, align as int);
                    if m.lists[i].len() == 0 {
                        lemma_block_size_pow2(i);
                        crate::allocator::linked_list::lemma_fl_allocate_preserves_bounded(
                            m.fallback,
                            spec_block_size(i),
                            spec_block_size(i),
                            lo,
                            hi,
                        );
                    }
                } else {
                    crate::allocator::linked_list::lemma_fl_allocate_preserves_bounded(
                        m.fallback,
                        size as int,
                        align as int,
                        lo,
                        hi,
                    );
                }
            }
        },
        HeapOp::Deallocate { ptr, size, align } => {
            let b = fsb_block_for(ptr, size as int, align as int);
            if m.live.contains(b) {
                let j = m.live.index_of(b);
                assert(0 <= j < m.live.len() && m.live[j] == b);
                let i = spec_list_index(size as int, align as int);
                if i < 0 {
                    assert(m.live_block_ok(b));
                    assert(m.fallback.live.contains(carved_node(b)));
                    let jf = m.fallback.live.index_of(carved_node(b));
                    assert(0 <= jf < m.fallback.live.len());
                    crate::allocator::linked_list::lemma_fl_deallocate_preserves_bounded(
                        m.fallback,
                        jf,
                        lo,
                        hi,
                    );
                }
            }
        },
    }
}

/// The engine stays inside the heap bounds over any sequence of requests.
pub proof fn lemma_fsb_run_bounded(m: FsbModel, ops: Seq<HeapOp>, lo: int, hi: int)
    requires
        m.wf(),
        fsb_bounded(m, lo, hi),
    ensures
        fsb_bounded(fsb_run(m, ops), lo, hi),
    decreases ops.len(),
{
    if ops.len() > 0 {
        lemma_fsb_step_bounded(m, ops[0], lo, hi);
        lemma_fsb_step_wf(m, ops[0]);
        lemma_fsb_run_bounded(fsb_step(m, ops[0]), ops.drop_first(), lo, hi);
    }
}

/// Every live allocation of a bounded, well-formed engine lies wholly
/// inside the heap region: allocations never escape the capacity the
/// engine was given.
pub proof fn lemma_fsb_live_within_bounds(m: FsbModel, lo: int, hi: int, j: int)
    requires
        m.wf(),
        fsb_bounded(m, lo, hi),
        0 <= j < m.live.len(),
    ensures
        lo <= user_node(m.live[j]).start,
        node_end(user_node(m.live[j])) <= hi,
{
    let b = m.live[j];
    assert(m.live_block_ok(b));
    if b.class is Some {
        lemma_carved_is_norm(b.class->0 as int);
    }
    let cn = carved_node(b);
    let jf = choose|jf: int| 0 <= jf < m.fallback.live.len() && m.fallback.live[jf] == cn;
    assert(lo <= m.fallback.live[jf].start && node_end(m.fallback.live[jf]) <= hi);
}

/// Freeing a class block and immediately requesting the same layout again
/// returns the exact same address, deterministically: the deallocation
/// pushes the block onto the head of its class list, and the next
/// allocation of that class pops the head.
pub proof fn lemma_fsb_immediate_reuse(m: FsbModel, ptr: usize, size: int, align: int)
    requires
        m.wf(),
        spec_list_index(size, align) >= 0,
        m.live.contains(fsb_block_for(ptr, size, align)),
    ensures
        ({
            let j = m.live.index_of(fsb_block_for(ptr, size, align));
            let m1 = fsb_after_deallocate(m, j, size, align);
            &&& fsb_can_allocate(m1, size, align)
            &&& fsb_allocate_result(m1, size, align) == ptr
        }),
{
    let i = spec_list_index(size, align);
    lemma_list_index_fits(size, align);
    let b = fsb_block_for(ptr, size, align);
    let j = m.live.index_of(b);
    assert(0 <= j < m.live.len() && m.live[j] == b);
    let m1 = fsb_after_deallocate(m, j, size, align);
    assert(m1.lists[i] == m.lists[i].push(ptr));
    assert(m1.lists[i].last() == ptr);
}

/// Bucketed strategy for small and medium requests, delegating to an
/// embedded free-list allocator for class refills and oversized requests.
pub struct FixedSizeBlockAllocator {
    list_heads: Vec<Vec<usize>>,
    fallback_allocator: LinkedListAllocator,
    live: Ghost<Seq<FsbBlock>>,
}

impl View for FixedSizeBlockAllocator {
    type V = FsbModel;

    closed spec fn view(&self) -> FsbModel {
        FsbModel {
            lists: self.list_heads@.map_values(|v: Vec<usize>| v@),
            fallback: self.fallback_allocator@,
            live: self.live@,
        }
    }
}

impl FixedSizeBlockAllocator {
    /// An allocator with every class list empty and an empty fallback:
    /// every allocation fails until a heap region is handed to it.
    pub fn new() -> (r: FixedSizeBlockAllocator)
        ensures
            r@.wf(),
            r@.lists.len() == BLOCK_SIZES_COUNT,
            forall|i: int| 0 <= i < BLOCK_SIZES_COUNT ==> (#[trigger] r@.lists[i]).len() == 0,
            r@.fallback.regions.len() == 0,
            r@.fallback.live.len() == 0,
            r@.live.len() == 0,
    {
        let mut heads: Vec<Vec<usize>> = Vec::new();
        let mut i: usize = 0;
        while i < BLOCK_SIZES_COUNT
            invariant
                i <= BLOCK_SIZES_COUNT,
                heads@.len() == i,
                forall|k: int| 0 <= k < i ==> (#[trigger] heads@[k])@.len() == 0,
            decreases BLOCK_SIZES_COUNT - i,
        {
            heads.push(Vec::new());
            i = i + 1;
        }
        let r = FixedSizeBlockAllocator {
            list_heads: heads,
            fallback_allocator: LinkedListAllocator::new(),
            live: Ghost(Seq::empty()),
        };
        proof {
            assert(forall|k: int|
                0 <= k < BLOCK_SIZES_COUNT ==> (#[trigger] r@.lists[k]).len() == 0);
        }
        r
    }

    /// Hands the heap region to the embedded fallback allocator.  To be
    /// called exactly once, before any allocation: the allocator must still
    /// be empty.
    pub fn init(&mut self, heap_start: usize, heap_size: usize)
        requires
            old(self)@.wf(),
            old(self)@.fallback.regions.len() == 0,
            old(self)@.fallback.live.len() == 0,
            heap_start % 8 == 0,
            heap_size >= NODE_SIZE,
            heap_start + heap_size <= usize::MAX,
        ensures
            final(self)@.wf(),
            final(self)@.lists == old(self)@.lists,
            final(self)@.live == old(self)@.live,
            final(self)@.fallback.regions =~= seq![
                ListNode { start: heap_start, size: heap_size },
            ],
            final(self)@.fallback.live == old(self)@.fallback.live,
    {
        self.fallback_allocator.init(heap_start, heap_size);
    }

    /// Forwards a request unmodified to the embedded fallback allocator.
    /// The class lists and the live set are untouched; the ghost
    /// bookkeeping of the block handed out is the caller's.
    fn fallback_alloc(&mut self, size: usize, align: usize) -> (r: Option<usize>)
        requires
            old(self)@.fallback.wf(),
            spec_is_power_of_two(align as int),
        ensures
            final(self)@.lists == old(self)@.lists,
            final(self)@.live == old(self)@.live,
            r is Some <==> fl_can_allocate(old(self)@.fallback, size as int, align as int),
            r is None ==> final(self)@.fallback == old(self)@.fallback,
            r is Some ==> {
                let ns = norm_size(size as int, align as int);
                let i = first_fit_index(old(self)@.fallback.regions, ns, norm_align(align as int));
                &&& r->0 == fl_allocate_result(old(self)@.fallback, size as int, align as int)
                &&& final(self)@.fallback =~= fl_after_allocate(
                    old(self)@.fallback,
                    size as int,
                    align as int,
                )
                &&& r->0 % align == 0
                &&& size <= ns
                &&& final(self)@.fallback.wf()
                &&& forall|j: int|
                    0 <= j < old(self)@.fallback.live.len() ==> nodes_disjoint(
                        ListNode { start: r->0, size: ns as usize },
                        #[trigger] old(self)@.fallback.live[j],
                    )
            },
    {
        self.fallback_allocator.allocate(size, align)
    }

    /// Serves a request of `size` bytes at power-of-two alignment `align`.
    /// A request that fits a class pops that class's head block in O(1),
    /// or — with the class list empty — carves exactly one fresh block of
    /// layout `(class size, class size)` from the fallback; a request
    /// beyond the largest class is forwarded to the fallback unmodified.
    /// Succeeds if and only if the class holds a recycled block or the
    /// fallback can host the carved or forwarded request; the address
    /// returned respects the requested alignment and overlaps no other
    /// currently-live allocation.
    pub fn allocate(&mut self, size: usize, align: usize) -> (r: Option<usize>)
        requires
            old(self)@.wf(),
            spec_is_power_of_two(align as int),
        ensures
            final(self)@.wf(),
            r is Some <==> fsb_can_allocate(old(self)@, size as int, align as int),
            r is None ==> final(self)@ == old(self)@,
            r is Some ==> {
                &&& r->0 == fsb_allocate_result(old(self)@, size as int, align as int)
                &&& final(self)@ =~= fsb_after_allocate(old(self)@, size as int, align as int)
                &&& r->0 % align == 0
                &&& final(self)@.live.len() == old(self)@.live.len() + 1
                &&& final(self)@.live.last().addr == r->0
                &&& size <= final(self)@.live.last().size
                &&& forall|j: int|
                    0 <= j < old(self)@.live.len() ==> nodes_disjoint(
                        user_node(final(self)@.live.last()),
                        user_node(#[trigger] old(self)@.live[j]),
                    )
            },
    {
        let ghost m0 = self@;
        proof {
            lemma_pow2_pos_int(align as int);
        }
        match list_index(size, align) {
            Some(index) => {
                let ghost i = index as int;
                let class_sz = block_size(index);
                proof {
                    lemma_list_index_fits(size as int, align as int);
                    lemma_block_size_pow2(i);
                    lemma_carved_is_norm(i);
                    lemma_pow2_divides(align as int, spec_block_size(i));
                }
                match self.list_heads[index].pop() {
                    Some(addr) => {
                        proof {
                            let newb = FsbBlock { addr, class: Some(index), size: class_sz };
                            assert(addr == m0.lists[i].last());
                            assert(addr % (spec_carved(i) as usize) == 0);
                            self.live@ = self.live@.push(newb);
                            let m1 = self@;
                            assert(m1.lists =~= m0.lists.update(i, m0.lists[i].drop_last()));
                            assert(m1 =~= fsb_after_allocate(m0, size as int, align as int));
                            lemma_wf_class_pop(m0, i);
                            assert(m1.wf());
                            lemma_divides_transitive(
                                addr as int,
                                spec_carved(i),
                                spec_block_size(i),
                            );
                            lemma_divides_transitive(
                                addr as int,
                                spec_block_size(i),
                                align as int,
                            );
                            assert forall|j: int| 0 <= j < m0.live.len() implies nodes_disjoint(
                                user_node(m1.live.last()),
                                user_node(#[trigger] m0.live[j]),
                            ) by {
                                assert(m1.live[j] == m0.live[j]);
                                lemma_fsb_live_disjoint(m1, m1.live.len() - 1, j);
                            }
                        }
                        Some(addr)
                    },
                    None => {
                        // No recycled block: carve exactly one fresh block
                        // of the class layout from the fallback.
                        let ghost mpre = self@;
                        proof {
                            assert(mpre =~= m0);
                        }
                        match self.fallback_alloc(class_sz, class_sz) {
                            Some(addr) => {
                                proof {
                                    let newb = FsbBlock {
                                        addr,
                                        class: Some(index),
                                        size: class_sz,
                                    };
                                    assert(carved_node(newb) == ListNode {
                                        start: addr,
                                        size: spec_carved(i) as usize,
                                    });
                                    // The fallback hands the block out
                                    // aligned to the carved footprint.
                                    let ffi = first_fit_index(
                                        m0.fallback.regions,
                                        spec_carved(i),
                                        spec_carved(i),
                                    );
                                    crate::allocator::linked_list::lemma_first_fit_index_spec(
                                        m0.fallback.regions,
                                        spec_carved(i),
                                        spec_carved(i),
                                    );
                                    lemma_align_up_properties(
                                        m0.fallback.regions[ffi].start as int,
                                        spec_carved(i),
                                    );
                                    assert(addr % (spec_carved(i) as usize) == 0);
                                    self.live@ = self.live@.push(newb);
                                    let m1 = self@;
                                    assert(m1 =~= fsb_after_allocate(m0, size as int, align as int));
                                    lemma_wf_after_fallback_grow(m0, newb, m1.fallback);
                                    assert(m1.wf());
                                    lemma_divides_transitive(
                                        addr as int,
                                        spec_carved(i),
                                        spec_block_size(i),
                                    );
                                    lemma_divides_transitive(
                                        addr as int,
                                        spec_block_size(i),
                                        align as int,
                                    );
                                    assert forall|j: int|
                                        0 <= j < m0.live.len() implies nodes_disjoint(
                                        user_node(m1.live.last()),
                                        user_node(#[trigger] m0.live[j]),
                                    ) by {
                                        assert(m1.live[j] == m0.live[j]);
                                        lemma_fsb_live_disjoint(m1, m1.live.len() - 1, j);
                                    }
                                }
                                Some(addr)
                            },
                            None => {
                                proof {
                                    assert(self@ =~= m0);
                                }
                                None
                            },
                        }
                    },
                }
            },
            None => {
                match self.fallback_alloc(size, align) {
                    Some(addr) => {
                        proof {
                            let ns = norm_size(size as int, align as int);
                            let newb = FsbBlock { addr, class: None, size: ns as usize };
                            assert(carved_node(newb) == ListNode {
                                start: addr,
                                size: ns as usize,
                            });
                            self.live@ = self.live@.push(newb);
                            let m1 = self@;
                            assert(m1 =~= fsb_after_allocate(m0, size as int, align as int));
                            lemma_wf_after_fallback_grow(m0, newb, m1.fallback);
                            assert(m1.wf());
                            assert forall|j: int| 0 <= j < m0.live.len() implies nodes_disjoint(
                                user_node(m1.live.last()),
                                user_node(#[trigger] m0.live[j]),
                            ) by {
                                assert(m1.live[j] == m0.live[j]);
                                lemma_fsb_live_disjoint(m1, m1.live.len() - 1, j);
                            }
                        }
                        Some(addr)
                    },
                    None => None,
                }
            },
        }
    }

    /// Frees the block at `ptr` that was handed out for a request of
    /// `size` bytes at alignment `align` — the same pair given to
    /// `allocate`.  The class index is recomputed from that layout: a
    /// class block becomes the new head of its class list in O(1),
    /// whatever its origin; a pass-through block returns to the fallback's
    /// free list.  Class blocks never flow back to the fallback.
    pub fn deallocate(&mut self, ptr: usize, size: usize, align: usize)
        requires
            old(self)@.wf(),
            old(self)@.live.contains(fsb_block_for(ptr, size as int, align as int)),
            spec_list_index(size as int, align as int) < 0 ==> align >= 1 && norm_size(
                size as int,
                align as int,
            ) <= usize::MAX,
        ensures
            final(self)@.wf(),
            ({
                let j = old(self)@.live.index_of(fsb_block_for(ptr, size as int, align as int));
                &&& 0 <= j < old(self)@.live.len()
                &&& old(self)@.live[j] == fsb_block_for(ptr, size as int, align as int)
                &&& final(self)@ =~= fsb_after_deallocate(old(self)@, j, size as int, align as int)
            }),
    {
        let ghost m0 = self@;
        let ghost b = fsb_block_for(ptr, size as int, align as int);
        let ghost j = m0.live.index_of(b);
        proof {
            assert(m0.live.contains(b));
            assert(0 <= j < m0.live.len() && m0.live[j] == b);
            assert(m0.live_block_ok(b));
        }
        match list_index(size, align) {
            Some(index) => {
                self.list_heads[index].push(ptr);
                proof {
                    self.live@ = self.live@.remove(j);
                    let m1 = self@;
                    assert(m1.lists =~= m0.lists.update(
                        index as int,
                        m0.lists[index as int].push(ptr),
                    ));
                    assert(m1 =~= fsb_after_deallocate(m0, j, size as int, align as int));
                    lemma_wf_dealloc_class(m0, j, index as int);
                    assert(m1.wf());
                }
            },
            None => {
                proof {
                    assert(m0.fallback.live.contains(carved_node(b)));
                    assert(carved_node(b) == ListNode {
                        start: ptr,
                        size: norm_size(size as int, align as int) as usize,
                    });
                }
                self.fallback_allocator.deallocate(ptr, size, align);
                proof {
                    let ghost jf = m0.fallback.live.index_of(carved_node(b));
                    self.live@ = self.live@.remove(j);
                    let m1 = self@;
                    assert(m1 =~= fsb_after_deallocate(m0, j, size as int, align as int));
                    lemma_wf_dealloc_fallback(m0, j, m1.fallback, jf);
                    assert(m1.wf());
                }
            },
        }
    }

    /// Number of recycled blocks currently on the free list of class
    /// `index`.
    pub fn class_list_len(&self, index: usize) -> (r: usize)
        requires
            index < BLOCK_SIZES_COUNT,
            self@.lists.len() == BLOCK_SIZES_COUNT,
        ensures
            r == self@.lists[index as int].len(),
    {
        self.list_heads[index].len()
    }
}

} // verus!
