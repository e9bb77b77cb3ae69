//! Shared pieces of the allocator engine: address alignment, power-of-two
//! facts, the free-block descriptor, and the facade that wraps one strategy
//! instance for the rest of the kernel.

pub mod bump;
pub mod fixed_size_block;
pub mod linked_list;

use vstd::prelude::*;
use vstd::arithmetic::div_mod::{
    lemma_fundamental_div_mod, lemma_mod_multiples_basic, lemma_div_pos_is_pos,
};
use vstd::arithmetic::mul::lemma_mul_nonnegative;
use vstd::arithmetic::power::{pow, lemma_pow_positive};
use vstd::arithmetic::power2::{is_pow2, is_pow2_exists, is_pow2_equiv, lemma_pow2_strictly_increases, pow2, lemma_pow2_adds, lemma_pow2_pos};
use crate::allocator::fixed_size_block::{
    FixedSizeBlockAllocator, FsbModel, fsb_can_allocate, fsb_allocate_result, fsb_after_allocate,
    fsb_after_deallocate, fsb_block_for, lemma_fsb_live_disjoint, spec_list_index, user_node,
    BLOCK_SIZES_COUNT,
};
use crate::allocator::linked_list::norm_size;
use crate::memory::{PageMapper, FrameSource, PageFlags};

verus! {

/// Virtual address where the kernel heap region begins (page-aligned).
pub const HEAP_START: usize = 0x4444_0000;

/// Size of the kernel heap region in bytes (a whole number of pages).
pub const HEAP_SIZE: usize = 100 * 1024;

/// Size in bytes of one page of the backing region.
pub const PAGE_SIZE: usize = 4096;

/// `addr` rounded up to the next multiple of `align` (meaningful for `align >= 1`).
pub open spec fn spec_align_up(addr: int, align: int) -> int {
    if addr % align == 0 {
        addr
    } else {
        addr + align - addr % align
    }
}

/// Rounding an address up to an alignment boundary lands between `addr` and
/// `addr + align`, on a multiple of `align`.
pub proof fn lemma_align_up_properties(addr: int, align: int)
    requires
        addr >= 0,
        align >= 1,
    ensures
        addr <= spec_align_up(addr, align) < addr + align,
        spec_align_up(addr, align) % align == 0,
        0 <= addr % align <= addr,
{
    let r = addr % align;
    let q = addr / align;
    lemma_fundamental_div_mod(addr, align);
    lemma_div_pos_is_pos(addr, align);
    lemma_mul_nonnegative(align, q);
    if r != 0 {
        assert(addr + align - r == align * (q + 1)) by {
            assert(addr == align * q + r);
            assert(align * (q + 1) == align * q + align) by (nonlinear_arith);
        }
        lemma_mod_multiples_basic(q + 1, align);
        assert((align * (q + 1)) % align == 0) by {
            assert(align * (q + 1) == (q + 1) * align) by (nonlinear_arith);
        }
    }
}

/// Aligns the address upwards to a specific alignment boundary.
pub fn align_up(addr: usize, align: usize) -> (r: usize)
    requires
        align >= 1,
        spec_align_up(addr as int, align as int) <= usize::MAX,
    ensures
        r == spec_align_up(addr as int, align as int),
        addr <= r < addr + align,
        r % align == 0,
{
    proof {
        lemma_align_up_properties(addr as int, align as int);
    }
    let rem = addr % align;
    if rem == 0 {
        addr
    } else {
        addr - rem + align
    }
}

/// Whether `n` is a power of two, so that rounding up to a multiple of `n`
/// yields a correctly aligned address.
pub open spec fn spec_is_power_of_two(n: int) -> bool {
    is_pow2(n)
}

/// Decides whether `n` is a power of two by stripping factors of two.
pub fn is_power_of_two(n: usize) -> (r: bool)
    ensures
        r == spec_is_power_of_two(n as int),
{
    if n == 0 {
        proof {
            reveal(is_pow2);
        }
        return false;
    }
    let mut m: usize = n;
    while m > 1
        invariant
            1 <= m <= n,
            is_pow2(n as int) == is_pow2(m as int),
        decreases m,
    {
        if m % 2 == 1 {
            proof {
                reveal(is_pow2);
                assert(!is_pow2(m as int));
            }
            return false;
        }
        proof {
            reveal(is_pow2);
            assert(is_pow2(m as int) == is_pow2(m as int / 2));
        }
        m = m / 2;
    }
    proof {
        reveal(is_pow2);
        assert(is_pow2(1int));
    }
    true
}

/// A power of two is positive.
pub proof fn lemma_pow2_pos_int(n: int)
    requires
        spec_is_power_of_two(n),
    ensures
        n >= 1,
{
    reveal(is_pow2);
}

/// Eight is a power of two.
pub proof fn lemma_is_pow2_8()
    ensures
        spec_is_power_of_two(8),
{
    reveal_with_fuel(is_pow2, 5);
}

/// Sixteen is a power of two.
pub proof fn lemma_is_pow2_16()
    ensures
        spec_is_power_of_two(16),
{
    reveal_with_fuel(is_pow2, 6);
}

/// A smaller power of two always divides a larger one.
pub proof fn lemma_pow2_divides(a: int, b: int)
    requires
        spec_is_power_of_two(a),
        spec_is_power_of_two(b),
        a <= b,
    ensures
        b % a == 0,
{
    is_pow2_equiv(a);
    is_pow2_equiv(b);
    assert(is_pow2_exists(a));
    assert(is_pow2_exists(b));
    assert(exists|i: nat| pow(2, i) == a);
    assert(exists|i: nat| pow(2, i) == b);
    let ea = choose|i: nat| pow(2, i) == a;
    let eb = choose|i: nat| pow(2, i) == b;
    lemma_pow_positive(2, ea);
    lemma_pow_positive(2, eb);
    assert(pow2(ea) == a);
    assert(pow2(eb) == b);
    if eb < ea {
        lemma_pow2_strictly_increases(eb, ea);
        assert(false);
    }
    let d = (eb - ea) as nat;
    lemma_pow2_pos(d);
    lemma_pow2_adds(d, ea);
    assert(b == pow2(d) * pow2(ea));
    lemma_mod_multiples_basic(pow2(d) as int, a);
    assert(pow2(d) as int * a == b) by (nonlinear_arith)
        requires
            b == pow2(d) * pow2(ea),
            pow2(ea) == a,
    ;
}

/// Divisibility is transitive: if `a` divides `b` and `b` divides `x`,
/// then `a` divides `x`.
pub proof fn lemma_divides_transitive(x: int, b: int, a: int)
    requires
        a >= 1,
        b >= 1,
        x >= 0,
        b % a == 0,
        x % b == 0,
    ensures
        x % a == 0,
{
    lemma_fundamental_div_mod(x, b);
    lemma_fundamental_div_mod(b, a);
    let qx = x / b;
    let qb = b / a;
    assert(x == b * qx);
    assert(b == a * qb);
    assert(x == (qb * qx) * a) by (nonlinear_arith)
        requires
            x == b * qx,
            b == a * qb,
    ;
    lemma_mod_multiples_basic(qb * qx, a);
}

/// A descriptor for one contiguous block of heap memory: its start address
/// and its size in bytes.
#[derive(Clone, Copy, PartialEq, Eq, Structural, Debug)]
pub struct ListNode {
    pub start: usize,
    pub size: usize,
}

impl ListNode {
    /// A descriptor for the block that begins at `start` and spans `size` bytes.
    pub fn new(start: usize, size: usize) -> (r: ListNode)
        ensures
            r == (ListNode { start, size }),
    {
        ListNode { start, size }
    }

    /// First address of the block.
    pub fn start_addr(&self) -> (r: usize)
        ensures
            r == self.start,
    {
        self.start
    }

    /// First address past the end of the block.
    pub fn end_addr(&self) -> (r: usize)
        requires
            self.start + self.size <= usize::MAX,
        ensures
            r == self.start + self.size,
    {
        self.start + self.size
    }
}

/// First address past the end of a block.
pub open spec fn node_end(r: ListNode) -> int {
    r.start + r.size
}

/// Two blocks occupy no common byte.
pub open spec fn nodes_disjoint(a: ListNode, b: ListNode) -> bool {
    a.start + a.size <= b.start || b.start + b.size <= a.start
}

/// The memory after a pattern has been laid down byte by byte from
/// offset `off`.
pub open spec fn write_pattern(mem: Seq<u8>, off: int, p: Seq<u8>) -> Seq<u8>
    decreases p.len(),
{
    if p.len() == 0 {
        mem
    } else {
        write_pattern(mem.update(off, p[0]), off + 1, p.drop_first())
    }
}

/// Round trip: a pattern written byte by byte reads back identically, and
/// no byte outside the written range changes.  Together with the
/// memory-preservation clauses of `KernelHeap::allocate` and
/// `KernelHeap::deallocate` — no strategy ever relocates or rewrites live
/// data — a pattern stored in an allocation persists for the allocation's
/// whole lifetime, across any later allocator traffic.
pub proof fn lemma_pattern_round_trip(mem: Seq<u8>, off: int, p: Seq<u8>)
    requires
        0 <= off,
        off + p.len() <= mem.len(),
    ensures
        write_pattern(mem, off, p).len() == mem.len(),
        forall|k: int|
            0 <= k < mem.len() ==> #[trigger] write_pattern(mem, off, p)[k] == (if off <= k < off
                + p.len() {
                p[k - off]
            } else {
                mem[k]
            }),
        write_pattern(mem, off, p).subrange(off, off + p.len()) =~= p,
    decreases p.len(),
{
    if p.len() > 0 {
        let m1 = mem.update(off, p[0]);
        lemma_pattern_round_trip(m1, off + 1, p.drop_first());
        assert forall|k: int| 0 <= k < mem.len() implies #[trigger] write_pattern(mem, off, p)[k]
            == (if off <= k < off + p.len() {
            p[k - off]
        } else {
            mem[k]
        }) by {
            assert(write_pattern(mem, off, p) == write_pattern(m1, off + 1, p.drop_first()));
            if off + 1 <= k < off + p.len() {
                assert(p.drop_first()[k - off - 1] == p[k - off]);
            }
        }
    }
}

/// Wraps one allocator strategy instance as the single shared allocator of
/// the kernel.  Mutual exclusion around the inner value is the caller's
/// concern; here exclusive access is expressed through `&mut`.
pub struct Locked<A> {
    pub inner: A,
}

impl<A> Locked<A> {
    /// Wraps `inner` as the shared instance.
    pub fn new(inner: A) -> (r: Self)
        ensures
            r.inner == inner,
    {
        Locked { inner }
    }

    /// Grants exclusive access to the wrapped strategy.
    pub fn lock(&mut self) -> (r: &mut A)
        ensures
            *r == old(self).inner,
            final(self).inner == *final(r),
    {
        &mut self.inner
    }
}

/// Why heap initialization failed.
#[derive(Clone, Copy, PartialEq, Eq, Structural, Debug)]
pub enum HeapInitError {
    /// The physical-frame source ran out of frames before every heap page
    /// was mapped.  Pages already mapped stay mapped: the walk is not
    /// transactional, and the caller must treat this as fatal to further
    /// heap use.
    FrameExhausted,
    /// The page mapper refused a translation; as above, not rolled back.
    MapFailed,
    /// The heap was already initialized; there is no re-initialization
    /// path, and the state is left untouched.
    AlreadyInitialized,
}

/// Mathematical state of the kernel heap facade: the allocator engine's
/// state, the bytes of the backing region, and the region's bounds.
#[verifier::ext_equal]
pub struct HeapModel {
    pub allocator: FsbModel,
    pub mem: Seq<u8>,
    pub heap_start: usize,
    pub initialized: bool,
}

impl HeapModel {
    /// Well-formedness of the facade: the engine is well-formed.
    pub open spec fn wf(self) -> bool {
        self.allocator.wf()
    }
}

/// The single globally-registered allocator of the kernel: one segregated
/// fixed-size-block strategy instance behind the facade's lock, together
/// with the backing heap region, created exactly once by the
/// initialization protocol and never resized or relocated afterward.
pub struct KernelHeap {
    allocator: Locked<FixedSizeBlockAllocator>,
    bytes: Vec<u8>,
    heap_start: usize,
    initialized: bool,
}

impl View for KernelHeap {
    type V = HeapModel;

    closed spec fn view(&self) -> HeapModel {
        HeapModel {
            allocator: self.allocator.inner@,
            mem: self.bytes@,
            heap_start: self.heap_start,
            initialized: self.initialized,
        }
    }
}

impl KernelHeap {
    /// A heap that has not been initialized: it owns no memory and every
    /// allocation fails.
    pub fn new() -> (r: KernelHeap)
        ensures
            r@.wf(),
            !r@.initialized,
            r@.mem.len() == 0,
            r@.allocator.live.len() == 0,
            r@.allocator.fallback.regions.len() == 0,
            r@.allocator.fallback.live.len() == 0,
            forall|i: int|
                0 <= i < BLOCK_SIZES_COUNT ==> (#[trigger] r@.allocator.lists[i]).len() == 0,
    {
        KernelHeap {
            allocator: Locked::new(FixedSizeBlockAllocator::new()),
            bytes: Vec::new(),
            heap_start: 0,
            initialized: false,
        }
    }

    /// Takes ownership of the page-aligned, fully mapped region
    /// `[heap_start, heap_start + heap_size)` and hands it to the engine.
    /// Rejects a second call: there is no re-initialization path.
    pub fn init(&mut self, heap_start: usize, heap_size: usize) -> (r: Result<(), HeapInitError>)
        requires
            old(self)@.wf(),
            old(self)@.allocator.fallback.regions.len() == 0,
            old(self)@.allocator.fallback.live.len() == 0,
            heap_start % PAGE_SIZE == 0,
            heap_size % PAGE_SIZE == 0,
            heap_size >= PAGE_SIZE,
            heap_start + heap_size <= usize::MAX,
        ensures
            r is Err <==> old(self)@.initialized,
            r is Err ==> r->Err_0 == HeapInitError::AlreadyInitialized && final(self)@ == old(
                self,
            )@,
            r is Ok ==> {
                &&& final(self)@.wf()
                &&& final(self)@.initialized
                &&& final(self)@.heap_start == heap_start
                &&& final(self)@.mem =~= Seq::new(heap_size as nat, |i: int| 0u8)
                &&& final(self)@.allocator.lists == old(self)@.allocator.lists
                &&& final(self)@.allocator.live == old(self)@.allocator.live
                &&& final(self)@.allocator.fallback.regions =~= seq![
                    ListNode { start: heap_start, size: heap_size },
                ]
                &&& final(self)@.allocator.fallback.live == old(self)@.allocator.fallback.live
            },
    {
        if self.initialized {
            return Err(HeapInitError::AlreadyInitialized);
        }
        proof {
            lemma_is_pow2_8();
            lemma_divides_transitive(heap_start as int, PAGE_SIZE as int, 8);
        }
        self.bytes = alloc_zeroed_bytes(heap_size);
        self.heap_start = heap_start;
        self.allocator.lock().init(heap_start, heap_size);
        self.initialized = true;
        Ok(())
    }

    /// Serves an allocation request through the engine.  The backing
    /// memory is untouched: no strategy ever moves or rewrites live data.
    pub fn allocate(&mut self, size: usize, align: usize) -> (r: Option<usize>)
        requires
            old(self)@.wf(),
            spec_is_power_of_two(align as int),
        ensures
            final(self)@.wf(),
            final(self)@.mem == old(self)@.mem,
            final(self)@.heap_start == old(self)@.heap_start,
            final(self)@.initialized == old(self)@.initialized,
            r is Some <==> fsb_can_allocate(old(self)@.allocator, size as int, align as int),
            r is None ==> final(self)@ == old(self)@,
            r is Some ==> {
                &&& r->0 == fsb_allocate_result(old(self)@.allocator, size as int, align as int)
                &&& final(self)@.allocator =~= fsb_after_allocate(
                    old(self)@.allocator,
                    size as int,
                    align as int,
                )
                &&& r->0 % align == 0
                &&& final(self)@.allocator.live.len() == old(self)@.allocator.live.len() + 1
                &&& final(self)@.allocator.live.last().addr == r->0
                &&& size <= final(self)@.allocator.live.last().size
                &&& forall|j: int|
                    0 <= j < old(self)@.allocator.live.len() ==> nodes_disjoint(
                        user_node(final(self)@.allocator.live.last()),
                        user_node(#[trigger] old(self)@.allocator.live[j]),
                    )
            },
    {
        self.allocator.lock().allocate(size, align)
    }

    /// Returns a block to the engine; the backing memory is untouched.
    pub fn deallocate(&mut self, ptr: usize, size: usize, align: usize)
        requires
            old(self)@.wf(),
            old(self)@.allocator.live.contains(fsb_block_for(ptr, size as int, align as int)),
            spec_list_index(size as int, align as int) < 0 ==> align >= 1 && norm_size(
                size as int,
                align as int,
            ) <= usize::MAX,
        ensures
            final(self)@.wf(),
            final(self)@.mem == old(self)@.mem,
            final(self)@.heap_start == old(self)@.heap_start,
            final(self)@.initialized == old(self)@.initialized,
            ({
                let j = old(self)@.allocator.live.index_of(
                    fsb_block_for(ptr, size as int, align as int),
                );
                &&& 0 <= j < old(self)@.allocator.live.len()
                &&& old(self)@.allocator.live[j] == fsb_block_for(ptr, size as int, align as int)
                &&& final(self)@.allocator =~= fsb_after_deallocate(
                    old(self)@.allocator,
                    j,
                    size as int,
                    align as int,
                )
            }),
    {
        self.allocator.lock().deallocate(ptr, size, align)
    }

    /// Number of recycled blocks on the engine's free list of class
    /// `index`.
    pub fn class_list_len(&self, index: usize) -> (r: usize)
        requires
            index < BLOCK_SIZES_COUNT,
            self@.wf(),
        ensures
            r == self@.allocator.lists[index as int].len(),
    {
        self.allocator.inner.class_list_len(index)
    }

    /// First address of the heap region.
    pub fn start_addr(&self) -> (r: usize)
        ensures
            r == self@.heap_start,
    {
        self.heap_start
    }

    /// Size of the heap region in bytes.
    pub fn size(&self) -> (r: usize)
        ensures
            r == self@.mem.len(),
    {
        self.bytes.len()
    }

    /// Reads the byte stored at address `addr`, or `None` outside the
    /// region.
    pub fn read_byte(&self, addr: usize) -> (r: Option<u8>)
        ensures
            (self@.heap_start <= addr && addr - self@.heap_start < self@.mem.len()) ==> r == Some(
                self@.mem[addr - self@.heap_start],
            ),
            !(self@.heap_start <= addr && addr - self@.heap_start < self@.mem.len()) ==> r is None,
    {
        if addr >= self.heap_start && addr - self.heap_start < self.bytes.len() {
            Some(self.bytes[addr - self.heap_start])
        } else {
            None
        }
    }

    /// Stores `value` at address `addr`; returns false, changing nothing,
    /// outside the region.  Only this byte changes: the allocator state
    /// and every other byte stay as they were.
    pub fn write_byte(&mut self, addr: usize, value: u8) -> (r: bool)
        ensures
            final(self)@.allocator == old(self)@.allocator,
            final(self)@.heap_start == old(self)@.heap_start,
            final(self)@.initialized == old(self)@.initialized,
            r <==> (old(self)@.heap_start <= addr && addr - old(self)@.heap_start < old(
                self,
            )@.mem.len()),
            r ==> final(self)@.mem == old(self)@.mem.update(addr - old(self)@.heap_start, value),
            !r ==> final(self)@ == old(self)@,
    {
        if addr >= self.heap_start && addr - self.heap_start < self.bytes.len() {
            let off = addr - self.heap_start;
            self.bytes[off] = value;
            true
        } else {
            false
        }
    }
}

/// Any two currently-live allocations of the kernel heap are disjoint;
/// with the alignment clause of `KernelHeap::allocate`, every address the
/// facade returns respects the requested alignment and overlaps no other
/// live allocation, whatever sequence of allocations produced the state.
pub proof fn lemma_heap_live_disjoint(m: HeapModel, j: int, j2: int)
    requires
        m.wf(),
        0 <= j < m.allocator.live.len(),
        0 <= j2 < m.allocator.live.len(),
        j != j2,
    ensures
        nodes_disjoint(user_node(m.allocator.live[j]), user_node(m.allocator.live[j2])),
{
    lemma_fsb_live_disjoint(m.allocator, j, j2);
}

/// A zero-filled byte buffer of the given length.
fn alloc_zeroed_bytes(n: usize) -> (r: Vec<u8>)
    ensures
        r@ =~= Seq::new(n as nat, |i: int| 0u8),
{
    let mut v: Vec<u8> = Vec::new();
    let mut i: usize = 0;
    while i < n
        invariant
            i <= n,
            v@.len() == i,
            forall|k: int| 0 <= k < i ==> v@[k] == 0u8,
        decreases n - i,
    {
        v.push(0);
        i = i + 1;
    }
    v
}

/// How many pages back the heap region.
pub open spec fn heap_page_count() -> int {
    (HEAP_SIZE - 1) as int / PAGE_SIZE as int + 1
}

/// Start address of the k-th page of the heap region.
pub open spec fn heap_page_start(k: int) -> int {
    HEAP_START + k * PAGE_SIZE
}

/// Page `k` of the heap region has a translation in `mm`, mapped present
/// and writable.
pub open spec fn heap_page_mapped_rw(mm: Map<usize, (u64, PageFlags)>, k: int) -> bool {
    &&& mm.contains_key(heap_page_start(k) as usize)
    &&& mm[heap_page_start(k) as usize].1.present
    &&& mm[heap_page_start(k) as usize].1.writable
}

/// Exactly the first `n` pages of the heap region stand mapped in `mm`,
/// present and writable; the pages from `n` on have no translation.
pub open spec fn heap_pages_prefix_mapped(mm: Map<usize, (u64, PageFlags)>, n: int) -> bool {
    &&& 0 <= n <= heap_page_count()
    &&& forall|k: int| 0 <= k < n ==> #[trigger] heap_page_mapped_rw(mm, k)
    &&& forall|k: int|
        n <= k < heap_page_count() ==> !mm.contains_key((#[trigger] heap_page_start(k)) as usize)
}

/// Distinct pages of the heap region have distinct start addresses.
proof fn lemma_heap_page_starts_distinct(k1: int, k2: int)
    requires
        0 <= k1 < heap_page_count(),
        0 <= k2 < heap_page_count(),
        k1 != k2,
    ensures
        heap_page_start(k1) as usize != heap_page_start(k2) as usize,
        heap_page_start(k1) <= usize::MAX,
{
    assert(heap_page_count() == 25);
    assert(k1 * PAGE_SIZE != k2 * PAGE_SIZE && 0 <= k1 * PAGE_SIZE <= 24 * 4096 && 0 <= k2
        * PAGE_SIZE <= 24 * 4096) by (nonlinear_arith)
        requires
            0 <= k1 <= 24,
            0 <= k2 <= 24,
            k1 != k2,
            PAGE_SIZE == 4096,
    ;
}

/// Maps every page of the heap region `[HEAP_START, HEAP_START +
/// HEAP_SIZE)`, one frame per page with present-and-writable flags, then
/// hands the region to the allocator engine, exactly once.  On success the
/// mapper holds a present-and-writable translation for all
/// `heap_page_count()` pages.  Fails with `FrameExhausted` as soon as the
/// frame source runs dry and with `MapFailed` when the mapper refuses a
/// translation; in both cases the pages already mapped — an ascending
/// prefix of the region's pages — stay mapped, the walk being not
/// transactional, but the engine is left untouched, so any failure is
/// fatal to further heap use.
pub fn init_heap<M: PageMapper, F: FrameSource>(
    mapper: &mut M,
    frame_allocator: &mut F,
    heap: &mut KernelHeap,
) -> (r: Result<(), HeapInitError>)
    requires
        old(heap)@.wf(),
        !old(heap)@.initialized,
        old(heap)@.allocator.fallback.regions.len() == 0,
        old(heap)@.allocator.fallback.live.len() == 0,
        forall|k: int|
            0 <= k < heap_page_count() ==> !old(mapper).mapped().contains_key(
                (#[trigger] heap_page_start(k)) as usize,
            ),
    ensures
        r is Ok ==> heap_pages_prefix_mapped(final(mapper).mapped(), heap_page_count()),
        r is Err ==> exists|n: int|
            0 <= n < heap_page_count() && #[trigger] heap_pages_prefix_mapped(
                final(mapper).mapped(),
                n,
            ),
        r is Err ==> final(heap)@ == old(heap)@ && (r->Err_0 == HeapInitError::FrameExhausted
            || r->Err_0 == HeapInitError::MapFailed),
        r is Ok ==> {
            &&& final(heap)@.wf()
            &&& final(heap)@.initialized
            &&& final(heap)@.heap_start == HEAP_START
            &&& final(heap)@.mem =~= Seq::new(HEAP_SIZE as nat, |i: int| 0u8)
            &&& final(heap)@.allocator.lists == old(heap)@.allocator.lists
            &&& final(heap)@.allocator.live == old(heap)@.allocator.live
            &&& final(heap)@.allocator.fallback.regions =~= seq![
                ListNode { start: HEAP_START, size: HEAP_SIZE },
            ]
            &&& final(heap)@.allocator.fallback.live == old(heap)@.allocator.fallback.live
        },
{
    let page_count: usize = (HEAP_SIZE - 1) / PAGE_SIZE + 1;
    let mut page: usize = 0;
    while page < page_count
        invariant
            page <= page_count,
            page_count == heap_page_count(),
            heap@ == old(heap)@,
            old(heap)@.wf(),
            !old(heap)@.initialized,
            old(heap)@.allocator.fallback.regions.len() == 0,
            old(heap)@.allocator.fallback.live.len() == 0,
            heap_pages_prefix_mapped(mapper.mapped(), page as int),
        decreases page_count - page,
    {
        let frame = match frame_allocator.allocate_frame() {
            Some(f) => f,
            None => {
                proof {
                    assert(heap_pages_prefix_mapped(mapper.mapped(), page as int));
                }
                return Err(HeapInitError::FrameExhausted);
            },
        };
        let flags = PageFlags { present: true, writable: true };
        proof {
            assert(page * PAGE_SIZE <= 24 * 4096) by (nonlinear_arith)
                requires
                    page <= 24,
                    PAGE_SIZE == 4096,
            ;
        }
        let ghost mm0 = mapper.mapped();
        if !mapper.map_page(HEAP_START + page * PAGE_SIZE, frame, flags) {
            proof {
                assert(heap_pages_prefix_mapped(mapper.mapped(), page as int));
            }
            return Err(HeapInitError::MapFailed);
        }
        proof {
            let ps = heap_page_start(page as int) as usize;
            assert(mapper.mapped() == mm0.insert(ps, (frame, flags)));
            assert forall|k: int| 0 <= k < page + 1 implies #[trigger] heap_page_mapped_rw(
                mapper.mapped(),
                k,
            ) by {
                if k < page {
                    lemma_heap_page_starts_distinct(k, page as int);
                    assert(heap_page_mapped_rw(mm0, k));
                }
            }
            assert forall|k: int|
                page + 1 <= k < heap_page_count() implies !mapper.mapped().contains_key(
                (#[trigger] heap_page_start(k)) as usize,
            ) by {
                lemma_heap_page_starts_distinct(k, page as int);
                assert(!mm0.contains_key(heap_page_start(k) as usize));
            }
        }
        page = page + 1;
    }
    match heap.init(HEAP_START, HEAP_SIZE) {
        Ok(()) => Ok(()),
        Err(e) => {
            proof {
                assert(false);
            }
            Err(e)
        },
    }
}

} // verus!
