use blog_os::allocator::{
    init_heap, HeapInitError, KernelHeap, HEAP_SIZE, HEAP_START, PAGE_SIZE,
};
use blog_os::memory::{FrameSource, PageFlags, PageMapper};

struct SimMapper {
    mapped: Vec<(usize, u64, PageFlags)>,
}

impl PageMapper for SimMapper {
    fn map_page(&mut self, page_start: usize, frame: u64, flags: PageFlags) -> bool {
        self.mapped.push((page_start, frame, flags));
        true
    }
}

struct SimFrames {
    next: u64,
    limit: u64,
}

impl FrameSource for SimFrames {
    fn allocate_frame(&mut self) -> Option<u64> {
        if self.next < self.limit {
            let f = self.next;
            self.next += 1;
            Some(f)
        } else {
            None
        }
    }
}

#[test]
fn init_heap_maps_every_page_then_hands_over() {
    let mut mapper = SimMapper { mapped: Vec::new() };
    let mut frames = SimFrames { next: 0, limit: 1000 };
    let mut heap = KernelHeap::new();
    assert!(init_heap(&mut mapper, &mut frames, &mut heap).is_ok());
    let pages = (HEAP_SIZE - 1) / PAGE_SIZE + 1;
    assert_eq!(mapper.mapped.len(), pages);
    assert_eq!(mapper.mapped[0].0, HEAP_START);
    assert_eq!(mapper.mapped[pages - 1].0, HEAP_START + (pages - 1) * PAGE_SIZE);
    assert!(mapper.mapped.iter().all(|m| m.2.present && m.2.writable));
    assert_eq!(heap.start_addr(), HEAP_START);
    assert_eq!(heap.size(), HEAP_SIZE);
    assert_eq!(heap.allocate(4, 4), Some(HEAP_START));
}

#[test]
fn init_heap_frame_exhaustion_is_fatal() {
    let mut mapper = SimMapper { mapped: Vec::new() };
    let mut frames = SimFrames { next: 0, limit: 10 };
    let mut heap = KernelHeap::new();
    let r = init_heap(&mut mapper, &mut frames, &mut heap);
    assert_eq!(r, Err(HeapInitError::FrameExhausted));
    // pages already mapped stay mapped: the walk is not transactional
    assert_eq!(mapper.mapped.len(), 10);
    // but the engine never received the region
    assert_eq!(heap.size(), 0);
    assert_eq!(heap.allocate(4, 4), None);
}

struct RefusingMapper;

impl PageMapper for RefusingMapper {
    fn map_page(&mut self, _page_start: usize, _frame: u64, _flags: PageFlags) -> bool {
        false
    }
}

#[test]
fn init_heap_reports_mapper_refusal() {
    let mut mapper = RefusingMapper;
    let mut frames = SimFrames { next: 0, limit: 1000 };
    let mut heap = KernelHeap::new();
    assert_eq!(init_heap(&mut mapper, &mut frames, &mut heap), Err(HeapInitError::MapFailed));
    assert_eq!(heap.size(), 0);
}

#[test]
fn heap_rejects_second_init() {
    let mut heap = KernelHeap::new();
    assert_eq!(heap.init(0x10000, 4096), Ok(()));
    assert_eq!(heap.init(0x10000, 4096), Err(HeapInitError::AlreadyInitialized));
}

#[test]
fn pattern_survives_allocator_traffic() {
    let mut heap = KernelHeap::new();
    heap.init(0x10000, 4096).unwrap();
    let a = heap.allocate(64, 16).unwrap();
    for i in 0..64usize {
        assert!(heap.write_byte(a + i, (i as u8).wrapping_mul(7)));
    }
    // later allocator traffic never relocates or rewrites live data
    let b = heap.allocate(128, 8).unwrap();
    for i in 0..128usize {
        assert!(heap.write_byte(b + i, 0xee));
    }
    heap.deallocate(b, 128, 8);
    let c = heap.allocate(32, 32).unwrap();
    heap.deallocate(c, 32, 32);
    for i in 0..64usize {
        assert_eq!(heap.read_byte(a + i), Some((i as u8).wrapping_mul(7)));
    }
}

#[test]
fn thousand_values_allocated_and_summed() {
    let mut heap = KernelHeap::new();
    heap.init(0x10000, 16384).unwrap();
    let mut addrs = Vec::new();
    for i in 0..1000u32 {
        let a = heap.allocate(4, 4).expect("no allocation may fail");
        for (k, byte) in i.to_le_bytes().iter().enumerate() {
            assert!(heap.write_byte(a + k, *byte));
        }
        addrs.push(a);
    }
    let mut sum: u64 = 0;
    for &a in &addrs {
        let mut bytes = [0u8; 4];
        for (k, slot) in bytes.iter_mut().enumerate() {
            *slot = heap.read_byte(a + k).unwrap();
        }
        sum += u64::from(u32::from_le_bytes(bytes));
    }
    assert_eq!(sum, 999 * 1000 / 2);
}

#[test]
fn growing_buffer_crosses_class_limit() {
    // a doubling buffer of 1000 values reaches 4096 bytes, beyond the
    // largest tracked class, forcing the final capacity through the
    // fallback; no allocation fails and the stored sum is exact
    let mut heap = KernelHeap::new();
    heap.init(0x10000, 16384).unwrap();
    let mut cap: usize = 4;
    let mut buf = heap.allocate(cap, 4).expect("no allocation may fail");
    let mut len: usize = 0;
    for i in 0..1000u32 {
        if len == cap {
            let bigger = heap.allocate(cap * 2, 4).expect("no allocation may fail");
            for k in 0..len {
                let v = heap.read_byte(buf + k).unwrap();
                assert!(heap.write_byte(bigger + k, v));
            }
            heap.deallocate(buf, cap, 4);
            buf = bigger;
            cap *= 2;
        }
        for (k, byte) in i.to_le_bytes().iter().enumerate() {
            assert!(heap.write_byte(buf + len + k, *byte));
        }
        len += 4;
    }
    assert_eq!(cap, 4096);
    let mut sum: u64 = 0;
    for n in 0..1000usize {
        let mut bytes = [0u8; 4];
        for (k, slot) in bytes.iter_mut().enumerate() {
            *slot = heap.read_byte(buf + n * 4 + k).unwrap();
        }
        sum += u64::from(u32::from_le_bytes(bytes));
    }
    assert_eq!(sum, 999 * 1000 / 2);
}

#[test]
fn long_lived_value_survives_heavy_churn() {
    let mut heap = KernelHeap::new();
    heap.init(0x10000, 16384).unwrap();
    let keeper = heap.allocate(8, 8).unwrap();
    for i in 0..8usize {
        assert!(heap.write_byte(keeper + i, 0xa5 ^ (i as u8)));
    }
    let mut peak: usize = 0;
    for _ in 0..10000 {
        let t = heap.allocate(8, 8).expect("churn allocation failed");
        assert!(heap.write_byte(t, 0xff));
        heap.deallocate(t, 8, 8);
        peak = peak.max(heap.class_list_len(0));
    }
    // steady churn recycles one block: the class list never grows
    assert!(peak <= 1);
    for i in 0..8usize {
        assert_eq!(heap.read_byte(keeper + i), Some(0xa5 ^ (i as u8)));
    }
}
