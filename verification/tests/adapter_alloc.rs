use kmemcore::adapter::OsGlobalAlloc;
use kmemcore::frame::{FrameAllocator, PAGE_SIZE};
use kmemcore::heap::{AllocList, KernelHeap, HEADER_BYTES, KMEM_PAGES};

fn fresh_heap() -> KernelHeap {
    let mut fa = FrameAllocator::init(0, (KMEM_PAGES + 1) * PAGE_SIZE);
    KernelHeap::init(&mut fa).unwrap()
}

#[test]
fn adapter_allocates_zeroed_and_aligned() {
    let mut h = fresh_heap();
    let ga = OsGlobalAlloc;
    let a = ga.allocate(&mut h, 24, 8).unwrap();
    assert_eq!(a % 8, 0);
    assert_eq!(a, h.get_head() + HEADER_BYTES);
    for i in 1..=3 {
        assert_eq!(h.word_at(i), 0);
    }
}

#[test]
fn adapter_release_returns_memory() {
    let mut h = fresh_heap();
    let ga = OsGlobalAlloc;
    let a = ga.allocate(&mut h, 64, 8).unwrap();
    let b = ga.allocate(&mut h, 64, 8).unwrap();
    assert!(b > a);
    ga.dealloc(&mut h, a);
    ga.dealloc(&mut h, b);
    // everything coalesced back into one free block
    let hd = AllocList { flags_size: h.word_at(0) };
    assert!(hd.is_free());
    assert_eq!(hd.get_size() as usize, KMEM_PAGES * PAGE_SIZE);
}
