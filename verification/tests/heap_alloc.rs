use kmemcore::frame::{FrameAllocator, PAGE_SIZE};
use kmemcore::heap::{AllocList, AllocListFlags, KernelHeap, HEADER_BYTES, KMEM_PAGES, TAKEN_BIT};

fn fresh_heap() -> KernelHeap {
    let mut fa = FrameAllocator::init(0, (KMEM_PAGES + 1) * PAGE_SIZE);
    KernelHeap::init(&mut fa).unwrap()
}

fn header(h: &KernelHeap, byte_off: usize) -> AllocList {
    AllocList { flags_size: h.word_at(byte_off / 8) }
}

#[test]
fn alloc_list_flag_value() {
    assert_eq!(AllocListFlags::Taken.val(), 1u64 << 63);
    assert_eq!(AllocListFlags::Taken.val(), TAKEN_BIT);
}

#[test]
fn alloc_list_accessors_keep_bits_apart() {
    let mut a = AllocList { flags_size: 0 };
    assert!(a.is_free());
    a.set_size(4096);
    assert_eq!(a.get_size(), 4096);
    assert!(a.is_free());
    a.set_taken();
    assert!(a.is_taken());
    assert_eq!(a.get_size(), 4096);
    a.set_size(128);
    assert!(a.is_taken());
    assert_eq!(a.get_size(), 128);
    a.set_free();
    assert!(a.is_free());
    assert_eq!(a.get_size(), 128);
}

#[test]
fn init_installs_single_free_block() {
    let h = fresh_heap();
    assert_eq!(h.get_num_allocations(), KMEM_PAGES);
    let hd = header(&h, 0);
    assert!(hd.is_free());
    assert_eq!(hd.get_size() as usize, KMEM_PAGES * PAGE_SIZE);
}

#[test]
fn kmalloc_splits_first_fit() {
    let mut h = fresh_heap();
    let head = h.get_head();
    let a = h.kmalloc(16).unwrap();
    assert_eq!(a, head + HEADER_BYTES);
    let hd = header(&h, 0);
    assert!(hd.is_taken());
    assert_eq!(hd.get_size(), 24);
    // the remainder block follows, free, sized to the rest
    let rest = header(&h, 24);
    assert!(rest.is_free());
    assert_eq!(rest.get_size() as usize, KMEM_PAGES * PAGE_SIZE - 24);
    let b = h.kmalloc(16).unwrap();
    assert_eq!(b, head + 24 + HEADER_BYTES);
}

#[test]
fn whole_heap_then_exhaustion() {
    // a fresh heap of S bytes serves a single request of S minus one
    // header, and a following request fails until the first is freed
    let mut h = fresh_heap();
    let s = KMEM_PAGES * PAGE_SIZE;
    let head = h.get_head();
    let a = h.kmalloc(s - HEADER_BYTES).unwrap();
    assert_eq!(a, head + HEADER_BYTES);
    assert!(h.kmalloc(1).is_none());
    h.kfree(a);
    let b = h.kmalloc(1);
    assert_eq!(b, Some(head + HEADER_BYTES));
}

#[test]
fn heap_double_free_is_tolerated() {
    let mut h = fresh_heap();
    let head = h.get_head();
    let a = h.kmalloc(16).unwrap();
    let b = h.kmalloc(16).unwrap();
    h.kfree(a);
    h.kfree(a);
    // the second free changed nothing: b is still taken and a fresh
    // allocation reuses a's block
    let hb = header(&h, (b - head) - HEADER_BYTES);
    assert!(hb.is_taken());
    let c = h.kmalloc(16).unwrap();
    assert_eq!(c, a);
}

#[test]
fn kfree_coalesces_neighbours() {
    let mut h = fresh_heap();
    let a = h.kmalloc(24).unwrap();
    let b = h.kmalloc(40).unwrap();
    let _c = h.kmalloc(16).unwrap();
    h.kfree(a);
    h.kfree(b);
    // the two adjacent free blocks of 32 and 48 bytes became exactly one
    // free block of 80 bytes at a's place
    let merged = header(&h, 0);
    assert!(merged.is_free());
    assert_eq!(merged.get_size(), 32 + 48);
}

#[test]
fn coalesce_is_idempotent() {
    let mut h = fresh_heap();
    let a = h.kmalloc(16).unwrap();
    let b = h.kmalloc(16).unwrap();
    let _c = h.kmalloc(16).unwrap();
    h.kfree(a);
    h.kfree(b);
    h.coalesce();
    let snapshot: Vec<u64> = (0..h.pool_words()).map(|w| h.word_at(w)).collect();
    h.coalesce();
    let again: Vec<u64> = (0..h.pool_words()).map(|w| h.word_at(w)).collect();
    assert_eq!(snapshot, again);
}

#[test]
fn chain_of_three_collapses_in_one_pass() {
    let mut h = fresh_heap();
    let a = h.kmalloc(16).unwrap();
    let b = h.kmalloc(16).unwrap();
    let c = h.kmalloc(16).unwrap();
    let _d = h.kmalloc(16).unwrap();
    // free in an order that leaves no two adjacent free until the last
    h.kfree(a);
    h.kfree(c);
    h.kfree(b);
    let merged = header(&h, 0);
    assert!(merged.is_free());
    assert_eq!(merged.get_size(), 3 * 24);
}

#[test]
fn kzmalloc_zero_fills_payload() {
    let mut h = fresh_heap();
    let head = h.get_head();
    let a = h.kmalloc(16).unwrap();
    let b = h.kmalloc(16).unwrap();
    h.kfree(b);
    h.kfree(a);
    // b's stale header word now lies inside the next allocation's payload
    let z = h.kzmalloc(40).unwrap();
    assert_eq!(z, head + HEADER_BYTES);
    for i in 1..=5 {
        assert_eq!(h.word_at(i), 0);
    }
    let hd = header(&h, 0);
    assert!(hd.is_taken());
    assert_eq!(hd.get_size(), 48);
}

#[test]
fn kfree_of_unknown_address_changes_no_block() {
    let mut h = fresh_heap();
    let head = h.get_head();
    let a = h.kmalloc(16).unwrap();
    // an address pointing into the middle of a block names no header
    h.kfree(a + 4);
    h.kfree(head.wrapping_sub(64));
    let hd = header(&h, 0);
    assert!(hd.is_taken());
    assert_eq!(hd.get_size(), 24);
}

#[test]
fn block_table_reports_layout() {
    let mut h = fresh_heap();
    let a = h.kmalloc(16).unwrap();
    let _b = h.kmalloc(24).unwrap();
    h.kfree(a);
    let t = h.block_table();
    assert_eq!(t.len(), 3);
    assert_eq!(t[0], (0, 24, false));
    assert_eq!(t[1], (24, 32, true));
    assert_eq!(t[2], (56, KMEM_PAGES * PAGE_SIZE - 56, false));
}

#[test]
fn zero_byte_request_gets_bare_header_block() {
    let mut h = fresh_heap();
    let head = h.get_head();
    let a = h.kmalloc(0).unwrap();
    assert_eq!(a, head + HEADER_BYTES);
    let hd = header(&h, 0);
    assert!(hd.is_taken());
    assert_eq!(hd.get_size(), 8);
    let z = h.kzmalloc(0).unwrap();
    assert_eq!(z, head + 8 + HEADER_BYTES);
    h.kfree(a);
    h.kfree(z);
    let merged = header(&h, 0);
    assert!(merged.is_free());
    assert_eq!(merged.get_size() as usize, KMEM_PAGES * PAGE_SIZE);
}
