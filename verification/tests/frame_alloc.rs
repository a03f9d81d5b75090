use kmemcore::frame::{align_val, FrameAllocator, FrameError, Page, PageBits, PAGE_SIZE};

#[test]
fn align_val_rounds_up() {
    assert_eq!(align_val(0, 3), 0);
    assert_eq!(align_val(5, 3), 8);
    assert_eq!(align_val(8, 3), 8);
    assert_eq!(align_val(9, 3), 16);
    assert_eq!(align_val(1, 12), 4096);
    assert_eq!(align_val(4096, 12), 4096);
    assert_eq!(align_val(4097, 12), 8192);
}

#[test]
fn page_bits_values() {
    assert_eq!(PageBits::Empty.val(), 0);
    assert_eq!(PageBits::Taken.val(), 1);
    assert_eq!(PageBits::Last.val(), 2);
}

#[test]
fn page_flag_methods() {
    let mut p = Page { flags: 0 };
    assert!(p.is_free());
    assert!(!p.is_taken());
    assert!(!p.is_last());
    p.set_flag(PageBits::Taken);
    assert!(p.is_taken());
    assert!(!p.is_last());
    p.set_flag(PageBits::Last);
    assert!(p.is_taken());
    assert!(p.is_last());
    p.clear_flag(PageBits::Last);
    assert!(p.is_taken());
    assert!(!p.is_last());
    p.clear();
    assert!(p.is_free());
}

#[test]
fn init_clears_descriptors() {
    let fa = FrameAllocator::init(0, 8 * PAGE_SIZE);
    assert_eq!(fa.num_frames(), 8);
    for i in 0..8 {
        assert!(fa.descriptor(i).is_free());
    }
    // the descriptor table occupies the start of the region; allocation
    // begins past it at the next frame boundary
    assert_eq!(fa.alloc_start, 4096);
}

#[test]
fn alloc_is_first_fit_ascending() {
    let mut fa = FrameAllocator::init(0, 8 * PAGE_SIZE);
    let a = fa.allocate(1).unwrap();
    let b = fa.allocate(1).unwrap();
    assert_eq!(a, fa.alloc_start);
    assert_eq!(b, fa.alloc_start + PAGE_SIZE);
    assert!(fa.dealloc(a).is_ok());
    // first fit returns to the lowest free frame
    let c = fa.allocate(1).unwrap();
    assert_eq!(c, a);
}

#[test]
fn alloc_marks_run_and_last() {
    let mut fa = FrameAllocator::init(0, 8 * PAGE_SIZE);
    let _ = fa.allocate(3).unwrap();
    assert!(fa.descriptor(0).is_taken() && !fa.descriptor(0).is_last());
    assert!(fa.descriptor(1).is_taken() && !fa.descriptor(1).is_last());
    assert!(fa.descriptor(2).is_taken() && fa.descriptor(2).is_last());
    assert!(fa.descriptor(3).is_free());
}

#[test]
fn alloc_then_dealloc_frees_whole_run() {
    // a run allocation followed by its deallocation returns every frame,
    // shown by an allocation of the whole region succeeding afterwards
    let mut fa = FrameAllocator::init(0, 8 * PAGE_SIZE);
    let a = fa.allocate(3).unwrap();
    assert!(fa.dealloc(a).is_ok());
    let whole = fa.allocate(8);
    assert!(whole.is_some());
    assert_eq!(whole.unwrap(), fa.alloc_start);
}

#[test]
fn exhaustion_two_frames() {
    // a region of exactly two frames: two single allocations succeed,
    // the third reports exhaustion
    let mut fa = FrameAllocator::init(0, 2 * PAGE_SIZE);
    assert_eq!(fa.num_frames(), 2);
    assert!(fa.allocate(1).is_some());
    assert!(fa.allocate(1).is_some());
    assert!(fa.allocate(1).is_none());
}

#[test]
fn frame_double_free_is_fatal() {
    let mut fa = FrameAllocator::init(0, 4 * PAGE_SIZE);
    let a = fa.allocate(2).unwrap();
    assert_eq!(fa.dealloc(a), Ok(()));
    assert_eq!(fa.dealloc(a), Err(FrameError::DoubleFree));
}

#[test]
fn dealloc_out_of_range_is_fatal() {
    let mut fa = FrameAllocator::init(0, 2 * PAGE_SIZE);
    assert_eq!(fa.dealloc(0), Err(FrameError::OutOfRange));
    assert_eq!(
        fa.dealloc(fa.alloc_start + 2 * PAGE_SIZE),
        Err(FrameError::OutOfRange)
    );
}

#[test]
fn zalloc_matches_alloc() {
    let mut fa = FrameAllocator::init(0, 4 * PAGE_SIZE);
    let a = fa.zalloc(2).unwrap();
    assert_eq!(a, fa.alloc_start);
    assert!(fa.descriptor(0).is_taken());
    assert!(fa.descriptor(1).is_last());
}

#[test]
fn alloc_skips_fragmented_gaps() {
    let mut fa = FrameAllocator::init(0, 6 * PAGE_SIZE);
    let a = fa.allocate(1).unwrap();
    let b = fa.allocate(1).unwrap();
    let _c = fa.allocate(1).unwrap();
    assert!(fa.dealloc(a).is_ok());
    assert!(fa.dealloc(b).is_ok());
    // frames 0 and 1 are free, 2 is taken; a three-frame run must start
    // at frame 3
    let d = fa.allocate(3).unwrap();
    assert_eq!(d, fa.alloc_start + 3 * PAGE_SIZE);
}
