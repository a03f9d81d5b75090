use kmemcore::frame::{FrameAllocator, PAGE_SIZE};
use kmemcore::vm::{
    id_map_range, unmap, virt_to_phys, Entry, EntryBits, MapError, PageTables, Table,
};

fn fresh() -> (PageTables, FrameAllocator) {
    let mut fa = FrameAllocator::init(0, 16 * PAGE_SIZE);
    let pt = PageTables::new(&mut fa).unwrap();
    (pt, fa)
}

fn rw() -> u64 {
    EntryBits::ReadWrite.val() as u64
}

#[test]
fn entry_bits_values() {
    assert_eq!(EntryBits::Empty.val(), 0);
    assert_eq!(EntryBits::Valid.val(), 1);
    assert_eq!(EntryBits::Read.val(), 2);
    assert_eq!(EntryBits::Write.val(), 4);
    assert_eq!(EntryBits::Execute.val(), 8);
    assert_eq!(EntryBits::User.val(), 16);
    assert_eq!(EntryBits::Global.val(), 32);
    assert_eq!(EntryBits::Access.val(), 64);
    assert_eq!(EntryBits::Dirty.val(), 128);
    assert_eq!(EntryBits::ReadWrite.val(), 6);
    assert_eq!(EntryBits::ReadExecute.val(), 10);
    assert_eq!(EntryBits::ReadWriteExecute.val(), 14);
    assert_eq!(EntryBits::UserReadWrite.val(), 22);
    assert_eq!(EntryBits::UserReadExecute.val(), 26);
    assert_eq!(EntryBits::UserReadWriteExecute.val(), 30);
}

#[test]
fn entry_methods() {
    let mut e = Entry { entry: 0 };
    assert!(e.is_invalid());
    assert!(e.is_branch());
    e.set_entry(1);
    assert!(e.is_valid());
    assert!(e.is_branch());
    e.set_entry(0xf);
    assert!(e.is_valid());
    assert!(e.is_leaf());
    assert_eq!(e.get_entry(), 0xf);
}

#[test]
fn table_len_is_512() {
    assert_eq!(Table::len(), 512);
}

#[test]
fn translate_on_empty_space_misses() {
    let (pt, _fa) = fresh();
    assert_eq!(virt_to_phys(&pt, 0), None);
    assert_eq!(virt_to_phys(&pt, 0x4020_3456), None);
}

#[test]
fn map_then_translate_base_page() {
    // mapping at the bottom level and translating returns exactly
    // P | (V & 0xfff)
    let (mut pt, mut fa) = fresh();
    let v: u64 = 0x4020_3456;
    let p: u64 = 0x8765_4000;
    assert_eq!(kmemcore::vm::map(&mut pt, &mut fa, v, p, rw(), 0), Ok(()));
    assert_eq!(virt_to_phys(&pt, v), Some(p | (v & 0xfff)));
    assert_eq!(virt_to_phys(&pt, v & !0xfff), Some(p));
    // a neighbouring page stays unmapped
    assert_eq!(virt_to_phys(&pt, v + 0x1000), None);
}

#[test]
fn map_then_translate_superpage() {
    // a level-1 mapping covers a two-megabyte region: translation keeps
    // the 21 low-order virtual bits
    let (mut pt, mut fa) = fresh();
    let v: u64 = 0x1_0040_0000;
    let p: u64 = 0x4060_0000;
    assert_eq!(kmemcore::vm::map(&mut pt, &mut fa, v, p, rw(), 1), Ok(()));
    let off: u64 = 0x12345;
    assert_eq!(virt_to_phys(&pt, v + off), Some(p | ((v + off) & 0x1f_ffff)));
    assert_eq!(virt_to_phys(&pt, v), Some(p));
    assert_eq!(virt_to_phys(&pt, v + 0x20_0000), None);
}

#[test]
fn map_rejects_leaf_in_the_way() {
    let (mut pt, mut fa) = fresh();
    let v: u64 = 0x1_0040_0000;
    assert_eq!(kmemcore::vm::map(&mut pt, &mut fa, v, 0x4060_0000, rw(), 1), Ok(()));
    // a base-page mapping under the superpage would have to walk through
    // the existing leaf
    assert_eq!(
        kmemcore::vm::map(&mut pt, &mut fa, v + 0x3000, 0x9000, rw(), 0),
        Err(MapError::LeafInWay)
    );
}

#[test]
fn map_reports_frame_exhaustion() {
    let mut fa = FrameAllocator::init(0, PAGE_SIZE);
    let mut pt = PageTables::new(&mut fa).unwrap();
    // the only frame backs the root; no intermediate table can be built
    assert_eq!(
        kmemcore::vm::map(&mut pt, &mut fa, 0x4000_0000, 0x8000_0000, rw(), 0),
        Err(MapError::OutOfFrames)
    );
}

#[test]
fn unmap_releases_table_frames() {
    let (mut pt, mut fa) = fresh();
    assert_eq!(kmemcore::vm::map(&mut pt, &mut fa, 0x4020_3000, 0x8000_1000, rw(), 0), Ok(()));
    // the root frame plus two lazily built tables are taken
    assert!(fa.descriptor(0).is_taken());
    assert!(fa.descriptor(1).is_taken());
    assert!(fa.descriptor(2).is_taken());
    unmap(&mut pt, &mut fa);
    // the intermediate tables went back; the root keeps its frame
    assert!(fa.descriptor(0).is_taken());
    assert!(fa.descriptor(1).is_free());
    assert!(fa.descriptor(2).is_free());
    assert_eq!(virt_to_phys(&pt, 0x4020_3000), None);
}

#[test]
fn remap_after_unmap_works() {
    let (mut pt, mut fa) = fresh();
    assert_eq!(kmemcore::vm::map(&mut pt, &mut fa, 0x4020_3000, 0x8000_1000, rw(), 0), Ok(()));
    unmap(&mut pt, &mut fa);
    assert_eq!(kmemcore::vm::map(&mut pt, &mut fa, 0x4020_3000, 0x9000_2000, rw(), 0), Ok(()));
    assert_eq!(virt_to_phys(&pt, 0x4020_3789), Some(0x9000_2789));
}

#[test]
fn id_map_range_is_identity_per_page() {
    let (mut pt, mut fa) = fresh();
    assert_eq!(id_map_range(&mut pt, &mut fa, 0x2000, 0x5001, rw()), Ok(()));
    assert_eq!(virt_to_phys(&pt, 0x2000), Some(0x2000));
    assert_eq!(virt_to_phys(&pt, 0x3abc), Some(0x3abc));
    assert_eq!(virt_to_phys(&pt, 0x5fff), Some(0x5fff));
    assert_eq!(virt_to_phys(&pt, 0x6000), None);
    assert_eq!(virt_to_phys(&pt, 0x1fff), None);
}

#[test]
fn map_writes_requested_permission_bits() {
    let (mut pt, mut fa) = fresh();
    let v: u64 = 0x4020_3456;
    let p: u64 = 0x8765_4000;
    let bits: u64 = EntryBits::UserReadExecute.val() as u64;
    assert_eq!(kmemcore::vm::map(&mut pt, &mut fa, v, p, bits, 0), Ok(()));
    // follow the branch entries by hand and read the leaf word
    let e2 = pt.tables[0].entries[((v >> 30) & 0x1ff) as usize].get_entry();
    let t1 = (e2 >> 10) as usize;
    let e1 = pt.tables[t1].entries[((v >> 21) & 0x1ff) as usize].get_entry();
    let t0 = (e1 >> 10) as usize;
    let leaf = pt.tables[t0].entries[((v >> 12) & 0x1ff) as usize].get_entry();
    let expected = (((p >> 30) & 0x3ff_ffff) << 28)
        | (((p >> 21) & 0x1ff) << 19)
        | (((p >> 12) & 0x1ff) << 10)
        | bits
        | 1;
    assert_eq!(leaf, expected);
    assert_eq!(leaf & 0x3ff, bits | 1);
}

#[test]
fn id_map_range_reports_leaf_in_the_way() {
    let (mut pt, mut fa) = fresh();
    // a superpage over the low two megabytes blocks base-level mappings
    assert_eq!(kmemcore::vm::map(&mut pt, &mut fa, 0, 0, rw(), 1), Ok(()));
    assert_eq!(
        id_map_range(&mut pt, &mut fa, 0x2000, 0x5000, rw()),
        Err(MapError::LeafInWay)
    );
}

#[test]
fn id_map_range_reports_frame_exhaustion() {
    let mut fa = FrameAllocator::init(0, PAGE_SIZE);
    let mut pt = PageTables::new(&mut fa).unwrap();
    assert_eq!(
        id_map_range(&mut pt, &mut fa, 0x2000, 0x3000, rw()),
        Err(MapError::OutOfFrames)
    );
    // the allocator really is empty
    assert!(fa.allocate(1).is_none());
}
