//! Virtual memory manager: a three-level radix page table over a 39-bit
//! virtual address space, nine bits of index per level, twelve bits of
//! page offset.
//!
//! Tables live in an arena; a branch entry stores the arena index of the
//! next-level table in its page-number field, while a leaf entry stores
//! the mapped physical page number and permission bits exactly as the
//! hardware format packs them.  Intermediate tables are created lazily
//! from the frame allocator, and the frame backing each table is recorded
//! so teardown can return it.

use vstd::prelude::*;

verus! {

use crate::frame::{FrameAllocator, PAGE_SIZE, first_fit, mark_run, page_taken, page_last,
    run_stop, clear_run, lemma_first_fit_found};
use vstd::arithmetic::div_mod::{lemma_fundamental_div_mod, lemma_mod_multiples_basic,
    lemma_div_by_multiple};

/// Permission and status bits of a page table entry.
pub enum EntryBits {
    Empty,
    Valid,
    Read,
    Write,
    Execute,
    User,
    Global,
    Access,
    Dirty,
    ReadWrite,
    ReadExecute,
    ReadWriteExecute,
    UserReadWrite,
    UserReadExecute,
    UserReadWriteExecute,
}

impl EntryBits {
    /// The numeric value of this bit combination.
    pub fn val(self) -> (r: i64)
        ensures
            r == self.spec_val(),
    {
        match self {
            EntryBits::Empty => 0,
            EntryBits::Valid => 1,
            EntryBits::Read => 2,
            EntryBits::Write => 4,
            EntryBits::Execute => 8,
            EntryBits::User => 16,
            EntryBits::Global => 32,
            EntryBits::Access => 64,
            EntryBits::Dirty => 128,
            EntryBits::ReadWrite => 6,
            EntryBits::ReadExecute => 10,
            EntryBits::ReadWriteExecute => 14,
            EntryBits::UserReadWrite => 22,
            EntryBits::UserReadExecute => 26,
            EntryBits::UserReadWriteExecute => 30,
        }
    }

    /// The numeric value of each bit combination.
    pub open spec fn spec_val(self) -> i64 {
        match self {
            EntryBits::Empty => 0,
            EntryBits::Valid => 1,
            EntryBits::Read => 2,
            EntryBits::Write => 4,
            EntryBits::Execute => 8,
            EntryBits::User => 16,
            EntryBits::Global => 32,
            EntryBits::Access => 64,
            EntryBits::Dirty => 128,
            EntryBits::ReadWrite => 6,
            EntryBits::ReadExecute => 10,
            EntryBits::ReadWriteExecute => 14,
            EntryBits::UserReadWrite => 22,
            EntryBits::UserReadExecute => 26,
            EntryBits::UserReadWriteExecute => 30,
        }
    }
}

/// The `Valid` bit of an entry word is set.
pub open spec fn e_valid(w: u64) -> bool {
    w & 1 != 0
}

/// Any of the Read, Write or Execute bits is set: the entry is a leaf.
pub open spec fn e_leaf(w: u64) -> bool {
    w & 0xe != 0
}

/// The next-level table index a branch entry points to.
pub open spec fn e_child(w: u64) -> int {
    (w >> 10) as int
}

/// The nine-bit slice of a virtual address that indexes level `l`.
pub open spec fn vpn_of(va: u64, l: int) -> int {
    if l == 0 {
        ((va >> 12) & 0x1ff) as int
    } else if l == 1 {
        ((va >> 21) & 0x1ff) as int
    } else {
        ((va >> 30) & 0x1ff) as int
    }
}

/// The page-offset mask a leaf at level `l` leaves to the virtual address.
pub open spec fn off_mask(l: int) -> u64 {
    if l == 0 {
        0xfff
    } else if l == 1 {
        0x1f_ffff
    } else {
        0x3fff_ffff
    }
}

/// The entry word a leaf mapping of `paddr` with `bits` writes.
pub open spec fn leaf_word(paddr: u64, bits: u64) -> u64 {
    (((paddr >> 30) & 0x3ff_ffff) << 28) | (((paddr >> 21) & 0x1ff) << 19) | (((paddr >> 12)
        & 0x1ff) << 10) | bits | 1
}

/// The entry word of a branch to arena table `child`.
pub open spec fn branch_word(child: int) -> u64 {
    ((child as u64) << 10) | 1
}

/// The physical address a leaf entry `w` translates `va` to at level `l`.
pub open spec fn leaf_pa(w: u64, va: u64, l: int) -> u64 {
    ((w << 2) & !off_mask(l)) | (va & off_mask(l))
}

/// The physical address a mapping of `paddr` at level `l` yields for `va`.
pub open spec fn pa_of(paddr: u64, va: u64, l: int) -> u64 {
    (paddr & !off_mask(l)) | (va & off_mask(l))
}

/// `va2` selects the same tables and final entry as `va` down to level `l`.
pub open spec fn same_path(va2: u64, va: u64, l: int) -> bool {
    forall|d: int| l <= d <= 2 ==> vpn_of(va2, d) == vpn_of(va, d)
}

/// One page table entry.
#[derive(Clone, Copy)]
pub struct Entry {
    pub entry: u64,
}

impl Entry {
    /// The entry maps or points somewhere.
    pub fn is_valid(&self) -> (r: bool)
        ensures
            r == e_valid(self.entry),
    {
        self.entry & 1 != 0
    }

    /// The entry is empty.
    pub fn is_invalid(&self) -> (r: bool)
        ensures
            r == !e_valid(self.entry),
    {
        !self.is_valid()
    }

    /// The entry is a terminal mapping.
    pub fn is_leaf(&self) -> (r: bool)
        ensures
            r == e_leaf(self.entry),
    {
        self.entry & 0xe != 0
    }

    /// The entry points to a next-level table.
    pub fn is_branch(&self) -> (r: bool)
        ensures
            r == !e_leaf(self.entry),
    {
        !self.is_leaf()
    }

    /// Overwrites the raw entry word.
    pub fn set_entry(&mut self, entry: u64)
        ensures
            final(self).entry == entry,
    {
        self.entry = entry;
    }

    /// The raw entry word.
    pub fn get_entry(&self) -> (r: u64)
        ensures
            r == self.entry,
    {
        self.entry
    }
}

/// One level of the radix tree: 512 entries filling exactly one frame.
pub struct Table {
    pub entries: Vec<Entry>,
}

impl Table {
    /// Number of entries in every table.
    pub fn len() -> (r: usize)
        ensures
            r == 512,
    {
        512
    }
}

/// The arena of page tables of one address space.  `tables[0]` is the
/// root; `frames[t]` is the physical frame backing table `t`; `levels`
/// records each table's tree level for the proofs.
pub struct PageTables {
    pub tables: Vec<Table>,
    pub frames: Vec<usize>,
    pub levels: Ghost<Seq<int>>,
}

impl PageTables {
    /// The raw word of entry `j` of table `t`.
    pub open spec fn entry_at(self, t: int, j: int) -> u64 {
        self.tables@[t].entries@[j].entry
    }

    /// Entry `j` of table `t` is a valid branch.
    pub open spec fn branch_at(self, t: int, j: int) -> bool {
        &&& 0 <= t < self.tables@.len()
        &&& 0 <= j < 512
        &&& e_valid(self.entry_at(t, j))
        &&& !e_leaf(self.entry_at(t, j))
    }

    /// The child index entry `j` of table `t` branches to.
    pub open spec fn child_of(self, t: int, j: int) -> int {
        e_child(self.entry_at(t, j))
    }

    /// Structural invariant of the arena: the root is at level 2; every
    /// branch points one level down to a distinct table of the arena.
    pub open spec fn wf(self) -> bool {
        let n = self.tables@.len();
        &&& self.frames@.len() == n
        &&& self.levels@.len() == n
        &&& 1 <= n
        &&& self.levels@[0] == 2
        &&& forall|t: int| 0 <= t < n ==> (#[trigger] self.tables@[t]).entries@.len() == 512
        &&& forall|t: int| 0 <= t < n ==> 0 <= #[trigger] self.levels@[t] <= 2
        &&& forall|t: int, j: int|
            #[trigger] self.branch_at(t, j) ==> self.levels@[t] >= 1 && 1 <= self.child_of(t, j)
                < n && self.levels@[self.child_of(t, j)] == self.levels@[t] - 1
        &&& forall|t1: int, j1: int, t2: int, j2: int|
            #[trigger] self.branch_at(t1, j1) && #[trigger] self.branch_at(t2, j2)
                && self.child_of(t1, j1) == self.child_of(t2, j2) ==> t1 == t2 && j1 == j2
    }
}

/// The translation the tree defines, walking from table `t` at level `l`.
pub open spec fn translate_from(pt: PageTables, t: int, va: u64, l: int) -> Option<u64>
    decreases l,
    when 0 <= l
{
    if !(0 <= t < pt.tables@.len()) {
        None::<u64>
    } else {
        let w = pt.entry_at(t, vpn_of(va, l));
        if !e_valid(w) {
            None::<u64>
        } else if e_leaf(w) {
            Some(leaf_pa(w, va, l))
        } else if l == 0 {
            None::<u64>
        } else {
            translate_from(pt, e_child(w), va, l - 1)
        }
    }
}

/// The translation the whole tree defines.
pub open spec fn translate(pt: PageTables, va: u64) -> Option<u64> {
    translate_from(pt, 0, va, 2)
}

/// The arena table the walk for `va` sits at when it has descended to
/// level `l`, following branch entries only.
pub open spec fn walk_to(pt: PageTables, va: u64, l: int) -> Option<int>
    decreases 2 - l,
    when l <= 2
{
    if l == 2 {
        Some(0int)
    } else {
        match walk_to(pt, va, l + 1) {
            None => None::<int>,
            Some(t) => {
                let w = pt.entry_at(t, vpn_of(va, l + 1));
                if e_valid(w) && !e_leaf(w) {
                    Some(e_child(w))
                } else {
                    None::<int>
                }
            },
        }
    }
}

/// The walk for `va` toward `target` runs into an existing leaf strictly
/// above `target`: the mapping cannot be installed without destroying it.
pub open spec fn path_blocked_from(pt: PageTables, t: int, va: u64, l: int, target: int) -> bool
    decreases l,
    when 0 <= target && 0 <= l
{
    if !(0 <= t < pt.tables@.len()) {
        false
    } else if l <= target {
        false
    } else {
        let w = pt.entry_at(t, vpn_of(va, l));
        if !e_valid(w) {
            false
        } else if e_leaf(w) {
            true
        } else {
            path_blocked_from(pt, e_child(w), va, l - 1, target)
        }
    }
}

/// The walk from the root for `va` toward `target` hits a leaf early.
pub open spec fn path_blocked(pt: PageTables, va: u64, target: int) -> bool {
    path_blocked_from(pt, 0, va, 2, target)
}

/// Every arena table is backed by a frame that the allocator records as
/// a taken single-frame run, and no two tables share a frame.
pub open spec fn owns(pt: PageTables, fa: FrameAllocator) -> bool {
    &&& forall|t: int|
        0 <= t < pt.frames@.len() ==> {
            let a = #[trigger] pt.frames@[t];
            &&& fa.alloc_start <= a
            &&& (a - fa.alloc_start) % (PAGE_SIZE as int) == 0
            &&& (a - fa.alloc_start) / (PAGE_SIZE as int) < fa.pages@.len()
            &&& fa.pages@[(a - fa.alloc_start) / (PAGE_SIZE as int)].flags == 3
        }
    &&& forall|t1: int, t2: int|
        0 <= t1 < pt.frames@.len() && 0 <= t2 < pt.frames@.len() && t1 != t2
            ==> pt.frames@[t1] != pt.frames@[t2]
}

/// Every nine-bit slice of a virtual address indexes inside a table.
proof fn lemma_vpn_bounds(va: u64)
    ensures
        0 <= vpn_of(va, 0) < 512,
        0 <= vpn_of(va, 1) < 512,
        0 <= vpn_of(va, 2) < 512,
{
    assert((va >> 12) & 0x1ff < 512 && (va >> 21) & 0x1ff < 512 && (va >> 30) & 0x1ff < 512)
        by (bit_vector);
}

/// Constant-entry bit facts used throughout.
proof fn lemma_entry_zero()
    by (bit_vector)
    ensures
        0u64 & 1 == 0,
        0u64 & 0xe == 0,
{
}

/// A branch word is valid, is no leaf, and stores its child index.
proof fn lemma_branch_word(c: u64)
    by (bit_vector)
    requires
        c < 0x0040_0000_0000_0000,
    ensures
        ((c << 10) | 1) & 1 != 0,
        ((c << 10) | 1) & 0xe == 0,
        ((c << 10) | 1) >> 10 == c,
{
}

/// Builds a table of 512 empty entries.
fn empty_table() -> (r: Table)
    ensures
        r.entries@.len() == 512,
        forall|j: int| 0 <= j < 512 ==> (#[trigger] r.entries@[j]).entry == 0,
{
    let mut entries: Vec<Entry> = Vec::new();
    let mut i: usize = 0;
    while i < 512
        invariant
            i == entries@.len(),
            i <= 512,
            forall|j: int| 0 <= j < i ==> (#[trigger] entries@[j]).entry == 0,
        decreases 512 - i,
    {
        entries.push(Entry { entry: 0 });
        i = i + 1;
    }
    Table { entries }
}

impl PageTables {
    /// Creates an address space with a zeroed root table backed by one
    /// frame from the allocator.
    ///
    /// Returns `None` exactly when the allocator has no free frame.
    pub fn new(fa: &mut FrameAllocator) -> (r: Option<PageTables>)
        requires
            old(fa).wf(),
        ensures
            final(fa).wf(),
            final(fa).same_region(*old(fa)),
            match first_fit(old(fa).pages@, 1) {
                Some(i) => final(fa).pages@ == mark_run(old(fa).pages@, i, 1) && match r {
                    Some(pt) => {
                        &&& pt.wf()
                        &&& owns(pt, *final(fa))
                        &&& pt.tables@.len() == 1
                        &&& forall|va: u64| translate(pt, va) is None
                    },
                    None => false,
                },
                None => r is None && final(fa).pages@ == old(fa).pages@,
            },
    {
        let got = fa.zalloc(1);
        match got {
            None => None,
            Some(addr) => {
                proof {
                    lemma_first_fit_found(
                        old(fa).pages@,
                        1,
                        0,
                        first_fit(old(fa).pages@, 1).unwrap(),
                    );
                }
                let root = empty_table();
                let mut tables: Vec<Table> = Vec::new();
                tables.push(root);
                let mut frames: Vec<usize> = Vec::new();
                frames.push(addr);
                let ghost lv: Seq<int> = seq![2int];
                let pt = PageTables { tables, frames, levels: Ghost(lv) };
                proof {
                    lemma_entry_zero();
                    assert forall|t: int, j: int| #[trigger]
                        pt.branch_at(t, j) implies false by {
                        assert(pt.entry_at(t, j) == 0);
                    }
                    assert(pt.wf());
                    assert forall|va: u64| translate(pt, va) is None by {
                        lemma_vpn_bounds(va);
                        assert(pt.entry_at(0, vpn_of(va, 2)) == 0);
                    }
                    let i0 = first_fit(old(fa).pages@, 1).unwrap();
                    lemma_mod_multiples_basic(i0, PAGE_SIZE as int);
                    lemma_div_by_multiple(i0, PAGE_SIZE as int);
                    assert(addr as int - fa.alloc_start == i0 * PAGE_SIZE);
                }
                Some(pt)
            },
        }
    }
}

/// The walk from `tcur` at level `l` for `va` never reads entry `j` of
/// table `t`.
pub open spec fn avoids(pt: PageTables, tcur: int, va: u64, l: int, t: int, j: int) -> bool
    decreases l,
    when 0 <= l
{
    if !(0 <= tcur < pt.tables@.len()) {
        true
    } else if tcur == t && vpn_of(va, l) == j {
        false
    } else {
        let w = pt.entry_at(tcur, vpn_of(va, l));
        if e_valid(w) && !e_leaf(w) && l > 0 {
            avoids(pt, e_child(w), va, l - 1, t, j)
        } else {
            true
        }
    }
}

/// A walk position exists only inside the arena, at its own level.
proof fn lemma_walk_levels(pt: PageTables, va: u64, l: int)
    requires
        pt.wf(),
        0 <= l <= 2,
        walk_to(pt, va, l) is Some,
    ensures
        0 <= walk_to(pt, va, l).unwrap() < pt.tables@.len(),
        pt.levels@[walk_to(pt, va, l).unwrap()] == l,
    decreases 2 - l,
{
    if l == 2 {
    } else {
        lemma_walk_levels(pt, va, l + 1);
        let tp = walk_to(pt, va, l + 1).unwrap();
        lemma_vpn_bounds(va);
        assert(pt.branch_at(tp, vpn_of(va, l + 1)));
    }
}

/// Walking from the root gives the same result as continuing from any
/// position the walk has reached.
proof fn lemma_walk_translate(pt: PageTables, va: u64, l: int)
    requires
        pt.wf(),
        0 <= l <= 2,
        walk_to(pt, va, l) is Some,
    ensures
        translate(pt, va) == translate_from(pt, walk_to(pt, va, l).unwrap(), va, l),
    decreases 2 - l,
{
    if l == 2 {
    } else {
        lemma_walk_translate(pt, va, l + 1);
        lemma_walk_levels(pt, va, l + 1);
        lemma_vpn_bounds(va);
    }
}

/// Addresses with the same index slices walk to the same position.
proof fn lemma_walk_same_slices(pt: PageTables, va: u64, va2: u64, l: int)
    requires
        0 <= l <= 2,
        forall|d: int| l < d <= 2 ==> vpn_of(va, d) == vpn_of(va2, d),
    ensures
        walk_to(pt, va, l) == walk_to(pt, va2, l),
    decreases 2 - l,
{
    if l == 2 {
    } else {
        lemma_walk_same_slices(pt, va, va2, l + 1);
        assert(vpn_of(va, l + 1) == vpn_of(va2, l + 1));
    }
}

/// Two addresses that walk to the same position share all the index
/// slices above it: each table has a unique parent entry.
proof fn lemma_walk_unique(pt: PageTables, va: u64, va2: u64, l: int)
    requires
        pt.wf(),
        0 <= l <= 2,
        walk_to(pt, va, l) == walk_to(pt, va2, l),
        walk_to(pt, va, l) is Some,
    ensures
        forall|d: int| l < d <= 2 ==> vpn_of(va, d) == vpn_of(va2, d),
    decreases 2 - l,
{
    if l == 2 {
    } else {
        let c = walk_to(pt, va, l).unwrap();
        let tp1 = walk_to(pt, va, l + 1).unwrap();
        let tp2 = walk_to(pt, va2, l + 1).unwrap();
        lemma_walk_levels(pt, va, l + 1);
        lemma_walk_levels(pt, va2, l + 1);
        lemma_vpn_bounds(va);
        lemma_vpn_bounds(va2);
        assert(pt.branch_at(tp1, vpn_of(va, l + 1)));
        assert(pt.branch_at(tp2, vpn_of(va2, l + 1)));
        assert(pt.child_of(tp1, vpn_of(va, l + 1)) == c);
        assert(pt.child_of(tp2, vpn_of(va2, l + 1)) == c);
        assert(tp1 == tp2 && vpn_of(va, l + 1) == vpn_of(va2, l + 1));
        lemma_walk_unique(pt, va, va2, l + 1);
        assert forall|d: int| l < d <= 2 implies vpn_of(va, d) == vpn_of(va2, d) by {
            if d > l + 1 {
                assert(vpn_of(va, d) == vpn_of(va2, d));
            }
        }
    }
}

/// A change to one entry of a table below level `l` (and any appended
/// tables) leaves every walk down to `l` unchanged.
proof fn lemma_walk_preserved(
    pt1: PageTables,
    pt2: PageTables,
    va: u64,
    l: int,
    tc: int,
    jc: int,
)
    requires
        pt1.wf(),
        0 <= l <= 2,
        0 <= tc < pt1.tables@.len(),
        pt1.levels@[tc] <= l,
        pt2.tables@.len() >= pt1.tables@.len(),
        forall|x: int, y: int|
            0 <= x < pt1.tables@.len() && 0 <= y < 512 && !(x == tc && y == jc)
                ==> pt2.entry_at(x, y) == pt1.entry_at(x, y),
    ensures
        walk_to(pt2, va, l) == walk_to(pt1, va, l),
    decreases 2 - l,
{
    if l == 2 {
    } else {
        lemma_walk_preserved(pt1, pt2, va, l + 1, tc, jc);
        if walk_to(pt1, va, l + 1) is Some {
            let tp = walk_to(pt1, va, l + 1).unwrap();
            lemma_walk_levels(pt1, va, l + 1);
            lemma_vpn_bounds(va);
            assert(tp != tc);
            assert(pt2.entry_at(tp, vpn_of(va, l + 1)) == pt1.entry_at(tp, vpn_of(va, l + 1)));
        }
    }
}

/// A change to one entry that a walk avoids (plus any appended tables)
/// leaves that walk's translation unchanged.
proof fn lemma_translate_entry_update(
    pt1: PageTables,
    pt2: PageTables,
    tc: int,
    jc: int,
    tcur: int,
    va2: u64,
    l: int,
)
    requires
        pt1.wf(),
        pt2.wf(),
        0 <= l <= 2,
        0 <= tcur < pt1.tables@.len(),
        pt2.tables@.len() >= pt1.tables@.len(),
        forall|x: int, y: int|
            0 <= x < pt1.tables@.len() && 0 <= y < 512 && !(x == tc && y == jc)
                ==> pt2.entry_at(x, y) == pt1.entry_at(x, y),
        avoids(pt1, tcur, va2, l, tc, jc),
    ensures
        translate_from(pt2, tcur, va2, l) == translate_from(pt1, tcur, va2, l),
    decreases l,
{
    lemma_vpn_bounds(va2);
    let w = pt1.entry_at(tcur, vpn_of(va2, l));
    assert(pt2.entry_at(tcur, vpn_of(va2, l)) == w);
    if e_valid(w) && !e_leaf(w) && l > 0 {
        assert(pt1.branch_at(tcur, vpn_of(va2, l)));
        lemma_translate_entry_update(pt1, pt2, tc, jc, e_child(w), va2, l - 1);
    }
}

/// A walk that does not land on `(t, j)` avoids that entry altogether.
proof fn lemma_avoids_from(
    pt: PageTables,
    va2: u64,
    t: int,
    j: int,
    level: int,
    l: int,
    tcur: int,
)
    requires
        pt.wf(),
        0 <= t < pt.tables@.len(),
        pt.levels@[t] == level,
        0 <= level <= 2,
        0 <= l <= 2,
        walk_to(pt, va2, l) == Some(tcur),
        !(walk_to(pt, va2, level) == Some(t) && vpn_of(va2, level) == j),
    ensures
        avoids(pt, tcur, va2, l, t, j),
    decreases l,
{
    lemma_walk_levels(pt, va2, l);
    lemma_vpn_bounds(va2);
    if tcur == t && vpn_of(va2, l) == j {
        assert(l == level);
        assert(false);
    } else {
        let w = pt.entry_at(tcur, vpn_of(va2, l));
        if e_valid(w) && !e_leaf(w) && l > 0 {
            assert(pt.branch_at(tcur, vpn_of(va2, l)));
            assert(walk_to(pt, va2, l - 1) == Some(e_child(w)));
            lemma_avoids_from(pt, va2, t, j, level, l - 1, e_child(w));
        }
    }
}

/// Leaf words: validity, leafness, and the translation they produce.
proof fn lemma_leaf_roundtrip(paddr: u64, bits: u64, va: u64)
    by (bit_vector)
    requires
        paddr < 0x100_0000_0000_0000,
        bits < 1024,
        bits & 0xe != 0,
    ensures
        ((((paddr >> 30) & 0x3ff_ffff) << 28) | (((paddr >> 21) & 0x1ff) << 19) | (((paddr
            >> 12) & 0x1ff) << 10) | bits | 1) & 1 != 0,
        ((((paddr >> 30) & 0x3ff_ffff) << 28) | (((paddr >> 21) & 0x1ff) << 19) | (((paddr
            >> 12) & 0x1ff) << 10) | bits | 1) & 0xe != 0,
        (((((paddr >> 30) & 0x3ff_ffff) << 28) | (((paddr >> 21) & 0x1ff) << 19) | (((paddr
            >> 12) & 0x1ff) << 10) | bits | 1) << 2) & !0xfffu64 == (paddr & !0xfffu64),
        (((((paddr >> 30) & 0x3ff_ffff) << 28) | (((paddr >> 21) & 0x1ff) << 19) | (((paddr
            >> 12) & 0x1ff) << 10) | bits | 1) << 2) & !0x1f_ffffu64 == (paddr
            & !0x1f_ffffu64),
        (((((paddr >> 30) & 0x3ff_ffff) << 28) | (((paddr >> 21) & 0x1ff) << 19) | (((paddr
            >> 12) & 0x1ff) << 10) | bits | 1) << 2) & !0x3fff_ffffu64 == (paddr
            & !0x3fff_ffffu64),
{
}

/// The nine-bit table index `va` selects at level `l`.
fn vpn_index(va: u64, l: usize) -> (r: usize)
    requires
        l <= 2,
    ensures
        r == vpn_of(va, l as int),
        r < 512,
{
    let s: u64 = if l == 0 {
        va >> 12
    } else if l == 1 {
        va >> 21
    } else {
        va >> 30
    };
    let m: u64 = s & 0x1ff;
    proof {
        assert(m < 512) by (bit_vector)
            requires
                m == s & 0x1ff,
        ;
    }
    m as usize
}

/// Installing a branch to a fresh zeroed table changes no translation
/// and keeps the arena invariant.
proof fn install_branch_facts(
    pt1: PageTables,
    pt2: PageTables,
    ti: int,
    ji: int,
    c: int,
    va: u64,
    l: int,
    target: int,
)
    requires
        pt1.wf(),
        1 <= l <= 2,
        0 <= target <= l - 1,
        0 <= ti < pt1.tables@.len(),
        pt1.levels@[ti] == l,
        ji == vpn_of(va, l),
        walk_to(pt1, va, l) == Some(ti),
        !e_valid(pt1.entry_at(ti, ji)),
        c == pt1.tables@.len(),
        c < 0x0040_0000_0000_0000,
        pt2.tables@.len() == c + 1,
        pt2.frames@.len() == c + 1,
        pt2.levels@ == pt1.levels@.push(l - 1),
        forall|x: int|
            0 <= x < pt2.tables@.len() ==> (#[trigger] pt2.tables@[x]).entries@.len() == 512,
        forall|x: int, y: int|
            0 <= x < c && 0 <= y < 512 && !(x == ti && y == ji) ==> pt2.entry_at(x, y)
                == pt1.entry_at(x, y),
        forall|y: int| 0 <= y < 512 ==> pt2.entry_at(c, y) == 0,
        pt2.entry_at(ti, ji) == branch_word(c),
    ensures
        pt2.wf(),
        pt2.levels@[c] == l - 1,
        walk_to(pt2, va, l) == Some(ti),
        walk_to(pt2, va, l - 1) == Some(c),
        forall|va2: u64| #[trigger] translate(pt2, va2) == translate(pt1, va2),
        !path_blocked_from(pt1, ti, va, l, target),
        !path_blocked_from(pt2, c, va, l - 1, target),
{
    lemma_branch_word(c as u64);
    lemma_entry_zero();
    let bw = branch_word(c);
    assert(e_valid(bw) && !e_leaf(bw) && e_child(bw) == c);
    assert forall|t1: int, j1: int, t2: int, j2: int| #[trigger]
        pt2.branch_at(t1, j1) && #[trigger] pt2.branch_at(t2, j2) && pt2.child_of(t1, j1)
            == pt2.child_of(t2, j2) implies t1 == t2 && j1 == j2 by {
        if t1 != c && t2 != c {
            if !(t1 == ti && j1 == ji) && !(t2 == ti && j2 == ji) {
                assert(pt1.branch_at(t1, j1));
                assert(pt1.branch_at(t2, j2));
            } else if (t1 == ti && j1 == ji) && !(t2 == ti && j2 == ji) {
                assert(pt1.branch_at(t2, j2));
                assert(pt1.child_of(t2, j2) < c);
            } else if !(t1 == ti && j1 == ji) && (t2 == ti && j2 == ji) {
                assert(pt1.branch_at(t1, j1));
                assert(pt1.child_of(t1, j1) < c);
            }
        }
    }
    assert forall|t1: int, j1: int| #[trigger] pt2.branch_at(t1, j1) implies pt2.levels@[t1]
        >= 1 && 1 <= pt2.child_of(t1, j1) < pt2.tables@.len() && pt2.levels@[pt2.child_of(
        t1,
        j1,
    )] == pt2.levels@[t1] - 1 by {
        if t1 == c {
            assert(pt2.entry_at(c, j1) == 0);
            assert(false);
        } else if t1 == ti && j1 == ji {
            assert(pt2.child_of(t1, j1) == c);
        } else {
            assert(pt1.branch_at(t1, j1));
        }
    }
    assert(pt2.wf());
    lemma_walk_preserved(pt1, pt2, va, l, ti, ji);
    lemma_vpn_bounds(va);
    assert(walk_to(pt2, va, l - 1) == Some(c));
    assert forall|va2: u64| #[trigger] translate(pt2, va2) == translate(pt1, va2) by {
        lemma_vpn_bounds(va2);
        if walk_to(pt1, va2, l) == Some(ti) && vpn_of(va2, l) == ji {
            lemma_walk_translate(pt1, va2, l);
            lemma_walk_preserved(pt1, pt2, va2, l, ti, ji);
            lemma_walk_translate(pt2, va2, l);
            assert(translate_from(pt1, ti, va2, l) is None);
            assert(pt2.entry_at(c, vpn_of(va2, l - 1)) == 0);
            assert(translate_from(pt2, c, va2, l - 1) is None);
            assert(translate_from(pt2, ti, va2, l) is None);
        } else {
            lemma_avoids_from(pt1, va2, ti, ji, l, 2, 0);
            lemma_translate_entry_update(pt1, pt2, ti, ji, 0, va2, 2);
        }
    }
    assert(pt2.entry_at(c, vpn_of(va, l - 1)) == 0);
}

/// Writing the leaf updates the translation exactly on the addresses
/// that share the path down to the target level.
proof fn leaf_write_facts(
    ptm: PageTables,
    pt2: PageTables,
    ti: int,
    va: u64,
    paddr: u64,
    bits: u64,
    lvl: int,
    lw: u64,
)
    requires
        ptm.wf(),
        0 <= lvl <= 2,
        0 <= ti < ptm.tables@.len(),
        ptm.levels@[ti] == lvl,
        walk_to(ptm, va, lvl) == Some(ti),
        bits & 0xe != 0,
        bits < 1024,
        paddr < 0x100_0000_0000_0000,
        lw == leaf_word(paddr, bits),
        pt2.tables@.len() == ptm.tables@.len(),
        pt2.frames@ == ptm.frames@,
        pt2.levels@ == ptm.levels@,
        forall|x: int|
            0 <= x < pt2.tables@.len() ==> (#[trigger] pt2.tables@[x]).entries@.len() == 512,
        forall|x: int, y: int|
            0 <= x < ptm.tables@.len() && 0 <= y < 512 && !(x == ti && y == vpn_of(va, lvl))
                ==> pt2.entry_at(x, y) == ptm.entry_at(x, y),
        pt2.entry_at(ti, vpn_of(va, lvl)) == lw,
    ensures
        pt2.wf(),
        walk_to(pt2, va, lvl) == Some(ti),
        pt2.entry_at(ti, vpn_of(va, lvl)) == lw,
        forall|va2: u64|
            #[trigger] translate(pt2, va2) == (if same_path(va2, va, lvl) {
                Some(pa_of(paddr, va2, lvl))
            } else {
                translate(ptm, va2)
            }),
{
    let ji = vpn_of(va, lvl);
    lemma_vpn_bounds(va);
    lemma_leaf_roundtrip(paddr, bits, va);
    lemma_walk_preserved(ptm, pt2, va, lvl, ti, ji);
    assert(e_valid(lw) && e_leaf(lw));
    assert forall|t1: int, j1: int| #[trigger] pt2.branch_at(t1, j1) implies ptm.branch_at(
        t1,
        j1,
    ) && pt2.entry_at(t1, j1) == ptm.entry_at(t1, j1) by {
        if t1 == ti && j1 == ji {
            assert(e_leaf(pt2.entry_at(t1, j1)));
            assert(false);
        }
    }
    assert(pt2.wf());
    assert forall|va2: u64|
        #[trigger] translate(pt2, va2) == (if same_path(va2, va, lvl) {
            Some(pa_of(paddr, va2, lvl))
        } else {
            translate(ptm, va2)
        }) by {
        lemma_vpn_bounds(va2);
        if same_path(va2, va, lvl) {
            assert(vpn_of(va2, lvl) == ji);
            lemma_walk_same_slices(ptm, va, va2, lvl);
            lemma_walk_preserved(ptm, pt2, va2, lvl, ti, ji);
            lemma_walk_translate(pt2, va2, lvl);
            assert(translate_from(pt2, ti, va2, lvl) == Some(leaf_pa(lw, va2, lvl)));
            lemma_leaf_roundtrip(paddr, bits, va2);
            assert(leaf_pa(lw, va2, lvl) == pa_of(paddr, va2, lvl));
        } else {
            if walk_to(ptm, va2, lvl) == Some(ti) && vpn_of(va2, lvl) == ji {
                lemma_walk_unique(ptm, va, va2, lvl);
                assert forall|d: int| lvl <= d <= 2 implies vpn_of(va2, d) == vpn_of(
                    va,
                    d,
                ) by {
                    if d > lvl {
                        assert(vpn_of(va, d) == vpn_of(va2, d));
                    }
                }
                assert(same_path(va2, va, lvl));
                assert(false);
            }
            lemma_avoids_from(ptm, va2, ti, ji, lvl, 2, 0);
            lemma_translate_entry_update(ptm, pt2, ti, ji, 0, va2, 2);
        }
    }
}

/// The arena still owns distinct taken frames after taking one more.
proof fn owns_after_alloc(
    pt1: PageTables,
    pt2: PageTables,
    fa1: FrameAllocator,
    fa2: FrameAllocator,
    i0: int,
)
    requires
        owns(pt1, fa1),
        fa1.wf(),
        fa2.alloc_start == fa1.alloc_start,
        0 <= i0,
        i0 + 1 <= fa1.pages@.len(),
        !page_taken(fa1.pages@[i0]),
        fa2.pages@ == mark_run(fa1.pages@, i0, 1),
        pt2.frames@ == pt1.frames@.push((fa1.alloc_start + i0 * PAGE_SIZE) as usize),
    ensures
        owns(pt2, fa2),
{
    let a = (fa1.alloc_start + i0 * PAGE_SIZE) as usize;
    assert(fa1.alloc_start + i0 * PAGE_SIZE <= fa1.alloc_start + fa1.pages@.len() * PAGE_SIZE);
    assert(a as int == fa1.alloc_start + i0 * PAGE_SIZE);
    lemma_mod_multiples_basic(i0, PAGE_SIZE as int);
    lemma_div_by_multiple(i0, PAGE_SIZE as int);
    assert((a - fa2.alloc_start) % (PAGE_SIZE as int) == 0);
    assert((a - fa2.alloc_start) / (PAGE_SIZE as int) == i0);
    assert(fa2.pages@[i0].flags == 3);
    assert forall|t: int| 0 <= t < pt1.frames@.len() implies {
        let b = #[trigger] pt1.frames@[t];
        let d = (b - fa1.alloc_start) / (PAGE_SIZE as int);
        fa2.pages@[d].flags == 3 && b != a
    } by {
        let b = pt1.frames@[t];
        let d = (b - fa1.alloc_start) / (PAGE_SIZE as int);
        assert(fa1.pages@[d].flags == 3);
        assert(3u8 & 1 == 1) by (bit_vector);
        assert(d != i0);
        lemma_fundamental_div_mod(b - fa1.alloc_start, PAGE_SIZE as int);
    }
}

/// Why a mapping could not be installed.
#[derive(Clone, Copy, Debug, PartialEq, Eq)]
pub enum MapError {
    /// The frame allocator could not provide a page for an intermediate
    /// table, or the arena cannot index another table.
    OutOfFrames,
    /// An existing leaf mapping above the target level is in the way.
    LeafInWay,
}

/// Maps virtual address `vaddr` to physical address `paddr` with the
/// given permission bits, installing the leaf at `level` (0 is a base
/// page; 1 and 2 are superpages).  Intermediate tables are created
/// lazily, zero-filled, from the frame allocator.
///
/// On success every address sharing `vaddr`'s index slices down to
/// `level` translates to `paddr`'s frame plus its own page offset, and
/// every other address translates exactly as before; the leaf entry
/// written at the target level carries the physical page number and
/// exactly the requested bits.  Only entries on `vaddr`'s walk are
/// written, and at most one table — one frame — is taken per level above
/// the target.  On failure no translation changes; `LeafInWay` is
/// returned exactly when the walk would run into an existing leaf above
/// `level`, and then nothing at all has changed, while `OutOfFrames`
/// comes only with the frame allocator exhausted (or the arena index
/// space full).
pub fn map(
    pt: &mut PageTables,
    fa: &mut FrameAllocator,
    vaddr: u64,
    paddr: u64,
    bits: u64,
    level: usize,
) -> (r: Result<(), MapError>)
    requires
        old(pt).wf(),
        old(fa).wf(),
        owns(*old(pt), *old(fa)),
        bits & 0xe != 0,
        bits < 1024,
        paddr < 0x100_0000_0000_0000,
        level <= 2,
    ensures
        final(pt).wf(),
        final(fa).wf(),
        final(fa).same_region(*old(fa)),
        owns(*final(pt), *final(fa)),
        (r == Err::<(), MapError>(MapError::LeafInWay)) == path_blocked(
            *old(pt),
            vaddr,
            level as int,
        ),
        r == Err::<(), MapError>(MapError::LeafInWay) ==> *final(pt) == *old(pt) && *final(fa)
            == *old(fa),
        r == Err::<(), MapError>(MapError::OutOfFrames) ==> first_fit(final(fa).pages@, 1)
            is None || final(pt).tables@.len() >= 0x0040_0000_0000_0000,
        // at most one table, hence one frame, per level above the target
        old(pt).tables@.len() <= final(pt).tables@.len() <= old(pt).tables@.len() + 2 - level,
        forall|c: int|
            0 <= c < old(pt).tables@.len() ==> #[trigger] final(pt).frames@[c] == old(
                pt,
            ).frames@[c],
        // the only frames taken are those backing the new tables
        forall|d: int|
            0 <= d < old(fa).pages@.len() && #[trigger] final(fa).pages@[d] != old(
                fa,
            ).pages@[d] ==> final(fa).pages@[d].flags == 3 && !page_taken(old(fa).pages@[d])
                && (exists|c: int|
                old(pt).tables@.len() <= c < final(pt).tables@.len() && final(pt).frames@[c]
                    == old(fa).alloc_start + d * PAGE_SIZE),
        // the only entries written in pre-existing tables lie on vaddr's walk
        forall|x: int, j: int|
            0 <= x < old(pt).tables@.len() && 0 <= j < 512 && #[trigger] final(pt).entry_at(
                x,
                j,
            ) != old(pt).entry_at(x, j) ==> exists|d: int|
                level <= d <= 2 && walk_to(*final(pt), vaddr, d) == Some(x) && j == vpn_of(
                    vaddr,
                    d,
                ),
        match r {
            Ok(()) => ({
                // the leaf entry written at the target level carries the
                // physical page number and exactly the requested bits
                &&& walk_to(*final(pt), vaddr, level as int) matches Some(t)
                    && final(pt).entry_at(t, vpn_of(vaddr, level as int)) == leaf_word(
                    paddr,
                    bits,
                )
                &&& forall|va2: u64|
                    #[trigger] translate(*final(pt), va2) == (if same_path(
                        va2,
                        vaddr,
                        level as int,
                    ) {
                        Some(pa_of(paddr, va2, level as int))
                    } else {
                        translate(*old(pt), va2)
                    })
            }),
            Err(_) => forall|va2: u64|
                #[trigger] translate(*final(pt), va2) == translate(*old(pt), va2),
        },
{
    let mut t: usize = 0;
    let mut l: usize = 2;
    while l > level
        invariant
            pt.wf(),
            fa.wf(),
            owns(*pt, *fa),
            fa.same_region(*old(fa)),
            fa.pages@.len() == old(fa).pages@.len(),
            level <= 2,
            level <= l <= 2,
            0 <= t < pt.tables@.len(),
            pt.levels@[t as int] == l as int,
            walk_to(*pt, vaddr, l as int) == Some(t as int),
            forall|va2: u64| #[trigger] translate(*pt, va2) == translate(*old(pt), va2),
            path_blocked(*old(pt), vaddr, level as int) == path_blocked_from(
                *pt,
                t as int,
                vaddr,
                l as int,
                level as int,
            ),
            (*pt == *old(pt) && *fa == *old(fa)) || (forall|y: int|
                0 <= y < 512 ==> #[trigger] pt.entry_at(t as int, y) == 0),
            old(pt).tables@.len() <= pt.tables@.len() <= old(pt).tables@.len() + 2 - l as int,
            forall|c: int|
                0 <= c < old(pt).tables@.len() ==> #[trigger] pt.frames@[c] == old(
                    pt,
                ).frames@[c],
            forall|d: int|
                0 <= d < old(fa).pages@.len() && #[trigger] fa.pages@[d] != old(fa).pages@[d]
                    ==> fa.pages@[d].flags == 3 && !page_taken(old(fa).pages@[d]) && (exists|
                c: int|
                    old(pt).tables@.len() <= c < pt.tables@.len() && pt.frames@[c] == old(
                        fa,
                    ).alloc_start + d * PAGE_SIZE),
            forall|x: int, j: int|
                0 <= x < old(pt).tables@.len() && 0 <= j < 512 && #[trigger] pt.entry_at(x, j)
                    != old(pt).entry_at(x, j) ==> (exists|d: int|
                    (l as int) < d && d <= 2 && walk_to(*pt, vaddr, d) == Some(x) && j == vpn_of(
                        vaddr,
                        d,
                    )),
        decreases l,
    {
        let idx: usize = vpn_index(vaddr, l);
        let w: u64 = pt.tables[t].entries[idx].get_entry();
        if w & 1 == 0 {
            if (pt.tables.len() as u64) >= 0x0040_0000_0000_0000u64 {
                return Err(MapError::OutOfFrames);
            }
            let ghost fa_pre = *fa;
            let ghost pt1 = *pt;
            let got = fa.zalloc(1);
            match got {
                None => {
                    return Err(MapError::OutOfFrames);
                },
                Some(addr) => {
                    proof {
                        let i0 = first_fit(fa_pre.pages@, 1).unwrap();
                        lemma_first_fit_found(fa_pre.pages@, 1, 0, i0);
                        assert(!page_taken(fa_pre.pages@[i0]));
                    }
                    let child: usize = pt.tables.len();
                    let tbl = empty_table();
                    pt.tables.push(tbl);
                    pt.frames.push(addr);
                    proof {
                        pt.levels@ = pt.levels@.push(l as int - 1);
                    }
                    let bw: u64 = ((child as u64) << 10) | 1;
                    let mut ent: Entry = pt.tables[t].entries[idx];
                    ent.set_entry(bw);
                    pt.tables[t].entries[idx] = ent;
                    proof {
                        let ti = t as int;
                        let ji = idx as int;
                        let c = child as int;
                        let pt2 = *pt;
                        lemma_branch_word(child as u64);
                        assert(bw == branch_word(c));
                        assert(pt2.tables@[ti].entries@ == pt1.tables@[ti].entries@.update(
                            ji,
                            ent,
                        ));
                        assert forall|x: int|
                            0 <= x < pt2.tables@.len() implies (#[trigger] pt2.tables@[
                        x]).entries@.len() == 512 by {
                            if x != ti && x != c {
                                assert(pt2.tables@[x] == pt1.tables@[x]);
                            }
                        }
                        assert forall|x: int, y: int|
                            0 <= x < c && 0 <= y < 512 && !(x == ti && y == ji) implies
                            pt2.entry_at(x, y) == pt1.entry_at(x, y) by {
                            if x != ti {
                                assert(pt2.tables@[x] == pt1.tables@[x]);
                            }
                        }
                        assert forall|y: int| 0 <= y < 512 implies pt2.entry_at(c, y)
                            == 0 by {
                            assert(pt2.tables@[c] == tbl);
                        }
                        assert(pt2.entry_at(ti, ji) == bw);
                        install_branch_facts(
                            pt1,
                            pt2,
                            ti,
                            ji,
                            c,
                            vaddr,
                            l as int,
                            level as int,
                        );
                        let i0 = first_fit(fa_pre.pages@, 1).unwrap();
                        owns_after_alloc(pt1, pt2, fa_pre, *fa, i0);
                        // the only descriptor this step changes is the one
                        // of the fresh table's frame
                        assert forall|d: int|
                            0 <= d < old(fa).pages@.len() && #[trigger] fa.pages@[d] != old(
                            fa,
                        ).pages@[d] implies fa.pages@[d].flags == 3 && !page_taken(
                            old(fa).pages@[d],
                        ) && (exists|cw: int|
                            old(pt).tables@.len() <= cw < pt2.tables@.len() && pt2.frames@[
                            cw] == old(fa).alloc_start + d * PAGE_SIZE) by {
                            assert(fa_pre.pages@.len() == old(fa).pages@.len());
                            assert(fa.pages@ == mark_run(fa_pre.pages@, i0, 1));
                            assert(fa.pages@.len() == fa_pre.pages@.len());
                            assert(fa.pages@[d] == mark_run(fa_pre.pages@, i0, 1)[d]);
                            if fa_pre.pages@[d] == old(fa).pages@[d] {
                                assert(d == i0);
                                assert(pt2.frames@[c] == addr);
                                assert(addr as int == old(fa).alloc_start + d * PAGE_SIZE);
                                assert(old(pt).tables@.len() <= c < pt2.tables@.len()
                                    && pt2.frames@[c] == old(fa).alloc_start + d
                                    * PAGE_SIZE);
                            } else {
                                let cw = choose|cw: int|
                                    old(pt).tables@.len() <= cw < pt1.tables@.len()
                                        && pt1.frames@[cw] == old(fa).alloc_start + d
                                        * PAGE_SIZE;
                                assert(page_taken(fa_pre.pages@[d])) by {
                                    lemma_frame_flag_consts();
                                }
                                assert(d != i0);
                                assert(fa.pages@[d] == fa_pre.pages@[d]);
                                assert(pt2.frames@[cw] == pt1.frames@[cw]);
                                assert(old(pt).tables@.len() <= cw < pt2.tables@.len()
                                    && pt2.frames@[cw] == old(fa).alloc_start + d
                                    * PAGE_SIZE);
                            }
                        }
                        // every entry changed in a pre-existing table lies
                        // on vaddr's walk, one level each
                        assert forall|x: int, j: int|
                            0 <= x < old(pt).tables@.len() && 0 <= j < 512
                                && #[trigger] pt2.entry_at(x, j) != old(pt).entry_at(
                                x,
                                j,
                            ) implies (exists|d: int|
                                l as int - 1 < d && d <= 2 && walk_to(pt2, vaddr, d) == Some(x)
                                    && j == vpn_of(vaddr, d)) by {
                            if pt1.entry_at(x, j) != old(pt).entry_at(x, j) {
                                let d0 = choose|d: int|
                                    (l as int) < d && d <= 2 && walk_to(pt1, vaddr, d) == Some(x)
                                        && j == vpn_of(vaddr, d);
                                lemma_walk_preserved(pt1, pt2, vaddr, d0, ti, ji);
                                assert(l as int - 1 < d0 && d0 <= 2 && walk_to(pt2, vaddr, d0)
                                    == Some(x) && j == vpn_of(vaddr, d0));
                            } else {
                                if x != ti {
                                    assert(pt2.tables@[x] == pt1.tables@[x]);
                                    assert(false);
                                }
                                if j != ji {
                                    assert(pt2.entry_at(x, j) == pt1.entry_at(x, j));
                                    assert(false);
                                }
                                assert(l as int - 1 < l as int && l as int <= 2 && walk_to(
                                    pt2,
                                    vaddr,
                                    l as int,
                                ) == Some(x) && j == vpn_of(vaddr, l as int));
                            }
                        }
                    }
                    t = child;
                },
            }
        } else if w & 0xe != 0 {
            proof {
                lemma_entry_zero();
                if !(*pt == *old(pt) && *fa == *old(fa)) {
                    assert(pt.entry_at(t as int, idx as int) == 0);
                    assert(false);
                }
            }
            return Err(MapError::LeafInWay);
        } else {
            proof {
                assert(pt.branch_at(t as int, idx as int));
                assert(pt.tables@.len() <= usize::MAX) by {
                    assert(pt.tables@.len() == vstd::std_specs::vec::spec_vec_len(&pt.tables));
                }
                lemma_entry_zero();
                if !(*pt == *old(pt) && *fa == *old(fa)) {
                    assert(pt.entry_at(t as int, idx as int) == 0);
                    assert(false);
                }
            }
            let c: u64 = w >> 10;
            t = c as usize;
        }
        l = l - 1;
    }
    let idx: usize = vpn_index(vaddr, level);
    let ghost ptm = *pt;
    let lw: u64 = (((paddr >> 30) & 0x3ff_ffff) << 28) | (((paddr >> 21) & 0x1ff) << 19) | (((
    paddr >> 12) & 0x1ff) << 10) | bits | 1;
    let mut ent: Entry = pt.tables[t].entries[idx];
    ent.set_entry(lw);
    pt.tables[t].entries[idx] = ent;
    proof {
        leaf_write_facts(ptm, *pt, t as int, vaddr, paddr, bits, level as int, lw);
        let ptf = *pt;
        let ti = t as int;
        let ji = vpn_of(vaddr, level as int);
        assert(lw == leaf_word(paddr, bits));
        assert forall|x: int, y: int|
            0 <= x < ptm.tables@.len() && 0 <= y < 512 && !(x == ti && y == ji) implies
            ptf.entry_at(x, y) == ptm.entry_at(x, y) by {
            if x != ti {
                assert(ptf.tables@[x] == ptm.tables@[x]);
            }
        }
        assert forall|x: int, j: int|
            0 <= x < old(pt).tables@.len() && 0 <= j < 512 && #[trigger] ptf.entry_at(x, j)
                != old(pt).entry_at(x, j) implies (exists|d: int|
                level as int <= d && d <= 2 && walk_to(ptf, vaddr, d) == Some(x) && j == vpn_of(
                    vaddr,
                    d,
                )) by {
            if ptm.entry_at(x, j) != old(pt).entry_at(x, j) {
                let d0 = choose|d: int|
                    (level as int) < d && d <= 2 && walk_to(ptm, vaddr, d) == Some(x) && j == vpn_of(
                        vaddr,
                        d,
                    );
                lemma_walk_preserved(ptm, ptf, vaddr, d0, ti, ji);
                assert(level as int <= d0 && d0 <= 2 && walk_to(ptf, vaddr, d0) == Some(x) && j
                    == vpn_of(vaddr, d0));
            } else {
                if x != ti {
                    assert(ptf.tables@[x] == ptm.tables@[x]);
                    assert(false);
                }
                if j != ji {
                    assert(ptf.entry_at(x, j) == ptm.entry_at(x, j));
                    assert(false);
                }
                assert(level as int <= level as int && level as int <= 2 && walk_to(ptf, vaddr, level as int)
                    == Some(x) && j == vpn_of(vaddr, level as int));
            }
        }
    }
    Ok(())
}

/// Descriptor-byte constants of the frame allocator's three states.
proof fn lemma_frame_flag_consts()
    by (bit_vector)
    ensures
        0u8 & 1 == 0,
        0u8 & 2 == 0,
        3u8 & 1 == 1,
        3u8 & 2 == 2,
{
}

/// The frame-table index of the frame backing arena table `c`.
pub open spec fn frame_idx(pt0: PageTables, fa0: FrameAllocator, c: int) -> int {
    (pt0.frames@[c] - fa0.alloc_start) / (PAGE_SIZE as int)
}

/// Table `c` is reachable through the branch entries the teardown walk
/// has covered so far: a child of one of the first `j2` root entries, a
/// grandchild through one of them, or — while root entry `j2` with child
/// `c1` is in hand — a child of one of the first `j1` entries of `c1`.
pub open spec fn released_upto(pt0: PageTables, j2: int, c1: int, j1: int, c: int) -> bool {
    ||| exists|j: int| 0 <= j < j2 && #[trigger] pt0.branch_at(0, j) && pt0.child_of(0, j) == c
    ||| exists|j: int, y: int|
        0 <= j < j2 && 0 <= y < 512 && #[trigger] pt0.branch_at(0, j) && #[trigger] pt0.branch_at(
            pt0.child_of(0, j),
            y,
        ) && pt0.child_of(pt0.child_of(0, j), y) == c
    ||| exists|y: int|
        0 <= y < j1 && #[trigger] pt0.branch_at(c1, y) && pt0.child_of(c1, y) == c
}

/// Table `c` is a reachable non-root table: a child or grandchild of the
/// root's branch entries.  These are exactly the tables whose backing
/// frames `unmap` returns.
pub open spec fn released(pt0: PageTables, c: int) -> bool {
    released_upto(pt0, 512, 0, 0, c)
}

/// The teardown invariant: a frame descriptor is unchanged unless its
/// frame backed an already-covered table, and the frame of every covered
/// table has been cleared.
pub open spec fn teardown_inv(
    pt0: PageTables,
    fa0: FrameAllocator,
    fa: FrameAllocator,
    j2: int,
    c1: int,
    j1: int,
) -> bool {
    &&& forall|d: int|
        0 <= d < fa0.pages@.len() ==> (#[trigger] fa.pages@[d] == fa0.pages@[d] || (
        fa.pages@[d].flags == 0 && exists|c: int|
            1 <= c < pt0.frames@.len() && released_upto(pt0, j2, c1, j1, c) && pt0.frames@[c]
                == fa0.alloc_start + d * PAGE_SIZE))
    &&& forall|c: int|
        1 <= c < pt0.frames@.len() && #[trigger] released_upto(pt0, j2, c1, j1, c)
            ==> fa.pages@[frame_idx(pt0, fa0, c)].flags == 0
}

/// The covered set does not depend on the current table while none of
/// its entries has been walked.
proof fn lemma_set_start(pt0: PageTables, j2: int, c1a: int, c1b: int)
    ensures
        forall|x: int|
            released_upto(pt0, j2, c1a, 0, x) == #[trigger] released_upto(pt0, j2, c1b, 0, x),
{
    assert forall|x: int|
        released_upto(pt0, j2, c1a, 0, x) == #[trigger] released_upto(
            pt0,
            j2,
            c1b,
            0,
            x,
        ) by {}
}

/// Walking past a level-1 branch entry covers exactly its child, which
/// was not covered before.
proof fn lemma_set_l0_step(pt0: PageTables, j2: int, c1: int, j1: int)
    requires
        pt0.wf(),
        0 <= j2 < 512,
        pt0.branch_at(0, j2),
        pt0.child_of(0, j2) == c1,
        0 <= j1 < 512,
        pt0.branch_at(c1, j1),
    ensures
        !released_upto(pt0, j2, c1, j1, pt0.child_of(c1, j1)),
        forall|x: int|
            #[trigger] released_upto(pt0, j2, c1, j1 + 1, x) <==> (released_upto(
                pt0,
                j2,
                c1,
                j1,
                x,
            ) || x == pt0.child_of(c1, j1)),
{
    let c0 = pt0.child_of(c1, j1);
    if released_upto(pt0, j2, c1, j1, c0) {
        if exists|j: int| 0 <= j < j2 && #[trigger] pt0.branch_at(0, j) && pt0.child_of(0, j)
            == c0 {
            let j = choose|j: int|
                0 <= j < j2 && #[trigger] pt0.branch_at(0, j) && pt0.child_of(0, j) == c0;
            assert(false);
        } else if exists|j: int, y: int|
            0 <= j < j2 && 0 <= y < 512 && #[trigger] pt0.branch_at(0, j)
                && #[trigger] pt0.branch_at(pt0.child_of(0, j), y) && pt0.child_of(
                pt0.child_of(0, j),
                y,
            ) == c0 {
            let (j, y) = choose|j: int, y: int|
                0 <= j < j2 && 0 <= y < 512 && #[trigger] pt0.branch_at(0, j)
                    && #[trigger] pt0.branch_at(pt0.child_of(0, j), y) && pt0.child_of(
                    pt0.child_of(0, j),
                    y,
                ) == c0;
            assert(pt0.child_of(0, j) == c1 && y == j1);
            assert(j == j2);
            assert(false);
        } else {
            let y = choose|y: int|
                0 <= y < j1 && #[trigger] pt0.branch_at(c1, y) && pt0.child_of(c1, y) == c0;
            assert(y == j1);
            assert(false);
        }
    }
    assert forall|x: int|
        #[trigger] released_upto(pt0, j2, c1, j1 + 1, x) <==> (released_upto(pt0, j2, c1, j1, x)
            || x == c0) by {
        if released_upto(pt0, j2, c1, j1 + 1, x) && !released_upto(pt0, j2, c1, j1, x) {
            let y = choose|y: int|
                0 <= y < j1 + 1 && #[trigger] pt0.branch_at(c1, y) && pt0.child_of(c1, y) == x;
            assert(y == j1);
        }
        if x == c0 {
            assert(pt0.branch_at(c1, j1) && pt0.child_of(c1, j1) == x);
        }
    }
}

/// Finishing a root branch entry covers its own child on top of the
/// children already walked inside it.
proof fn lemma_set_l1_step(pt0: PageTables, j2: int, c1: int)
    requires
        pt0.wf(),
        0 <= j2 < 512,
        pt0.branch_at(0, j2),
        pt0.child_of(0, j2) == c1,
    ensures
        !released_upto(pt0, j2, c1, 512, c1),
        forall|x: int|
            #[trigger] released_upto(pt0, j2 + 1, 0, 0, x) <==> (released_upto(
                pt0,
                j2,
                c1,
                512,
                x,
            ) || x == c1),
{
    if released_upto(pt0, j2, c1, 512, c1) {
        if exists|j: int| 0 <= j < j2 && #[trigger] pt0.branch_at(0, j) && pt0.child_of(0, j)
            == c1 {
            let j = choose|j: int|
                0 <= j < j2 && #[trigger] pt0.branch_at(0, j) && pt0.child_of(0, j) == c1;
            assert(j == j2);
            assert(false);
        } else if exists|j: int, y: int|
            0 <= j < j2 && 0 <= y < 512 && #[trigger] pt0.branch_at(0, j)
                && #[trigger] pt0.branch_at(pt0.child_of(0, j), y) && pt0.child_of(
                pt0.child_of(0, j),
                y,
            ) == c1 {
            let (j, y) = choose|j: int, y: int|
                0 <= j < j2 && 0 <= y < 512 && #[trigger] pt0.branch_at(0, j)
                    && #[trigger] pt0.branch_at(pt0.child_of(0, j), y) && pt0.child_of(
                    pt0.child_of(0, j),
                    y,
                ) == c1;
            assert(pt0.child_of(0, j) == 0);
            assert(false);
        } else {
            let y = choose|y: int|
                0 <= y < 512 && #[trigger] pt0.branch_at(c1, y) && pt0.child_of(c1, y) == c1;
            assert(c1 == 0);
            assert(false);
        }
    }
    assert forall|x: int|
        #[trigger] released_upto(pt0, j2 + 1, 0, 0, x) <==> (released_upto(pt0, j2, c1, 512, x)
            || x == c1) by {
        if released_upto(pt0, j2 + 1, 0, 0, x) {
            if exists|j: int| 0 <= j < j2 + 1 && #[trigger] pt0.branch_at(0, j) && pt0.child_of(
                0,
                j,
            ) == x {
                let j = choose|j: int|
                    0 <= j < j2 + 1 && #[trigger] pt0.branch_at(0, j) && pt0.child_of(0, j)
                        == x;
                if j == j2 {
                    assert(x == c1);
                }
            } else {
                let (j, y) = choose|j: int, y: int|
                    0 <= j < j2 + 1 && 0 <= y < 512 && #[trigger] pt0.branch_at(0, j)
                        && #[trigger] pt0.branch_at(pt0.child_of(0, j), y) && pt0.child_of(
                        pt0.child_of(0, j),
                        y,
                    ) == x;
                if j == j2 {
                    assert(pt0.branch_at(c1, y) && pt0.child_of(c1, y) == x);
                }
            }
        }
        if released_upto(pt0, j2, c1, 512, x) {
            if exists|y: int| 0 <= y < 512 && #[trigger] pt0.branch_at(c1, y) && pt0.child_of(
                c1,
                y,
            ) == x {
                let y = choose|y: int|
                    0 <= y < 512 && #[trigger] pt0.branch_at(c1, y) && pt0.child_of(c1, y)
                        == x;
                assert(pt0.branch_at(0, j2) && pt0.branch_at(pt0.child_of(0, j2), y)
                    && pt0.child_of(pt0.child_of(0, j2), y) == x);
            }
        }
        if x == c1 {
            assert(pt0.branch_at(0, j2) && pt0.child_of(0, j2) == x);
        }
    }
}

/// Skipping a non-branch root entry covers nothing new.
proof fn lemma_set_outer_skip(pt0: PageTables, j2: int)
    requires
        !pt0.branch_at(0, j2),
    ensures
        forall|x: int|
            #[trigger] released_upto(pt0, j2 + 1, 0, 0, x) <==> released_upto(
                pt0,
                j2,
                0,
                0,
                x,
            ),
{
    assert forall|x: int|
        #[trigger] released_upto(pt0, j2 + 1, 0, 0, x) <==> released_upto(pt0, j2, 0, 0, x) by {
        if released_upto(pt0, j2 + 1, 0, 0, x) && !released_upto(pt0, j2, 0, 0, x) {
            if exists|j: int| 0 <= j < j2 + 1 && #[trigger] pt0.branch_at(0, j) && pt0.child_of(
                0,
                j,
            ) == x {
                let j = choose|j: int|
                    0 <= j < j2 + 1 && #[trigger] pt0.branch_at(0, j) && pt0.child_of(0, j)
                        == x;
                assert(j == j2);
                assert(false);
            } else {
                let (j, y) = choose|j: int, y: int|
                    0 <= j < j2 + 1 && 0 <= y < 512 && #[trigger] pt0.branch_at(0, j)
                        && #[trigger] pt0.branch_at(pt0.child_of(0, j), y) && pt0.child_of(
                        pt0.child_of(0, j),
                        y,
                    ) == x;
                assert(j == j2);
                assert(false);
            }
        }
    }
}

/// The frame of a table the walk has not covered still carries its
/// original taken descriptor, so its release succeeds and clears it.
proof fn release_pre(
    pt0: PageTables,
    fa0: FrameAllocator,
    fa1: FrameAllocator,
    j2: int,
    c1: int,
    j1: int,
    c: int,
)
    requires
        fa0.wf(),
        owns(pt0, fa0),
        1 <= c < pt0.frames@.len(),
        fa1.same_region(fa0),
        fa1.pages@.len() == fa0.pages@.len(),
        teardown_inv(pt0, fa0, fa1, j2, c1, j1),
        !released_upto(pt0, j2, c1, j1, c),
    ensures
        ({
            let a = pt0.frames@[c] as int;
            let i = frame_idx(pt0, fa0, c);
            &&& fa1.alloc_start <= a
            &&& 0 <= i < fa1.pages@.len()
            &&& a == fa1.alloc_start + i * PAGE_SIZE
            &&& fa1.pages@[i].flags == 3
            &&& run_stop(fa1.pages@, i) == Some(i)
            &&& page_last(fa1.pages@[i])
        }),
{
    lemma_frame_flag_consts();
    let a = pt0.frames@[c] as int;
    let i = frame_idx(pt0, fa0, c);
    lemma_fundamental_div_mod(a - fa0.alloc_start, PAGE_SIZE as int);
    assert(fa0.pages@[i].flags == 3);
    if fa1.pages@[i] != fa0.pages@[i] {
        let cx = choose|cx: int|
            1 <= cx < pt0.frames@.len() && released_upto(pt0, j2, c1, j1, cx) && pt0.frames@[cx]
                == fa0.alloc_start + i * PAGE_SIZE;
        assert(pt0.frames@[cx] == pt0.frames@[c]);
        assert(cx == c);
        assert(false);
    }
    assert(!(page_taken(fa1.pages@[i]) && !page_last(fa1.pages@[i])));
}

/// After releasing the frame of a freshly covered table, the teardown
/// invariant holds for the enlarged covered set.
proof fn release_post(
    pt0: PageTables,
    fa0: FrameAllocator,
    fa1: FrameAllocator,
    fa2: FrameAllocator,
    j2: int,
    c1: int,
    j1: int,
    n2: int,
    nc1: int,
    n1: int,
    c: int,
)
    requires
        fa0.wf(),
        owns(pt0, fa0),
        1 <= c < pt0.frames@.len(),
        fa1.same_region(fa0),
        fa1.pages@.len() == fa0.pages@.len(),
        teardown_inv(pt0, fa0, fa1, j2, c1, j1),
        !released_upto(pt0, j2, c1, j1, c),
        forall|x: int|
            #[trigger] released_upto(pt0, n2, nc1, n1, x) <==> (released_upto(
                pt0,
                j2,
                c1,
                j1,
                x,
            ) || x == c),
        fa2.pages@ == clear_run(fa1.pages@, frame_idx(pt0, fa0, c), frame_idx(pt0, fa0, c)),
    ensures
        teardown_inv(pt0, fa0, fa2, n2, nc1, n1),
{
    let i = frame_idx(pt0, fa0, c);
    lemma_fundamental_div_mod(pt0.frames@[c] - fa0.alloc_start, PAGE_SIZE as int);
    assert forall|d: int|
        0 <= d < fa0.pages@.len() implies (#[trigger] fa2.pages@[d] == fa0.pages@[d] || (
        fa2.pages@[d].flags == 0 && exists|cy: int|
            1 <= cy < pt0.frames@.len() && released_upto(pt0, n2, nc1, n1, cy) && pt0.frames@[
            cy] == fa0.alloc_start + d * PAGE_SIZE)) by {
        if d == i {
            assert(fa2.pages@[d].flags == 0);
            assert(released_upto(pt0, n2, nc1, n1, c));
            assert(pt0.frames@[c] == fa0.alloc_start + d * PAGE_SIZE);
        } else {
            assert(fa2.pages@[d] == fa1.pages@[d]);
            if fa1.pages@[d] != fa0.pages@[d] {
                let cy = choose|cy: int|
                    1 <= cy < pt0.frames@.len() && released_upto(pt0, j2, c1, j1, cy)
                        && pt0.frames@[cy] == fa0.alloc_start + d * PAGE_SIZE;
                assert(released_upto(pt0, n2, nc1, n1, cy));
            }
        }
    }
    assert forall|cy: int|
        1 <= cy < pt0.frames@.len() && #[trigger] released_upto(pt0, n2, nc1, n1, cy) implies
        fa2.pages@[frame_idx(pt0, fa0, cy)].flags == 0 by {
        if cy == c {
            assert(fa2.pages@[i].flags == 0);
        } else {
            assert(released_upto(pt0, j2, c1, j1, cy));
            let dy = frame_idx(pt0, fa0, cy);
            lemma_fundamental_div_mod(pt0.frames@[cy] - fa0.alloc_start, PAGE_SIZE as int);
            assert(dy != i);
            assert(fa2.pages@[dy] == fa1.pages@[dy]);
        }
    }
}

/// Tears the address space down: walks the root's branch entries, returns
/// the frames backing every reachable level-1 and level-0 branch table to
/// the frame allocator, and leaves a single empty root table behind.
///
/// Exactly the frames of the reachable non-root tables are cleared, one
/// frame each; every other frame descriptor is untouched.  Leaf frames
/// mapped as data are not owned by the tables and are not released; the
/// root table keeps its own frame.
pub fn unmap(pt: &mut PageTables, fa: &mut FrameAllocator)
    requires
        old(pt).wf(),
        old(fa).wf(),
        owns(*old(pt), *old(fa)),
    ensures
        final(pt).wf(),
        final(fa).wf(),
        final(fa).same_region(*old(fa)),
        owns(*final(pt), *final(fa)),
        final(pt).tables@.len() == 1,
        final(pt).frames@[0] == old(pt).frames@[0],
        forall|va: u64| translate(*final(pt), va) is None,
        forall|d: int|
            0 <= d < old(fa).pages@.len() ==> (#[trigger] final(fa).pages@[d]
                == old(fa).pages@[d] || (final(fa).pages@[d].flags == 0 && exists|c: int|
                1 <= c < old(pt).frames@.len() && released(*old(pt), c) && old(pt).frames@[c]
                    == old(fa).alloc_start + d * PAGE_SIZE)),
        forall|c: int|
            1 <= c < old(pt).frames@.len() && #[trigger] released(*old(pt), c)
                ==> final(fa).pages@[frame_idx(*old(pt), *old(fa), c)].flags == 0,
{
    let ghost pt0 = *pt;
    let ghost fa0 = *fa;
    let mut j2: usize = 0;
    while j2 < 512
        invariant
            *pt == pt0,
            pt0.wf(),
            fa0.wf(),
            owns(pt0, fa0),
            fa.wf(),
            fa.same_region(fa0),
            fa.pages@.len() == fa0.pages@.len(),
            0 <= j2 <= 512,
            teardown_inv(pt0, fa0, *fa, j2 as int, 0, 0),
        decreases 512 - j2,
    {
        let e2: Entry = pt.tables[0].entries[j2];
        if e2.is_valid() && e2.is_branch() {
            proof {
                assert(pt0.branch_at(0, j2 as int));
                assert(pt0.tables@.len() <= usize::MAX) by {
                    assert(pt0.tables@.len() == vstd::std_specs::vec::spec_vec_len(&pt.tables));
                }
            }
            let c1: usize = (e2.get_entry() >> 10) as usize;
            proof {
                lemma_set_start(pt0, j2 as int, 0, c1 as int);
            }
            let mut j1: usize = 0;
            while j1 < 512
                invariant
                    *pt == pt0,
                    pt0.wf(),
                    fa0.wf(),
                    owns(pt0, fa0),
                    fa.wf(),
                    fa.same_region(fa0),
                    fa.pages@.len() == fa0.pages@.len(),
                    0 <= j1 <= 512,
                    0 <= j2 < 512,
                    pt0.branch_at(0, j2 as int),
                    pt0.child_of(0, j2 as int) == c1 as int,
                    1 <= c1 < pt0.tables@.len(),
                    teardown_inv(pt0, fa0, *fa, j2 as int, c1 as int, j1 as int),
                decreases 512 - j1,
            {
                let e1: Entry = pt.tables[c1].entries[j1];
                if e1.is_valid() && e1.is_branch() {
                    proof {
                        assert(pt0.branch_at(c1 as int, j1 as int));
                        assert(pt0.tables@.len() <= usize::MAX) by {
                            assert(pt0.tables@.len() == vstd::std_specs::vec::spec_vec_len(
                                &pt.tables,
                            ));
                        }
                    }
                    let c0: usize = (e1.get_entry() >> 10) as usize;
                    let a0: usize = pt.frames[c0];
                    let ghost fa_pre = *fa;
                    proof {
                        lemma_set_l0_step(pt0, j2 as int, c1 as int, j1 as int);
                        release_pre(
                            pt0,
                            fa0,
                            fa_pre,
                            j2 as int,
                            c1 as int,
                            j1 as int,
                            c0 as int,
                        );
                    }
                    let got = fa.dealloc(a0);
                    proof {
                        assert(got is Ok);
                        release_post(
                            pt0,
                            fa0,
                            fa_pre,
                            *fa,
                            j2 as int,
                            c1 as int,
                            j1 as int,
                            j2 as int,
                            c1 as int,
                            j1 as int + 1,
                            c0 as int,
                        );
                    }
                } else {
                    proof {
                        assert(!pt0.branch_at(c1 as int, j1 as int));
                        assert forall|x: int|
                            #[trigger] released_upto(
                                pt0,
                                j2 as int,
                                c1 as int,
                                j1 as int + 1,
                                x,
                            ) <==> released_upto(pt0, j2 as int, c1 as int, j1 as int, x) by {
                            if released_upto(pt0, j2 as int, c1 as int, j1 as int + 1, x)
                                && !released_upto(pt0, j2 as int, c1 as int, j1 as int, x) {
                                let y = choose|y: int|
                                    0 <= y < j1 as int + 1 && #[trigger] pt0.branch_at(
                                        c1 as int,
                                        y,
                                    ) && pt0.child_of(c1 as int, y) == x;
                                assert(y == j1 as int);
                                assert(false);
                            }
                        }
                    }
                }
                j1 = j1 + 1;
            }
            let a1: usize = pt.frames[c1];
            let ghost fa_pre1 = *fa;
            proof {
                lemma_set_l1_step(pt0, j2 as int, c1 as int);
                release_pre(pt0, fa0, fa_pre1, j2 as int, c1 as int, 512, c1 as int);
            }
            let got1 = fa.dealloc(a1);
            proof {
                assert(got1 is Ok);
                release_post(
                    pt0,
                    fa0,
                    fa_pre1,
                    *fa,
                    j2 as int,
                    c1 as int,
                    512,
                    j2 as int + 1,
                    0,
                    0,
                    c1 as int,
                );
            }
        } else {
            proof {
                assert(!pt0.branch_at(0, j2 as int));
                lemma_set_outer_skip(pt0, j2 as int);
            }
        }
        j2 = j2 + 1;
    }
    pt.tables.truncate(1);
    pt.frames.truncate(1);
    proof {
        pt.levels@ = pt.levels@.subrange(0, 1);
    }
    let mut j: usize = 0;
    while j < 512
        invariant
            pt.tables@.len() == 1,
            pt.frames@.len() == 1,
            pt.levels@.len() == 1,
            pt.levels@[0] == 2,
            pt.frames@[0] == pt0.frames@[0],
            pt.tables@[0].entries@.len() == 512,
            0 <= j <= 512,
            forall|y: int| 0 <= y < j ==> pt.entry_at(0, y) == 0,
        decreases 512 - j,
    {
        let ghost prev = *pt;
        pt.tables[0].entries[j] = Entry { entry: 0 };
        proof {
            assert(pt.tables@[0].entries@ == prev.tables@[0].entries@.update(
                j as int,
                Entry { entry: 0 },
            ));
            assert forall|y: int| 0 <= y <= j as int implies pt.entry_at(0, y) == 0 by {
                if y < j as int {
                    assert(prev.entry_at(0, y) == 0);
                }
            }
        }
        j = j + 1;
    }
    proof {
        lemma_entry_zero();
        assert forall|t1: int, j1: int| #[trigger] pt.branch_at(t1, j1) implies false by {
            assert(pt.entry_at(t1, j1) == 0);
        }
        assert(pt.wf());
        assert forall|va: u64| translate(*pt, va) is None by {
            lemma_vpn_bounds(va);
            assert(pt.entry_at(0, vpn_of(va, 2)) == 0);
        }
        // the root frame descriptor is untouched: a cleared frame belongs
        // to a non-root table, and frames are distinct
        let a = pt0.frames@[0] as int;
        let dr = (a - fa0.alloc_start) / (PAGE_SIZE as int);
        lemma_fundamental_div_mod(a - fa0.alloc_start, PAGE_SIZE as int);
        assert(fa.pages@[dr] == fa0.pages@[dr]) by {
            if fa.pages@[dr] != fa0.pages@[dr] {
                let cx = choose|cx: int|
                    1 <= cx < pt0.frames@.len() && released_upto(pt0, 512, 0, 0, cx)
                        && pt0.frames@[cx] == fa0.alloc_start + dr * PAGE_SIZE;
                assert(pt0.frames@[cx] == pt0.frames@[0]);
            }
        }
        assert(owns(*pt, *fa));
        assert forall|d: int|
            0 <= d < fa0.pages@.len() implies (fa.pages@[d] == fa0.pages@[d] || (
        fa.pages@[d].flags == 0 && exists|c: int|
            1 <= c < pt0.frames@.len() && released(pt0, c) && pt0.frames@[c]
                == fa0.alloc_start + d * PAGE_SIZE)) by {
            if fa.pages@[d] != fa0.pages@[d] {
                let cx = choose|cx: int|
                    1 <= cx < pt0.frames@.len() && released_upto(pt0, 512, 0, 0, cx)
                        && pt0.frames@[cx] == fa0.alloc_start + d * PAGE_SIZE;
                assert(released(pt0, cx));
                assert(1 <= cx < pt0.frames@.len() && released(pt0, cx) && pt0.frames@[cx]
                    == fa0.alloc_start + d * PAGE_SIZE);
            }
        }
    }
}

/// Law (round trip, base pages and superpages): when the mapped physical
/// address is aligned to the granularity of its level, the address a
/// mapping yields is exactly `paddr | (va & off_mask(level))`.
///
/// `map` ensures `translate(pt, va) == Some(pa_of(paddr, va, level))` for
/// the mapped addresses, and `virt_to_phys` returns `translate`; this law
/// turns that result into the plain `paddr | page-offset` form, for the
/// 4096-byte mask at level 0 and the wider masks of the superpage levels.
pub proof fn lemma_pa_of_aligned(paddr: u64, va: u64, lvl: int)
    requires
        0 <= lvl <= 2,
        paddr & off_mask(lvl) == 0,
    ensures
        pa_of(paddr, va, lvl) == paddr | (va & off_mask(lvl)),
{
    if lvl == 0 {
        assert((paddr & !0xfffu64) | (va & 0xfffu64) == paddr | (va & 0xfffu64))
            by (bit_vector)
            requires
                paddr & 0xfffu64 == 0,
        ;
    } else if lvl == 1 {
        assert((paddr & !0x1f_ffffu64) | (va & 0x1f_ffffu64) == paddr | (va & 0x1f_ffffu64))
            by (bit_vector)
            requires
                paddr & 0x1f_ffffu64 == 0,
        ;
    } else {
        assert((paddr & !0x3fff_ffffu64) | (va & 0x3fff_ffffu64) == paddr | (va
            & 0x3fff_ffffu64))
            by (bit_vector)
            requires
                paddr & 0x3fff_ffffu64 == 0,
        ;
    }
}

/// The 39-bit page base of a virtual address: its translation-relevant
/// bits above the page offset.
pub open spec fn page39(va: u64) -> u64 {
    va & 0x7f_ffff_f000
}

/// Sharing a full path with an aligned page base below `1 << 39` is the
/// same as having that page base.
proof fn lemma_same_path_iff(va2: u64, m: u64)
    requires
        m & 0xfff == 0,
        m < 0x80_0000_0000,
    ensures
        same_path(va2, m, 0) <==> page39(va2) == m,
{
    assert(((va2 >> 12) & 0x1ff == (m >> 12) & 0x1ff && (va2 >> 21) & 0x1ff == (m >> 21)
        & 0x1ff && (va2 >> 30) & 0x1ff == (m >> 30) & 0x1ff) <==> (va2 & 0x7f_ffff_f000
        == m)) by (bit_vector)
        requires
            m & 0xfff == 0,
            m < 0x80_0000_0000,
    ;
    if same_path(va2, m, 0) {
        assert(vpn_of(va2, 0) == vpn_of(m, 0));
        assert(vpn_of(va2, 1) == vpn_of(m, 1));
        assert(vpn_of(va2, 2) == vpn_of(m, 2));
    }
    if page39(va2) == m {
        assert forall|d: int| 0 <= d <= 2 implies vpn_of(va2, d) == vpn_of(m, d) by {
            if d == 0 {
            } else if d == 1 {
            } else {
                assert(d == 2);
            }
        }
    }
}

/// Identity-maps every page that overlaps `[start, end)`: each page gets
/// a base-level mapping whose physical address equals its virtual one.
///
/// A failure carries `map`'s own condition out: `OutOfFrames` only with
/// the frame allocator exhausted (or the arena full), `LeafInWay` only
/// when some page of the range runs into an existing superpage leaf; in
/// either case everything outside the range still translates as before.
pub fn id_map_range(
    pt: &mut PageTables,
    fa: &mut FrameAllocator,
    start: u64,
    end: u64,
    bits: u64,
) -> (r: Result<(), MapError>)
    requires
        old(pt).wf(),
        old(fa).wf(),
        owns(*old(pt), *old(fa)),
        bits & 0xe != 0,
        bits < 1024,
        start <= end,
        end < 0x80_0000_0000,
    ensures
        final(pt).wf(),
        final(fa).wf(),
        final(fa).same_region(*old(fa)),
        owns(*final(pt), *final(fa)),
        match r {
            Ok(()) => forall|va2: u64|
                #[trigger] translate(*final(pt), va2) == (if (start & !0xfffu64) <= page39(va2)
                    < ((end + 0xfff) as u64 & !0xfffu64) {
                    Some(page39(va2) | (va2 & 0xfff))
                } else {
                    translate(*old(pt), va2)
                }),
            Err(_) => forall|va2: u64|
                !((start & !0xfffu64) <= page39(va2) < ((end + 0xfff) as u64 & !0xfffu64))
                    ==> #[trigger] translate(*final(pt), va2) == translate(*old(pt), va2),
        },
        r == Err::<(), MapError>(MapError::OutOfFrames) ==> first_fit(final(fa).pages@, 1)
            is None || final(pt).tables@.len() >= 0x0040_0000_0000_0000,
        r == Err::<(), MapError>(MapError::LeafInWay) ==> (exists|va: u64|
            (start & !0xfffu64) <= page39(va) < ((end + 0xfff) as u64 & !0xfffu64)
                && path_blocked(*final(pt), va, 0)),
{
    let mut memaddr: u64 = start & !0xfffu64;
    proof {
        assert(start & !0xfffu64 <= start && (start & !0xfffu64) & 0xfff == 0) by (bit_vector);
        assert(end + 0xfff <= 0x80_0000_0ffe);
        assert((end + 0xfff) as u64 & !0xfffu64 <= 0x80_0000_0000 && ((end + 0xfff) as u64
            & !0xfffu64) & 0xfff == 0 && end <= (end + 0xfff) as u64 & !0xfffu64)
            by (bit_vector)
            requires
                end < 0x80_0000_0000u64,
        ;
    }
    let aend: u64 = (end + 0xfff) & !0xfffu64;
    while memaddr < aend
        invariant
            pt.wf(),
            fa.wf(),
            owns(*pt, *fa),
            fa.same_region(*old(fa)),
            bits & 0xe != 0,
            bits < 1024,
            aend == (end + 0xfff) as u64 & !0xfffu64,
            aend <= 0x80_0000_0000,
            aend & 0xfff == 0,
            start & !0xfffu64 <= memaddr <= aend,
            memaddr & 0xfff == 0,
            forall|va2: u64|
                #[trigger] translate(*pt, va2) == (if (start & !0xfffu64) <= page39(va2)
                    < memaddr {
                    Some(page39(va2) | (va2 & 0xfff))
                } else {
                    translate(*old(pt), va2)
                }),
        decreases aend - memaddr,
    {
        let ghost pt_prev = *pt;
        proof {
            assert(memaddr < 0x100_0000_0000_0000) by (bit_vector)
                requires
                    memaddr < 0x80_0000_0000u64,
            ;
        }
        let res = map(pt, fa, memaddr, memaddr, bits, 0);
        match res {
            Err(e) => {
                proof {
                    if e == MapError::LeafInWay {
                        assert(memaddr & 0x7f_ffff_f000 == memaddr)
                            by (bit_vector)
                            requires
                                memaddr & 0xfffu64 == 0,
                                memaddr < 0x80_0000_0000u64,
                        ;
                        assert(page39(memaddr) == memaddr);
                        assert(path_blocked(*pt, memaddr, 0));
                        assert((start & !0xfffu64) <= page39(memaddr) < aend);
                    }
                }
                return Err(e);
            },
            Ok(()) => {},
        }
        proof {
            assert forall|va2: u64|
                #[trigger] translate(*pt, va2) == (if (start & !0xfffu64) <= page39(va2)
                    < memaddr + 4096 {
                    Some(page39(va2) | (va2 & 0xfff))
                } else {
                    translate(pt_prev, va2)
                }) by {
                lemma_same_path_iff(va2, memaddr);
                if same_path(va2, memaddr, 0) {
                    lemma_pa_of_aligned(memaddr, va2, 0);
                    assert(page39(va2) == memaddr);
                    assert(memaddr <= page39(va2) < memaddr + 4096);
                } else {
                    assert(page39(va2) != memaddr);
                    assert(page39(va2) & 0xfff == 0 && (page39(va2) < memaddr || page39(va2)
                        >= memaddr + 4096)) by (bit_vector)
                        requires
                            page39(va2) == va2 & 0x7f_ffff_f000,
                            page39(va2) != memaddr,
                            memaddr & 0xfff == 0,
                    ;
                }
            }
        }
        proof {
            assert((memaddr + 4096) as u64 & 0xfff == 0 && memaddr + 4096 <= aend)
                by (bit_vector)
                requires
                    memaddr & 0xfff == 0,
                    aend & 0xfff == 0,
                    memaddr < aend,
                    aend <= 0x80_0000_0000u64,
            ;
        }
        memaddr = memaddr + 4096;
    }
    Ok(())
}

/// Walks the page table and translates a virtual address, if a mapping
/// exists: descends branch entries level by level and, at the first
/// valid leaf, combines the entry's physical page number with the
/// low-order virtual bits the leaf's level leaves unmapped.
pub fn virt_to_phys(pt: &PageTables, vaddr: u64) -> (r: Option<u64>)
    requires
        pt.wf(),
    ensures
        r == translate(*pt, vaddr),
{
    let mut t: usize = 0;
    let mut l: usize = 2;
    loop
        invariant
            pt.wf(),
            0 <= t < pt.tables@.len(),
            l <= 2,
            translate(*pt, vaddr) == translate_from(*pt, t as int, vaddr, l as int),
        decreases l,
    {
        let idx: usize = vpn_index(vaddr, l);
        let w: u64 = pt.tables[t].entries[idx].get_entry();
        if w & 1 == 0 {
            return None;
        }
        if w & 0xe != 0 {
            let mask: u64 = if l == 0 {
                0xfff
            } else if l == 1 {
                0x1f_ffff
            } else {
                0x3fff_ffff
            };
            return Some(((w << 2) & !mask) | (vaddr & mask));
        }
        if l == 0 {
            return None;
        }
        proof {
            assert(pt.branch_at(t as int, idx as int));
        }
        let c: u64 = w >> 10;
        proof {
            lemma_vpn_bounds(vaddr);
            assert(c == e_child(w));
            assert(e_child(w) < pt.tables@.len());
            assert(pt.tables@.len() <= usize::MAX) by {
                assert(pt.tables@.len() == vstd::std_specs::vec::spec_vec_len(&pt.tables));
            }
            assert(c as usize as int == e_child(w));
            assert(translate_from(*pt, t as int, vaddr, l as int) == translate_from(
                *pt,
                e_child(w),
                vaddr,
                l as int - 1,
            ));
        }
        t = c as usize;
        l = l - 1;
    }
}

} // verus!
