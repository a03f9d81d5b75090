//! Physical page-frame allocator.
//!
//! A contiguous physical region is carved into fixed-size frames; one
//! descriptor per frame records whether the frame is free, taken, or the
//! last frame of a multi-frame allocation run.  Allocation is a first-fit
//! scan in ascending address order; deallocation walks forward from the
//! freed frame until the `Last` marker closes the run.

use vstd::prelude::*;

verus! {

use vstd::arithmetic::power2::{pow2, lemma2_to64};
use vstd::arithmetic::div_mod::{lemma_fundamental_div_mod, lemma_mod_multiples_basic,
    lemma_mod_bound};
use vstd::arithmetic::mul::lemma_mul_is_commutative;
use vstd::bits::{low_bits_mask, lemma_usize_pow2_no_overflow, lemma_usize_shl_is_mul,
    lemma_usize_low_bits_mask_is_mod};

/// Frame size as a power of two.
pub const PAGE_ORDER: usize = 12;

/// Size of one physical page frame in bytes.
pub const PAGE_SIZE: usize = 4096;

/// Rounds `val` up to the next multiple of `1 << order`.
pub fn align_val(val: usize, order: usize) -> (r: usize)
    requires
        order < usize::BITS,
        val + (pow2(order as nat) - 1) <= usize::MAX,
    ensures
        r % (pow2(order as nat) as usize) == 0,
        val <= r < val + pow2(order as nat),
{
    proof {
        lemma_usize_pow2_no_overflow(order as nat);
        lemma_usize_shl_is_mul(1, order);
    }
    let g: usize = 1usize << order;
    let o: usize = g - 1;
    let s: usize = val + o;
    let r: usize = s & !o;
    proof {
        assert(o == low_bits_mask(order as nat));
        lemma_usize_low_bits_mask_is_mod(s, order as nat);
        assert(s & !o == s - (s & o)) by (bit_vector);
        lemma_fundamental_div_mod(s as int, g as int);
        lemma_mod_multiples_basic(s as int / g as int, g as int);
        lemma_mod_bound(s as int, g as int);
        lemma_mul_is_commutative(g as int, s as int / g as int);
        assert(g == pow2(order as nat));
        assert(r == (s as int / g as int) * g);
    }
    r
}

/// The flag bits a frame descriptor can carry.
pub enum PageBits {
    Empty,
    Taken,
    Last,
}

impl PageBits {
    /// The bit value of this flag inside a descriptor byte.
    pub fn val(self) -> (r: u8)
        ensures
            r == self.spec_val(),
    {
        match self {
            PageBits::Empty => 0,
            PageBits::Taken => 1,
            PageBits::Last => 2,
        }
    }

    /// Bit value of each flag.
    pub open spec fn spec_val(self) -> u8 {
        match self {
            PageBits::Empty => 0,
            PageBits::Taken => 1,
            PageBits::Last => 2,
        }
    }
}

/// True when the descriptor byte has the `Taken` bit set.
pub open spec fn page_taken(p: Page) -> bool {
    p.flags & 1 != 0
}

/// True when the descriptor byte has the `Last` bit set.
pub open spec fn page_last(p: Page) -> bool {
    p.flags & 2 != 0
}

/// A descriptor byte is one of the three states the allocator writes:
/// empty, taken, or taken-and-last.
pub open spec fn page_valid(p: Page) -> bool {
    p.flags == 0 || p.flags == 1 || p.flags == 3
}

/// Descriptor for one physical page frame.
#[derive(Clone, Copy)]
pub struct Page {
    pub flags: u8,
}

impl Page {
    /// Whether this frame closes an allocation run.
    pub fn is_last(&self) -> (r: bool)
        ensures
            r == page_last(*self),
    {
        self.flags & 2 != 0
    }

    /// Whether this frame is allocated.
    pub fn is_taken(&self) -> (r: bool)
        ensures
            r == page_taken(*self),
    {
        self.flags & 1 != 0
    }

    /// Whether this frame is not allocated.
    pub fn is_free(&self) -> (r: bool)
        ensures
            r == !page_taken(*self),
    {
        !self.is_taken()
    }

    /// Resets the descriptor to the empty state.
    pub fn clear(&mut self)
        ensures
            final(self).flags == 0,
    {
        self.flags = 0;
    }

    /// Sets one flag bit, leaving the others untouched.
    pub fn set_flag(&mut self, flag: PageBits)
        ensures
            final(self).flags == old(self).flags | flag.spec_val(),
    {
        self.flags = self.flags | flag.val();
    }

    /// Clears one flag bit, leaving the others untouched.
    pub fn clear_flag(&mut self, flag: PageBits)
        ensures
            final(self).flags == old(self).flags & !flag.spec_val(),
    {
        self.flags = self.flags & !flag.val();
    }
}

/// Fatal conditions a frame deallocation can detect.  The caller is
/// expected to halt on any of them; the allocator state is left untouched.
#[derive(Clone, Copy, Debug, PartialEq, Eq)]
pub enum FrameError {
    /// The address is below the allocatable range or past its end.
    OutOfRange,
    /// The first frame of the run is not marked taken: the run was
    /// already released.
    DoubleFree,
    /// The walk reached the end of the region without finding the
    /// `Last` marker that closes the run.
    MissingLast,
}

/// Every frame of `s[i .. i + n]` is free.
pub open spec fn free_run(s: Seq<Page>, i: int, n: int) -> bool {
    forall|j: int| i <= j < i + n ==> !page_taken(#[trigger] s[j])
}

/// Index of the first run of `n` free frames at or after `k`, if any.
pub open spec fn first_fit_from(s: Seq<Page>, n: int, k: int) -> Option<int>
    decreases s.len() - k,
    when 0 <= k && 1 <= n
{
    if k + n > s.len() {
        None::<int>
    } else if free_run(s, k, n) {
        Some(k)
    } else {
        first_fit_from(s, n, k + 1)
    }
}

/// Index of the first run of `n` free frames, scanning from the start.
pub open spec fn first_fit(s: Seq<Page>, n: int) -> Option<int> {
    first_fit_from(s, n, 0)
}

/// Descriptors after marking the run `[i, i + n)`: all of it taken, the
/// final frame also carrying the `Last` marker.
pub open spec fn mark_run(s: Seq<Page>, i: int, n: int) -> Seq<Page> {
    s.map(
        |j: int, p: Page|
            if i <= j < i + n - 1 {
                (Page { flags: 1 })
            } else if j == i + n - 1 {
                (Page { flags: 3 })
            } else {
                p
            },
    )
}

/// Descriptors after clearing frames `i` through `j` inclusive.
pub open spec fn clear_run(s: Seq<Page>, i: int, j: int) -> Seq<Page> {
    s.map(|k: int, p: Page| if i <= k <= j { (Page { flags: 0 }) } else { p })
}

/// First index at or after `i` that does not continue a run, that is,
/// whose frame is not taken-but-not-last.
pub open spec fn run_stop(s: Seq<Page>, i: int) -> Option<int>
    decreases s.len() - i,
    when 0 <= i
{
    if i >= s.len() {
        None::<int>
    } else if !(page_taken(s[i]) && !page_last(s[i])) {
        Some(i)
    } else {
        run_stop(s, i + 1)
    }
}

/// Physical page-frame allocator over a contiguous region.
///
/// `pages` is the descriptor table that, in physical memory, sits at the
/// base of the managed region; `alloc_start` is the first byte past it,
/// rounded up to a frame boundary, from which frames are handed out.
pub struct FrameAllocator {
    /// Base address of the managed region.
    pub base: usize,
    /// Byte size of the managed region.
    pub size: usize,
    /// First allocatable address: past the descriptor table, frame-aligned.
    pub alloc_start: usize,
    /// One descriptor per frame.
    pub pages: Vec<Page>,
}

impl FrameAllocator {
    /// Structural invariant: one descriptor per frame, an aligned
    /// allocation base, addresses that cannot overflow, and every
    /// descriptor in one of the three states the allocator writes.
    pub open spec fn wf(self) -> bool {
        &&& self.pages@.len() == self.size as int / PAGE_SIZE as int
        &&& self.alloc_start as int % PAGE_SIZE as int == 0
        &&& self.alloc_start + self.pages@.len() * PAGE_SIZE < usize::MAX
        &&& forall|i: int|
            0 <= i < self.pages@.len() ==> page_valid(#[trigger] self.pages@[i])
    }

    /// The configuration fields two states share when only descriptors moved.
    pub open spec fn same_region(self, other: FrameAllocator) -> bool {
        &&& self.base == other.base
        &&& self.size == other.size
        &&& self.alloc_start == other.alloc_start
    }

    /// Address of frame `i`.
    pub open spec fn frame_addr(self, i: int) -> int {
        self.alloc_start + i * PAGE_SIZE
    }

    /// Sets up the allocator for the region `[base, base + size)`: clears
    /// every descriptor and computes the first allocatable, frame-aligned
    /// address past the descriptor table.
    pub fn init(base: usize, size: usize) -> (r: FrameAllocator)
        requires
            base + size + size as int / PAGE_SIZE as int + 2 * PAGE_SIZE < usize::MAX,
        ensures
            r.wf(),
            r.base == base,
            r.size == size,
            r.pages@.len() == size as int / PAGE_SIZE as int,
            forall|i: int| 0 <= i < r.pages@.len() ==> (#[trigger] r.pages@[i]).flags == 0,
            base + r.pages@.len() <= r.alloc_start < base + r.pages@.len() + PAGE_SIZE,
    {
        let num_pages: usize = size / PAGE_SIZE;
        proof {
            lemma_fundamental_div_mod(size as int, PAGE_SIZE as int);
            lemma_mod_bound(size as int, PAGE_SIZE as int);
            lemma2_to64();
        }
        let mut pages: Vec<Page> = Vec::new();
        let mut i: usize = 0;
        while i < num_pages
            invariant
                i == pages@.len(),
                i <= num_pages,
                forall|k: int| 0 <= k < i ==> (#[trigger] pages@[k]).flags == 0,
            decreases num_pages - i,
        {
            pages.push(Page { flags: 0 });
            i = i + 1;
        }
        let alloc_start: usize = align_val(base + num_pages, PAGE_ORDER);
        FrameAllocator { base, size, alloc_start, pages }
    }

    /// Whether frames `[i, i + n)` are all free.
    fn run_free(&self, i: usize, n: usize) -> (r: bool)
        requires
            i + n <= self.pages@.len(),
        ensures
            r == free_run(self.pages@, i as int, n as int),
    {
        let len: usize = self.pages.len();
        let mut j: usize = i;
        while j < i + n
            invariant
                i <= j <= i + n,
                i + n <= len,
                len == self.pages@.len(),
                forall|k: int| i <= k < j ==> !page_taken(#[trigger] self.pages@[k]),
            decreases i + n - j,
        {
            if self.pages[j].is_taken() {
                proof {
                    assert(page_taken(self.pages@[j as int]));
                }
                return false;
            }
            j = j + 1;
        }
        true
    }

    /// Marks the run `[i, i + n)` as taken, the last frame as `Last`.
    fn mark(&mut self, i: usize, n: usize)
        requires
            1 <= n,
            i + n <= old(self).pages@.len(),
        ensures
            final(self).pages@ == mark_run(old(self).pages@, i as int, n as int),
            final(self).same_region(*old(self)),
    {
        let num: usize = self.pages.len();
        let mut k: usize = i;
        while k < i + n - 1
            invariant
                i <= k <= i + n - 1,
                i + n <= num,
                num == self.pages@.len(),
                self.pages@.len() == old(self).pages@.len(),
                self.same_region(*old(self)),
                forall|t: int| i <= t < k ==> (#[trigger] self.pages@[t]).flags == 1,
                forall|t: int|
                    0 <= t < self.pages@.len() && !(i <= t < k)
                        ==> #[trigger] self.pages@[t] == old(self).pages@[t],
            decreases i + n - 1 - k,
        {
            self.pages[k] = Page { flags: 1 };
            k = k + 1;
        }
        self.pages[i + n - 1] = Page { flags: 3 };
        proof {
            assert(final(self).pages@ =~= mark_run(old(self).pages@, i as int, n as int));
        }
    }

    /// First-fit allocation of `pages` contiguous frames.
    ///
    /// Scans candidate offsets in ascending address order and takes the
    /// first run of `pages` free frames; returns the physical address of
    /// its first frame, or `None` when no such run exists.
    pub fn allocate(&mut self, pages: usize) -> (r: Option<usize>)
        requires
            old(self).wf(),
            1 <= pages,
        ensures
            final(self).wf(),
            final(self).same_region(*old(self)),
            match first_fit(old(self).pages@, pages as int) {
                Some(i) => r == Some((old(self).alloc_start + i * PAGE_SIZE) as usize)
                    && final(self).pages@ == mark_run(old(self).pages@, i, pages as int),
                None => r == None::<usize> && final(self).pages@ == old(self).pages@,
            },
    {
        let num_pages: usize = self.pages.len();
        let mut i: usize = 0;
        while i + pages <= num_pages
            invariant
                self == old(self),
                self.wf(),
                1 <= pages,
                num_pages == self.pages@.len(),
                0 <= i <= num_pages,
                i == 0 || i + pages <= num_pages + 1,
                first_fit(self.pages@, pages as int)
                    == first_fit_from(self.pages@, pages as int, i as int),
            decreases num_pages - i,
        {
            if self.run_free(i, pages) {
                let ghost s = self.pages@;
                self.mark(i, pages);
                proof {
                    assert(first_fit_from(s, pages as int, i as int) == Some(i as int));
                    assert(forall|t: int|
                        0 <= t < final(self).pages@.len()
                            ==> page_valid(#[trigger] final(self).pages@[t]));
                }
                return Some(self.alloc_start + PAGE_SIZE * i);
            }
            i = i + 1;
        }
        proof {
            assert(first_fit_from(self.pages@, pages as int, i as int) == None::<int>);
        }
        None
    }

    /// As `alloc`, then zero-fills the frames before handing them out.
    ///
    /// Frame contents are not part of this model, so the contract is that
    /// of `alloc`; the zeroed state of fresh pages is established where
    /// those pages are given structure (heap pool, page tables).
    pub fn zalloc(&mut self, pages: usize) -> (r: Option<usize>)
        requires
            old(self).wf(),
            1 <= pages,
        ensures
            final(self).wf(),
            final(self).same_region(*old(self)),
            match first_fit(old(self).pages@, pages as int) {
                Some(i) => r == Some((old(self).alloc_start + i * PAGE_SIZE) as usize)
                    && final(self).pages@ == mark_run(old(self).pages@, i, pages as int),
                None => r == None::<usize> && final(self).pages@ == old(self).pages@,
            },
    {
        self.allocate(pages)
    }

    /// Releases the run that starts at `addr`.
    ///
    /// Walks forward from the frame holding `addr`, clearing descriptors,
    /// until the `Last` marker closes the run.  An address outside the
    /// allocatable range, a start frame that is not taken (a double free),
    /// or a missing `Last` marker is reported as the corresponding fatal
    /// error, with the descriptors left exactly as they were.
    pub fn dealloc(&mut self, addr: usize) -> (r: Result<(), FrameError>)
        requires
            old(self).wf(),
        ensures
            final(self).wf(),
            final(self).same_region(*old(self)),
            ({
                let s = old(self).pages@;
                let i = (addr - old(self).alloc_start) / (PAGE_SIZE as int);
                if addr < old(self).alloc_start || i >= s.len() {
                    r == Err::<(), FrameError>(FrameError::OutOfRange)
                        && final(self).pages@ == s
                } else {
                    match run_stop(s, i) {
                        Some(j) => if page_last(s[j]) {
                            r == Ok::<(), FrameError>(())
                                && final(self).pages@ == clear_run(s, i, j)
                        } else {
                            r == Err::<(), FrameError>(FrameError::DoubleFree)
                                && final(self).pages@ == s
                        },
                        None => r == Err::<(), FrameError>(FrameError::MissingLast)
                            && final(self).pages@ == s,
                    }
                }
            }),
    {
        if addr < self.alloc_start {
            return Err(FrameError::OutOfRange);
        }
        let idx: usize = (addr - self.alloc_start) / PAGE_SIZE;
        let num: usize = self.pages.len();
        if idx >= num {
            return Err(FrameError::OutOfRange);
        }
        let ghost s = self.pages@;
        let mut j: usize = idx;
        while j < num && self.pages[j].is_taken() && !self.pages[j].is_last()
            invariant
                self == old(self),
                num == self.pages@.len(),
                idx <= j <= num,
                run_stop(s, idx as int) == run_stop(s, j as int),
                s == self.pages@,
            decreases num - j,
        {
            j = j + 1;
        }
        if j < num && self.pages[j].is_last() {
            let mut k: usize = idx;
            while k <= j
                invariant
                    idx <= k <= j + 1,
                    j < num,
                    num == self.pages@.len(),
                    j < self.pages@.len(),
                    self.pages@.len() == old(self).pages@.len(),
                    self.same_region(*old(self)),
                    forall|t: int| idx <= t < k ==> (#[trigger] self.pages@[t]).flags == 0,
                    forall|t: int|
                        0 <= t < self.pages@.len() && !(idx <= t < k)
                            ==> #[trigger] self.pages@[t] == old(self).pages@[t],
                decreases j + 1 - k,
            {
                self.pages[k] = Page { flags: 0 };
                k = k + 1;
            }
            proof {
                assert(final(self).pages@ =~= clear_run(s, idx as int, j as int));
                assert(forall|t: int|
                    0 <= t < final(self).pages@.len()
                        ==> page_valid(#[trigger] final(self).pages@[t]));
            }
            Ok(())
        } else if j < num {
            Err(FrameError::DoubleFree)
        } else {
            Err(FrameError::MissingLast)
        }
    }

    /// Number of frames the allocator manages.
    pub fn num_frames(&self) -> (r: usize)
        ensures
            r == self.pages@.len(),
    {
        self.pages.len()
    }

    /// A copy of the descriptor of frame `i`.
    pub fn descriptor(&self, i: usize) -> (r: Page)
        requires
            i < self.pages@.len(),
        ensures
            r == self.pages@[i as int],
    {
        self.pages[i]
    }
}

/// Bit values of the three descriptor states, spelled out once.
proof fn lemma_flag_constants()
    by (bit_vector)
    ensures
        0u8 & 1 == 0,
        0u8 & 2 == 0,
        1u8 & 1 == 1,
        1u8 & 2 == 0,
        3u8 & 1 == 1,
        3u8 & 2 == 2,
{
}

/// A successful first fit lies within bounds and names a free run.
pub proof fn lemma_first_fit_found(s: Seq<Page>, n: int, k: int, i: int)
    requires
        0 <= k,
        1 <= n,
        first_fit_from(s, n, k) == Some(i),
    ensures
        k <= i,
        i + n <= s.len(),
        free_run(s, i, n),
    decreases s.len() - k,
{
    if k + n > s.len() {
    } else if free_run(s, k, n) {
    } else {
        lemma_first_fit_found(s, n, k + 1, i);
    }
}

/// Inside a freshly marked run, the walk from any of its frames stops
/// exactly at the closing `Last` frame.
proof fn lemma_run_stop_marked(m: Seq<Page>, i: int, n: int, k: int)
    requires
        0 <= i,
        1 <= n,
        i + n <= m.len(),
        i <= k < i + n,
        forall|t: int| i <= t < i + n - 1 ==> (#[trigger] m[t]).flags == 1,
        m[i + n - 1].flags == 3,
    ensures
        run_stop(m, k) == Some(i + n - 1),
    decreases i + n - k,
{
    lemma_flag_constants();
    if k == i + n - 1 {
        assert(!(page_taken(m[k]) && !page_last(m[k])));
    } else {
        assert(page_taken(m[k]) && !page_last(m[k]));
        lemma_run_stop_marked(m, i, n, k + 1);
    }
}

/// Law: for any valid descriptor table and any `n >= 1`, allocating a run
/// of `n` frames and immediately releasing the address it returned puts
/// every descriptor back exactly as it was, so a subsequent allocation of
/// the whole region succeeds whenever it would have succeeded before.
///
/// Stated over the spec functions that `allocate` and `dealloc` use in
/// their contracts: the marked run's walk stops at its `Last` frame, and
/// clearing the walked span of the marked table yields the original table.
pub proof fn lemma_alloc_dealloc_roundtrip(s: Seq<Page>, n: int, i: int)
    requires
        forall|t: int| 0 <= t < s.len() ==> page_valid(#[trigger] s[t]),
        1 <= n,
        first_fit(s, n) == Some(i),
    ensures
        0 <= i && i + n <= s.len(),
        run_stop(mark_run(s, i, n), i) == Some(i + n - 1),
        page_last(mark_run(s, i, n)[i + n - 1]),
        clear_run(mark_run(s, i, n), i, i + n - 1) == s,
{
    lemma_flag_constants();
    lemma_first_fit_found(s, n, 0, i);
    let m = mark_run(s, i, n);
    lemma_run_stop_marked(m, i, n, i);
    assert forall|t: int| 0 <= t < s.len() implies clear_run(m, i, i + n - 1)[t] == s[t] by {
        if i <= t <= i + n - 1 {
            assert(!page_taken(s[t]));
            assert(s[t].flags == 0);
        }
    }
    assert(clear_run(m, i, i + n - 1) =~= s);
}

/// Law, operational corollary: in a table where every frame is free, an
/// allocation of the whole region finds its run at the very first frame.
pub proof fn lemma_full_region_fit(s: Seq<Page>, n: int)
    requires
        1 <= n <= s.len(),
        forall|t: int| 0 <= t < s.len() ==> !page_taken(#[trigger] s[t]),
    ensures
        first_fit(s, n) == Some(0int),
{
    assert(free_run(s, 0, n));
}

} // verus!

