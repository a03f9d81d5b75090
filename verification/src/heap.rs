//! Byte-granularity kernel heap allocator.
//!
//! A pool of pages taken once from the frame allocator is carved into a
//! sequence of blocks, each preceded by a boundary-tag header packing a
//! taken bit (the most significant bit) and the block's total size into
//! one word.  Allocation is a first-fit header walk with splitting;
//! freeing marks a block free and coalesces adjacent free blocks.
//!
//! The pool is modelled as a vector of words, one per eight bytes of the
//! region, so every header read or write is bounds-checked while the
//! layout itself (blocks tiling the region exactly) is a proved invariant.

use vstd::prelude::*;

verus! {

use crate::frame::{FrameAllocator, PAGE_SIZE, first_fit, mark_run, align_val,
    lemma_first_fit_found};
use vstd::arithmetic::power2::lemma2_to64;
use vstd::arithmetic::div_mod::{lemma_fundamental_div_mod, lemma_mod_multiples_basic,
    lemma_mod_bound, lemma_small_mod, lemma_mod_adds, lemma_div_by_multiple,
    lemma_mod_sub_multiples_vanish, lemma_div_is_ordered};

/// The most significant bit of a header word: set when the block is taken.
pub const TAKEN_BIT: u64 = 0x8000_0000_0000_0000;

/// Number of pages the heap reserves from the frame allocator at start-up.
pub const KMEM_PAGES: usize = 64;

/// Bytes occupied by one block header.
pub const HEADER_BYTES: usize = 8;

/// Flag bits of a heap block header.
pub enum AllocListFlags {
    Taken,
}

impl AllocListFlags {
    /// The bit value of this flag inside a header word.
    pub fn val(self) -> (r: u64)
        ensures
            r == TAKEN_BIT,
    {
        match self {
            AllocListFlags::Taken => 0x8000_0000_0000_0000,
        }
    }
}

/// Whether a header word marks its block taken.
pub open spec fn word_taken(w: u64) -> bool {
    w >= TAKEN_BIT
}

/// The block size, in bytes, a header word carries.
pub open spec fn word_size(w: u64) -> int {
    w as int % TAKEN_BIT as int
}

/// Bit-level facts about one header word, stated once.
proof fn lemma_word_bits(w: u64)
    by (bit_vector)
    ensures
        (w & 0x8000_0000_0000_0000u64 != 0) == (w >= 0x8000_0000_0000_0000u64),
        w & !0x8000_0000_0000_0000u64 == w % 0x8000_0000_0000_0000u64,
        w | 0x8000_0000_0000_0000u64 == w % 0x8000_0000_0000_0000u64
            + 0x8000_0000_0000_0000u64,
        w % 0x8000_0000_0000_0000u64 < 0x8000_0000_0000_0000u64,
{
}

/// Boundary-tag header preceding every heap block: one word packing the
/// taken bit and the block's total size (header included).
#[derive(Clone, Copy)]
pub struct AllocList {
    pub flags_size: u64,
}

impl AllocList {
    /// Whether the header's block is taken.
    pub fn is_taken(&self) -> (r: bool)
        ensures
            r == word_taken(self.flags_size),
    {
        proof {
            lemma_word_bits(self.flags_size);
        }
        self.flags_size & AllocListFlags::Taken.val() != 0
    }

    /// Whether the header's block is free.
    pub fn is_free(&self) -> (r: bool)
        ensures
            r == !word_taken(self.flags_size),
    {
        !self.is_taken()
    }

    /// Sets the taken bit; the size field is untouched.
    pub fn set_taken(&mut self)
        ensures
            final(self).flags_size == old(self).flags_size | TAKEN_BIT,
            word_taken(final(self).flags_size),
            word_size(final(self).flags_size) == word_size(old(self).flags_size),
    {
        proof {
            lemma_word_bits(self.flags_size);
            lemma_word_bits(self.flags_size | TAKEN_BIT);
        }
        self.flags_size = self.flags_size | AllocListFlags::Taken.val();
    }

    /// Clears the taken bit; the size field is untouched.
    pub fn set_free(&mut self)
        ensures
            final(self).flags_size == old(self).flags_size & !TAKEN_BIT,
            !word_taken(final(self).flags_size),
            word_size(final(self).flags_size) == word_size(old(self).flags_size),
    {
        proof {
            lemma_word_bits(self.flags_size);
            lemma_word_bits(self.flags_size & !TAKEN_BIT);
        }
        self.flags_size = self.flags_size & !AllocListFlags::Taken.val();
    }

    /// Stores a new size; the taken bit is untouched.
    pub fn set_size(&mut self, sz: u64)
        ensures
            word_size(final(self).flags_size) == sz as int % TAKEN_BIT as int,
            word_taken(final(self).flags_size) == word_taken(old(self).flags_size),
            final(self).flags_size == (if word_taken(old(self).flags_size) {
                (sz & !TAKEN_BIT) | TAKEN_BIT
            } else {
                sz & !TAKEN_BIT
            }),
    {
        let k: bool = self.is_taken();
        proof {
            lemma_word_bits(sz);
            lemma_word_bits(sz & !TAKEN_BIT);
            lemma_word_bits((sz & !TAKEN_BIT) | TAKEN_BIT);
        }
        self.flags_size = sz & !AllocListFlags::Taken.val();
        if k {
            self.flags_size = self.flags_size | AllocListFlags::Taken.val();
        }
    }

    /// The size the header carries.
    pub fn get_size(&self) -> (r: u64)
        ensures
            r == word_size(self.flags_size),
    {
        proof {
            lemma_word_bits(self.flags_size);
        }
        self.flags_size & !AllocListFlags::Taken.val()
    }
}

/// One block of the heap layout: its byte offset inside the pool, its
/// total byte size (header included), and whether it is taken.
pub ghost struct HeapBlock {
    pub off: int,
    pub size: int,
    pub taken: bool,
}

/// Size in words of the block whose header sits at word `w`.
pub open spec fn hdr_words(m: Seq<u64>, w: int) -> int {
    word_size(m[w]) / 8
}

/// The word at `w` heads a block that fits inside the pool.
pub open spec fn valid_head(m: Seq<u64>, w: int) -> bool {
    &&& 0 <= w < m.len()
    &&& word_size(m[w]) % 8 == 0
    &&& word_size(m[w]) >= 8
    &&& w + hdr_words(m, w) <= m.len()
}

/// Blocks tile the pool exactly from word `w` to its end.
pub open spec fn wf_from(m: Seq<u64>, w: int) -> bool
    decreases m.len() - w,
    when 0 <= w
{
    if w >= m.len() {
        w == m.len()
    } else {
        valid_head(m, w) && wf_from(m, w + hdr_words(m, w))
    }
}

/// The block sequence the headers describe, from word `w` on.
pub open spec fn blocks_from(m: Seq<u64>, w: int) -> Seq<HeapBlock>
    decreases m.len() - w,
    when 0 <= w
{
    if !valid_head(m, w) {
        Seq::empty()
    } else {
        seq![(HeapBlock { off: 8 * w, size: word_size(m[w]), taken: word_taken(m[w]) })]
            + blocks_from(m, w + hdr_words(m, w))
    }
}

/// Word `b` is a block boundary reachable from boundary `a`.
pub open spec fn reaches(m: Seq<u64>, a: int, b: int) -> bool
    decreases b - a,
    when a <= b
{
    if a == b {
        true
    } else {
        valid_head(m, a) && a + hdr_words(m, a) <= b && reaches(m, a + hdr_words(m, a), b)
    }
}

/// First free block at or after boundary `w` with size at least `need`.
pub open spec fn heap_fit_from(m: Seq<u64>, w: int, need: int) -> Option<int>
    decreases m.len() - w,
    when 0 <= w
{
    if !valid_head(m, w) {
        None::<int>
    } else if !word_taken(m[w]) && need <= word_size(m[w]) {
        Some(w)
    } else {
        heap_fit_from(m, w + hdr_words(m, w), need)
    }
}

/// First free block, from the start of the pool, with size at least `need`.
pub open spec fn heap_fit(m: Seq<u64>, need: int) -> Option<int> {
    heap_fit_from(m, 0, need)
}

/// `sz` rounded up to the next multiple of eight.
pub open spec fn align8(sz: int) -> int {
    sz + ((8 - sz % 8) % 8)
}

/// The pool after carving a taken block of `need` bytes out of the free
/// block at `w`: split when more than a header's worth would remain,
/// otherwise the whole block is taken as-is.
pub open spec fn carve(m: Seq<u64>, w: int, need: int) -> Seq<u64> {
    let chunk = word_size(m[w]);
    if chunk - need > 8 {
        m.update(w, (need + TAKEN_BIT) as u64).update(w + need / 8, (chunk - need) as u64)
    } else {
        m.update(w, m[w] | TAKEN_BIT)
    }
}

/// The multiple of eight inside `[v, v + 8)` is unique.
proof fn lemma_align8_eq(r: int, v: int)
    requires
        0 <= v,
        r % 8 == 0,
        v <= r < v + 8,
    ensures
        r == align8(v),
{
    let d = r - v;
    lemma_mod_adds(v, d, 8);
    lemma_mod_bound(v, 8);
    lemma_small_mod(d as nat, 8);
    if v % 8 + d < 8 {
        lemma_small_mod((v % 8 + d) as nat, 8);
    } else {
        lemma_mod_adds(8, v % 8 + d - 8, 8);
        lemma_small_mod((v % 8 + d - 8) as nat, 8);
    }
}

/// Sums and quotients of multiples of eight.
proof fn lemma_div8_add(a: int, b: int)
    requires
        0 <= a,
        0 <= b,
        a % 8 == 0,
        b % 8 == 0,
    ensures
        (a + b) % 8 == 0,
        (a + b) / 8 == a / 8 + b / 8,
        a / 8 * 8 == a,
    decreases 0int,
{
    lemma_fundamental_div_mod(a, 8);
    lemma_fundamental_div_mod(b, 8);
    assert(a + b == (a / 8 + b / 8) * 8);
    lemma_div_by_multiple(a / 8 + b / 8, 8);
    lemma_mod_multiples_basic(a / 8 + b / 8, 8);
}

/// A successful fit lies on the boundary chain and names a free block
/// that holds the request.
pub proof fn lemma_heap_fit_found(m: Seq<u64>, a: int, need: int, w: int)
    requires
        0 <= a,
        heap_fit_from(m, a, need) == Some(w),
    ensures
        a <= w,
        reaches(m, a, w),
        valid_head(m, w),
        !word_taken(m[w]),
        need <= word_size(m[w]),
    decreases m.len() - a,
{
    if !valid_head(m, a) {
    } else if !word_taken(m[a]) && need <= word_size(m[a]) {
    } else {
        lemma_heap_fit_found(m, a + hdr_words(m, a), need, w);
    }
}

/// A tiling that holds from boundary `a` holds from every boundary of
/// its chain.
proof fn lemma_wf_through(m: Seq<u64>, a: int, b: int)
    requires
        0 <= a <= b,
        reaches(m, a, b),
        wf_from(m, a),
    ensures
        wf_from(m, b),
    decreases b - a,
{
    if a == b {
    } else {
        lemma_wf_through(m, a + hdr_words(m, a), b);
    }
}

/// Marking free an offset that no block carries changes nothing.
proof fn lemma_free_at_absent(s: Seq<HeapBlock>, off: int)
    requires
        forall|j: int| 0 <= j < s.len() ==> (#[trigger] s[j]).off != off,
    ensures
        free_at(s, off) == s,
{
    assert(free_at(s, off) =~= s);
}

/// The blocks between boundaries `a` and `b`.
pub open spec fn blocks_seg(m: Seq<u64>, a: int, b: int) -> Seq<HeapBlock>
    decreases b - a,
    when a <= b
{
    if a >= b || !valid_head(m, a) || a + hdr_words(m, a) > b {
        Seq::empty()
    } else {
        seq![(HeapBlock { off: 8 * a, size: word_size(m[a]), taken: word_taken(m[a]) })]
            + blocks_seg(m, a + hdr_words(m, a), b)
    }
}

/// One pass of adjacent-free merging: two leading free blocks fuse and the
/// scan continues from the fused block, so chains collapse fully.
pub open spec fn coalesce_seq(s: Seq<HeapBlock>) -> Seq<HeapBlock>
    decreases s.len(),
{
    if s.len() <= 1 {
        s
    } else if !s[0].taken && !s[1].taken {
        coalesce_seq(
            seq![(HeapBlock { off: s[0].off, size: s[0].size + s[1].size, taken: false })]
                + s.skip(2),
        )
    } else {
        seq![s[0]] + coalesce_seq(s.skip(1))
    }
}

/// A block sequence after marking the block at byte offset `off` free;
/// without such a block it is unchanged.
pub open spec fn free_at(s: Seq<HeapBlock>, off: int) -> Seq<HeapBlock> {
    s.map(
        |j: int, b: HeapBlock|
            if b.off == off {
                (HeapBlock { off: b.off, size: b.size, taken: false })
            } else {
                b
            },
    )
}

/// Two word sequences that agree from `w` on describe the same suffix.
proof fn lemma_suffix_agree(m1: Seq<u64>, m2: Seq<u64>, w: int, need: int)
    requires
        0 <= w,
        m1.len() == m2.len(),
        forall|k: int| w <= k < m1.len() ==> m1[k] == m2[k],
    ensures
        wf_from(m1, w) == wf_from(m2, w),
        blocks_from(m1, w) == blocks_from(m2, w),
        heap_fit_from(m1, w, need) == heap_fit_from(m2, w, need),
    decreases m1.len() - w,
{
    if w >= m1.len() {
        assert(blocks_from(m1, w) =~= blocks_from(m2, w));
    } else {
        assert(m1[w] == m2[w]);
        if valid_head(m1, w) {
            lemma_suffix_agree(m1, m2, w + hdr_words(m1, w), need);
            assert(blocks_from(m1, w) =~= blocks_from(m2, w));
        } else {
            assert(blocks_from(m1, w) =~= blocks_from(m2, w));
        }
    }
}

/// Two word sequences that agree below `b` have the same boundary chains
/// up to `b`.
proof fn lemma_prefix_agree(m1: Seq<u64>, m2: Seq<u64>, a: int, b: int)
    requires
        0 <= a <= b,
        m1.len() == m2.len(),
        forall|k: int| 0 <= k < b ==> m1[k] == m2[k],
        reaches(m1, a, b),
    ensures
        reaches(m2, a, b),
    decreases b - a,
{
    if a == b {
    } else {
        lemma_prefix_agree(m1, m2, a + hdr_words(m1, a), b);
    }
}

/// A tiling that holds from boundary `b` extends back through a chain
/// that reaches `b`.
proof fn lemma_reaches_wf(m: Seq<u64>, a: int, b: int)
    requires
        0 <= a <= b,
        reaches(m, a, b),
        wf_from(m, b),
    ensures
        wf_from(m, a),
    decreases b - a,
{
    if a == b {
    } else {
        lemma_reaches_wf(m, a + hdr_words(m, a), b);
    }
}

/// A chain can be extended by one block.
proof fn lemma_reaches_extend(m: Seq<u64>, a: int, b: int)
    requires
        0 <= a <= b,
        reaches(m, a, b),
        valid_head(m, b),
    ensures
        reaches(m, a, b + hdr_words(m, b)),
    decreases b - a,
{
    if a == b {
        assert(reaches(m, b + hdr_words(m, b), b + hdr_words(m, b)));
    } else {
        lemma_reaches_extend(m, a + hdr_words(m, a), b);
    }
}

/// Segments read only the words below their upper boundary.
proof fn lemma_seg_agree(m1: Seq<u64>, m2: Seq<u64>, a: int, b: int)
    requires
        0 <= a <= b,
        m1.len() == m2.len(),
        b <= m1.len(),
        forall|k: int| 0 <= k < b ==> m1[k] == m2[k],
    ensures
        blocks_seg(m1, a, b) == blocks_seg(m2, a, b),
    decreases b - a,
{
    if a >= b {
        assert(blocks_seg(m1, a, b) =~= blocks_seg(m2, a, b));
    } else {
        assert(valid_head(m1, a) == valid_head(m2, a));
        if valid_head(m1, a) && a + hdr_words(m1, a) <= b {
            lemma_seg_agree(m1, m2, a + hdr_words(m1, a), b);
            assert(blocks_seg(m1, a, b) =~= blocks_seg(m2, a, b));
        } else {
            assert(blocks_seg(m1, a, b) =~= blocks_seg(m2, a, b));
        }
    }
}

/// Extending a segment by the block that starts at its upper boundary.
proof fn lemma_seg_extend(m: Seq<u64>, a: int, b: int)
    requires
        0 <= a <= b,
        reaches(m, a, b),
        valid_head(m, b),
    ensures
        blocks_seg(m, a, b + hdr_words(m, b)) == blocks_seg(m, a, b)
            + seq![(HeapBlock { off: 8 * b, size: word_size(m[b]), taken: word_taken(m[b]) })],
    decreases b - a,
{
    if a == b {
        assert(blocks_seg(m, b + hdr_words(m, b), b + hdr_words(m, b)) =~= Seq::<
            HeapBlock,
        >::empty());
        assert(blocks_seg(m, a, b + hdr_words(m, b)) =~= blocks_seg(m, a, b)
            + seq![(HeapBlock { off: 8 * b, size: word_size(m[b]), taken: word_taken(m[b]) })]);
    } else {
        lemma_seg_extend(m, a + hdr_words(m, a), b);
        assert(blocks_seg(m, a, b + hdr_words(m, b)) =~= blocks_seg(m, a, b)
            + seq![(HeapBlock { off: 8 * b, size: word_size(m[b]), taken: word_taken(m[b]) })]);
    }
}

/// A boundary chain splits the block sequence.
proof fn lemma_blocks_split(m: Seq<u64>, a: int, b: int)
    requires
        0 <= a <= b,
        reaches(m, a, b),
    ensures
        blocks_from(m, a) == blocks_seg(m, a, b) + blocks_from(m, b),
    decreases b - a,
{
    if a == b {
        assert(blocks_from(m, a) =~= blocks_seg(m, a, b) + blocks_from(m, b));
    } else {
        lemma_blocks_split(m, a + hdr_words(m, a), b);
        assert(blocks_from(m, a) =~= blocks_seg(m, a, b) + blocks_from(m, b));
    }
}

/// Offsets inside a segment lie within its boundaries.
proof fn lemma_seg_off_range(m: Seq<u64>, a: int, b: int)
    requires
        0 <= a <= b,
    ensures
        forall|j: int|
            0 <= j < blocks_seg(m, a, b).len()
                ==> 8 * a <= (#[trigger] blocks_seg(m, a, b)[j]).off < 8 * b
                    && blocks_seg(m, a, b)[j].off % 8 == 0,
    decreases b - a,
{
    if a >= b || !valid_head(m, a) || a + hdr_words(m, a) > b {
    } else {
        lemma_seg_off_range(m, a + hdr_words(m, a), b);
        lemma_mod_multiples_basic(a, 8);
        let s = blocks_seg(m, a, b);
        assert forall|j: int|
            0 <= j < s.len() implies 8 * a <= (#[trigger] s[j]).off < 8 * b
            && s[j].off % 8 == 0 by {
            if j > 0 {
                assert(s[j] == blocks_seg(m, a + hdr_words(m, a), b)[j - 1]);
            }
        }
    }
}

/// Offsets of the blocks from `w` start at `8 * w` and stay inside the pool.
proof fn lemma_blocks_off_range(m: Seq<u64>, w: int)
    requires
        0 <= w,
    ensures
        forall|j: int|
            0 <= j < blocks_from(m, w).len()
                ==> 8 * w <= (#[trigger] blocks_from(m, w)[j]).off < 8 * m.len()
                    && blocks_from(m, w)[j].off % 8 == 0,
    decreases m.len() - w,
{
    if !valid_head(m, w) {
    } else {
        lemma_blocks_off_range(m, w + hdr_words(m, w));
        lemma_mod_multiples_basic(w, 8);
        let s = blocks_from(m, w);
        assert forall|j: int|
            0 <= j < s.len() implies 8 * w <= (#[trigger] s[j]).off < 8 * m.len()
            && s[j].off % 8 == 0 by {
            if j > 0 {
                assert(s[j] == blocks_from(m, w + hdr_words(m, w))[j - 1]);
            }
        }
    }
}

/// Clearing the taken bit of the block at boundary `wi` frees exactly
/// that block in the layout.
proof fn lemma_free_block_layout(m0: Seq<u64>, m1: Seq<u64>, wi: int)
    requires
        0 <= wi,
        reaches(m0, 0, wi),
        valid_head(m0, wi),
        wf_from(m0, wi),
        word_taken(m0[wi]),
        m1 == m0.update(wi, m0[wi] & !TAKEN_BIT),
    ensures
        wf_from(m1, 0),
        reaches(m1, 0, wi),
        blocks_from(m1, 0) == free_at(blocks_from(m0, 0), 8 * wi),
{
    lemma_word_bits(m0[wi]);
    lemma_word_bits(m0[wi] & !TAKEN_BIT);
    assert(word_size(m1[wi]) == word_size(m0[wi]));
    assert(!word_taken(m1[wi]));
    assert(valid_head(m1, wi));
    assert(hdr_words(m1, wi) == hdr_words(m0, wi));
    lemma_suffix_agree(m0, m1, wi + hdr_words(m0, wi), 0);
    assert(wf_from(m1, wi));
    lemma_prefix_agree(m0, m1, 0, wi);
    lemma_reaches_wf(m1, 0, wi);
    lemma_blocks_split(m0, 0, wi);
    lemma_blocks_split(m1, 0, wi);
    lemma_seg_agree(m0, m1, 0, wi);
    lemma_seg_off_range(m0, 0, wi);
    let hw = hdr_words(m0, wi);
    lemma_blocks_off_range(m0, wi + hw);
    let seg = blocks_seg(m0, 0, wi);
    let tail = blocks_from(m0, wi + hw);
    let bw0 = (HeapBlock { off: 8 * wi, size: word_size(m0[wi]), taken: true });
    let bw1 = (HeapBlock { off: 8 * wi, size: word_size(m0[wi]), taken: false });
    assert(blocks_from(m1, wi + hdr_words(m1, wi)) == tail);
    assert(blocks_from(m0, wi) == seq![bw0] + tail);
    assert(blocks_from(m1, wi) == seq![bw1] + tail);
    let s0 = blocks_from(m0, 0);
    let s1 = blocks_from(m1, 0);
    assert(s0 == seg + (seq![bw0] + tail));
    assert(s1 == seg + (seq![bw1] + tail));
    assert forall|j: int| 0 <= j < s0.len() implies free_at(s0, 8 * wi)[j] == s1[j] by {
        if j < seg.len() {
            assert(s0[j] == seg[j]);
            assert(s1[j] == seg[j]);
            assert(seg[j].off < 8 * wi);
        } else if j == seg.len() {
            assert(s0[j] == bw0);
            assert(s1[j] == bw1);
        } else {
            assert(s0[j] == tail[j - seg.len() - 1]);
            assert(s1[j] == tail[j - seg.len() - 1]);
            assert(tail[j - seg.len() - 1].off >= 8 * (wi + hw));
        }
    }
    assert(free_at(s0, 8 * wi) =~= s1);
}

/// Freeing the offset of a block that is already free changes nothing.
proof fn lemma_free_at_noop_free(m0: Seq<u64>, wi: int)
    requires
        0 <= wi,
        reaches(m0, 0, wi),
        valid_head(m0, wi),
        !word_taken(m0[wi]),
    ensures
        free_at(blocks_from(m0, 0), 8 * wi) == blocks_from(m0, 0),
{
    lemma_blocks_split(m0, 0, wi);
    lemma_seg_off_range(m0, 0, wi);
    let hw = hdr_words(m0, wi);
    lemma_blocks_off_range(m0, wi + hw);
    let seg = blocks_seg(m0, 0, wi);
    let tail = blocks_from(m0, wi + hw);
    let bw = (HeapBlock { off: 8 * wi, size: word_size(m0[wi]), taken: false });
    assert(blocks_from(m0, wi) == seq![bw] + tail);
    let s0 = blocks_from(m0, 0);
    assert(s0 == seg + (seq![bw] + tail));
    assert forall|j: int| 0 <= j < s0.len() implies free_at(s0, 8 * wi)[j] == s0[j] by {
        if j < seg.len() {
            assert(s0[j] == seg[j]);
            assert(seg[j].off < 8 * wi);
        } else if j == seg.len() {
            assert(s0[j] == bw);
        } else {
            assert(s0[j] == tail[j - seg.len() - 1]);
            assert(tail[j - seg.len() - 1].off >= 8 * (wi + hw));
        }
    }
    assert(free_at(s0, 8 * wi) =~= s0);
}

/// A byte offset strictly inside the block at `wi` names no block.
proof fn lemma_free_at_interior(m0: Seq<u64>, wi: int, t: int)
    requires
        0 <= wi,
        reaches(m0, 0, wi),
        valid_head(m0, wi),
        wi < t < wi + hdr_words(m0, wi),
    ensures
        free_at(blocks_from(m0, 0), 8 * t) == blocks_from(m0, 0),
{
    lemma_blocks_split(m0, 0, wi);
    lemma_seg_off_range(m0, 0, wi);
    let hw = hdr_words(m0, wi);
    lemma_blocks_off_range(m0, wi + hw);
    let seg = blocks_seg(m0, 0, wi);
    let tail = blocks_from(m0, wi + hw);
    let bw = (HeapBlock { off: 8 * wi, size: word_size(m0[wi]), taken: word_taken(m0[wi]) });
    assert(blocks_from(m0, wi) == seq![bw] + tail);
    let s0 = blocks_from(m0, 0);
    assert(s0 == seg + (seq![bw] + tail));
    assert forall|j: int| 0 <= j < s0.len() implies (#[trigger] s0[j]).off != 8 * t by {
        if j < seg.len() {
            assert(s0[j] == seg[j]);
            assert(seg[j].off < 8 * wi);
        } else if j == seg.len() {
            assert(s0[j] == bw);
        } else {
            assert(s0[j] == tail[j - seg.len() - 1]);
            assert(tail[j - seg.len() - 1].off >= 8 * (wi + hw));
        }
    }
    lemma_free_at_absent(s0, 8 * t);
}

/// The byte-granularity kernel heap.
pub struct KernelHeap {
    /// The pool, one header-sized word per eight bytes.
    pub mem: Vec<AllocList>,
    /// Physical address of the pool's first byte.
    pub head_addr: usize,
    /// Number of pages the pool spans.
    pub alloc_pages: usize,
}

impl KernelHeap {
    /// The pool as a sequence of raw header words.
    pub open spec fn words(self) -> Seq<u64> {
        self.mem@.map_values(|a: AllocList| a.flags_size)
    }

    /// Total pool size in bytes.
    pub open spec fn total_bytes(self) -> int {
        self.alloc_pages * PAGE_SIZE
    }

    /// Structural invariant: the word vector covers the pool exactly, the
    /// blocks tile it, and pool addresses cannot overflow.
    pub open spec fn wf(self) -> bool {
        &&& self.mem@.len() * 8 == self.total_bytes()
        &&& self.total_bytes() < TAKEN_BIT as int
        &&& wf_from(self.words(), 0)
        &&& self.head_addr as int % 8 == 0
        &&& self.head_addr + self.total_bytes() < usize::MAX
    }

    /// The block layout the boundary tags currently describe.
    pub open spec fn layout(self) -> Seq<HeapBlock> {
        blocks_from(self.words(), 0)
    }

    /// Reserves `KMEM_PAGES` zeroed pages from the frame allocator and
    /// installs the whole span as a single free block.
    ///
    /// Returns `None` exactly when the frame allocator has no run of
    /// `KMEM_PAGES` contiguous free frames.
    pub fn init(fa: &mut FrameAllocator) -> (r: Option<KernelHeap>)
        requires
            old(fa).wf(),
        ensures
            final(fa).wf(),
            final(fa).same_region(*old(fa)),
            match first_fit(old(fa).pages@, KMEM_PAGES as int) {
                Some(i) => final(fa).pages@ == mark_run(old(fa).pages@, i, KMEM_PAGES as int)
                    && match r {
                        Some(h) => {
                            &&& h.wf()
                            &&& h.alloc_pages == KMEM_PAGES
                            &&& h.head_addr as int == old(fa).alloc_start + i * PAGE_SIZE
                            &&& h.layout() == seq![(HeapBlock {
                                off: 0,
                                size: (KMEM_PAGES * PAGE_SIZE) as int,
                                taken: false,
                            })]
                        },
                        None => false,
                    },
                None => r is None && final(fa).pages@ == old(fa).pages@,
            },
    {
        let got = fa.zalloc(KMEM_PAGES);
        match got {
            None => None,
            Some(addr) => {
                proof {
                    lemma_first_fit_found(
                        old(fa).pages@,
                        KMEM_PAGES as int,
                        0,
                        first_fit(old(fa).pages@, KMEM_PAGES as int).unwrap(),
                    );
                }
                let total_words: usize = KMEM_PAGES * PAGE_SIZE / 8;
                let mut mem: Vec<AllocList> = Vec::new();
                mem.push(AllocList { flags_size: (KMEM_PAGES * PAGE_SIZE) as u64 });
                let mut i: usize = 1;
                while i < total_words
                    invariant
                        1 <= i <= total_words,
                        mem@.len() == i,
                        mem@[0].flags_size == (KMEM_PAGES * PAGE_SIZE) as u64,
                        forall|k: int| 1 <= k < i ==> (#[trigger] mem@[k]).flags_size == 0,
                    decreases total_words - i,
                {
                    mem.push(AllocList { flags_size: 0 });
                    i = i + 1;
                }
                let h = KernelHeap { mem, head_addr: addr, alloc_pages: KMEM_PAGES };
                proof {
                    let m = h.words();
                    assert(word_size(m[0]) == KMEM_PAGES * PAGE_SIZE) by {
                        lemma_small_mod((KMEM_PAGES * PAGE_SIZE) as nat, TAKEN_BIT as nat);
                    }
                    assert(valid_head(m, 0));
                    assert(hdr_words(m, 0) == total_words as int);
                    assert(wf_from(m, total_words as int));
                    assert(wf_from(m, 0));
                    assert(blocks_from(m, total_words as int) =~= Seq::<HeapBlock>::empty());
                    assert(h.layout() =~= seq![(HeapBlock {
                        off: 0,
                        size: (KMEM_PAGES * PAGE_SIZE) as int,
                        taken: false,
                    })]);
                    let i0 = first_fit(old(fa).pages@, KMEM_PAGES as int).unwrap();
                    assert(addr as int % 8 == 0) by {
                        let st = old(fa).alloc_start as int;
                        lemma_fundamental_div_mod(st, PAGE_SIZE as int);
                        lemma_mod_bound(st, PAGE_SIZE as int);
                        let q = st / (PAGE_SIZE as int);
                        assert(addr as int == 8 * (512 * q + 512 * i0));
                        lemma_mod_multiples_basic(512 * q + 512 * i0, 8);
                    }
                }
                Some(h)
            },
        }
    }

    /// First-fit allocation of `sz` bytes from the heap.
    ///
    /// The request is rounded up to a multiple of eight and extended by a
    /// header; the headers are walked in address order and the first free
    /// block large enough is carved (split exactly, or taken whole when a
    /// split would leave no more than a bare header).  Returns the address
    /// just past the chosen block's header, or `None` exactly when no free
    /// block can hold the request.
    pub fn kmalloc(&mut self, sz: usize) -> (r: Option<usize>)
        requires
            old(self).wf(),
            sz + 16 < usize::MAX,
        ensures
            final(self).wf(),
            final(self).head_addr == old(self).head_addr,
            final(self).alloc_pages == old(self).alloc_pages,
            final(self).mem@.len() == old(self).mem@.len(),
            ({
                let need = align8(sz as int) + 8;
                match heap_fit(old(self).words(), need) {
                    Some(w) => r == Some((old(self).head_addr + 8 * w + 8) as usize)
                        && final(self).words() == carve(old(self).words(), w, need),
                    None => r == None::<usize> && final(self).words() == old(self).words(),
                }
            }),
    {
        proof {
            lemma2_to64();
        }
        let asz: usize = align_val(sz, 3);
        proof {
            lemma_align8_eq(asz as int, sz as int);
        }
        let size: usize = asz + HEADER_BYTES;
        let total: usize = self.mem.len();
        let ghost m0 = self.words();
        let ghost need = size as int;
        let mut w: usize = 0;
        while w < total
            invariant
                *self == *old(self),
                self.wf(),
                m0 == self.words(),
                total == self.mem@.len(),
                0 <= w <= total,
                reaches(m0, 0, w as int),
                wf_from(m0, w as int),
                heap_fit_from(m0, 0, need) == heap_fit_from(m0, w as int, need),
                need == size as int,
                need == align8(sz as int) + 8,
                8 <= size,
                size as int % 8 == 0,
            decreases total - w,
        {
            let h: AllocList = self.mem[w];
            let free_now: bool = h.is_free();
            let hs64: u64 = h.get_size();
            proof {
                assert(valid_head(m0, w as int));
                assert(hs64 <= 8 * total);
            }
            let hs: usize = hs64 as usize;
            if free_now && size <= hs {
                let chunk: usize = hs;
                let rem: usize = chunk - size;
                let ghost wi = w as int;
                proof {
                    assert(heap_fit_from(m0, wi, need) == Some(wi));
                    lemma_word_bits(m0[wi]);
                    assert(m0[wi] == chunk);
                    lemma_div8_add(need, chunk as int - need);
                }
                if rem > HEADER_BYTES {
                    let mut hd: AllocList = self.mem[w];
                    hd.set_taken();
                    hd.set_size(size as u64);
                    self.mem[w] = hd;
                    let mut nxt: AllocList = AllocList { flags_size: 0 };
                    nxt.set_size(rem as u64);
                    self.mem[w + size / 8] = nxt;
                    proof {
                        let m1 = self.words();
                        lemma_word_bits(size as u64);
                        lemma_word_bits((size as u64) & !TAKEN_BIT);
                        lemma_word_bits(rem as u64);
                        lemma_small_mod(size as nat, TAKEN_BIT as nat);
                        lemma_small_mod(rem as nat, TAKEN_BIT as nat);
                        assert(hd.flags_size == (need + TAKEN_BIT) as u64);
                        assert(nxt.flags_size == rem as u64);
                        assert(m1 =~= carve(m0, wi, need));
                        lemma_mod_adds(TAKEN_BIT as int, need, TAKEN_BIT as int);
                        lemma_mod_multiples_basic(1, TAKEN_BIT as int);
                        assert(word_size(m1[wi]) == need);
                        assert(word_taken(m1[wi]));
                        assert(valid_head(m1, wi));
                        assert(hdr_words(m1, wi) == need / 8);
                        assert(word_size(m1[wi + need / 8]) == chunk - need);
                        assert(valid_head(m1, wi + need / 8));
                        assert(hdr_words(m0, wi) == chunk as int / 8);
                        assert(wi + need / 8 + (chunk as int - need) / 8
                            == wi + chunk as int / 8);
                        lemma_suffix_agree(m0, m1, wi + chunk as int / 8, 0);
                        assert(wf_from(m1, wi + chunk as int / 8));
                        assert(wf_from(m1, wi + need / 8));
                        assert(wf_from(m1, wi));
                        lemma_prefix_agree(m0, m1, 0, wi);
                        lemma_reaches_wf(m1, 0, wi);
                        assert(wf_from(m1, 0));
                    }
                    return Some(self.head_addr + 8 * w + 8);
                } else {
                    let mut hd: AllocList = self.mem[w];
                    hd.set_taken();
                    self.mem[w] = hd;
                    proof {
                        let m1 = self.words();
                        assert(hd.flags_size == m0[wi] | TAKEN_BIT);
                        assert(m1 =~= carve(m0, wi, need));
                        lemma_word_bits(m0[wi] | TAKEN_BIT);
                        assert(word_size(m1[wi]) == chunk);
                        assert(valid_head(m1, wi));
                        assert(hdr_words(m1, wi) == hdr_words(m0, wi));
                        lemma_suffix_agree(m0, m1, wi + hdr_words(m0, wi), 0);
                        assert(wf_from(m1, wi));
                        lemma_prefix_agree(m0, m1, 0, wi);
                        lemma_reaches_wf(m1, 0, wi);
                        assert(wf_from(m1, 0));
                    }
                    return Some(self.head_addr + 8 * w + 8);
                }
            }
            let step: usize = hs / 8;
            proof {
                lemma_reaches_extend(m0, 0, w as int);
                lemma_div8_add(hs as int, 0);
            }
            w = w + step;
        }
        proof {
            assert(heap_fit_from(m0, total as int, need) is None);
        }
        None
    }

    /// Merges every pair of adjacent free blocks, continuing from a merged
    /// block so that chains of three or more collapse in a single pass.
    pub fn coalesce(&mut self)
        requires
            old(self).wf(),
        ensures
            final(self).wf(),
            final(self).head_addr == old(self).head_addr,
            final(self).alloc_pages == old(self).alloc_pages,
            final(self).mem@.len() == old(self).mem@.len(),
            final(self).layout() == coalesce_seq(old(self).layout()),
    {
        let total: usize = self.mem.len();
        let mut w: usize = 0;
        let ghost mut done: Seq<HeapBlock> = Seq::empty();
        proof {
            assert(blocks_seg(self.words(), 0, 0) =~= Seq::<HeapBlock>::empty());
        }
        while w < total
            invariant
                self.head_addr == old(self).head_addr,
                self.alloc_pages == old(self).alloc_pages,
                self.mem@.len() == old(self).mem@.len(),
                total == self.mem@.len(),
                self.wf(),
                0 <= w <= total,
                reaches(self.words(), 0, w as int),
                wf_from(self.words(), w as int),
                done == blocks_seg(self.words(), 0, w as int),
                coalesce_seq(old(self).layout()) == done
                    + coalesce_seq(blocks_from(self.words(), w as int)),
            decreases 2 * total - 2 * w - (if w < total {
                hdr_words(self.words(), w as int)
            } else {
                0
            }),
        {
            let ghost m0 = self.words();
            let ghost wi = w as int;
            let h: AllocList = self.mem[w];
            let hs64: u64 = h.get_size();
            proof {
                assert(valid_head(m0, wi));
                assert(hs64 <= 8 * total);
            }
            let hs: usize = hs64 as usize;
            let nxt: usize = w + hs / 8;
            let ghost cur = (HeapBlock { off: 8 * wi, size: hs as int, taken: word_taken(m0[wi]) });
            if nxt < total && h.is_free() && self.mem[nxt].is_free() {
                let nh: AllocList = self.mem[nxt];
                let nhs64: u64 = nh.get_size();
                proof {
                    assert(wf_from(m0, nxt as int));
                    assert(valid_head(m0, nxt as int));
                    assert(nhs64 <= 8 * total);
                }
                let nhs: usize = nhs64 as usize;
                let mut hd: AllocList = self.mem[w];
                hd.set_size((hs + nhs) as u64);
                self.mem[w] = hd;
                proof {
                    let m1 = self.words();
                    lemma_word_bits((hs + nhs) as u64);
                    lemma_small_mod((hs + nhs) as nat, TAKEN_BIT as nat);
                    lemma_word_bits(m0[wi]);
                    assert(hd.flags_size == (hs + nhs) as u64);
                    assert(word_size(m1[wi]) == hs + nhs);
                    assert(!word_taken(m1[wi]));
                    lemma_div8_add(hs as int, nhs as int);
                    assert(valid_head(m1, wi));
                    assert(hdr_words(m1, wi) == hs as int / 8 + nhs as int / 8);
                    assert(wf_from(m0, nxt as int));
                    assert(wf_from(m0, nxt as int + nhs as int / 8));
                    lemma_suffix_agree(m0, m1, nxt as int + nhs as int / 8, 0);
                    assert(wf_from(m1, nxt as int + nhs as int / 8));
                    assert(wf_from(m1, wi));
                    lemma_prefix_agree(m0, m1, 0, wi);
                    lemma_reaches_wf(m1, 0, wi);
                    lemma_seg_agree(m0, m1, 0, wi);
                    // the two leading blocks of the old suffix fuse into the
                    // leading block of the new suffix
                    let old_suffix = blocks_from(m0, wi);
                    let merged = (HeapBlock {
                        off: 8 * wi,
                        size: hs + nhs as int,
                        taken: false,
                    });
                    assert(blocks_from(m0, nxt as int) == seq![(HeapBlock {
                        off: 8 * (nxt as int),
                        size: nhs as int,
                        taken: false,
                    })] + blocks_from(m0, nxt as int + nhs as int / 8));
                    assert(old_suffix[0] == cur);
                    assert(old_suffix[1] == (HeapBlock {
                        off: 8 * (nxt as int),
                        size: nhs as int,
                        taken: false,
                    }));
                    assert(blocks_from(m1, wi) =~= seq![merged] + old_suffix.skip(2));
                    assert(coalesce_seq(old_suffix) == coalesce_seq(blocks_from(m1, wi)));
                }
            } else {
                proof {
                    lemma_seg_extend(self.words(), 0, wi);
                    lemma_reaches_extend(self.words(), 0, wi);
                    let suffix = blocks_from(m0, wi);
                    assert(suffix[0] == cur);
                    if nxt < total {
                        assert(wf_from(m0, nxt as int));
                        assert(valid_head(m0, nxt as int));
                        let ni = nxt as int;
                        let nblk = (HeapBlock {
                            off: 8 * ni,
                            size: word_size(m0[ni]),
                            taken: word_taken(m0[ni]),
                        });
                        assert(blocks_from(m0, ni) == seq![nblk]
                            + blocks_from(m0, ni + hdr_words(m0, ni)));
                        assert(suffix.len() >= 2);
                        assert(suffix[1] == nblk);
                        assert(cur.taken || nblk.taken);
                        assert(suffix.skip(1) =~= blocks_from(m0, ni));
                        assert(coalesce_seq(suffix) == seq![cur]
                            + coalesce_seq(blocks_from(m0, ni)));
                    } else {
                        assert(nxt == total);
                        assert(blocks_from(m0, nxt as int) =~= Seq::<HeapBlock>::empty());
                        assert(suffix =~= seq![cur]);
                        assert(coalesce_seq(suffix) == seq![cur]
                            + coalesce_seq(blocks_from(m0, nxt as int)));
                    }
                    done = done + seq![cur];
                }
                w = nxt;
            }
        }
        proof {
            assert(blocks_from(self.words(), total as int) =~= Seq::<HeapBlock>::empty());
            assert(coalesce_seq(blocks_from(self.words(), w as int)) =~= Seq::<
                HeapBlock,
            >::empty());
            lemma_blocks_split(self.words(), 0, total as int);
            assert(final(self).layout() =~= done);
            assert(coalesce_seq(old(self).layout()) =~= done);
        }
    }

    /// Releases the allocation whose payload starts at `addr`.
    ///
    /// The headers are walked to the block whose payload is `addr`; if it
    /// is taken it becomes free.  Freeing an already-free block, or an
    /// address that names no block, changes nothing: a double free is a
    /// tolerated no-op at this layer.  A coalescing pass always follows.
    #[verifier::rlimit(60)]
    pub fn kfree(&mut self, addr: usize)
        requires
            old(self).wf(),
        ensures
            final(self).wf(),
            final(self).head_addr == old(self).head_addr,
            final(self).alloc_pages == old(self).alloc_pages,
            final(self).mem@.len() == old(self).mem@.len(),
            final(self).layout() == coalesce_seq(
                free_at(old(self).layout(), addr as int - old(self).head_addr as int - 8),
            ),
    {
        let ghost m0 = self.words();
        let ghost rel = addr as int - self.head_addr as int - 8;
        let total: usize = self.mem.len();
        proof {
            lemma_blocks_off_range(m0, 0);
        }
        if addr > self.head_addr && addr - self.head_addr >= HEADER_BYTES && (addr
            - self.head_addr) % HEADER_BYTES == 0 && addr - self.head_addr <= total * 8 {
            let tw: usize = (addr - self.head_addr - HEADER_BYTES) / HEADER_BYTES;
            proof {
                lemma_mod_sub_multiples_vanish((addr - self.head_addr) as int, 8);
                lemma_fundamental_div_mod(rel, 8);
                assert(8 * (tw as int) == rel);
            }
            let mut w: usize = 0;
            while w < tw
                invariant
                    m0 == self.words(),
                    total == self.mem@.len(),
                    *self == *old(self),
                    self.wf(),
                    tw < total,
                    0 <= w <= tw,
                    reaches(m0, 0, w as int),
                    wf_from(m0, w as int),
                ensures
                    m0 == self.words(),
                    *self == *old(self),
                    self.wf(),
                    reaches(m0, 0, w as int),
                    wf_from(m0, w as int),
                    w <= tw,
                    w == tw || (valid_head(m0, w as int) && w < tw && (tw as int) < w as int
                        + hdr_words(m0, w as int)),
                decreases tw - w,
            {
                proof {
                    assert(valid_head(m0, w as int));
                }
                let h: AllocList = self.mem[w];
                let hs64: u64 = h.get_size();
                proof {
                    assert(hs64 <= 8 * total);
                }
                let hs: usize = hs64 as usize;
                let nxt: usize = w + hs / 8;
                if nxt > tw {
                    break;
                }
                proof {
                    lemma_reaches_extend(m0, 0, w as int);
                }
                w = nxt;
            }
            if w == tw {
                let ghost wi = w as int;
                proof {
                    assert(valid_head(m0, wi));
                }
                let hb: AllocList = self.mem[w];
                if hb.is_taken() {
                    let mut hd: AllocList = self.mem[w];
                    hd.set_free();
                    self.mem[w] = hd;
                    proof {
                        let m1 = self.words();
                        assert(m1 =~= m0.update(wi, m0[wi] & !TAKEN_BIT));
                        lemma_free_block_layout(m0, m1, wi);
                    }
                } else {
                    proof {
                        lemma_free_at_noop_free(m0, wi);
                    }
                }
            } else {
                let ghost wi = w as int;
                proof {
                    lemma_free_at_interior(m0, wi, tw as int);
                }
            }
        } else {
            proof {
                let s0 = blocks_from(m0, 0);
                assert forall|j: int| 0 <= j < s0.len() implies (#[trigger] s0[j]).off != rel by {
                    if rel >= 0 && rel % 8 == 0 {
                        assert(addr as int - self.head_addr as int > 8 * total);
                        assert(s0[j].off < 8 * m0.len());
                    } else if rel >= 0 {
                        lemma_mod_sub_multiples_vanish(addr as int - self.head_addr as int, 8);
                        assert(s0[j].off % 8 == 0);
                    }
                }
                lemma_free_at_absent(s0, rel);
            }
        }
        self.coalesce();
    }

    /// As `kmalloc`, then zero-fills the returned bytes.
    pub fn kzmalloc(&mut self, sz: usize) -> (r: Option<usize>)
        requires
            old(self).wf(),
            sz + 32 < usize::MAX,
        ensures
            final(self).wf(),
            final(self).head_addr == old(self).head_addr,
            final(self).alloc_pages == old(self).alloc_pages,
            final(self).mem@.len() == old(self).mem@.len(),
            ({
                let need = align8(sz as int) + 8;
                match heap_fit(old(self).words(), need) {
                    Some(w) => r == Some((old(self).head_addr + 8 * w + 8) as usize)
                        && final(self).words() == zero_range(
                            carve(old(self).words(), w, need),
                            w + 1,
                            w + need / 8,
                        ),
                    None => r == None::<usize> && final(self).words() == old(self).words(),
                }
            }),
    {
        proof {
            lemma2_to64();
        }
        let size: usize = align_val(sz, 3);
        proof {
            lemma_align8_eq(size as int, sz as int);
        }
        let ghost m0 = self.words();
        let ghost need = size as int + 8;
        let r = self.kmalloc(size);
        proof {
            assert(align8(size as int) == size as int) by {
                lemma_align8_eq(size as int, size as int);
            }
        }
        match r {
            None => None,
            Some(a) => {
                let ghost wfit = heap_fit(m0, need).unwrap();
                let ghost mc = carve(m0, wfit, need);
                proof {
                    lemma_heap_fit_found(m0, 0, need, wfit);
                    assert(8 * wfit + 8 <= 8 * old(self).mem@.len());
                    assert(a == old(self).head_addr + 8 * wfit + 8);
                }
                let pw: usize = (a - self.head_addr) / HEADER_BYTES;
                proof {
                    lemma_fundamental_div_mod(8 * wfit + 8, 8);
                    lemma_mod_multiples_basic(wfit + 1, 8);
                    assert(8 * wfit + 8 == (wfit + 1) * 8);
                    lemma_div_by_multiple(wfit + 1, 8);
                    assert(pw as int == wfit + 1);
                    let chunk = word_size(m0[wfit]);
                    lemma_word_bits(m0[wfit]);
                    if chunk - need > 8 {
                        assert(mc[wfit] == (need + TAKEN_BIT) as u64);
                        assert(word_size(mc[wfit]) == need) by {
                            lemma_small_mod(need as nat, TAKEN_BIT as nat);
                            lemma_mod_adds(TAKEN_BIT as int, need, TAKEN_BIT as int);
                            lemma_mod_multiples_basic(1, TAKEN_BIT as int);
                        }
                    } else {
                        assert(mc[wfit] == m0[wfit] | TAKEN_BIT);
                        lemma_word_bits(m0[wfit] | TAKEN_BIT);
                        assert(word_size(mc[wfit]) == chunk);
                    }
                    assert(need <= word_size(mc[wfit]));
                    assert(need % 8 == 0 && word_size(mc[wfit]) % 8 == 0);
                    lemma_div_is_ordered(need, word_size(mc[wfit]), 8);
                    assert(need / 8 <= hdr_words(mc, wfit));
                    assert(valid_head(mc, wfit));
                    lemma_prefix_agree(m0, mc, 0, wfit);
                    lemma_wf_through(mc, 0, wfit);
                    lemma_div8_add(size as int, 8);
                    assert(zero_range(mc, wfit + 1, wfit + 1) =~= mc);
                }
                let words: usize = size / HEADER_BYTES;
                let mut i: usize = 0;
                while i < words
                    invariant
                        self.head_addr == old(self).head_addr,
                        self.alloc_pages == old(self).alloc_pages,
                        self.mem@.len() == old(self).mem@.len(),
                        self.wf(),
                        0 <= i <= words,
                        pw as int == wfit + 1,
                        words as int == need / 8 - 1,
                        pw + words <= self.mem@.len(),
                        reaches(self.words(), 0, wfit),
                        valid_head(self.words(), wfit),
                        need / 8 <= hdr_words(self.words(), wfit),
                        need as int % 8 == 0,
                        wf_from(self.words(), wfit),
                        self.words() == zero_range(mc, wfit + 1, wfit + 1 + i),
                    decreases words - i,
                {
                    let ghost mprev = self.words();
                    self.mem[pw + i] = AllocList { flags_size: 0 };
                    proof {
                        let m2 = self.words();
                        let p = pw as int + i;
                        assert(m2 =~= mprev.update(p, 0u64));
                        lemma_prefix_agree(mprev, m2, 0, wfit);
                        assert(valid_head(m2, wfit));
                        lemma_suffix_agree(mprev, m2, wfit + hdr_words(mprev, wfit), 0);
                        assert(wf_from(m2, wfit));
                        lemma_reaches_wf(m2, 0, wfit);
                        assert(m2 =~= zero_range(mc, wfit + 1, wfit + 1 + i + 1));
                    }
                    i = i + 1;
                }
                proof {
                    assert(self.words() =~= zero_range(mc, wfit + 1, wfit + need / 8));
                }
                Some(a)
            },
        }
    }

    /// Address of the pool's first byte.
    pub fn get_head(&self) -> (r: usize)
        ensures
            r == self.head_addr,
    {
        self.head_addr
    }

    /// Number of pages the pool was built from.
    pub fn get_num_allocations(&self) -> (r: usize)
        ensures
            r == self.alloc_pages,
    {
        self.alloc_pages
    }

    /// The raw word at index `w`, for inspection.
    pub fn word_at(&self, w: usize) -> (r: u64)
        requires
            w < self.mem@.len(),
        ensures
            r == self.words()[w as int],
    {
        self.mem[w].flags_size
    }

    /// Number of words in the pool.
    pub fn pool_words(&self) -> (r: usize)
        ensures
            r == self.mem@.len(),
    {
        self.mem.len()
    }

    /// The current block list, one `(offset, size, taken)` triple per
    /// block, in address order: the executable form of `layout`.
    pub fn block_table(&self) -> (r: Vec<(usize, usize, bool)>)
        requires
            self.wf(),
        ensures
            r@.len() == self.layout().len(),
            forall|i: int|
                0 <= i < r@.len() ==> (#[trigger] r@[i]).0 == self.layout()[i].off && r@[i].1
                    == self.layout()[i].size && (r@[i].2 == self.layout()[i].taken),
    {
        let m = self.mem.len();
        let ghost ws = self.words();
        let mut r: Vec<(usize, usize, bool)> = Vec::new();
        let mut w: usize = 0;
        proof {
            assert(blocks_seg(ws, 0, 0) =~= Seq::<HeapBlock>::empty());
        }
        while w < m
            invariant
                self.wf(),
                ws == self.words(),
                m == self.mem@.len(),
                0 <= w <= m,
                reaches(ws, 0, w as int),
                wf_from(ws, w as int),
                r@.len() == blocks_seg(ws, 0, w as int).len(),
                forall|i: int|
                    0 <= i < r@.len() ==> (#[trigger] r@[i]).0 == blocks_seg(
                        ws,
                        0,
                        w as int,
                    )[i].off && r@[i].1 == blocks_seg(ws, 0, w as int)[i].size && (r@[i].2
                        == blocks_seg(ws, 0, w as int)[i].taken),
            decreases m - w,
        {
            let h: AllocList = self.mem[w];
            let hs64: u64 = h.get_size();
            proof {
                assert(valid_head(ws, w as int));
                assert(hs64 <= 8 * m);
            }
            let hs: usize = hs64 as usize;
            let taken: bool = h.is_taken();
            proof {
                lemma_seg_extend(ws, 0, w as int);
                lemma_reaches_extend(ws, 0, w as int);
                lemma_div8_add(hs as int, 0);
            }
            r.push((8 * w, hs, taken));
            w = w + hs / 8;
        }
        proof {
            lemma_blocks_split(ws, 0, m as int);
            assert(blocks_from(ws, m as int) =~= Seq::<HeapBlock>::empty());
            assert(self.layout() =~= blocks_seg(ws, 0, m as int));
        }
        r
    }
}

/// No two adjacent blocks are both free.
pub open spec fn no_adjacent_free(s: Seq<HeapBlock>) -> bool {
    forall|j: int| 0 <= j < s.len() - 1 ==> (#[trigger] s[j]).taken || s[j + 1].taken
}

/// Blocks tile a region: each starts where the previous one ends, and
/// every size is positive.
pub open spec fn contiguous(s: Seq<HeapBlock>) -> bool {
    &&& forall|j: int|
        0 <= j < s.len() - 1 ==> (#[trigger] s[j + 1]).off == s[j].off + s[j].size
    &&& forall|j: int| 0 <= j < s.len() ==> (#[trigger] s[j]).size > 0
}

/// Coalescing keeps the first block's place and state; when the second
/// block is taken (or there is none), the first block is kept as it is.
proof fn lemma_coalesce_head(s: Seq<HeapBlock>)
    requires
        s.len() >= 1,
    ensures
        coalesce_seq(s).len() >= 1,
        coalesce_seq(s)[0].off == s[0].off,
        coalesce_seq(s)[0].taken == s[0].taken,
        s.len() == 1 || s[1].taken ==> coalesce_seq(s)[0] == s[0],
    decreases s.len(),
{
    if s.len() <= 1 {
    } else if !s[0].taken && !s[1].taken {
        let merged = (HeapBlock { off: s[0].off, size: s[0].size + s[1].size, taken: false });
        lemma_coalesce_head(seq![merged] + s.skip(2));
        assert((seq![merged] + s.skip(2))[0] == merged);
    } else {
        assert(coalesce_seq(s)[0] == s[0]);
    }
}

/// After one coalescing pass no two adjacent blocks are both free.
proof fn lemma_coalesce_no_adjacent(s: Seq<HeapBlock>)
    ensures
        no_adjacent_free(coalesce_seq(s)),
    decreases s.len(),
{
    if s.len() <= 1 {
    } else if !s[0].taken && !s[1].taken {
        let merged = (HeapBlock { off: s[0].off, size: s[0].size + s[1].size, taken: false });
        lemma_coalesce_no_adjacent(seq![merged] + s.skip(2));
    } else {
        let c1 = coalesce_seq(s.skip(1));
        lemma_coalesce_no_adjacent(s.skip(1));
        lemma_coalesce_head(s.skip(1));
        assert(s.skip(1)[0] == s[1]);
        let r = seq![s[0]] + c1;
        assert forall|j: int| 0 <= j < r.len() - 1 implies (#[trigger] r[j]).taken
            || r[j + 1].taken by {
            if j == 0 {
                assert(r[1] == c1[0]);
            } else {
                assert(r[j] == c1[j - 1]);
                assert(r[j + 1] == c1[j]);
            }
        }
    }
}

/// A layout without adjacent free blocks is a fixed point of coalescing.
proof fn lemma_coalesce_fixpoint(s: Seq<HeapBlock>)
    requires
        no_adjacent_free(s),
    ensures
        coalesce_seq(s) == s,
    decreases s.len(),
{
    if s.len() <= 1 {
    } else if !s[0].taken && !s[1].taken {
        assert(false);
    } else {
        assert(no_adjacent_free(s.skip(1))) by {
            assert(forall|j: int|
                0 <= j < s.skip(1).len() - 1 ==> s.skip(1)[j] == s[j + 1] && #[trigger] s.skip(
                    1,
                )[j + 1] == s[j + 2]);
        }
        lemma_coalesce_fixpoint(s.skip(1));
        assert(seq![s[0]] + s.skip(1) =~= s);
    }
}

/// Law: coalescing is idempotent.  Running the pass twice yields the
/// very layout the first pass produced.
pub proof fn lemma_coalesce_idempotent(s: Seq<HeapBlock>)
    ensures
        coalesce_seq(coalesce_seq(s)) == coalesce_seq(s),
{
    lemma_coalesce_no_adjacent(s);
    lemma_coalesce_fixpoint(coalesce_seq(s));
}

/// Coalescing a contiguous layout yields a contiguous layout with the
/// same first offset.
proof fn lemma_coalesce_chain(s: Seq<HeapBlock>)
    requires
        contiguous(s),
    ensures
        contiguous(coalesce_seq(s)),
    decreases s.len(),
{
    if s.len() <= 1 {
    } else if !s[0].taken && !s[1].taken {
        let merged = (HeapBlock { off: s[0].off, size: s[0].size + s[1].size, taken: false });
        let t = seq![merged] + s.skip(2);
        assert(contiguous(t)) by {
            assert(forall|j: int| 0 <= j < t.len() ==> #[trigger] t[j] == if j == 0 {
                merged
            } else {
                s[j + 1]
            });
        }
        lemma_coalesce_chain(t);
    } else {
        let c1 = coalesce_seq(s.skip(1));
        assert(contiguous(s.skip(1))) by {
            assert(forall|j: int| 0 <= j < s.skip(1).len() ==> #[trigger] s.skip(1)[j] == s[j
                + 1]);
        }
        lemma_coalesce_chain(s.skip(1));
        lemma_coalesce_head(s.skip(1));
        assert(s.skip(1)[0] == s[1]);
        let r = seq![s[0]] + c1;
        assert forall|j: int| 0 <= j < r.len() - 1 implies (#[trigger] r[j + 1]).off == r[j].off
            + r[j].size by {
            if j == 0 {
                assert(r[0] == s[0]);
                assert(r[1] == c1[0]);
                assert(c1[0].off == s[1].off);
                assert(s[0int + 1].off == s[0int].off + s[0int].size);
            } else {
                assert(r[j] == c1[j - 1]);
                assert(r[j + 1] == c1[j]);
                assert(c1[(j - 1) + 1].off == c1[j - 1].off + c1[j - 1].size);
            }
        }
        assert forall|j: int| 0 <= j < r.len() implies (#[trigger] r[j]).size > 0 by {
            if j > 0 {
                assert(r[j] == c1[j - 1]);
            }
        }
    }
}

/// In a contiguous layout the offsets grow strictly.
proof fn lemma_contig_mono(s: Seq<HeapBlock>, i: int, j: int)
    requires
        contiguous(s),
        0 <= i < j < s.len(),
    ensures
        s[i].off < s[j].off,
    decreases j - i,
{
    assert(s[(j - 1) + 1].off == s[j - 1].off + s[j - 1].size);
    assert(s[j - 1].size > 0);
    if i + 1 == j {
    } else {
        lemma_contig_mono(s, i, j - 1);
    }
}

/// Law: when exactly two adjacent blocks are free, with taken (or no)
/// neighbours on both sides, coalescing leaves exactly one free block of
/// their combined size at the first one's offset.
pub proof fn lemma_coalesce_adjacent_pair(s: Seq<HeapBlock>, i: int)
    requires
        contiguous(s),
        0 <= i,
        i + 1 < s.len(),
        !s[i].taken,
        !s[i + 1].taken,
        i == 0 || s[i - 1].taken,
        i + 2 == s.len() || s[i + 2].taken,
    ensures
        exists|j: int|
            0 <= j < coalesce_seq(s).len() && coalesce_seq(s)[j] == (HeapBlock {
                off: s[i].off,
                size: s[i].size + s[i + 1].size,
                taken: false,
            }),
        forall|j1: int, j2: int|
            0 <= j1 < coalesce_seq(s).len() && 0 <= j2 < coalesce_seq(s).len() && (
            #[trigger] coalesce_seq(s)[j1]).off == (#[trigger] coalesce_seq(s)[j2]).off
                ==> j1 == j2,
    decreases s.len(),
{
    let merged = (HeapBlock { off: s[i].off, size: s[i].size + s[i + 1].size, taken: false });
    lemma_coalesce_chain(s);
    let r = coalesce_seq(s);
    assert forall|j1: int, j2: int|
        0 <= j1 < r.len() && 0 <= j2 < r.len() && (#[trigger] r[j1]).off == (
        #[trigger] r[j2]).off implies j1 == j2 by {
        if j1 < j2 {
            lemma_contig_mono(r, j1, j2);
        } else if j2 < j1 {
            lemma_contig_mono(r, j2, j1);
        }
    }
    if i == 0 {
        let t = seq![merged] + s.skip(2);
        assert(t[0] == merged);
        if t.len() == 1 {
            assert(coalesce_seq(t) == t);
            assert(r == t);
            assert(r[0] == merged);
        } else {
            assert(t[1] == s[2]);
            assert(t[1].taken);
            lemma_coalesce_head(t);
            assert(coalesce_seq(t)[0] == merged);
            assert(r == coalesce_seq(t));
            assert(r[0] == merged);
        }
    } else if !s[0].taken && !s[1].taken {
        let m01 = (HeapBlock { off: s[0].off, size: s[0].size + s[1].size, taken: false });
        let t = seq![m01] + s.skip(2);
        assert(contiguous(t)) by {
            assert(forall|j: int| 0 <= j < t.len() ==> #[trigger] t[j] == if j == 0 {
                m01
            } else {
                s[j + 1]
            });
        }
        assert(i >= 3);
        assert(t[i - 1] == s[i]);
        assert(t[i] == s[i + 1]);
        assert(t[i - 2] == s[i - 1]);
        if i + 2 < s.len() {
            assert(t[i + 1] == s[i + 2]);
        }
        lemma_coalesce_adjacent_pair(t, i - 1);
        assert(r == coalesce_seq(t));
    } else {
        let tl = s.skip(1);
        assert(contiguous(tl)) by {
            assert(forall|j: int| 0 <= j < tl.len() ==> #[trigger] tl[j] == s[j + 1]);
        }
        assert(tl[i - 1] == s[i]);
        assert(tl[i] == s[i + 1]);
        if i >= 2 {
            assert(tl[i - 2] == s[i - 1]);
        }
        if i + 2 < s.len() {
            assert(tl[i + 1] == s[i + 2]);
        }
        lemma_coalesce_adjacent_pair(tl, i - 1);
        let c1 = coalesce_seq(tl);
        let jw = choose|j: int| 0 <= j < c1.len() && c1[j] == merged;
        assert(r == seq![s[0]] + c1);
        assert(r[jw + 1] == merged);
    }
}

/// Words with the range `[a, b)` zeroed.
pub open spec fn zero_range(m: Seq<u64>, a: int, b: int) -> Seq<u64> {
    m.map(|i: int, v: u64| if a <= i < b { 0u64 } else { v })
}

} // verus!
