//! Allocator adapter: the single glue point that exposes the kernel heap
//! as the process-wide general-purpose allocator for dynamically sized
//! kernel data.

use vstd::prelude::*;

verus! {

use crate::heap::{KernelHeap, heap_fit, carve, zero_range, align8, free_at, coalesce_seq,
    lemma_heap_fit_found};
use vstd::arithmetic::div_mod::{lemma_fundamental_div_mod, lemma_mod_multiples_basic};

/// The process-wide allocator front end over the kernel heap.
pub struct OsGlobalAlloc;

impl OsGlobalAlloc {
    /// Allocates `size` bytes with the given alignment, always
    /// zero-filled, by delegating to `kzmalloc`.  The heap hands out
    /// eight-byte-aligned blocks, so alignments above eight are not
    /// supported; zero-size requests are excluded here because the
    /// process-wide allocator contract this front end serves never makes
    /// them.  Allocation failure is reported as `None` and is fatal for
    /// the caller to decide.
    pub fn allocate(&self, heap: &mut KernelHeap, size: usize, align: usize) -> (r: Option<usize>)
        requires
            old(heap).wf(),
            1 <= size,
            size + 32 < usize::MAX,
            1 <= align <= 8,
        ensures
            final(heap).wf(),
            final(heap).head_addr == old(heap).head_addr,
            final(heap).alloc_pages == old(heap).alloc_pages,
            final(heap).mem@.len() == old(heap).mem@.len(),
            ({
                let need = align8(size as int) + 8;
                match heap_fit(old(heap).words(), need) {
                    Some(w) => r == Some((old(heap).head_addr + 8 * w + 8) as usize)
                        && final(heap).words() == zero_range(
                        carve(old(heap).words(), w, need),
                        w + 1,
                        w + need / 8,
                    ),
                    None => r == None::<usize> && final(heap).words() == old(heap).words(),
                }
            }),
            r matches Some(a) ==> a as int % 8 == 0,
    {
        let ghost h0 = *heap;
        let r = heap.kzmalloc(size);
        proof {
            if r is Some {
                let need = align8(size as int) + 8;
                let w = heap_fit(h0.words(), need).unwrap();
                lemma_heap_fit_found(h0.words(), 0, need, w);
                assert(8 * w + 8 <= 8 * h0.mem@.len());
                lemma_fundamental_div_mod(h0.head_addr as int, 8);
                let q = h0.head_addr as int / 8;
                assert(h0.head_addr + 8 * w + 8 == (q + w + 1) * 8);
                lemma_mod_multiples_basic(q + w + 1, 8);
            }
        }
        r
    }

    /// Releases a previously returned pointer by delegating to `kfree`;
    /// the following coalescing pass is part of the delegation.
    pub fn dealloc(&self, heap: &mut KernelHeap, addr: usize)
        requires
            old(heap).wf(),
        ensures
            final(heap).wf(),
            final(heap).head_addr == old(heap).head_addr,
            final(heap).alloc_pages == old(heap).alloc_pages,
            final(heap).mem@.len() == old(heap).mem@.len(),
            final(heap).layout() == coalesce_seq(
                free_at(old(heap).layout(), addr as int - old(heap).head_addr as int - 8),
            ),
    {
        heap.kfree(addr);
    }
}

} // verus!
