//! A double-ended bootstrap allocator over one fixed address range.
//!
//! Byte allocations grow upward from the low end of the range and page
//! allocations are carved from the high end:
//!
//! ```text
//! [ bytes-used | avail-area | pages-used ]
//! |            | -->    <-- |            |
//! start       bpos        ppos         end
//! ```
//!
//! The byte area is reclaimed all at once when its last live allocation is
//! released. The page area is never reclaimed.

use vstd::prelude::*;
use vstd::arithmetic::power2::is_pow2;
use crate::align::{
    align_down, align_up, aligned_down, aligned_up, lemma_aligned_down_is_greatest,
    lemma_aligned_up_is_least, lemma_aligned_up_overflows, lemma_mask_clears_remainder,
};

verus! {

/// Why an allocator operation did not succeed.
#[derive(Debug, Clone, Copy, PartialEq, Eq, Structural)]
pub enum AllocError {
    /// The request does not fit in what is left of the region.
    NoMemory,
    /// The operation is not available on a bootstrap region.
    Unsupported,
}

/// The mathematical state of a bootstrap region.
pub struct Region {
    /// Lowest address of the region.
    pub start: int,
    /// One past the highest address of the region.
    pub end: int,
    /// Forward cursor: one past the last byte handed out.
    pub bpos: int,
    /// Backward cursor: lowest address reserved for pages.
    pub ppos: int,
    /// Number of byte allocations not yet released.
    pub live: nat,
}

impl Region {
    /// The cursors are ordered inside the region, and a region without live
    /// byte allocations has an empty byte area.
    pub open spec fn wf(self) -> bool {
        &&& 0 <= self.start <= self.bpos <= self.ppos <= self.end
        &&& self.live == 0 ==> self.bpos == self.start
    }

    /// The region `[start, start + size)` with nothing allocated.
    pub open spec fn fresh(start: int, size: int) -> Region {
        Region { start, end: start + size, bpos: start, ppos: start + size, live: 0 }
    }

    /// Size of the region.
    pub open spec fn total_bytes(self) -> int {
        self.end - self.start
    }

    /// Size of the byte area.
    pub open spec fn used_bytes(self) -> int {
        self.bpos - self.start
    }

    /// What lies between the two cursors.
    pub open spec fn available_bytes(self) -> int {
        self.ppos - self.bpos
    }

    /// Whole pages of `page_size` bytes in the region.
    pub open spec fn total_pages(self, page_size: int) -> int {
        (self.end - self.start) / page_size
    }

    /// Whole pages of `page_size` bytes in the page area.
    pub open spec fn used_pages(self, page_size: int) -> int {
        (self.end - self.ppos) / page_size
    }

    /// Whole pages of `page_size` bytes between the two cursors.
    pub open spec fn available_pages(self, page_size: int) -> int {
        (self.ppos - self.bpos) / page_size
    }

    /// Where a byte allocation with alignment `align` would be placed.
    pub open spec fn byte_candidate(self, align: int) -> int {
        aligned_up(self.bpos, align)
    }

    /// How far the forward cursor moves for a byte allocation: the padding
    /// in front of the block plus the block itself.
    pub open spec fn byte_cost(self, size: int, align: int) -> int {
        self.byte_candidate(align) + size - self.bpos
    }

    /// Whether a byte allocation ends at or below the backward cursor.
    pub open spec fn can_alloc(self, size: int, align: int) -> bool {
        self.byte_candidate(align) + size <= self.ppos
    }

    /// The region after a byte allocation.
    pub open spec fn after_alloc(self, size: int, align: int) -> Region {
        Region { bpos: self.byte_candidate(align) + size, live: self.live + 1, ..self }
    }

    /// The region after one byte allocation is released. Which block is
    /// released plays no part.
    pub open spec fn after_dealloc(self, addr: int, size: int) -> Region {
        Region {
            bpos: if self.live == 1 {
                self.start
            } else {
                self.bpos
            },
            live: (self.live - 1) as nat,
            ..self
        }
    }

    /// Where a page allocation with alignment `align` would be placed.
    pub open spec fn page_candidate(self, align: int) -> int {
        aligned_down(self.end, align)
    }

    /// Whether a page allocation stays above the forward cursor.
    pub open spec fn can_alloc_pages(self, align: int) -> bool {
        self.page_candidate(align) > self.bpos
    }

    /// The region after a page allocation.
    pub open spec fn after_alloc_pages(self, align: int) -> Region {
        Region { ppos: self.page_candidate(align), ..self }
    }
}

/// Early memory allocator, for use before the byte and page allocators
/// proper are up. `SIZE` is the page size, in bytes, that its page counters
/// go by.
pub struct EarlyAllocator<const SIZE: usize> {
    start: usize,
    end: usize,
    bpos: usize,
    ppos: usize,
    cnt: usize,
}

impl<const SIZE: usize> View for EarlyAllocator<SIZE> {
    type V = Region;

    closed spec fn view(&self) -> Region {
        Region {
            start: self.start as int,
            end: self.end as int,
            bpos: self.bpos as int,
            ppos: self.ppos as int,
            live: self.cnt as nat,
        }
    }
}

impl<const SIZE: usize> EarlyAllocator<SIZE> {
    /// The allocator's state is a well-formed region.
    pub open spec fn wf(&self) -> bool {
        self@.wf()
    }

    /// An allocator over the empty region at address 0.
    pub fn new() -> (a: Self)
        ensures
            a.wf(),
            a@ == Region::fresh(0, 0),
    {
        EarlyAllocator { start: 0, end: 0, bpos: 0, ppos: 0, cnt: 0 }
    }

    /// Takes over the region `[start, start + size)`, forgetting whatever
    /// was allocated before.
    pub fn init(&mut self, start: usize, size: usize)
        requires
            start + size <= usize::MAX,
        ensures
            final(self).wf(),
            final(self)@ == Region::fresh(start as int, size as int),
    {
        self.start = start;
        self.end = start + size;
        self.bpos = start;
        self.ppos = start + size;
        self.cnt = 0;
    }

    /// A bootstrap region cannot be extended: always refuses and changes
    /// nothing.
    pub fn add_memory(&mut self, start: usize, size: usize) -> (r: Result<(), AllocError>)
        ensures
            r == Err::<(), AllocError>(AllocError::Unsupported),
            *final(self) == *old(self),
    {
        Err(AllocError::Unsupported)
    }

    /// Number of byte allocations not yet released.
    pub fn live_allocations(&self) -> (n: usize)
        ensures
            n == self@.live,
    {
        self.cnt
    }

    /// Allocates `size` bytes at the first multiple of `align` at or above
    /// the forward cursor, if the block ends at or below the backward cursor.
    pub fn alloc_bytes(&mut self, size: usize, align: usize) -> (r: Result<usize, AllocError>)
        requires
            old(self).wf(),
            is_pow2(align as int),
            old(self)@.live < usize::MAX,
        ensures
            final(self).wf(),
            match r {
                Ok(addr) => {
                    &&& old(self)@.can_alloc(size as int, align as int)
                    &&& addr == old(self)@.byte_candidate(align as int)
                    &&& final(self)@ == old(self)@.after_alloc(size as int, align as int)
                },
                Err(e) => {
                    &&& e == AllocError::NoMemory
                    &&& !old(self)@.can_alloc(size as int, align as int)
                    &&& *final(self) == *old(self)
                },
            },
    {
        proof {
            lemma_mask_clears_remainder(self.bpos, align);
            lemma_aligned_up_is_least(self.bpos as int, align as int);
        }
        if self.bpos > usize::MAX - (align - 1) {
            proof {
                lemma_aligned_up_overflows(self.bpos, align);
            }
            return Err(AllocError::NoMemory);
        }
        let start: usize = align_up(self.bpos, align);
        if start > self.ppos || size > self.ppos - start {
            return Err(AllocError::NoMemory);
        }
        self.bpos = start + size;
        self.cnt = self.cnt + 1;
        Ok(start)
    }

    /// Releases one byte allocation. When the last one goes, the whole byte
    /// area is free again.
    pub fn dealloc(&mut self, addr: usize, size: usize)
        requires
            old(self).wf(),
            old(self)@.live > 0,
        ensures
            final(self).wf(),
            final(self)@ == old(self)@.after_dealloc(addr as int, size as int),
    {
        self.cnt = self.cnt - 1;
        if self.cnt == 0 {
            self.bpos = self.start;
        }
    }

    /// Size of the region in bytes.
    pub fn total_bytes(&self) -> (n: usize)
        requires
            self.wf(),
        ensures
            n == self@.total_bytes(),
    {
        self.end - self.start
    }

    /// Size of the byte area in bytes.
    pub fn used_bytes(&self) -> (n: usize)
        requires
            self.wf(),
        ensures
            n == self@.used_bytes(),
    {
        self.bpos - self.start
    }

    /// Bytes between the two cursors.
    pub fn available_bytes(&self) -> (n: usize)
        requires
            self.wf(),
        ensures
            n == self@.available_bytes(),
    {
        self.ppos - self.bpos
    }

    /// Reserves everything from the largest multiple of `align_pow2` at or
    /// below the region's end, if that lies above the forward cursor.
    pub fn alloc_pages(&mut self, num_pages: usize, align_pow2: usize) -> (r: Result<
        usize,
        AllocError,
    >)
        requires
            old(self).wf(),
            is_pow2(align_pow2 as int),
        ensures
            final(self).wf(),
            match r {
                Ok(addr) => {
                    &&& old(self)@.can_alloc_pages(align_pow2 as int)
                    &&& addr == old(self)@.page_candidate(align_pow2 as int)
                    &&& final(self)@ == old(self)@.after_alloc_pages(align_pow2 as int)
                },
                Err(e) => {
                    &&& e == AllocError::NoMemory
                    &&& !old(self)@.can_alloc_pages(align_pow2 as int)
                    &&& *final(self) == *old(self)
                },
            },
    {
        let next: usize = align_down(self.end, align_pow2);
        if next <= self.bpos {
            return Err(AllocError::NoMemory);
        }
        proof {
            lemma_mask_clears_remainder(self.end, align_pow2);
            lemma_aligned_down_is_greatest(self.end as int, align_pow2 as int);
        }
        self.ppos = next;
        Ok(next)
    }

    /// Pages are never given back: does nothing.
    pub fn dealloc_pages(&mut self, pos: usize, num_pages: usize)
        ensures
            *final(self) == *old(self),
    {
    }

    /// Size of the region in whole pages.
    pub fn total_pages(&self) -> (n: usize)
        requires
            self.wf(),
            SIZE > 0,
        ensures
            n == self@.total_pages(SIZE as int),
    {
        (self.end - self.start) / SIZE
    }

    /// Size of the page area in whole pages.
    pub fn used_pages(&self) -> (n: usize)
        requires
            self.wf(),
            SIZE > 0,
        ensures
            n == self@.used_pages(SIZE as int),
    {
        (self.end - self.ppos) / SIZE
    }

    /// Whole pages between the two cursors.
    pub fn available_pages(&self) -> (n: usize)
        requires
            self.wf(),
            SIZE > 0,
        ensures
            n == self@.available_pages(SIZE as int),
    {
        (self.ppos - self.bpos) / SIZE
    }
}

} // verus!
