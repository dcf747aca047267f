//! What holds of a bootstrap region over whole runs of operations.

use vstd::prelude::*;
use crate::align::{
    aligned_down, is_aligned, lemma_aligned_down_is_greatest, lemma_aligned_up_is_least,
};
use crate::bump::Region;

verus! {

/// A byte allocation request.
pub struct Request {
    pub size: int,
    pub align: int,
}

/// A block handed back to the allocator.
pub struct Block {
    pub addr: int,
    pub size: int,
}

/// Sizes are non-negative and alignments positive.
pub open spec fn valid_requests(reqs: Seq<Request>) -> bool {
    forall|i: int| 0 <= i < reqs.len() ==> (#[trigger] reqs[i]).size >= 0 && reqs[i].align > 0
}

impl Region {
    /// The region after serving `reqs` in order.
    pub open spec fn after_allocs(self, reqs: Seq<Request>) -> Region
        decreases reqs.len(),
    {
        if reqs.len() == 0 {
            self
        } else {
            self.after_allocs(reqs.drop_last()).after_alloc(reqs.last().size, reqs.last().align)
        }
    }

    /// The region just before request `i` of `reqs` is served.
    pub open spec fn before_request(self, reqs: Seq<Request>, i: int) -> Region {
        self.after_allocs(reqs.take(i))
    }

    /// Every request of `reqs` fits when its turn comes.
    pub open spec fn allocs_succeed(self, reqs: Seq<Request>) -> bool {
        forall|i: int|
            0 <= i < reqs.len() ==> (#[trigger] self.before_request(reqs, i)).can_alloc(
                reqs[i].size,
                reqs[i].align,
            )
    }

    /// The address that request `i` of `reqs` receives.
    pub open spec fn nth_addr(self, reqs: Seq<Request>, i: int) -> int {
        self.before_request(reqs, i).byte_candidate(reqs[i].align)
    }

    /// How far serving `reqs` moves the forward cursor: padding and blocks
    /// together.
    pub open spec fn total_cost(self, reqs: Seq<Request>) -> int
        decreases reqs.len(),
    {
        if reqs.len() == 0 {
            0
        } else {
            self.total_cost(reqs.drop_last()) + self.after_allocs(reqs.drop_last()).byte_cost(
                reqs.last().size,
                reqs.last().align,
            )
        }
    }

    /// The region after the blocks of `frees` are released in order.
    pub open spec fn after_deallocs(self, frees: Seq<Block>) -> Region
        decreases frees.len(),
    {
        if frees.len() == 0 {
            self
        } else {
            self.after_deallocs(frees.drop_last()).after_dealloc(
                frees.last().addr,
                frees.last().size,
            )
        }
    }
}

/// A freshly initialized region is well formed, all of it is available and
/// none of it is used.
pub proof fn lemma_fresh_accounting(start: int, size: int)
    requires
        0 <= start,
        0 <= size,
    ensures
        Region::fresh(start, size).wf(),
        Region::fresh(start, size).total_bytes() == size,
        Region::fresh(start, size).available_bytes() == size,
        Region::fresh(start, size).used_bytes() == 0,
{
}

/// A byte allocation that fits leaves a well-formed region, and its block is
/// aligned and lies between the old forward cursor and the backward cursor.
pub proof fn lemma_alloc_step(r: Region, size: int, align: int)
    requires
        r.wf(),
        size >= 0,
        align > 0,
        r.can_alloc(size, align),
    ensures
        r.after_alloc(size, align).wf(),
        is_aligned(r.byte_candidate(align), align),
        r.bpos <= r.byte_candidate(align),
        r.byte_candidate(align) + size == r.after_alloc(size, align).bpos,
        r.after_alloc(size, align).bpos <= r.ppos,
{
    lemma_aligned_up_is_least(r.bpos, align);
}

/// Serving requests that all fit keeps the region well formed, moves only
/// the forward cursor, never backward, and counts one live allocation each.
pub proof fn lemma_after_allocs(r: Region, reqs: Seq<Request>)
    requires
        r.wf(),
        valid_requests(reqs),
        r.allocs_succeed(reqs),
    ensures
        r.after_allocs(reqs).wf(),
        r.after_allocs(reqs).start == r.start,
        r.after_allocs(reqs).end == r.end,
        r.after_allocs(reqs).ppos == r.ppos,
        r.after_allocs(reqs).live == r.live + reqs.len(),
        r.bpos <= r.after_allocs(reqs).bpos,
        r.after_allocs(reqs).bpos == r.bpos + r.total_cost(reqs),
    decreases reqs.len(),
{
    if reqs.len() > 0 {
        let init = reqs.drop_last();
        lemma_prefix_succeeds(r, reqs, init.len() as int);
        assert(reqs.take(init.len() as int) =~= init);
        lemma_after_allocs(r, init);
        assert(r.before_request(reqs, init.len() as int) == r.after_allocs(init));
        lemma_alloc_step(r.after_allocs(init), reqs.last().size, reqs.last().align);
    }
}

/// Where a run of requests succeeds, so does each of its prefixes.
pub proof fn lemma_prefix_succeeds(r: Region, reqs: Seq<Request>, n: int)
    requires
        valid_requests(reqs),
        r.allocs_succeed(reqs),
        0 <= n <= reqs.len(),
    ensures
        valid_requests(reqs.take(n)),
        r.allocs_succeed(reqs.take(n)),
{
    let pre = reqs.take(n);
    assert forall|i: int| 0 <= i < pre.len() implies (#[trigger] r.before_request(
        pre,
        i,
    )).can_alloc(pre[i].size, pre[i].align) by {
        assert(pre.take(i) =~= reqs.take(i));
        assert(r.before_request(reqs, i).can_alloc(reqs[i].size, reqs[i].align));
    }
    assert forall|i: int| 0 <= i < pre.len() implies (#[trigger] pre[i]).size >= 0
        && pre[i].align > 0 by {
        assert(reqs[i].size >= 0);
    }
}

/// The forward cursor before a later request is at or above the end of every
/// earlier block.
proof fn lemma_cursor_passes_block(r: Region, reqs: Seq<Request>, i: int, j: int)
    requires
        r.wf(),
        valid_requests(reqs),
        r.allocs_succeed(reqs),
        0 <= i < j <= reqs.len(),
    ensures
        r.nth_addr(reqs, i) + reqs[i].size <= r.before_request(reqs, j).bpos,
    decreases j - i,
{
    let head = reqs.take(j - 1);
    lemma_prefix_succeeds(r, reqs, j - 1);
    lemma_after_allocs(r, head);
    assert(reqs.take(j).drop_last() =~= head);
    assert(reqs.take(j).last() == reqs[j - 1]);
    assert(r.before_request(reqs, j - 1).can_alloc(reqs[j - 1].size, reqs[j - 1].align));
    lemma_alloc_step(r.after_allocs(head), reqs[j - 1].size, reqs[j - 1].align);
    if i < j - 1 {
        lemma_cursor_passes_block(r, reqs, i, j - 1);
    }
}

/// The blocks of a run of successful byte allocations do not overlap: each
/// ends at or below the start of every later one. Each starts at a multiple
/// of its alignment and lies between the forward cursor the run started from
/// and the backward cursor.
pub proof fn lemma_blocks_disjoint(r: Region, reqs: Seq<Request>, i: int, j: int)
    requires
        r.wf(),
        valid_requests(reqs),
        r.allocs_succeed(reqs),
        0 <= i < j < reqs.len(),
    ensures
        r.nth_addr(reqs, i) + reqs[i].size <= r.nth_addr(reqs, j),
        is_aligned(r.nth_addr(reqs, i), reqs[i].align),
        is_aligned(r.nth_addr(reqs, j), reqs[j].align),
        r.bpos <= r.nth_addr(reqs, i),
        r.nth_addr(reqs, j) + reqs[j].size <= r.ppos,
{
    lemma_cursor_passes_block(r, reqs, i, j);
    lemma_prefix_succeeds(r, reqs, i);
    lemma_prefix_succeeds(r, reqs, j);
    lemma_after_allocs(r, reqs.take(i));
    lemma_after_allocs(r, reqs.take(j));
    assert(r.before_request(reqs, i).can_alloc(reqs[i].size, reqs[i].align));
    assert(r.before_request(reqs, j).can_alloc(reqs[j].size, reqs[j].align));
    lemma_alloc_step(r.before_request(reqs, i), reqs[i].size, reqs[i].align);
    lemma_alloc_step(r.before_request(reqs, j), reqs[j].size, reqs[j].align);
}

/// After a run of successful byte allocations, the next request fits exactly
/// when the cost of the run together with it, padding included, is within
/// what was available when the run began.
pub proof fn lemma_exhaustion(r: Region, reqs: Seq<Request>, next: Request)
    requires
        r.wf(),
        valid_requests(reqs),
        r.allocs_succeed(reqs),
        next.size >= 0,
        next.align > 0,
    ensures
        r.after_allocs(reqs).can_alloc(next.size, next.align) <==> r.total_cost(reqs.push(next))
            <= r.available_bytes(),
        r.total_cost(reqs) <= r.available_bytes(),
        r.after_allocs(reqs).available_bytes() == r.available_bytes() - r.total_cost(reqs),
{
    lemma_after_allocs(r, reqs);
    assert(reqs.push(next).drop_last() =~= reqs);
    assert(reqs.push(next).last() == next);
}

/// Releasing blocks touches nothing but the forward cursor and the count of
/// live allocations, and keeps the region well formed.
pub proof fn lemma_after_deallocs(r: Region, frees: Seq<Block>)
    requires
        r.wf(),
        frees.len() <= r.live,
    ensures
        r.after_deallocs(frees).wf(),
        r.after_deallocs(frees).start == r.start,
        r.after_deallocs(frees).end == r.end,
        r.after_deallocs(frees).ppos == r.ppos,
        r.after_deallocs(frees).live == r.live - frees.len(),
        frees.len() < r.live ==> r.after_deallocs(frees).bpos == r.bpos,
        frees.len() == r.live ==> r.after_deallocs(frees).bpos == r.start,
    decreases frees.len(),
{
    if frees.len() > 0 {
        lemma_after_deallocs(r, frees.drop_last());
    }
}

/// Once as many blocks are released as allocations were live, in whatever
/// order and whichever blocks are named, the byte area is empty again.
pub proof fn lemma_bulk_free(r: Region, frees: Seq<Block>)
    requires
        r.wf(),
        frees.len() == r.live,
    ensures
        r.after_deallocs(frees).used_bytes() == 0,
        r.after_deallocs(frees).bpos == r.start,
        r.after_deallocs(frees).live == 0,
{
    lemma_after_deallocs(r, frees);
}

/// Two runs of releases of the same length leave the same region.
pub proof fn lemma_free_order_irrelevant(r: Region, a: Seq<Block>, b: Seq<Block>)
    requires
        a.len() == b.len(),
    ensures
        r.after_deallocs(a) == r.after_deallocs(b),
    decreases a.len(),
{
    if a.len() > 0 {
        lemma_free_order_irrelevant(r, a.drop_last(), b.drop_last());
    }
}

/// A region with no live allocation that serves a run of requests and then
/// sees as many releases has an empty byte area again.
pub proof fn lemma_alloc_then_free_all(r: Region, reqs: Seq<Request>, frees: Seq<Block>)
    requires
        r.wf(),
        r.live == 0,
        valid_requests(reqs),
        r.allocs_succeed(reqs),
        frees.len() == reqs.len(),
    ensures
        r.after_allocs(reqs).after_deallocs(frees).used_bytes() == 0,
        r.after_allocs(reqs).after_deallocs(frees).bpos == r.start,
{
    lemma_after_allocs(r, reqs);
    lemma_bulk_free(r.after_allocs(reqs), frees);
}

/// A page allocation that succeeds is placed above the forward cursor, at a
/// multiple of its alignment no higher than the region's end, and leaves a
/// well-formed region with the byte area untouched.
pub proof fn lemma_page_alloc_step(r: Region, align: int)
    requires
        r.wf(),
        align > 0,
        r.can_alloc_pages(align),
    ensures
        r.bpos < r.page_candidate(align) <= r.end,
        is_aligned(r.page_candidate(align), align),
        r.after_alloc_pages(align).wf(),
        r.after_alloc_pages(align).bpos == r.bpos,
        r.after_alloc_pages(align).live == r.live,
{
    lemma_aligned_down_is_greatest(r.end, align);
}

/// No page allocation fits where the alignment exceeds the region's end, nor
/// where it exceeds the region's size and the region starts at a multiple of
/// it.
pub proof fn lemma_oversized_alignment(r: Region, align: int)
    requires
        r.wf(),
        align > r.end || (align > r.total_bytes() && is_aligned(r.start, align)),
    ensures
        !r.can_alloc_pages(align),
{
    lemma_aligned_down_is_greatest(r.end, align);
    if align > r.end {
        vstd::arithmetic::div_mod::lemma_small_mod(r.end as nat, align as nat);
    } else {
        assert(is_aligned(r.start, align) && r.start <= r.end);
        if aligned_down(r.end, align) > r.start {
            crate::align::lemma_multiples_are_spaced(r.start, aligned_down(r.end, align), align);
        }
    }
}

} // verus!
