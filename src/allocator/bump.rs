//! Bump allocator: hands out memory by advancing a pointer and reclaims the
//! whole heap only once every allocation has been given back.
use vstd::prelude::*;
use crate::align::{align_up, align_up_spec, lemma_align_up};
use crate::allocator::{ranges_disjoint, Layout};

verus! {

/// The state of a bump allocator.
#[derive(Clone, Copy, Debug, PartialEq, Eq, Structural)]
pub struct BumpView {
    pub heap_start: u64,
    pub heap_end: u64,
    pub next: u64,
    pub allocations: u64,
}

impl BumpView {
    /// The next free address never leaves the heap.
    pub open spec fn wf(&self) -> bool {
        self.heap_start <= self.next <= self.heap_end
    }
}

/// The state after an allocation for `layout`, and the address handed out.
pub open spec fn bump_alloc_spec(v: BumpView, layout: Layout) -> (BumpView, Option<u64>) {
    let start = align_up_spec(v.next as int, layout.align as int);
    if start + layout.size <= v.heap_end {
        (
            BumpView {
                next: (start + layout.size) as u64,
                allocations: (v.allocations + 1) as u64,
                ..v
            },
            Some(start as u64),
        )
    } else {
        (v, None)
    }
}

/// The state after a block is given back.
pub open spec fn bump_dealloc_spec(v: BumpView) -> BumpView {
    let allocations = (v.allocations - 1) as u64;
    BumpView {
        allocations,
        next: if allocations == 0 { v.heap_start } else { v.next },
        ..v
    }
}

/// The addresses handed out by allocating for each layout in turn, with no
/// block given back in between.
pub open spec fn bump_alloc_all(v: BumpView, layouts: Seq<Layout>) -> Seq<Option<u64>>
    decreases layouts.len(),
{
    if layouts.len() == 0 {
        Seq::empty()
    } else {
        let (w, r) = bump_alloc_spec(v, layouts[0]);
        seq![r].add(bump_alloc_all(w, layouts.drop_first()))
    }
}

/// The state after `k` rounds of allocating for `layout` and giving the
/// block back at once; `None` if one of the allocations failed.
pub open spec fn bump_cycles(v: BumpView, layout: Layout, k: nat) -> Option<BumpView>
    decreases k,
{
    if k == 0 {
        Some(v)
    } else {
        let (w, r) = bump_alloc_spec(v, layout);
        if r is None {
            None
        } else {
            bump_cycles(bump_dealloc_spec(w), layout, (k - 1) as nat)
        }
    }
}

/// What an allocation does: the block handed out is aligned as asked and
/// lies between the old and the new next free address.
pub proof fn lemma_bump_alloc(v: BumpView, layout: Layout)
    requires
        v.wf(),
        layout.wf(),
        v.allocations < u64::MAX,
    ensures
        bump_alloc_spec(v, layout).0.wf(),
        bump_alloc_spec(v, layout).0.next >= v.next,
        bump_alloc_spec(v, layout).1 matches Some(p) ==> {
            &&& p % layout.align == 0
            &&& v.next <= p
            &&& p + layout.size == bump_alloc_spec(v, layout).0.next
        },
{
    lemma_align_up(v.next as int, layout.align as int);
}

/// Every block handed out by `bump_alloc_all` starts at or after the next
/// free address of the state it started from.
proof fn lemma_bump_alloc_all_after(v: BumpView, layouts: Seq<Layout>)
    requires
        v.wf(),
        v.allocations + layouts.len() < u64::MAX,
        forall|k: int| 0 <= k < layouts.len() ==> (#[trigger] layouts[k]).wf(),
    ensures
        bump_alloc_all(v, layouts).len() == layouts.len(),
        forall|k: int|
            0 <= k < layouts.len() && (#[trigger] bump_alloc_all(v, layouts)[k]) is Some ==> v.next
                <= bump_alloc_all(v, layouts)[k]->0,
    decreases layouts.len(),
{
    if layouts.len() > 0 {
        let (w, r) = bump_alloc_spec(v, layouts[0]);
        let rest = layouts.drop_first();
        lemma_bump_alloc(v, layouts[0]);
        assert forall|k: int| 0 <= k < rest.len() implies (#[trigger] rest[k]).wf() by {
            assert(rest[k] == layouts[k + 1]);
        }
        lemma_bump_alloc_all_after(w, rest);
        let all = bump_alloc_all(v, layouts);
        assert(all =~= seq![r].add(bump_alloc_all(w, rest)));
        assert forall|k: int| 0 <= k < layouts.len() && (#[trigger] all[k]) is Some implies v.next
            <= all[k]->0 by {
            if k > 0 {
                assert(all[k] == bump_alloc_all(w, rest)[k - 1]);
            }
        }
    }
}

/// Blocks handed out one after another, with none given back in between,
/// never share a byte.
pub proof fn lemma_bump_no_overlap(v: BumpView, layouts: Seq<Layout>, i: int, j: int)
    requires
        v.wf(),
        v.allocations + layouts.len() < u64::MAX,
        forall|k: int| 0 <= k < layouts.len() ==> (#[trigger] layouts[k]).wf(),
        0 <= i < j < layouts.len(),
        bump_alloc_all(v, layouts)[i] is Some,
        bump_alloc_all(v, layouts)[j] is Some,
    ensures
        ({
            let p = bump_alloc_all(v, layouts)[i]->0;
            let q = bump_alloc_all(v, layouts)[j]->0;
            ranges_disjoint(p as int, layouts[i].size as int, q as int, layouts[j].size as int)
        }),
    decreases layouts.len(),
{
    let (w, r) = bump_alloc_spec(v, layouts[0]);
    let rest = layouts.drop_first();
    lemma_bump_alloc(v, layouts[0]);
    assert forall|k: int| 0 <= k < rest.len() implies (#[trigger] rest[k]).wf() by {
        assert(rest[k] == layouts[k + 1]);
    }
    lemma_bump_alloc_all_after(w, rest);
    let all = bump_alloc_all(v, layouts);
    assert(all =~= seq![r].add(bump_alloc_all(w, rest)));
    assert(all[j] == bump_alloc_all(w, rest)[j - 1]);
    assert(layouts[j] == rest[j - 1]);
    if i > 0 {
        assert(all[i] == bump_alloc_all(w, rest)[i - 1]);
        assert(layouts[i] == rest[i - 1]);
        lemma_bump_no_overlap(w, rest, i - 1, j - 1);
    }
}

/// While one block stays allocated, the heap is never reclaimed: rounds of
/// allocating a non-empty block and giving it straight back fail once
/// their number exceeds the bytes left.
pub proof fn lemma_bump_exhaustion(v: BumpView, layout: Layout, k: nat)
    requires
        v.wf(),
        layout.wf(),
        v.allocations >= 1,
        v.allocations < u64::MAX,
        layout.size >= 1,
        k > v.heap_end - v.next,
    ensures
        bump_cycles(v, layout, k) is None,
    decreases k,
{
    let (w, r) = bump_alloc_spec(v, layout);
    lemma_bump_alloc(v, layout);
    if r is Some {
        let u = bump_dealloc_spec(w);
        assert(u.next == w.next);
        lemma_bump_exhaustion(u, layout, (k - 1) as nat);
    }
}

/// An allocation at an aligned next free address succeeds exactly when the
/// request fits in the bytes left: asking for all of them succeeds, asking
/// for more fails.
pub proof fn lemma_bump_oom_boundary(v: BumpView, layout: Layout)
    requires
        v.wf(),
        layout.wf(),
        v.next % layout.align == 0,
    ensures
        bump_alloc_spec(v, layout).1 is Some <==> layout.size <= v.heap_end - v.next,
        layout.size == v.heap_end - v.next ==> bump_alloc_spec(v, layout).1 == Some(v.next),
{
    lemma_align_up(v.next as int, layout.align as int);
}

/// An allocator that hands out memory by moving a pointer forward.
pub struct BumpAllocator {
    heap_start: u64,
    heap_end: u64,
    next: u64,
    allocations: u64,
}

impl BumpAllocator {
    pub closed spec fn view(&self) -> BumpView {
        BumpView {
            heap_start: self.heap_start,
            heap_end: self.heap_end,
            next: self.next,
            allocations: self.allocations,
        }
    }

    pub open spec fn wf(&self) -> bool {
        self@.wf()
    }

    /// An allocator over an empty heap.
    pub fn new() -> (r: BumpAllocator)
        ensures
            r@ == (BumpView { heap_start: 0, heap_end: 0, next: 0, allocations: 0 }),
            r.wf(),
    {
        BumpAllocator { heap_start: 0, heap_end: 0, next: 0, allocations: 0 }
    }

    /// Sets the heap to `[heap_start, heap_start + heap_size)`, all of it free.
    pub fn init(&mut self, heap_start: u64, heap_size: u64)
        requires
            heap_start + heap_size <= u64::MAX,
        ensures
            final(self).wf(),
            final(self)@ == (BumpView {
                heap_start,
                heap_end: (heap_start + heap_size) as u64,
                next: heap_start,
                allocations: old(self)@.allocations,
            }),
    {
        self.heap_start = heap_start;
        self.heap_end = heap_start + heap_size;
        self.next = heap_start;
    }

    /// Allocates a block for `layout` at the next free address rounded up
    /// to the alignment; `None` when it does not fit before the heap's end.
    pub fn allocate(&mut self, layout: Layout) -> (r: Option<u64>)
        requires
            old(self).wf(),
            layout.wf(),
            old(self)@.allocations < u64::MAX,
        ensures
            final(self).wf(),
            (final(self)@, r) == bump_alloc_spec(old(self)@, layout),
            r matches Some(p) ==> {
                &&& p % layout.align == 0
                &&& old(self)@.next <= p
                &&& p + layout.size == final(self)@.next
            },
    {
        proof {
            lemma_bump_alloc(self@, layout);
        }
        let alloc_start = match align_up(self.next, layout.align) {
            Some(a) => a,
            None => return None,
        };
        let alloc_end = match alloc_start.checked_add(layout.size) {
            Some(end) => end,
            None => return None,
        };
        if alloc_end > self.heap_end {
            None
        } else {
            self.next = alloc_end;
            self.allocations = self.allocations + 1;
            Some(alloc_start)
        }
    }

    /// Gives back a block; once none is left the whole heap is free again.
    pub fn deallocate(&mut self, ptr: u64, layout: Layout)
        requires
            old(self).wf(),
            old(self)@.allocations > 0,
        ensures
            final(self).wf(),
            final(self)@ == bump_dealloc_spec(old(self)@),
    {
        self.allocations = self.allocations - 1;
        if self.allocations == 0 {
            self.next = self.heap_start;
        }
    }
}

} // verus!
