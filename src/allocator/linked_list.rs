//! First-fit allocator over a list of free regions.
//!
//! The free list is held in a `Vec` whose last element is the front of the
//! list: freed blocks are pushed there and the search for a fitting region
//! starts there. Adjacent free regions are never merged.
use vstd::prelude::*;
use crate::align::{align_up, align_up_spec, is_pow2, lemma_align_up, lemma_mod_transitive, lemma_pow2_divides};
use crate::allocator::{ranges_disjoint, Layout};

verus! {

/// Bytes that a free region needs to describe itself (its size and a link).
pub const NODE_SIZE: u64 = 16;

/// Alignment of a free-region descriptor.
pub const NODE_ALIGN: u64 = 8;

/// A free region of the heap: `size` bytes from `start`.
#[derive(Clone, Copy, Debug, PartialEq, Eq, Structural)]
pub struct ListNode {
    pub start: u64,
    pub size: u64,
}

impl ListNode {
    pub open spec fn end(&self) -> int {
        self.start + self.size
    }

    /// A region that can hold its own descriptor.
    pub open spec fn wf(&self) -> bool {
        &&& self.start % NODE_ALIGN == 0
        &&& self.size >= NODE_SIZE
        &&& self.end() <= u64::MAX
    }

    pub open spec fn contains(&self, a: int) -> bool {
        self.start <= a < self.end()
    }

    pub fn new(start: u64, size: u64) -> (r: ListNode)
        ensures
            r.start == start,
            r.size == size,
    {
        ListNode { start, size }
    }

    pub fn start_addr(&self) -> (r: u64)
        ensures
            r == self.start,
    {
        self.start
    }

    pub fn end_addr(&self) -> (r: u64)
        requires
            self.end() <= u64::MAX,
        ensures
            r == self.end(),
    {
        self.start + self.size
    }
}

/// Two address ranges share no byte.
pub open spec fn disjoint(a_start: int, a_end: int, b_start: int, b_end: int) -> bool {
    a_end <= b_start || b_end <= a_start
}

/// Every region is well formed and no two of them overlap.
pub open spec fn regions_wf(s: Seq<ListNode>) -> bool {
    &&& forall|i: int| 0 <= i < s.len() ==> (#[trigger] s[i]).wf()
    &&& forall|i: int, j: int|
        0 <= i < s.len() && 0 <= j < s.len() && i != j ==> disjoint(
            (#[trigger] s[i]).start as int,
            s[i].end(),
            (#[trigger] s[j]).start as int,
            s[j].end(),
        )
}

/// Address `a` lies in one of the free regions.
pub open spec fn is_free(s: Seq<ListNode>, a: int) -> bool {
    exists|i: int| 0 <= i < s.len() && (#[trigger] s[i]).contains(a)
}

/// `[start, start + size)` overlaps no free region.
pub open spec fn outside_free(s: Seq<ListNode>, start: int, size: int) -> bool {
    forall|i: int|
        0 <= i < s.len() ==> disjoint(start, start + size, (#[trigger] s[i]).start as int, s[i].end())
}

/// The size and alignment actually reserved for a request: aligned to at
/// least a descriptor, padded to that alignment, and never smaller than a
/// descriptor, so that the block can later be a free region.
pub open spec fn size_align_spec(layout: Layout) -> (int, int) {
    let align = if layout.align > NODE_ALIGN { layout.align as int } else { NODE_ALIGN as int };
    let padded = align_up_spec(layout.size as int, align);
    (if padded > NODE_SIZE { padded } else { NODE_SIZE as int }, align)
}

/// Whether a block of `size` bytes aligned to `align` can be cut from the
/// region, leaving either nothing or a tail that can be a free region.
pub open spec fn fits(n: ListNode, size: int, align: int) -> bool {
    let start = align_up_spec(n.start as int, align);
    &&& start + size <= n.end()
    &&& (start + size == n.end() || n.end() - (start + size) >= NODE_SIZE)
}

/// Index of the first region, from the front of the list, that fits.
pub open spec fn first_fit(s: Seq<ListNode>, size: int, align: int) -> Option<int>
    decreases s.len(),
{
    if s.len() == 0 {
        None
    } else if fits(s.last(), size, align) {
        Some(s.len() - 1)
    } else {
        first_fit(s.drop_last(), size, align)
    }
}

/// The free list after an allocation, and the address handed out.
pub open spec fn alloc_spec(s: Seq<ListNode>, layout: Layout) -> (Seq<ListNode>, Option<u64>) {
    let (size, align) = size_align_spec(layout);
    match first_fit(s, size, align) {
        None => (s, None),
        Some(i) => {
            let n = s[i];
            let start = align_up_spec(n.start as int, align);
            let end = start + size;
            let rest = s.remove(i);
            (
                if end < n.end() {
                    rest.push(ListNode { start: end as u64, size: (n.end() - end) as u64 })
                } else {
                    rest
                },
                Some(start as u64),
            )
        },
    }
}

/// The free list after the block at `ptr` is given back.
pub open spec fn dealloc_spec(s: Seq<ListNode>, ptr: u64, layout: Layout) -> Seq<ListNode> {
    s.push(ListNode { start: ptr, size: size_align_spec(layout).0 as u64 })
}

/// A block that may be given back: aligned for a descriptor, and its
/// reserved extent lies in memory and overlaps no free region.
pub open spec fn can_free(s: Seq<ListNode>, ptr: u64, layout: Layout) -> bool {
    let size = size_align_spec(layout).0;
    &&& layout.wf()
    &&& ptr % NODE_ALIGN == 0
    &&& ptr + size <= u64::MAX
    &&& outside_free(s, ptr as int, size)
}

/// A range none of whose bytes is free overlaps no free region.
pub proof fn lemma_outside_free_from_points(s: Seq<ListNode>, p: int, n: int)
    requires
        regions_wf(s),
        n > 0,
        forall|a: int| p <= a < p + n ==> !is_free(s, a),
    ensures
        outside_free(s, p, n),
{
    assert forall|j: int| 0 <= j < s.len() implies disjoint(
        p,
        p + n,
        (#[trigger] s[j]).start as int,
        s[j].end(),
    ) by {
        if !disjoint(p, p + n, s[j].start as int, s[j].end()) {
            let a = if p >= s[j].start { p } else { s[j].start as int };
            assert(s[j].wf());
            assert(s[j].contains(a));
            assert(is_free(s, a));
        }
    }
}

/// Once every region above index `k` is known not to fit, the first fit is
/// found among the first `k` regions.
proof fn lemma_first_fit_prefix(s: Seq<ListNode>, size: int, align: int, k: int)
    requires
        0 <= k <= s.len(),
        forall|j: int| k <= j < s.len() ==> !fits(#[trigger] s[j], size, align),
    ensures
        first_fit(s, size, align) == first_fit(s.subrange(0, k), size, align),
    decreases s.len(),
{
    if s.len() == k {
        assert(s.subrange(0, k) =~= s);
    } else {
        assert(!fits(s.last(), size, align));
        assert(s.drop_last().subrange(0, k) =~= s.subrange(0, k));
        lemma_first_fit_prefix(s.drop_last(), size, align, k);
    }
}

/// The first fit is a region that fits.
proof fn lemma_first_fit_fits(s: Seq<ListNode>, size: int, align: int)
    ensures
        first_fit(s, size, align) matches Some(i) ==> 0 <= i < s.len() && fits(s[i], size, align),
    decreases s.len(),
{
    if s.len() > 0 && !fits(s.last(), size, align) {
        lemma_first_fit_fits(s.drop_last(), size, align);
    }
}

/// Facts on the reserved size and alignment of a valid request.
pub proof fn lemma_size_align(layout: Layout)
    requires
        layout.wf(),
    ensures
        ({
            let (size, align) = size_align_spec(layout);
            &&& is_pow2(align)
            &&& align >= NODE_ALIGN
            &&& align % layout.align as int == 0
            &&& align % NODE_ALIGN as int == 0
            &&& size % NODE_ALIGN as int == 0
            &&& size >= layout.size
            &&& size >= NODE_SIZE
        }),
{
    let (size, align) = size_align_spec(layout);
    assert(is_pow2(1));
    assert(is_pow2(2));
    assert(is_pow2(4));
    assert(is_pow2(8));
    if layout.align > NODE_ALIGN {
        lemma_pow2_divides(8, align);
    } else {
        lemma_pow2_divides(layout.align as int, 8);
    }
    lemma_pow2_divides(layout.align as int, align);
    lemma_align_up(layout.size as int, align);
    let padded = align_up_spec(layout.size as int, align);
    lemma_mod_transitive(padded, 8, align);
    assert(16int % 8 == 0);
}

/// What an allocation does to the free memory: the block handed out was
/// free, is aligned as asked, and is no longer free; nothing becomes free.
pub proof fn lemma_alloc_carves(s: Seq<ListNode>, layout: Layout)
    requires
        regions_wf(s),
        layout.wf(),
    ensures
        regions_wf(alloc_spec(s, layout).0),
        forall|a: int| is_free(alloc_spec(s, layout).0, a) ==> is_free(s, a),
        alloc_spec(s, layout).1 matches Some(p) ==> {
            &&& p % layout.align == 0
            &&& (p as int) % size_align_spec(layout).1 == 0
            &&& p + size_align_spec(layout).0 <= u64::MAX
            &&& forall|a: int|
                #![trigger is_free(alloc_spec(s, layout).0, a)]
                p <= a < p + size_align_spec(layout).0 ==> is_free(s, a) && !is_free(
                    alloc_spec(s, layout).0,
                    a,
                )
        },
{
    let (size, align) = size_align_spec(layout);
    lemma_size_align(layout);
    lemma_first_fit_fits(s, size, align);
    match first_fit(s, size, align) {
        None => {},
        Some(i) => {
            let n = s[i];
            let start = align_up_spec(n.start as int, align);
            let end = start + size;
            let rest = s.remove(i);
            let t = alloc_spec(s, layout).0;
            lemma_align_up(n.start as int, align);
            lemma_mod_transitive(start, layout.align as int, align);
            lemma_mod_transitive(start, NODE_ALIGN as int, align);
            assert(start % align == 0);
            let tail = ListNode { start: end as u64, size: (n.end() - end) as u64 };
            assert forall|j: int| 0 <= j < rest.len() implies (#[trigger] rest[j]) == s[if j < i { j } else { j + 1 }] by {}
            assert forall|j: int| 0 <= j < t.len() implies {
                let k = if j < rest.len() { if j < i { j } else { j + 1 } } else { i };
                &&& (#[trigger] t[j]).wf()
                &&& n.start <= t[j].start && t[j].end() <= n.end() || (j < rest.len() && t[j] == s[k] && k != i)
                &&& t[j].start >= end || j < rest.len()
            } by {
                if j == rest.len() {
                    assert(end % 8 == 0) by {
                        assert((start + size) % 8 == 0) by (nonlinear_arith)
                            requires
                                start % 8 == 0,
                                size % 8 == 0,
                        ;
                    }
                }
            }
            assert(regions_wf(t)) by {
                assert forall|j1: int, j2: int|
                    0 <= j1 < t.len() && 0 <= j2 < t.len() && j1 != j2 implies disjoint(
                    (#[trigger] t[j1]).start as int,
                    t[j1].end(),
                    (#[trigger] t[j2]).start as int,
                    t[j2].end(),
                ) by {
                    if j1 < rest.len() && j2 < rest.len() {
                        let k1 = if j1 < i { j1 } else { j1 + 1 };
                        let k2 = if j2 < i { j2 } else { j2 + 1 };
                        assert(t[j1] == s[k1] && t[j2] == s[k2]);
                    } else if j1 < rest.len() {
                        let k1 = if j1 < i { j1 } else { j1 + 1 };
                        assert(t[j1] == s[k1]);
                        assert(disjoint(s[k1].start as int, s[k1].end(), s[i].start as int, s[i].end()));
                    } else {
                        let k2 = if j2 < i { j2 } else { j2 + 1 };
                        assert(t[j2] == s[k2]);
                        assert(disjoint(s[k2].start as int, s[k2].end(), s[i].start as int, s[i].end()));
                    }
                }
            }
            assert forall|a: int| is_free(t, a) implies is_free(s, a) by {
                let j = choose|j: int| 0 <= j < t.len() && (#[trigger] t[j]).contains(a);
                if j < rest.len() {
                    let k = if j < i { j } else { j + 1 };
                    assert(t[j] == s[k]);
                } else {
                    assert(s[i].contains(a));
                }
            }
            assert forall|a: int| start <= a < start + size implies is_free(s, a) && !is_free(t, a) by {
                assert(s[i].contains(a));
                if is_free(t, a) {
                    let j = choose|j: int| 0 <= j < t.len() && (#[trigger] t[j]).contains(a);
                    if j < rest.len() {
                        let k = if j < i { j } else { j + 1 };
                        assert(t[j] == s[k]);
                        assert(disjoint(s[k].start as int, s[k].end(), s[i].start as int, s[i].end()));
                    }
                }
            }
        },
    }
}

/// Giving back a block that may be freed keeps the free list well formed
/// and adds exactly that block's extent to the free memory.
pub proof fn lemma_dealloc_frees(s: Seq<ListNode>, ptr: u64, layout: Layout)
    requires
        regions_wf(s),
        can_free(s, ptr, layout),
    ensures
        regions_wf(dealloc_spec(s, ptr, layout)),
        forall|a: int|
            #![trigger is_free(dealloc_spec(s, ptr, layout), a)]
            is_free(dealloc_spec(s, ptr, layout), a) <==> (is_free(s, a) || ptr <= a < ptr
                + size_align_spec(layout).0),
{
    lemma_size_align(layout);
    let t = dealloc_spec(s, ptr, layout);
    assert forall|j: int| 0 <= j < s.len() implies #[trigger] t[j] == s[j] by {}
    assert forall|a: int|
        is_free(t, a) <==> (is_free(s, a) || ptr <= a < ptr + size_align_spec(layout).0) by {
        if is_free(s, a) {
            let j = choose|j: int| 0 <= j < s.len() && (#[trigger] s[j]).contains(a);
            assert(t[j].contains(a));
        }
        if ptr <= a < ptr + size_align_spec(layout).0 {
            assert(t[s.len() as int].contains(a));
        }
        if is_free(t, a) {
            let j = choose|j: int| 0 <= j < t.len() && (#[trigger] t[j]).contains(a);
            if j < s.len() {
                assert(s[j].contains(a));
            }
        }
    }
}

/// The addresses handed out by allocating for each layout in turn, with no
/// block given back in between.
pub open spec fn alloc_all(s: Seq<ListNode>, layouts: Seq<Layout>) -> Seq<Option<u64>>
    decreases layouts.len(),
{
    if layouts.len() == 0 {
        Seq::empty()
    } else {
        let (t, r) = alloc_spec(s, layouts[0]);
        seq![r].add(alloc_all(t, layouts.drop_first()))
    }
}

/// Every block handed out by `alloc_all` was free at the start.
proof fn lemma_alloc_all_from_free(s: Seq<ListNode>, layouts: Seq<Layout>)
    requires
        regions_wf(s),
        forall|k: int| 0 <= k < layouts.len() ==> (#[trigger] layouts[k]).wf(),
    ensures
        alloc_all(s, layouts).len() == layouts.len(),
        forall|k: int, a: int|
            #![trigger alloc_all(s, layouts)[k], is_free(s, a)]
            0 <= k < layouts.len() && alloc_all(s, layouts)[k] is Some && alloc_all(
                s,
                layouts,
            )[k]->0 <= a < alloc_all(s, layouts)[k]->0 + layouts[k].size ==> is_free(s, a),
    decreases layouts.len(),
{
    if layouts.len() > 0 {
        let (t, r) = alloc_spec(s, layouts[0]);
        let rest = layouts.drop_first();
        lemma_alloc_carves(s, layouts[0]);
        lemma_size_align(layouts[0]);
        assert forall|k: int| 0 <= k < rest.len() implies (#[trigger] rest[k]).wf() by {
            assert(rest[k] == layouts[k + 1]);
        }
        lemma_alloc_all_from_free(t, rest);
        let all = alloc_all(s, layouts);
        assert forall|k: int, a: int|
            #![trigger all[k], is_free(s, a)]
            0 <= k < layouts.len() && all[k] is Some && all[k]->0 <= a < all[k]->0
                + layouts[k].size implies is_free(s, a) by {
            if k > 0 {
                assert(all[k] == alloc_all(t, rest)[k - 1]);
                assert(layouts[k] == rest[k - 1]);
            }
        }
    }
}

/// Blocks handed out one after another, with none given back in between,
/// never share a byte.
pub proof fn lemma_no_overlap(s: Seq<ListNode>, layouts: Seq<Layout>, i: int, j: int)
    requires
        regions_wf(s),
        forall|k: int| 0 <= k < layouts.len() ==> (#[trigger] layouts[k]).wf(),
        0 <= i < j < layouts.len(),
        alloc_all(s, layouts)[i] is Some,
        alloc_all(s, layouts)[j] is Some,
    ensures
        ({
            let p = alloc_all(s, layouts)[i]->0;
            let q = alloc_all(s, layouts)[j]->0;
            ranges_disjoint(p as int, layouts[i].size as int, q as int, layouts[j].size as int)
        }),
    decreases layouts.len(),
{
    let (t, r) = alloc_spec(s, layouts[0]);
    let rest = layouts.drop_first();
    lemma_alloc_carves(s, layouts[0]);
    lemma_size_align(layouts[0]);
    assert forall|k: int| 0 <= k < rest.len() implies (#[trigger] rest[k]).wf() by {
        assert(rest[k] == layouts[k + 1]);
    }
    lemma_alloc_all_from_free(t, rest);
    let all = alloc_all(s, layouts);
    assert(all =~= seq![r].add(alloc_all(t, rest)));
    assert(all[j] == alloc_all(t, rest)[j - 1]);
    assert(layouts[j] == rest[j - 1]);
    if i == 0 {
        let p = all[0]->0;
        let q = all[j]->0;
        if !ranges_disjoint(p as int, layouts[0].size as int, q as int, layouts[j].size as int) {
            let a = if p >= q { p as int } else { q as int };
            assert(alloc_all(t, rest)[j - 1] is Some);
            assert(is_free(t, a));
            assert(!is_free(t, a));
        }
    } else {
        assert(all[i] == alloc_all(t, rest)[i - 1]);
        assert(layouts[i] == rest[i - 1]);
        lemma_no_overlap(t, rest, i - 1, j - 1);
    }
}

/// Freeing a block right after allocating it, then asking again for the
/// same layout, hands out the same address and leaves the free list as the
/// first allocation left it: the cycle can repeat without end.
pub proof fn lemma_round_trip(s: Seq<ListNode>, layout: Layout)
    requires
        regions_wf(s),
        layout.wf(),
        alloc_spec(s, layout).1 is Some,
    ensures
        ({
            let (t, r) = alloc_spec(s, layout);
            let p = r->0;
            &&& can_free(t, p, layout)
            &&& alloc_spec(dealloc_spec(t, p, layout), layout) == (t, Some(p))
        }),
{
    let (t, r) = alloc_spec(s, layout);
    let p = r->0;
    let (size, align) = size_align_spec(layout);
    lemma_alloc_carves(s, layout);
    lemma_size_align(layout);
    lemma_outside_free_from_points(t, p as int, size);
    let u = dealloc_spec(t, p, layout);
    lemma_align_up(p as int, align);
    lemma_mod_transitive(p as int, NODE_ALIGN as int, align);
    assert(can_free(t, p, layout));
    assert(u.last() == ListNode { start: p, size: size as u64 });
    assert(align_up_spec(p as int, align) == p);
    assert(fits(u.last(), size, align));
    assert(first_fit(u, size, align) == Some(u.len() - 1));
    assert(u.remove(u.len() - 1) =~= t);
}

/// The free list after `k` rounds of allocating for `layout` and giving the
/// block back at once; `None` if one of the allocations failed.
pub open spec fn cycles(s: Seq<ListNode>, layout: Layout, k: nat) -> Option<Seq<ListNode>>
    decreases k,
{
    if k == 0 {
        Some(s)
    } else {
        let (t, r) = alloc_spec(s, layout);
        match r {
            None => None,
            Some(p) => cycles(dealloc_spec(t, p, layout), layout, (k - 1) as nat),
        }
    }
}

/// A state that one round of allocating and freeing leaves as it was stays
/// so for any number of rounds.
proof fn lemma_cycles_fixed_point(u: Seq<ListNode>, layout: Layout, k: nat)
    requires
        alloc_spec(u, layout).1 is Some,
        dealloc_spec(alloc_spec(u, layout).0, alloc_spec(u, layout).1->0, layout) == u,
    ensures
        cycles(u, layout, k) == Some(u),
    decreases k,
{
    if k > 0 {
        lemma_cycles_fixed_point(u, layout, (k - 1) as nat);
    }
}

/// Once an allocation for `layout` succeeds, any number of rounds of
/// allocating for it and freeing the block at once all succeed, whatever
/// else stays allocated meanwhile.
pub proof fn lemma_sustained_reuse(s: Seq<ListNode>, layout: Layout, k: nat)
    requires
        regions_wf(s),
        layout.wf(),
        alloc_spec(s, layout).1 is Some,
    ensures
        cycles(s, layout, k) is Some,
{
    if k > 0 {
        let (t, r) = alloc_spec(s, layout);
        let p = r->0;
        let u = dealloc_spec(t, p, layout);
        lemma_round_trip(s, layout);
        lemma_cycles_fixed_point(u, layout, (k - 1) as nat);
    }
}

/// On a heap that is one free region, a request larger than the heap fails,
/// and a request for exactly the whole heap gets all of it.
pub proof fn lemma_oom_boundary(heap_start: u64, heap_size: u64, layout: Layout)
    requires
        heap_start % NODE_ALIGN == 0,
        heap_size >= NODE_SIZE,
        heap_start + heap_size <= u64::MAX,
        layout.wf(),
    ensures
        ({
            let s = seq![ListNode { start: heap_start, size: heap_size }];
            &&& layout.size > heap_size ==> alloc_spec(s, layout).1 is None
            &&& layout.size == heap_size && layout.align <= NODE_ALIGN && heap_size % NODE_ALIGN == 0
                ==> alloc_spec(s, layout) == (Seq::<ListNode>::empty(), Some(heap_start))
        }),
{
    let s = seq![ListNode { start: heap_start, size: heap_size }];
    let (size, align) = size_align_spec(layout);
    lemma_size_align(layout);
    lemma_align_up(heap_start as int, align);
    lemma_align_up(layout.size as int, align);
    assert(s.drop_last().len() == 0);
    assert(first_fit(s.drop_last(), size, align) is None);
    if layout.size > heap_size {
        assert(!fits(s.last(), size, align));
        assert(first_fit(s, size, align) is None);
    }
    if layout.size == heap_size && layout.align <= NODE_ALIGN && heap_size % NODE_ALIGN == 0 {
        assert(align == NODE_ALIGN);
        assert(size == heap_size);
        assert(align_up_spec(heap_start as int, align) == heap_start);
        assert(fits(s.last(), size, align));
        assert(first_fit(s, size, align) == Some(0int));
        assert(s.remove(0) =~= Seq::<ListNode>::empty());
    }
}

/// An allocator that keeps the free regions of the heap in a list and hands
/// out the first region that fits.
pub struct LinkedListAllocator {
    regions: Vec<ListNode>,
}

impl LinkedListAllocator {
    /// The free regions, from the back of the list to its front.
    pub closed spec fn view(&self) -> Seq<ListNode> {
        self.regions@
    }

    pub open spec fn wf(&self) -> bool {
        regions_wf(self@)
    }

    /// An allocator with no free memory.
    pub fn new() -> (r: LinkedListAllocator)
        ensures
            r@ == Seq::<ListNode>::empty(),
            r.wf(),
    {
        LinkedListAllocator { regions: Vec::new() }
    }

    /// Hands the region `[heap_start, heap_start + heap_size)` to the
    /// allocator as one free region.
    pub fn init(&mut self, heap_start: u64, heap_size: u64)
        requires
            old(self).wf(),
            heap_start % NODE_ALIGN == 0,
            heap_size >= NODE_SIZE,
            heap_start + heap_size <= u64::MAX,
            outside_free(old(self)@, heap_start as int, heap_size as int),
        ensures
            final(self).wf(),
            final(self)@ == old(self)@.push(ListNode { start: heap_start, size: heap_size }),
    {
        self.add_free_region(heap_start, heap_size);
    }

    /// Pushes a free region to the front of the list.
    fn add_free_region(&mut self, addr: u64, size: u64)
        requires
            old(self).wf(),
            addr % NODE_ALIGN == 0,
            size >= NODE_SIZE,
            addr + size <= u64::MAX,
            outside_free(old(self)@, addr as int, size as int),
        ensures
            final(self).wf(),
            final(self)@ == old(self)@.push(ListNode { start: addr, size }),
    {
        let ghost s = self@;
        self.regions.push(ListNode::new(addr, size));
        assert forall|j: int| 0 <= j < s.len() implies #[trigger] self@[j] == s[j] by {}
    }

    /// Removes the first region that fits a block of `size` bytes aligned to
    /// `align`, and returns it with the block's start.
    fn find_region(&mut self, size: u64, align: u64) -> (r: Option<(ListNode, u64)>)
        requires
            old(self).wf(),
            align > 0,
        ensures
            match first_fit(old(self)@, size as int, align as int) {
                None => r is None && final(self)@ == old(self)@,
                Some(i) => r == Some(
                    (old(self)@[i], align_up_spec(old(self)@[i].start as int, align as int) as u64),
                ) && final(self)@ == old(self)@.remove(i),
            },
    {
        let ghost s = self@;
        let mut k: usize = self.regions.len();
        while k > 0
            invariant
                s == self@,
                s == old(self)@,
                regions_wf(s),
                align > 0,
                k <= s.len(),
                forall|j: int| k <= j < s.len() ==> !fits(#[trigger] s[j], size as int, align as int),
            decreases k,
        {
            match Self::alloc_from_region(&self.regions[k - 1], size, align) {
                Ok(alloc_start) => {
                    proof {
                        lemma_first_fit_prefix(s, size as int, align as int, k as int);
                        assert(s.subrange(0, k as int).last() == s[k - 1]);
                    }
                    let region = self.regions.remove(k - 1);
                    return Some((region, alloc_start));
                },
                Err(()) => {
                    k = k - 1;
                },
            }
        }
        proof {
            lemma_first_fit_prefix(s, size as int, align as int, 0);
        }
        None
    }

    /// The start of a block of `size` bytes aligned to `align` cut from the
    /// region, where it fits.
    fn alloc_from_region(region: &ListNode, size: u64, align: u64) -> (r: Result<u64, ()>)
        requires
            region.wf(),
            align > 0,
        ensures
            r is Ok <==> fits(*region, size as int, align as int),
            r matches Ok(v) ==> v == align_up_spec(region.start as int, align as int),
    {
        let alloc_start = match align_up(region.start_addr(), align) {
            Some(a) => a,
            None => return Err(()),
        };
        let alloc_end = match alloc_start.checked_add(size) {
            Some(e) => e,
            None => return Err(()),
        };
        if alloc_end > region.end_addr() {
            return Err(());
        }
        let excess_size = region.end_addr() - alloc_end;
        if excess_size > 0 && excess_size < NODE_SIZE {
            return Err(());
        }
        Ok(alloc_start)
    }

    /// The size and alignment reserved for a request.
    pub fn size_align(layout: Layout) -> (r: (u64, u64))
        requires
            layout.wf(),
        ensures
            r.0 == size_align_spec(layout).0,
            r.1 == size_align_spec(layout).1,
    {
        proof {
            lemma_size_align(layout);
        }
        let align = if layout.align > NODE_ALIGN { layout.align } else { NODE_ALIGN };
        let rem = layout.size % align;
        let padded = if rem == 0 { layout.size } else { layout.size + (align - rem) };
        let size = if padded > NODE_SIZE { padded } else { NODE_SIZE };
        (size, align)
    }

    /// Allocates a block for `layout`; `None` when no free region fits.
    pub fn allocate(&mut self, layout: Layout) -> (r: Option<u64>)
        requires
            old(self).wf(),
            layout.wf(),
        ensures
            final(self).wf(),
            (final(self)@, r) == alloc_spec(old(self)@, layout),
            r matches Some(p) ==> {
                &&& p % layout.align == 0
                &&& p + layout.size <= u64::MAX
                &&& forall|a: int|
                    p <= a < p + layout.size ==> is_free(old(self)@, a) && !is_free(final(self)@, a)
            },
            forall|a: int| is_free(final(self)@, a) ==> is_free(old(self)@, a),
    {
        proof {
            lemma_alloc_carves(self@, layout);
            lemma_size_align(layout);
        }
        let ghost s = self@;
        let (size, align) = Self::size_align(layout);
        match self.find_region(size, align) {
            Some((region, alloc_start)) => {
                proof {
                    lemma_first_fit_fits(s, size as int, align as int);
                    lemma_align_up(region.start as int, align as int);
                }
                let alloc_end = alloc_start + size;
                let excess_size = region.end_addr() - alloc_end;
                if excess_size > 0 {
                    self.regions.push(ListNode::new(alloc_end, excess_size));
                }
                Some(alloc_start)
            },
            None => None,
        }
    }

    /// Gives back the block at `ptr` that was allocated for `layout`: it
    /// becomes a free region at the front of the list.
    pub fn deallocate(&mut self, ptr: u64, layout: Layout)
        requires
            old(self).wf(),
            can_free(old(self)@, ptr, layout),
        ensures
            final(self).wf(),
            final(self)@ == dealloc_spec(old(self)@, ptr, layout),
            forall|a: int|
                is_free(final(self)@, a) <==> (is_free(old(self)@, a) || ptr <= a < ptr
                    + size_align_spec(layout).0),
    {
        proof {
            lemma_dealloc_frees(self@, ptr, layout);
            lemma_size_align(layout);
        }
        let ghost s = self@;
        let (size, _) = Self::size_align(layout);
        self.add_free_region(ptr, size);
        assert(self@ == dealloc_spec(s, ptr, layout));
        assert forall|a: int|
            is_free(self@, a) <==> (is_free(s, a) || ptr <= a < ptr + size_align_spec(layout).0) by {
            assert(is_free(dealloc_spec(s, ptr, layout), a) == is_free(self@, a));
        }
    }
}

} // verus!
