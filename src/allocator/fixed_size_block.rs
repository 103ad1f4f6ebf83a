//! Fixed-size-block allocator: one free list per size class (powers of two
//! from 8 to 2048 bytes), with a linked-list allocator behind them for the
//! requests that no class covers and for refilling an empty class.
use vstd::prelude::*;
use crate::align::{is_pow2, lemma_mod_transitive, lemma_pow2_divides};
use crate::allocator::{ranges_disjoint, Layout};
use crate::allocator::linked_list::{
    alloc_spec, can_free, dealloc_spec, is_free, lemma_alloc_carves, lemma_dealloc_frees,
    lemma_oom_boundary, lemma_outside_free_from_points, lemma_round_trip, lemma_size_align, regions_wf,
    size_align_spec, LinkedListAllocator, ListNode,
};

verus! {

/// Number of size classes.
pub const NUM_CLASSES: usize = 9;

/// Size (and alignment) of the blocks of class `i`: 8, 16, ..., 2048.
pub open spec fn block_size(i: int) -> int
    decreases i,
{
    if i <= 0 {
        8
    } else {
        2 * block_size(i - 1)
    }
}

/// The bytes a request needs from a block: its size or its alignment,
/// whichever is larger.
pub open spec fn required_size(layout: Layout) -> int {
    if layout.size > layout.align { layout.size as int } else { layout.align as int }
}

/// The first class, from `i` on, whose blocks are large enough.
pub open spec fn class_from(req: int, i: int) -> Option<int>
    decreases NUM_CLASSES - i,
{
    if i >= NUM_CLASSES {
        None
    } else if block_size(i) >= req {
        Some(i)
    } else {
        class_from(req, i + 1)
    }
}

/// The smallest class whose blocks hold the request; `None` when the request
/// is larger than every class.
pub open spec fn list_index_spec(layout: Layout) -> Option<int> {
    class_from(required_size(layout), 0)
}

/// The largest class holds 2048 bytes.
proof fn lemma_largest_class()
    ensures
        block_size(NUM_CLASSES - 1) == 2048,
{
    assert(block_size(0) == 8);
    assert(block_size(1) == 16);
    assert(block_size(2) == 32);
    assert(block_size(3) == 64);
    assert(block_size(4) == 128);
    assert(block_size(5) == 256);
    assert(block_size(6) == 512);
    assert(block_size(7) == 1024);
    assert(block_size(8) == 2048);
}

proof fn lemma_block_size(i: int)
    requires
        0 <= i,
    ensures
        is_pow2(block_size(i)),
        block_size(i) >= 8,
        i < NUM_CLASSES ==> block_size(i) <= 2048,
    decreases i,
{
    lemma_largest_class();
    if i < NUM_CLASSES {
        lemma_block_size_monotonic(i, NUM_CLASSES - 1);
    }
    if i == 0 {
        assert(is_pow2(1));
        assert(is_pow2(2));
        assert(is_pow2(4));
        assert(is_pow2(8));
    } else {
        lemma_block_size(i - 1);
        assert(block_size(i) / 2 == block_size(i - 1));
    }
}

proof fn lemma_block_size_monotonic(i: int, j: int)
    requires
        0 <= i <= j,
    ensures
        block_size(i) <= block_size(j),
    decreases j,
{
    if i < j {
        lemma_block_size_monotonic(i, j - 1);
        lemma_block_size_positive(j - 1);
    }
}

proof fn lemma_block_size_positive(i: int)
    ensures
        block_size(i) > 0,
    decreases i,
{
    if i > 0 {
        lemma_block_size_positive(i - 1);
    }
}

proof fn lemma_class_from(req: int, i: int)
    requires
        0 <= i,
    ensures
        class_from(req, i) matches Some(c) ==> i <= c < NUM_CLASSES && block_size(c) >= req,
        class_from(req, i) is None ==> forall|j: int| i <= j < NUM_CLASSES ==> block_size(j) < req,
    decreases NUM_CLASSES - i,
{
    if i < NUM_CLASSES && block_size(i) < req {
        lemma_class_from(req, i + 1);
    }
}

/// The class chosen for a request is a power of two at least as large as
/// both its size and its alignment, hence a multiple of that alignment.
pub proof fn lemma_list_index(layout: Layout)
    requires
        layout.wf(),
    ensures
        list_index_spec(layout) matches Some(i) ==> {
            &&& 0 <= i < NUM_CLASSES
            &&& block_size(i) >= layout.size
            &&& block_size(i) >= layout.align
            &&& block_size(i) % layout.align as int == 0
            &&& (Layout { size: block_size(i) as u64, align: block_size(i) as u64 }).wf()
        },
        list_index_spec(layout) is None ==> required_size(layout) > 2048,
{
    lemma_class_from(required_size(layout), 0);
    if let Some(i) = list_index_spec(layout) {
        lemma_block_size(i);
        lemma_pow2_divides(layout.align as int, block_size(i));
    } else {
        lemma_largest_class();
        assert(block_size(NUM_CLASSES - 1) < required_size(layout));
    }
}

/// The state of a fixed-size-block allocator: the free blocks of each class
/// (the last one is the head of its list) and the fallback's free regions.
pub struct FsbView {
    pub lists: Seq<Seq<u64>>,
    pub fallback: Seq<ListNode>,
}

/// Address `a` lies in block `k` of class `i`.
pub open spec fn in_block(v: FsbView, i: int, k: int, a: int) -> bool {
    &&& 0 <= i < v.lists.len()
    &&& 0 <= k < v.lists[i].len()
    &&& v.lists[i][k] <= a < v.lists[i][k] + block_size(i)
}

/// Address `a` is free: in a block of some class or in a fallback region.
pub open spec fn fsb_is_free(v: FsbView, a: int) -> bool {
    is_free(v.fallback, a) || exists|i: int, k: int| in_block(v, i, k, a)
}

impl FsbView {
    /// One list per class; blocks aligned to their size and inside memory;
    /// no two free blocks, nor a block and a fallback region, overlap.
    pub open spec fn wf(&self) -> bool {
        &&& self.lists.len() == NUM_CLASSES
        &&& regions_wf(self.fallback)
        &&& forall|i: int, k: int|
            0 <= i < NUM_CLASSES && 0 <= k < self.lists[i].len() ==> {
                &&& (#[trigger] self.lists[i][k]) as int % block_size(i) == 0
                &&& self.lists[i][k] + block_size(i) <= u64::MAX
            }
        &&& forall|i1: int, k1: int, i2: int, k2: int, a: int|
            #![trigger in_block(*self, i1, k1, a), in_block(*self, i2, k2, a)]
            in_block(*self, i1, k1, a) && in_block(*self, i2, k2, a) ==> i1 == i2 && k1 == k2
        &&& forall|i: int, k: int, a: int|
            #![trigger in_block(*self, i, k, a), is_free(self.fallback, a)]
            in_block(*self, i, k, a) ==> !is_free(self.fallback, a)
    }
}

/// The state after an allocation for `layout`, and the address handed out.
pub open spec fn fsb_alloc_spec(v: FsbView, layout: Layout) -> (FsbView, Option<u64>) {
    match list_index_spec(layout) {
        Some(i) => if v.lists[i].len() > 0 {
            (FsbView { lists: v.lists.update(i, v.lists[i].drop_last()), ..v }, Some(v.lists[i].last()))
        } else {
            let bs = block_size(i) as u64;
            let (f, r) = alloc_spec(v.fallback, Layout { size: bs, align: bs });
            (FsbView { fallback: f, ..v }, r)
        },
        None => {
            let (f, r) = alloc_spec(v.fallback, layout);
            (FsbView { fallback: f, ..v }, r)
        },
    }
}

/// The state after the block at `ptr`, allocated for `layout`, is given back.
pub open spec fn fsb_dealloc_spec(v: FsbView, ptr: u64, layout: Layout) -> FsbView {
    match list_index_spec(layout) {
        Some(i) => FsbView { lists: v.lists.update(i, v.lists[i].push(ptr)), ..v },
        None => FsbView { fallback: dealloc_spec(v.fallback, ptr, layout), ..v },
    }
}

/// The bytes that the allocator holds for a block of `layout`.
pub open spec fn extent(layout: Layout) -> int {
    match list_index_spec(layout) {
        Some(i) => block_size(i),
        None => size_align_spec(layout).0,
    }
}

/// A block that may be given back: aligned as its class (or a fallback
/// region) requires, inside memory, and none of its bytes free.
pub open spec fn fsb_can_free(v: FsbView, ptr: u64, layout: Layout) -> bool {
    &&& layout.wf()
    &&& ptr + extent(layout) <= u64::MAX
    &&& match list_index_spec(layout) {
        Some(i) => ptr as int % block_size(i) == 0,
        None => ptr % 8 == 0,
    }
    &&& forall|a: int| ptr <= a < ptr + extent(layout) ==> !fsb_is_free(v, a)
}

/// The addresses handed out by allocating for each layout in turn, with no
/// block given back in between.
pub open spec fn fsb_alloc_all(v: FsbView, layouts: Seq<Layout>) -> Seq<Option<u64>>
    decreases layouts.len(),
{
    if layouts.len() == 0 {
        Seq::empty()
    } else {
        let (w, r) = fsb_alloc_spec(v, layouts[0]);
        seq![r].add(fsb_alloc_all(w, layouts.drop_first()))
    }
}

/// What an allocation does to the free memory: the block handed out was
/// free, is aligned as asked, and no byte of its extent stays free; nothing
/// becomes free.
pub proof fn lemma_fsb_alloc_carves(v: FsbView, layout: Layout)
    requires
        v.wf(),
        layout.wf(),
    ensures
        fsb_alloc_spec(v, layout).0.wf(),
        forall|a: int| fsb_is_free(fsb_alloc_spec(v, layout).0, a) ==> fsb_is_free(v, a),
        fsb_alloc_spec(v, layout).1 matches Some(p) ==> {
            &&& p % layout.align == 0
            &&& p + extent(layout) <= u64::MAX
            &&& extent(layout) >= layout.size
            &&& match list_index_spec(layout) {
                Some(i) => p as int % block_size(i) == 0,
                None => p % 8 == 0,
            }
            &&& forall|a: int|
                #![trigger fsb_is_free(fsb_alloc_spec(v, layout).0, a)]
                p <= a < p + extent(layout) ==> fsb_is_free(v, a) && !fsb_is_free(
                    fsb_alloc_spec(v, layout).0,
                    a,
                )
        },
{
    let (t, r) = fsb_alloc_spec(v, layout);
    lemma_list_index(layout);
    lemma_size_align(layout);
    match list_index_spec(layout) {
        Some(i) => {
            lemma_block_size(i);
            if v.lists[i].len() > 0 {
                let last = v.lists[i].len() - 1;
                let p = v.lists[i].last();
                assert(v.lists[i][last] == p);
                assert forall|i2: int, k2: int, a: int| in_block(t, i2, k2, a) implies in_block(
                    v,
                    i2,
                    k2,
                    a,
                ) && !(i2 == i && k2 == last) by {}
                assert forall|a: int| fsb_is_free(t, a) implies fsb_is_free(v, a) by {
                    if !is_free(t.fallback, a) {
                        let (i2, k2) = choose|i2: int, k2: int| in_block(t, i2, k2, a);
                        assert(in_block(v, i2, k2, a));
                    }
                }
                assert forall|a: int| p <= a < p + block_size(i) implies fsb_is_free(v, a)
                    && !fsb_is_free(t, a) by {
                    assert(in_block(v, i, last, a));
                    if fsb_is_free(t, a) {
                        if !is_free(t.fallback, a) {
                            let (i2, k2) = choose|i2: int, k2: int| in_block(t, i2, k2, a);
                            assert(in_block(v, i2, k2, a));
                        }
                    }
                }
                lemma_pow2_divides(layout.align as int, block_size(i));
                lemma_mod_transitive(p as int, layout.align as int, block_size(i));
                assert(t.wf()) by {
                    assert forall|i2: int, k2: int|
                        0 <= i2 < NUM_CLASSES && 0 <= k2 < t.lists[i2].len() implies {
                        &&& (#[trigger] t.lists[i2][k2]) as int % block_size(i2) == 0
                        &&& t.lists[i2][k2] + block_size(i2) <= u64::MAX
                    } by {
                        assert(t.lists[i2][k2] == v.lists[i2][k2]);
                    }
                }
            } else {
                let bs = block_size(i) as u64;
                let l2 = Layout { size: bs, align: bs };
                fallback_case(v, layout, l2);
                lemma_size_align(l2);
            }
        },
        None => {
            fallback_case(v, layout, layout);
        },
    }
}

/// The part of `lemma_fsb_alloc_carves` where the fallback serves the
/// request, as `inner`.
proof fn fallback_case(v: FsbView, layout: Layout, inner: Layout)
    requires
        v.wf(),
        layout.wf(),
        inner.wf(),
        inner.align % layout.align == 0,
    ensures
        ({
            let (f, r) = alloc_spec(v.fallback, inner);
            let t = FsbView { fallback: f, ..v };
            &&& t.wf()
            &&& forall|a: int| fsb_is_free(t, a) ==> fsb_is_free(v, a)
            &&& r matches Some(p) ==> {
                &&& p % layout.align == 0
                &&& p % inner.align == 0
                &&& p % 8 == 0
                &&& p + size_align_spec(inner).0 <= u64::MAX
                &&& forall|a: int|
                    p <= a < p + size_align_spec(inner).0 ==> fsb_is_free(v, a) && !fsb_is_free(t, a)
            }
        }),
{
    let (f, r) = alloc_spec(v.fallback, inner);
    let t = FsbView { fallback: f, ..v };
    lemma_alloc_carves(v.fallback, inner);
    assert forall|i: int, k: int, a: int| in_block(t, i, k, a) implies !is_free(t.fallback, a) by {
        assert(in_block(v, i, k, a));
        if is_free(t.fallback, a) {
            assert(is_free(v.fallback, a));
        }
    }
    assert forall|i1: int, k1: int, i2: int, k2: int, a: int|
        in_block(t, i1, k1, a) && in_block(t, i2, k2, a) implies i1 == i2 && k1 == k2 by {
        assert(in_block(v, i1, k1, a) && in_block(v, i2, k2, a));
    }
    assert forall|a: int| fsb_is_free(t, a) implies fsb_is_free(v, a) by {
        if !is_free(t.fallback, a) {
            let (i2, k2) = choose|i2: int, k2: int| in_block(t, i2, k2, a);
            assert(in_block(v, i2, k2, a));
        }
    }
    if let Some(p) = r {
        lemma_size_align(inner);
        lemma_mod_transitive(p as int, 8, size_align_spec(inner).1);
        lemma_mod_transitive(p as int, layout.align as int, inner.align as int);
        assert forall|a: int| p <= a < p + size_align_spec(inner).0 implies fsb_is_free(v, a)
            && !fsb_is_free(t, a) by {
            assert(is_free(v.fallback, a));
            assert(!is_free(t.fallback, a));
            if exists|i2: int, k2: int| in_block(t, i2, k2, a) {
                let (i2, k2) = choose|i2: int, k2: int| in_block(t, i2, k2, a);
                assert(in_block(v, i2, k2, a));
            }
        }
    }
}

/// Giving back a block that may be freed keeps the state well formed and
/// adds exactly the block's extent to the free memory.
pub proof fn lemma_fsb_dealloc_frees(v: FsbView, ptr: u64, layout: Layout)
    requires
        v.wf(),
        fsb_can_free(v, ptr, layout),
    ensures
        fsb_dealloc_spec(v, ptr, layout).wf(),
        forall|a: int|
            #![trigger fsb_is_free(fsb_dealloc_spec(v, ptr, layout), a)]
            fsb_is_free(fsb_dealloc_spec(v, ptr, layout), a) <==> (fsb_is_free(v, a) || ptr <= a
                < ptr + extent(layout)),
{
    let t = fsb_dealloc_spec(v, ptr, layout);
    lemma_list_index(layout);
    lemma_size_align(layout);
    match list_index_spec(layout) {
        Some(i) => {
            let n = v.lists[i].len() as int;
            assert(t.lists[i][n] == ptr);
            assert forall|i2: int, k2: int, a: int| in_block(t, i2, k2, a) implies (i2 == i && k2
                == n && ptr <= a < ptr + block_size(i)) || in_block(v, i2, k2, a) by {
                if !(i2 == i && k2 == n) {
                    assert(t.lists[i2][k2] == v.lists[i2][k2]);
                }
            }
            assert forall|i2: int, k2: int, a: int| in_block(v, i2, k2, a) implies in_block(
                t,
                i2,
                k2,
                a,
            ) by {
                assert(t.lists[i2][k2] == v.lists[i2][k2]);
            }
            assert forall|i1: int, k1: int, i2: int, k2: int, a: int|
                in_block(t, i1, k1, a) && in_block(t, i2, k2, a) implies i1 == i2 && k1 == k2 by {
                if (i1 == i && k1 == n) != (i2 == i && k2 == n) {
                    if i1 == i && k1 == n {
                        assert(in_block(v, i2, k2, a));
                    } else {
                        assert(in_block(v, i1, k1, a));
                    }
                    assert(fsb_is_free(v, a));
                } else if !(i1 == i && k1 == n) {
                    assert(in_block(v, i1, k1, a) && in_block(v, i2, k2, a));
                }
            }
            assert forall|i2: int, k2: int, a: int| in_block(t, i2, k2, a) implies !is_free(
                t.fallback,
                a,
            ) by {
                if i2 == i && k2 == n {
                    if is_free(v.fallback, a) {
                        assert(fsb_is_free(v, a));
                    }
                } else {
                    assert(in_block(v, i2, k2, a));
                }
            }
            assert forall|i2: int, k2: int|
                0 <= i2 < NUM_CLASSES && 0 <= k2 < t.lists[i2].len() implies {
                &&& (#[trigger] t.lists[i2][k2]) as int % block_size(i2) == 0
                &&& t.lists[i2][k2] + block_size(i2) <= u64::MAX
            } by {
                if !(i2 == i && k2 == n) {
                    assert(t.lists[i2][k2] == v.lists[i2][k2]);
                }
            }
            assert forall|a: int|
                fsb_is_free(t, a) <==> (fsb_is_free(v, a) || ptr <= a < ptr + extent(layout)) by {
                if fsb_is_free(v, a) && !is_free(v.fallback, a) {
                    let (i2, k2) = choose|i2: int, k2: int| in_block(v, i2, k2, a);
                    assert(in_block(t, i2, k2, a));
                }
                if ptr <= a < ptr + extent(layout) {
                    assert(in_block(t, i, n, a));
                }
                if fsb_is_free(t, a) && !is_free(t.fallback, a) {
                    let (i2, k2) = choose|i2: int, k2: int| in_block(t, i2, k2, a);
                    if !(i2 == i && k2 == n) {
                        assert(in_block(v, i2, k2, a));
                    }
                }
            }
        },
        None => {
            let size = size_align_spec(layout).0;
            assert forall|a: int| ptr <= a < ptr + size implies !is_free(v.fallback, a) by {
                assert(!fsb_is_free(v, a));
            }
            lemma_outside_free_from_points(v.fallback, ptr as int, size);
            assert(can_free(v.fallback, ptr, layout));
            lemma_dealloc_frees(v.fallback, ptr, layout);
            assert forall|i2: int, k2: int, a: int| in_block(t, i2, k2, a) implies !is_free(
                t.fallback,
                a,
            ) by {
                assert(in_block(v, i2, k2, a));
                if is_free(t.fallback, a) {
                    if !is_free(v.fallback, a) {
                        assert(fsb_is_free(v, a));
                    }
                }
            }
            assert forall|i1: int, k1: int, i2: int, k2: int, a: int|
                in_block(t, i1, k1, a) && in_block(t, i2, k2, a) implies i1 == i2 && k1 == k2 by {
                assert(in_block(v, i1, k1, a) && in_block(v, i2, k2, a));
            }
            assert forall|a: int|
                fsb_is_free(t, a) <==> (fsb_is_free(v, a) || ptr <= a < ptr + extent(layout)) by {
                assert(is_free(t.fallback, a) <==> (is_free(v.fallback, a) || ptr <= a < ptr
                    + size));
                if exists|i2: int, k2: int| in_block(v, i2, k2, a) {
                    let (i2, k2) = choose|i2: int, k2: int| in_block(v, i2, k2, a);
                    assert(in_block(t, i2, k2, a));
                }
                if exists|i2: int, k2: int| in_block(t, i2, k2, a) {
                    let (i2, k2) = choose|i2: int, k2: int| in_block(t, i2, k2, a);
                    assert(in_block(v, i2, k2, a));
                }
            }
        },
    }
}

/// Freeing a block right after allocating it, then asking again for the
/// same layout, hands out the same address and leaves the state as the
/// first allocation left it: the cycle can repeat without end.
pub proof fn lemma_fsb_round_trip(v: FsbView, layout: Layout)
    requires
        v.wf(),
        layout.wf(),
        fsb_alloc_spec(v, layout).1 is Some,
    ensures
        ({
            let (t, r) = fsb_alloc_spec(v, layout);
            let p = r->0;
            &&& fsb_can_free(t, p, layout)
            &&& fsb_alloc_spec(fsb_dealloc_spec(t, p, layout), layout) == (t, Some(p))
        }),
{
    let (t, r) = fsb_alloc_spec(v, layout);
    let p = r->0;
    lemma_fsb_alloc_carves(v, layout);
    lemma_list_index(layout);
    assert(fsb_can_free(t, p, layout));
    let u = fsb_dealloc_spec(t, p, layout);
    match list_index_spec(layout) {
        Some(i) => {
            assert(u.lists[i].drop_last() =~= t.lists[i]);
            assert(u.lists.update(i, u.lists[i].drop_last()) =~= t.lists);
        },
        None => {
            lemma_round_trip(v.fallback, layout);
        },
    }
}

/// The state after `k` rounds of allocating for `layout` and giving the
/// block back at once; `None` if one of the allocations failed.
pub open spec fn fsb_cycles(v: FsbView, layout: Layout, k: nat) -> Option<FsbView>
    decreases k,
{
    if k == 0 {
        Some(v)
    } else {
        let (t, r) = fsb_alloc_spec(v, layout);
        match r {
            None => None,
            Some(p) => fsb_cycles(fsb_dealloc_spec(t, p, layout), layout, (k - 1) as nat),
        }
    }
}

/// A state that one round of allocating and freeing leaves as it was stays
/// so for any number of rounds.
proof fn lemma_fsb_cycles_fixed_point(u: FsbView, layout: Layout, k: nat)
    requires
        fsb_alloc_spec(u, layout).1 is Some,
        fsb_dealloc_spec(fsb_alloc_spec(u, layout).0, fsb_alloc_spec(u, layout).1->0, layout) == u,
    ensures
        fsb_cycles(u, layout, k) == Some(u),
    decreases k,
{
    if k > 0 {
        lemma_fsb_cycles_fixed_point(u, layout, (k - 1) as nat);
    }
}

/// Once an allocation for `layout` succeeds, any number of rounds of
/// allocating for it and freeing the block at once all succeed, whatever
/// else stays allocated meanwhile.
pub proof fn lemma_fsb_sustained_reuse(v: FsbView, layout: Layout, k: nat)
    requires
        v.wf(),
        layout.wf(),
        fsb_alloc_spec(v, layout).1 is Some,
    ensures
        fsb_cycles(v, layout, k) is Some,
{
    if k > 0 {
        let (t, r) = fsb_alloc_spec(v, layout);
        let p = r->0;
        let u = fsb_dealloc_spec(t, p, layout);
        lemma_fsb_round_trip(v, layout);
        lemma_fsb_cycles_fixed_point(u, layout, (k - 1) as nat);
    }
}

/// Every block handed out by `fsb_alloc_all` was free at the start.
proof fn lemma_fsb_alloc_all_from_free(v: FsbView, layouts: Seq<Layout>)
    requires
        v.wf(),
        forall|k: int| 0 <= k < layouts.len() ==> (#[trigger] layouts[k]).wf(),
    ensures
        fsb_alloc_all(v, layouts).len() == layouts.len(),
        forall|k: int, a: int|
            #![trigger fsb_alloc_all(v, layouts)[k], fsb_is_free(v, a)]
            0 <= k < layouts.len() && fsb_alloc_all(v, layouts)[k] is Some && fsb_alloc_all(
                v,
                layouts,
            )[k]->0 <= a < fsb_alloc_all(v, layouts)[k]->0 + layouts[k].size ==> fsb_is_free(v, a),
    decreases layouts.len(),
{
    if layouts.len() > 0 {
        let (w, r) = fsb_alloc_spec(v, layouts[0]);
        let rest = layouts.drop_first();
        lemma_fsb_alloc_carves(v, layouts[0]);
        assert forall|k: int| 0 <= k < rest.len() implies (#[trigger] rest[k]).wf() by {
            assert(rest[k] == layouts[k + 1]);
        }
        lemma_fsb_alloc_all_from_free(w, rest);
        let all = fsb_alloc_all(v, layouts);
        assert(all =~= seq![r].add(fsb_alloc_all(w, rest)));
        assert forall|k: int, a: int|
            #![trigger all[k], fsb_is_free(v, a)]
            0 <= k < layouts.len() && all[k] is Some && all[k]->0 <= a < all[k]->0
                + layouts[k].size implies fsb_is_free(v, a) by {
            if k > 0 {
                assert(all[k] == fsb_alloc_all(w, rest)[k - 1]);
                assert(layouts[k] == rest[k - 1]);
                assert(fsb_is_free(w, a));
            } else {
                assert(fsb_is_free(w, a) || !fsb_is_free(w, a));
            }
        }
    }
}

/// Blocks handed out one after another, with none given back in between,
/// never share a byte.
pub proof fn lemma_fsb_no_overlap(v: FsbView, layouts: Seq<Layout>, i: int, j: int)
    requires
        v.wf(),
        forall|k: int| 0 <= k < layouts.len() ==> (#[trigger] layouts[k]).wf(),
        0 <= i < j < layouts.len(),
        fsb_alloc_all(v, layouts)[i] is Some,
        fsb_alloc_all(v, layouts)[j] is Some,
    ensures
        ({
            let p = fsb_alloc_all(v, layouts)[i]->0;
            let q = fsb_alloc_all(v, layouts)[j]->0;
            ranges_disjoint(p as int, layouts[i].size as int, q as int, layouts[j].size as int)
        }),
    decreases layouts.len(),
{
    let (w, r) = fsb_alloc_spec(v, layouts[0]);
    let rest = layouts.drop_first();
    lemma_fsb_alloc_carves(v, layouts[0]);
    assert forall|k: int| 0 <= k < rest.len() implies (#[trigger] rest[k]).wf() by {
        assert(rest[k] == layouts[k + 1]);
    }
    lemma_fsb_alloc_all_from_free(w, rest);
    let all = fsb_alloc_all(v, layouts);
    assert(all =~= seq![r].add(fsb_alloc_all(w, rest)));
    assert(all[j] == fsb_alloc_all(w, rest)[j - 1]);
    assert(layouts[j] == rest[j - 1]);
    if i == 0 {
        let p = all[0]->0;
        let q = all[j]->0;
        if !ranges_disjoint(p as int, layouts[0].size as int, q as int, layouts[j].size as int) {
            let a = if p >= q { p as int } else { q as int };
            assert(fsb_alloc_all(w, rest)[j - 1] is Some);
            assert(fsb_is_free(w, a));
            assert(!fsb_is_free(w, a));
        }
    } else {
        assert(all[i] == fsb_alloc_all(w, rest)[i - 1]);
        assert(layouts[i] == rest[i - 1]);
        lemma_fsb_no_overlap(w, rest, i - 1, j - 1);
    }
}

/// On a heap that is one fallback region with every class list empty, a
/// request larger than the heap fails, and a request for exactly the whole
/// heap, too large for any class, gets all of it.
pub proof fn lemma_fsb_oom_boundary(v: FsbView, heap_start: u64, heap_size: u64, layout: Layout)
    requires
        v.wf(),
        forall|i: int| 0 <= i < NUM_CLASSES ==> (#[trigger] v.lists[i]).len() == 0,
        v.fallback == seq![ListNode { start: heap_start, size: heap_size }],
        heap_start % 8 == 0,
        heap_size >= 16,
        heap_start + heap_size <= u64::MAX,
        layout.wf(),
    ensures
        layout.size > heap_size ==> fsb_alloc_spec(v, layout).1 is None,
        layout.size == heap_size && heap_size > 2048 && layout.align <= 8 && heap_size % 8 == 0
            ==> fsb_alloc_spec(v, layout).1 == Some(heap_start),
{
    lemma_list_index(layout);
    lemma_oom_boundary(heap_start, heap_size, layout);
    if let Some(i) = list_index_spec(layout) {
        lemma_block_size(i);
        let bs = block_size(i) as u64;
        assert(v.lists[i].len() == 0);
        lemma_oom_boundary(heap_start, heap_size, Layout { size: bs, align: bs });
    }
}

/// The block size of class `index`.
pub fn block_size_of(index: usize) -> (r: u64)
    requires
        index < NUM_CLASSES,
    ensures
        r == block_size(index as int),
{
    let mut size: u64 = 8;
    let mut i: usize = 0;
    while i < index
        invariant
            i <= index < NUM_CLASSES,
            size == block_size(i as int),
        decreases index - i,
    {
        proof {
            lemma_block_size((i + 1) as int);
        }
        size = size * 2;
        i = i + 1;
    }
    size
}

/// The smallest size class that holds a request; `None` when the request
/// is larger than every class.
pub fn list_index(layout: &Layout) -> (r: Option<usize>)
    ensures
        match r {
            Some(i) => list_index_spec(*layout) == Some(i as int),
            None => list_index_spec(*layout) is None,
        },
{
    let required_block_size = if layout.size > layout.align { layout.size } else { layout.align };
    let mut i: usize = 0;
    while i < NUM_CLASSES
        invariant
            i <= NUM_CLASSES,
            required_block_size == required_size(*layout),
            class_from(required_block_size as int, 0) == class_from(required_block_size as int, i as int),
        decreases NUM_CLASSES - i,
    {
        if block_size_of(i) >= required_block_size {
            assert(class_from(required_block_size as int, i as int) == Some(i as int));
            return Some(i);
        }
        i = i + 1;
    }
    None
}

/// An allocator that serves each request from the free list of its size
/// class and falls back to a linked-list allocator.
pub struct FixedSizeBlockAllocator {
    list_heads: Vec<Vec<u64>>,
    fallback_allocator: LinkedListAllocator,
}

impl FixedSizeBlockAllocator {
    pub closed spec fn view(&self) -> FsbView {
        FsbView {
            lists: self.list_heads@.map_values(|l: Vec<u64>| l@),
            fallback: self.fallback_allocator@,
        }
    }

    pub open spec fn wf(&self) -> bool {
        self@.wf()
    }

    /// An allocator with empty class lists and no free memory.
    pub fn new() -> (r: FixedSizeBlockAllocator)
        ensures
            r.wf(),
            r@.lists.len() == NUM_CLASSES,
            forall|i: int| 0 <= i < NUM_CLASSES ==> (#[trigger] r@.lists[i]).len() == 0,
            r@.fallback == Seq::<ListNode>::empty(),
    {
        let mut list_heads: Vec<Vec<u64>> = Vec::new();
        let mut i: usize = 0;
        while i < NUM_CLASSES
            invariant
                i <= NUM_CLASSES,
                list_heads@.len() == i,
                forall|j: int| 0 <= j < i ==> (#[trigger] list_heads@[j])@.len() == 0,
            decreases NUM_CLASSES - i,
        {
            list_heads.push(Vec::new());
            i = i + 1;
        }
        let r = FixedSizeBlockAllocator { list_heads, fallback_allocator: LinkedListAllocator::new() };
        assert forall|i: int, k: int, a: int| !in_block(r@, i, k, a) by {}
        r
    }

    /// Hands the region `[heap_start, heap_start + heap_size)` to the
    /// fallback allocator.
    pub fn init(&mut self, heap_start: u64, heap_size: u64)
        requires
            old(self).wf(),
            heap_start % 8 == 0,
            heap_size >= 16,
            heap_start + heap_size <= u64::MAX,
            forall|a: int| heap_start <= a < heap_start + heap_size ==> !fsb_is_free(old(self)@, a),
        ensures
            final(self).wf(),
            final(self)@ == (FsbView {
                fallback: old(self)@.fallback.push(ListNode { start: heap_start, size: heap_size }),
                ..old(self)@
            }),
    {
        let ghost v = self@;
        assert forall|a: int| heap_start <= a < heap_start + heap_size implies !is_free(v.fallback, a) by {
            assert(!fsb_is_free(v, a));
        }
        proof {
            lemma_outside_free_from_points(v.fallback, heap_start as int, heap_size as int);
        }
        self.fallback_allocator.init(heap_start, heap_size);
        let ghost t = self@;
        assert(t.lists == v.lists);
        assert forall|i: int, k: int, a: int| in_block(t, i, k, a) implies !is_free(t.fallback, a) by {
            assert(in_block(v, i, k, a));
            if is_free(t.fallback, a) {
                let j = choose|j: int| 0 <= j < t.fallback.len() && (#[trigger] t.fallback[j]).contains(a);
                if j < v.fallback.len() {
                    assert(t.fallback[j] == v.fallback[j]);
                    assert(is_free(v.fallback, a));
                } else {
                    assert(fsb_is_free(v, a));
                }
            }
        }
        assert forall|i1: int, k1: int, i2: int, k2: int, a: int|
            in_block(t, i1, k1, a) && in_block(t, i2, k2, a) implies i1 == i2 && k1 == k2 by {
            assert(in_block(v, i1, k1, a) && in_block(v, i2, k2, a));
        }
    }

    /// Asks the fallback allocator for a block.
    fn fallback_alloc(&mut self, layout: Layout) -> (r: Option<u64>)
        requires
            old(self).wf(),
            layout.wf(),
        ensures
            (final(self)@.fallback, r) == alloc_spec(old(self)@.fallback, layout),
            final(self)@.lists == old(self)@.lists,
    {
        self.fallback_allocator.allocate(layout)
    }

    /// Allocates a block for `layout`: the head of its class's list, a new
    /// block of the class's size from the fallback when that list is empty,
    /// or a block from the fallback when no class holds the request.
    pub fn allocate(&mut self, layout: Layout) -> (r: Option<u64>)
        requires
            old(self).wf(),
            layout.wf(),
        ensures
            final(self).wf(),
            (final(self)@, r) == fsb_alloc_spec(old(self)@, layout),
            r matches Some(p) ==> {
                &&& p % layout.align == 0
                &&& p + layout.size <= u64::MAX
                &&& forall|a: int|
                    p <= a < p + layout.size ==> fsb_is_free(old(self)@, a) && !fsb_is_free(
                        final(self)@,
                        a,
                    )
            },
            forall|a: int| fsb_is_free(final(self)@, a) ==> fsb_is_free(old(self)@, a),
    {
        let ghost v = self@;
        proof {
            lemma_fsb_alloc_carves(v, layout);
            lemma_list_index(layout);
        }
        match list_index(&layout) {
            Some(index) => {
                if self.list_heads[index].len() > 0 {
                    let mut list = self.list_heads.remove(index);
                    let node = list.pop();
                    self.list_heads.insert(index, list);
                    proof {
                        assert(self@.lists =~= v.lists.update(index as int, v.lists[index as int].drop_last()));
                    }
                    node
                } else {
                    let block_size = block_size_of(index);
                    let block_align = block_size;
                    self.fallback_alloc(Layout { size: block_size, align: block_align })
                }
            },
            None => self.fallback_alloc(layout),
        }
    }

    /// Gives back the block at `ptr` allocated for `layout`: it becomes the
    /// head of its class's list, or returns to the fallback when no class
    /// holds the request.
    pub fn deallocate(&mut self, ptr: u64, layout: Layout)
        requires
            old(self).wf(),
            fsb_can_free(old(self)@, ptr, layout),
        ensures
            final(self).wf(),
            final(self)@ == fsb_dealloc_spec(old(self)@, ptr, layout),
            forall|a: int|
                fsb_is_free(final(self)@, a) <==> (fsb_is_free(old(self)@, a) || ptr <= a < ptr
                    + extent(layout)),
    {
        let ghost v = self@;
        proof {
            lemma_fsb_dealloc_frees(v, ptr, layout);
            lemma_list_index(layout);
            lemma_size_align(layout);
        }
        match list_index(&layout) {
            Some(index) => {
                let mut list = self.list_heads.remove(index);
                list.push(ptr);
                self.list_heads.insert(index, list);
                proof {
                    assert(self@.lists =~= v.lists.update(index as int, v.lists[index as int].push(ptr)));
                }
            },
            None => {
                proof {
                    let size = size_align_spec(layout).0;
                    assert forall|a: int| ptr <= a < ptr + size implies !is_free(v.fallback, a) by {
                        assert(!fsb_is_free(v, a));
                    }
                    lemma_outside_free_from_points(v.fallback, ptr as int, size);
                }
                self.fallback_allocator.deallocate(ptr, layout);
            },
        }
        assert(self@ == fsb_dealloc_spec(v, ptr, layout));
    }
}

} // verus!
