//! Physical frames: the frame supplier over the firmware's memory map, and
//! the plan that maps every page of the heap to a fresh frame.
use vstd::prelude::*;

verus! {

/// Size of a page and of a frame in bytes.
pub const PAGE_SIZE: u64 = 4096;

/// What the firmware says of a region of physical memory.
#[derive(Clone, Copy, Debug, PartialEq, Eq, Structural)]
pub enum MemoryRegionType {
    /// Free for the kernel to use.
    Usable,
    /// In use by the kernel image, boot structures or devices.
    Reserved,
}

/// A region `[start, end)` of physical memory.
#[derive(Clone, Copy, Debug, PartialEq, Eq, Structural)]
pub struct MemoryRegion {
    pub start: u64,
    pub end: u64,
    pub region_type: MemoryRegionType,
}

/// A physical frame, identified by its start address.
#[derive(Clone, Copy, Debug, PartialEq, Eq, Structural)]
pub struct PhysFrame {
    pub start_address: u64,
}

/// Number of frames that start in `[start, end)` at a stride of a page.
pub open spec fn frame_count(start: int, end: int) -> int {
    if end <= start {
        0
    } else {
        (end - start + PAGE_SIZE - 1) / PAGE_SIZE as int
    }
}

/// The frame start addresses of one region: none for a reserved region.
pub open spec fn region_frames(r: MemoryRegion) -> Seq<u64> {
    if r.region_type == MemoryRegionType::Usable {
        Seq::new(
            frame_count(r.start as int, r.end as int) as nat,
            |k: int| (r.start + PAGE_SIZE * k) as u64,
        )
    } else {
        Seq::empty()
    }
}

/// The usable frames of a memory map, region by region, in map order.
pub open spec fn usable_frames(map: Seq<MemoryRegion>) -> Seq<u64>
    decreases map.len(),
{
    if map.len() == 0 {
        Seq::empty()
    } else {
        usable_frames(map.drop_last()) + region_frames(map.last())
    }
}

/// The frames of a prefix of the map come first, in the same order.
proof fn lemma_usable_frames_prefix(map: Seq<MemoryRegion>, j: int)
    requires
        0 <= j <= map.len(),
    ensures
        usable_frames(map.take(j)).len() <= usable_frames(map).len(),
        forall|k: int|
            0 <= k < usable_frames(map.take(j)).len() ==> #[trigger] usable_frames(map.take(j))[k]
                == usable_frames(map)[k],
    decreases map.len() - j,
{
    if j < map.len() {
        lemma_usable_frames_prefix(map, j + 1);
        assert(map.take(j + 1).drop_last() =~= map.take(j));
        let a = usable_frames(map.take(j));
        let b = usable_frames(map.take(j + 1));
        assert(b == a + region_frames(map.take(j + 1).last()));
        assert forall|k: int| 0 <= k < a.len() implies #[trigger] a[k] == usable_frames(map)[k] by {
            assert(b[k] == a[k]);
        }
    } else {
        assert(map.take(j) =~= map);
    }
}

/// No two usable regions of the map share a byte.
pub open spec fn usable_disjoint(map: Seq<MemoryRegion>) -> bool {
    forall|i: int, j: int|
        0 <= i < map.len() && 0 <= j < map.len() && i != j && (#[trigger] map[i]).region_type
            == MemoryRegionType::Usable && (#[trigger] map[j]).region_type == MemoryRegionType::Usable
            ==> map[i].end <= map[j].start || map[j].end <= map[i].start
}

/// The frames of a region lie in it, a page apart.
proof fn lemma_region_frames(r: MemoryRegion)
    ensures
        forall|k: int|
            0 <= k < region_frames(r).len() ==> {
                &&& r.start <= #[trigger] region_frames(r)[k] < r.end
                &&& region_frames(r)[k] == r.start + PAGE_SIZE * k
            },
{
    assert forall|k: int| 0 <= k < region_frames(r).len() implies {
        &&& r.start <= #[trigger] region_frames(r)[k] < r.end
        &&& region_frames(r)[k] == r.start + PAGE_SIZE * k
    } by {
        let count = frame_count(r.start as int, r.end as int);
        assert(PAGE_SIZE * k < r.end - r.start) by (nonlinear_arith)
            requires
                0 <= k < count,
                r.start < r.end,
                count == (r.end - r.start + 4096 - 1) / 4096,
        ;
    }
}

/// Every usable frame lies in a usable region of the map.
proof fn lemma_usable_frames_in_regions(map: Seq<MemoryRegion>)
    ensures
        forall|n: int|
            0 <= n < usable_frames(map).len() ==> exists|i: int|
                0 <= i < map.len() && map[i].region_type == MemoryRegionType::Usable && map[i].start
                    <= #[trigger] usable_frames(map)[n] < map[i].end,
    decreases map.len(),
{
    if map.len() > 0 {
        let pre = usable_frames(map.drop_last());
        let last = map.len() - 1;
        lemma_usable_frames_in_regions(map.drop_last());
        lemma_region_frames(map[last]);
        assert forall|n: int| 0 <= n < usable_frames(map).len() implies exists|i: int|
            0 <= i < map.len() && map[i].region_type == MemoryRegionType::Usable && map[i].start
                <= #[trigger] usable_frames(map)[n] < map[i].end by {
            if n < pre.len() {
                let i = choose|i: int|
                    0 <= i < map.drop_last().len() && map.drop_last()[i].region_type
                        == MemoryRegionType::Usable && map.drop_last()[i].start <= #[trigger] pre[n]
                        < map.drop_last()[i].end;
                assert(map[i] == map.drop_last()[i]);
            } else {
                assert(usable_frames(map)[n] == region_frames(map[last])[n - pre.len()]);
            }
        }
    }
}

/// Where the usable regions do not overlap, no frame is usable twice: a
/// supplier over such a map never hands out the same frame twice.
pub proof fn lemma_frames_distinct(map: Seq<MemoryRegion>)
    requires
        usable_disjoint(map),
    ensures
        forall|m: int, n: int|
            0 <= m < n < usable_frames(map).len() ==> #[trigger] usable_frames(map)[m]
                != #[trigger] usable_frames(map)[n],
    decreases map.len(),
{
    if map.len() > 0 {
        let rest = map.drop_last();
        let pre = usable_frames(rest);
        let last = map.len() - 1;
        let all = usable_frames(map);
        assert(usable_disjoint(rest)) by {
            assert forall|i: int, j: int|
                0 <= i < rest.len() && 0 <= j < rest.len() && i != j && (#[trigger] rest[i]).region_type
                    == MemoryRegionType::Usable && (#[trigger] rest[j]).region_type
                    == MemoryRegionType::Usable implies rest[i].end <= rest[j].start || rest[j].end
                <= rest[i].start by {
                assert(rest[i] == map[i] && rest[j] == map[j]);
            }
        }
        lemma_frames_distinct(rest);
        lemma_usable_frames_in_regions(rest);
        lemma_region_frames(map[last]);
        assert forall|m: int, n: int| 0 <= m < n < all.len() implies #[trigger] all[m]
            != #[trigger] all[n] by {
            if n < pre.len() {
                assert(all[m] == pre[m] && all[n] == pre[n]);
            } else if m >= pre.len() {
                assert(all[m] == region_frames(map[last])[m - pre.len()]);
                assert(all[n] == region_frames(map[last])[n - pre.len()]);
            } else {
                assert(all[m] == pre[m]);
                assert(all[n] == region_frames(map[last])[n - pre.len()]);
                let i = choose|i: int|
                    0 <= i < rest.len() && rest[i].region_type == MemoryRegionType::Usable
                        && rest[i].start <= #[trigger] pre[m] < rest[i].end;
                assert(rest[i] == map[i]);
                assert(map[last].region_type == MemoryRegionType::Usable);
            }
        }
    }
}

/// A frame supplier that hands out each usable frame of the memory map
/// once, in map order.
pub struct BootInfoFrameAllocator<'a> {
    memory_map: &'a [MemoryRegion],
    next: usize,
}

/// The count of frames asked for after one more request; it stops growing
/// at the largest `usize`.
pub open spec fn next_count(n: nat) -> nat {
    if n < usize::MAX { n + 1 } else { n }
}

impl<'a> BootInfoFrameAllocator<'a> {
    /// The memory map.
    pub closed spec fn map(&self) -> Seq<MemoryRegion> {
        self.memory_map@
    }

    /// How many frames were asked for so far.
    pub closed spec fn handed_out(&self) -> nat {
        self.next as nat
    }

    /// A supplier over `memory_map` that has handed out nothing.
    pub fn init(memory_map: &'a [MemoryRegion]) -> (r: BootInfoFrameAllocator<'a>)
        ensures
            r.map() == memory_map@,
            r.handed_out() == 0,
    {
        BootInfoFrameAllocator { memory_map, next: 0 }
    }

    /// The next usable frame: the one at position `handed_out()` among the
    /// usable frames of the map, or `None` once they are all gone.
    pub fn allocate_frame(&mut self) -> (r: Option<PhysFrame>)
        ensures
            final(self).map() == old(self).map(),
            final(self).handed_out() == next_count(old(self).handed_out()),
            old(self).handed_out() < usable_frames(old(self).map()).len() ==> r == Some(
                PhysFrame { start_address: usable_frames(old(self).map())[old(self).handed_out() as int] },
            ),
            old(self).handed_out() >= usable_frames(old(self).map()).len() ==> r is None,
    {
        let frame = self.nth_usable_frame(self.next);
        if self.next < usize::MAX {
            self.next = self.next + 1;
        }
        match frame {
            Some(start_address) => Some(PhysFrame { start_address }),
            None => None,
        }
    }

    /// The usable frame at position `n`, walking the regions in order.
    fn nth_usable_frame(&self, n: usize) -> (r: Option<u64>)
        ensures
            n < usable_frames(self.map()).len() ==> r == Some(usable_frames(self.map())[n as int]),
            n >= usable_frames(self.map()).len() ==> r is None,
    {
        let ghost map = self.memory_map@;
        let mut remaining: u64 = n as u64;
        let mut i: usize = 0;
        while i < self.memory_map.len()
            invariant
                map == self.memory_map@,
                i <= map.len(),
                remaining + usable_frames(map.take(i as int)).len() == n,
            decreases map.len() - i,
        {
            let region = self.memory_map[i];
            proof {
                assert(map.take(i + 1).drop_last() =~= map.take(i as int));
                assert(map.take(i + 1).last() == region);
            }
            if region.region_type == MemoryRegionType::Usable && region.start < region.end {
                let len = region.end - region.start;
                let count = len / PAGE_SIZE + if len % PAGE_SIZE != 0 { 1 } else { 0 };
                proof {
                    assert(count == frame_count(region.start as int, region.end as int)) by (nonlinear_arith)
                        requires
                            len == region.end - region.start,
                            region.start < region.end,
                            count == len / 4096 + if len % 4096 != 0 { 1int } else { 0int },
                    ;
                }
                if remaining < count {
                    proof {
                        assert(PAGE_SIZE * remaining < len) by (nonlinear_arith)
                            requires
                                remaining < count,
                                count == len / 4096 + if len % 4096 != 0 { 1int } else { 0int },
                        ;
                        lemma_usable_frames_prefix(map, i + 1);
                        let pre = usable_frames(map.take(i as int));
                        assert(usable_frames(map.take(i + 1)) == pre + region_frames(region));
                        assert(usable_frames(map.take(i + 1))[n as int] == region_frames(region)[remaining as int]);
                    }
                    return Some(region.start + PAGE_SIZE * remaining);
                }
                remaining = remaining - count;
            }
            i = i + 1;
        }
        proof {
            assert(map.take(map.len() as int) =~= map);
        }
        None
    }
}

/// A frame supplier with no frames.
pub struct EmptyFrameAllocator;

impl EmptyFrameAllocator {
    pub fn allocate_frame(&mut self) -> (r: Option<PhysFrame>)
        ensures
            r is None,
    {
        None
    }
}

} // verus!
