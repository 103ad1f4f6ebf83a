//! The heap region, allocation requests, and the allocation strategies.
use vstd::prelude::*;
use crate::align::is_pow2;
use crate::memory::{BootInfoFrameAllocator, PhysFrame, PAGE_SIZE};

pub mod bump;
pub mod fixed_size_block;
pub mod linked_list;

verus! {

/// Virtual address at which the heap starts.
pub const HEAP_START: u64 = 0x4444_4444_0000;

/// Size of the heap in bytes (100 KiB).
pub const HEAP_SIZE: u64 = 100 * 1024;

/// Largest size a request may reach once rounded up to its alignment.
pub const MAX_REQUEST: u64 = 0x7fff_ffff_ffff_ffff;

/// `[p, p + m)` and `[q, q + n)` share no byte.
pub open spec fn ranges_disjoint(p: int, m: int, q: int, n: int) -> bool {
    m == 0 || n == 0 || p + m <= q || q + n <= p
}

/// The size and alignment of an allocation request.
#[derive(Clone, Copy, Debug, PartialEq, Eq, Structural)]
pub struct Layout {
    pub size: u64,
    pub align: u64,
}

impl Layout {
    /// A valid request: the alignment is a power of two and the size, once
    /// rounded up to it, stays within `MAX_REQUEST`.
    pub open spec fn wf(&self) -> bool {
        is_pow2(self.align as int) && self.size + self.align - 1 <= MAX_REQUEST
    }

    /// Builds a request; `None` where the pair is not valid.
    pub fn from_size_align(size: u64, align: u64) -> (r: Option<Layout>)
        ensures
            r is Some <==> (Layout { size, align }).wf(),
            r matches Some(l) ==> l.size == size && l.align == align,
    {
        if !crate::align::is_power_of_two(align) {
            return None;
        }
        if align - 1 > MAX_REQUEST || size > MAX_REQUEST - (align - 1) {
            return None;
        }
        Some(Layout { size, align })
    }

    pub fn size(&self) -> (r: u64)
        ensures
            r == self.size,
    {
        self.size
    }

    pub fn align(&self) -> (r: u64)
        ensures
            r == self.align,
    {
        self.align
    }
}

/// An allocator that has no memory to give.
pub struct Dummy;

impl Dummy {
    /// Every request fails.
    pub fn allocate(&self, layout: Layout) -> (r: Option<u64>)
        ensures
            r is None,
    {
        None
    }
}

/// Why a page could not be mapped.
#[derive(Clone, Copy, Debug, PartialEq, Eq, Structural)]
pub enum MapError {
    /// The frame supplier had no frame left.
    FrameAllocationFailed,
    /// A table on the way to the page is a huge page.
    ParentEntryHugePage,
    /// The page is already mapped, to the given frame.
    PageAlreadyMapped(PhysFrame),
}

/// Start of the page that holds address `addr`.
pub open spec fn page_of(addr: int) -> int {
    addr - addr % PAGE_SIZE as int
}

/// The pages that cover `[heap_start, heap_start + heap_size)`, in order.
pub open spec fn heap_pages(heap_start: int, heap_size: int) -> Seq<u64> {
    if heap_size <= 0 {
        Seq::empty()
    } else {
        let first = page_of(heap_start);
        let last = page_of(heap_start + heap_size - 1);
        Seq::new(
            ((last - first) / PAGE_SIZE as int + 1) as nat,
            |k: int| (first + PAGE_SIZE * k) as u64,
        )
    }
}

/// The next thing to do while mapping the heap.
#[derive(Debug)]
pub enum MapStep {
    /// Map `page` to `frame`, writable, then ask for the next step.
    MapPage { page: u64, frame: PhysFrame },
    /// Every page of the heap has been handed out for mapping.
    Done,
    /// Mapping cannot go on; pages handed out before stay mapped.
    Failed(MapError),
}

/// The pages of the heap that are still to be mapped, taken one at a time,
/// each with a fresh frame.
pub struct HeapMapping {
    next_page: u64,
    last_page: u64,
    done: bool,
}

impl HeapMapping {
    /// The pages still to be mapped, in order.
    pub closed spec fn remaining(&self) -> Seq<u64> {
        if self.done {
            Seq::empty()
        } else {
            Seq::new(
                ((self.last_page - self.next_page) / PAGE_SIZE as int + 1) as nat,
                |k: int| (self.next_page + PAGE_SIZE * k) as u64,
            )
        }
    }

    pub closed spec fn wf(&self) -> bool {
        !self.done ==> {
            &&& self.next_page <= self.last_page
            &&& (self.last_page - self.next_page) % PAGE_SIZE as int == 0
        }
    }

    /// The plan for the heap `[heap_start, heap_start + heap_size)`.
    pub fn new(heap_start: u64, heap_size: u64) -> (r: HeapMapping)
        requires
            heap_start + heap_size <= u64::MAX,
        ensures
            r.wf(),
            r.remaining() == heap_pages(heap_start as int, heap_size as int),
    {
        if heap_size == 0 {
            let r = HeapMapping { next_page: 0, last_page: 0, done: true };
            assert(r.remaining() =~= heap_pages(heap_start as int, heap_size as int));
            return r;
        }
        let heap_end = heap_start + heap_size - 1;
        let first = heap_start - heap_start % PAGE_SIZE;
        let last = heap_end - heap_end % PAGE_SIZE;
        let r = HeapMapping { next_page: first, last_page: last, done: false };
        proof {
            assert((last - first) % 4096 == 0) by (nonlinear_arith)
                requires
                    first == heap_start - heap_start % 4096,
                    last == heap_end - heap_end % 4096,
                    heap_start <= heap_end,
            ;
            assert(first <= last) by (nonlinear_arith)
                requires
                    first == heap_start - heap_start % 4096,
                    last == heap_end - heap_end % 4096,
                    heap_start <= heap_end,
            ;
            assert(r.remaining() =~= heap_pages(heap_start as int, heap_size as int));
        }
        r
    }

    /// Takes the next page and a frame for it from `frames`. Once the pages
    /// are all taken, or once the supplier runs out, nothing more is done.
    pub fn next_step(&mut self, frames: &mut BootInfoFrameAllocator) -> (r: MapStep)
        requires
            old(self).wf(),
        ensures
            final(self).wf(),
            old(self).remaining().len() == 0 ==> r is Done && final(self).remaining() == old(
                self,
            ).remaining() && *final(frames) == *old(frames),
            old(self).remaining().len() > 0 ==> {
                &&& final(frames).map() == old(frames).map()
                &&& final(frames).handed_out() == crate::memory::next_count(old(frames).handed_out())
                &&& if old(frames).handed_out() < crate::memory::usable_frames(
                    old(frames).map(),
                ).len() {
                    &&& r == (MapStep::MapPage {
                        page: old(self).remaining()[0],
                        frame: PhysFrame {
                            start_address: crate::memory::usable_frames(
                                old(frames).map(),
                            )[old(frames).handed_out() as int],
                        },
                    })
                    &&& final(self).remaining() == old(self).remaining().drop_first()
                } else {
                    &&& r == MapStep::Failed(MapError::FrameAllocationFailed)
                    &&& final(self).remaining().len() == 0
                }
            },
    {
        if self.done {
            return MapStep::Done;
        }
        let page = self.next_page;
        let ghost rem = self.remaining();
        match frames.allocate_frame() {
            None => {
                self.done = true;
                MapStep::Failed(MapError::FrameAllocationFailed)
            },
            Some(frame) => {
                if self.next_page == self.last_page {
                    self.done = true;
                } else {
                    self.next_page = self.next_page + PAGE_SIZE;
                }
                proof {
                    assert(self.remaining() =~= rem.drop_first());
                }
                MapStep::MapPage { page, frame }
            },
        }
    }
}

} // verus!
