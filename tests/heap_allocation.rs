use tiny_os::allocator::bump::BumpAllocator;
use tiny_os::allocator::fixed_size_block::{list_index, FixedSizeBlockAllocator};
use tiny_os::allocator::linked_list::LinkedListAllocator;
use tiny_os::allocator::{Dummy, Layout, HEAP_SIZE, HEAP_START};

fn layout(size: u64, align: u64) -> Layout {
    Layout::from_size_align(size, align).unwrap()
}

fn word() -> Layout {
    layout(8, 8)
}

fn linked_list_heap() -> LinkedListAllocator {
    let mut a = LinkedListAllocator::new();
    a.init(HEAP_START, HEAP_SIZE);
    a
}

fn fixed_size_block_heap() -> FixedSizeBlockAllocator {
    let mut a = FixedSizeBlockAllocator::new();
    a.init(HEAP_START, HEAP_SIZE);
    a
}

fn bump_heap() -> BumpAllocator {
    let mut a = BumpAllocator::new();
    a.init(HEAP_START, HEAP_SIZE);
    a
}

fn in_heap(p: u64, size: u64) -> bool {
    p >= HEAP_START && p + size <= HEAP_START + HEAP_SIZE
}

fn disjoint(a: (u64, u64), b: (u64, u64)) -> bool {
    a.0 + a.1 <= b.0 || b.0 + b.1 <= a.0
}

#[test]
fn simple_allocation() {
    let mut a = linked_list_heap();
    let first = a.allocate(word()).unwrap();
    let second = a.allocate(word()).unwrap();
    assert_ne!(first, second);
    assert!(in_heap(first, 8) && in_heap(second, 8));
    assert!(disjoint((first, 8), (second, 8)));
}

/// Grows a buffer of `u64` values the way a vector does, allocating the
/// new buffer and freeing the old one at each growth.
fn push_values(a: &mut LinkedListAllocator, n: u64) -> Vec<u64> {
    let mut values: Vec<u64> = Vec::new();
    let mut cap: u64 = 0;
    let mut buf: Option<u64> = None;
    for i in 0..n {
        if values.len() as u64 == cap {
            let new_cap = if cap == 0 { 4 } else { cap * 2 };
            let p = a.allocate(layout(new_cap * 8, 8)).expect("heap exhausted");
            if let Some(old) = buf {
                a.deallocate(old, layout(cap * 8, 8));
            }
            buf = Some(p);
            cap = new_cap;
        }
        values.push(i);
    }
    values
}

#[test]
fn large_vec() {
    let mut a = linked_list_heap();
    let n = 1000;
    let values = push_values(&mut a, n);
    assert_eq!(values.iter().sum::<u64>(), (n - 1) * n / 2);
    assert_eq!(values.iter().sum::<u64>(), 499500);
}

#[test]
fn many_boxes_linked_list() {
    let mut a = linked_list_heap();
    for _ in 0..HEAP_SIZE {
        let p = a.allocate(word()).expect("heap exhausted");
        assert!(in_heap(p, 8));
        a.deallocate(p, word());
    }
}

#[test]
fn many_boxes_long_lived_linked_list() {
    let mut a = linked_list_heap();
    let long_lived = a.allocate(word()).unwrap();
    for _ in 0..HEAP_SIZE {
        let p = a.allocate(word()).expect("heap exhausted");
        assert!(disjoint((p, 8), (long_lived, 8)));
        a.deallocate(p, word());
    }
}

#[test]
fn many_boxes_fixed_size_block() {
    let mut a = fixed_size_block_heap();
    for _ in 0..10000u64 {
        let p = a.allocate(word()).expect("heap exhausted");
        assert!(in_heap(p, 8));
        a.deallocate(p, word());
    }
}

#[test]
fn many_boxes_long_lived_fixed_size_block() {
    let mut a = fixed_size_block_heap();
    let long_lived = a.allocate(word()).unwrap();
    for _ in 0..HEAP_SIZE {
        let p = a.allocate(word()).expect("heap exhausted");
        assert!(disjoint((p, 8), (long_lived, 8)));
        a.deallocate(p, word());
    }
}

#[test]
fn many_boxes_bump() {
    let mut a = bump_heap();
    for _ in 0..HEAP_SIZE {
        let p = a.allocate(word()).expect("heap exhausted");
        a.deallocate(p, word());
    }
}

#[test]
fn bump_long_lived_exhausts_heap() {
    let mut a = bump_heap();
    let _long_lived = a.allocate(word()).unwrap();
    let mut failed_at = None;
    for i in 0..HEAP_SIZE {
        match a.allocate(word()) {
            Some(p) => a.deallocate(p, word()),
            None => {
                failed_at = Some(i);
                break;
            }
        }
    }
    // One word is held; the others fill the rest of the heap exactly once.
    assert_eq!(failed_at, Some(HEAP_SIZE / 8 - 1));
}

#[test]
fn bump_reclaims_when_all_freed() {
    let mut a = bump_heap();
    let first = a.allocate(word()).unwrap();
    let second = a.allocate(word()).unwrap();
    assert_eq!(first, HEAP_START);
    assert_eq!(second, HEAP_START + 8);
    a.deallocate(first, word());
    assert_eq!(a.allocate(word()), Some(HEAP_START + 16));
    a.deallocate(second, word());
    a.deallocate(HEAP_START + 16, word());
    assert_eq!(a.allocate(word()), Some(HEAP_START));
}

#[test]
fn bump_alignment() {
    let mut a = bump_heap();
    assert_eq!(a.allocate(layout(1, 1)), Some(HEAP_START));
    assert_eq!(a.allocate(layout(4, 64)), Some(HEAP_START + 64));
    assert_eq!(a.allocate(layout(1, 1)), Some(HEAP_START + 68));
}

#[test]
fn alignment_holds_for_every_strategy() {
    let mut ll = linked_list_heap();
    let mut fsb = fixed_size_block_heap();
    let mut bump = bump_heap();
    let mut align = 1;
    while align <= 4096 {
        for size in [1u64, 3, 8, 24, 100] {
            let l = layout(size, align);
            assert_eq!(ll.allocate(l).unwrap() % align, 0);
            assert_eq!(fsb.allocate(l).unwrap() % align, 0);
            assert_eq!(bump.allocate(l).unwrap() % align, 0);
        }
        align *= 2;
    }
}

#[test]
fn no_overlap_without_frees() {
    let mut ll = linked_list_heap();
    let mut fsb = fixed_size_block_heap();
    let sizes = [8u64, 16, 1, 100, 3000, 24, 64, 2048, 5000, 7];
    let mut got_ll = Vec::new();
    let mut got_fsb = Vec::new();
    for (k, &s) in sizes.iter().enumerate() {
        let l = layout(s, 1 << (k % 4));
        got_ll.push((ll.allocate(l).unwrap(), s));
        got_fsb.push((fsb.allocate(l).unwrap(), s));
    }
    for i in 0..sizes.len() {
        for j in 0..i {
            assert!(disjoint(got_ll[i], got_ll[j]));
            assert!(disjoint(got_fsb[i], got_fsb[j]));
        }
        assert!(in_heap(got_ll[i].0, got_ll[i].1));
        assert!(in_heap(got_fsb[i].0, got_fsb[i].1));
    }
}

#[test]
fn round_trip_reuses_address() {
    let l = layout(40, 8);
    let mut ll = linked_list_heap();
    let _held = ll.allocate(word()).unwrap();
    let p = ll.allocate(l).unwrap();
    ll.deallocate(p, l);
    assert_eq!(ll.allocate(l), Some(p));

    let mut fsb = fixed_size_block_heap();
    let q = fsb.allocate(l).unwrap();
    fsb.deallocate(q, l);
    assert_eq!(fsb.allocate(l), Some(q));

    let big = layout(4000, 8);
    let r = fsb.allocate(big).unwrap();
    fsb.deallocate(r, big);
    assert_eq!(fsb.allocate(big), Some(r));
}

#[test]
fn out_of_memory_boundary() {
    let mut ll = linked_list_heap();
    assert_eq!(ll.allocate(layout(HEAP_SIZE + 1, 8)), None);
    assert_eq!(ll.allocate(layout(HEAP_SIZE, 8)), Some(HEAP_START));
    assert_eq!(ll.allocate(layout(8, 8)), None);

    let mut fsb = fixed_size_block_heap();
    assert_eq!(fsb.allocate(layout(HEAP_SIZE + 1, 8)), None);
    assert_eq!(fsb.allocate(layout(HEAP_SIZE, 8)), Some(HEAP_START));
    assert_eq!(fsb.allocate(layout(8, 8)), None);

    let mut bump = bump_heap();
    assert_eq!(bump.allocate(layout(HEAP_SIZE + 1, 1)), None);
    assert_eq!(bump.allocate(layout(100, 1)), Some(HEAP_START));
    assert_eq!(bump.allocate(layout(HEAP_SIZE - 99, 1)), None);
    assert_eq!(bump.allocate(layout(HEAP_SIZE - 100, 1)), Some(HEAP_START + 100));
    assert_eq!(bump.allocate(layout(1, 1)), None);
}

#[test]
fn linked_list_first_fit_and_tail() {
    let mut a = linked_list_heap();
    // 8 bytes are padded to a 16-byte descriptor.
    assert_eq!(a.allocate(layout(8, 8)), Some(HEAP_START));
    assert_eq!(a.allocate(layout(8, 8)), Some(HEAP_START + 16));
    // The block is padded to its alignment, and the gap before it is not
    // given back.
    assert_eq!(a.allocate(layout(8, 64)), Some(HEAP_START + 64));
    assert_eq!(a.allocate(layout(8, 8)), Some(HEAP_START + 128));
}

#[test]
fn linked_list_rejects_unusable_tail() {
    let mut a = LinkedListAllocator::new();
    a.init(HEAP_START, 40);
    // 24 bytes would leave an 16-byte tail: fine.
    assert_eq!(a.allocate(layout(24, 8)), Some(HEAP_START));
    let mut b = LinkedListAllocator::new();
    b.init(HEAP_START, 40);
    // 32 bytes would leave 8 bytes, too few for a free region.
    assert_eq!(b.allocate(layout(32, 8)), None);
    assert_eq!(b.allocate(layout(40, 8)), Some(HEAP_START));
}

#[test]
fn size_align_adjustment() {
    assert_eq!(LinkedListAllocator::size_align(layout(1, 1)), (16, 8));
    assert_eq!(LinkedListAllocator::size_align(layout(17, 4)), (24, 8));
    assert_eq!(LinkedListAllocator::size_align(layout(33, 32)), (64, 32));
    assert_eq!(LinkedListAllocator::size_align(layout(0, 8)), (16, 8));
}

#[test]
fn size_classes() {
    assert_eq!(list_index(&layout(1, 1)), Some(0));
    assert_eq!(list_index(&layout(8, 8)), Some(0));
    assert_eq!(list_index(&layout(9, 1)), Some(1));
    assert_eq!(list_index(&layout(1, 64)), Some(3));
    assert_eq!(list_index(&layout(2048, 8)), Some(8));
    assert_eq!(list_index(&layout(2049, 8)), None);
    assert_eq!(list_index(&layout(8, 4096)), None);
}

#[test]
fn fixed_size_block_reuses_class_blocks() {
    let mut a = fixed_size_block_heap();
    let p = a.allocate(layout(100, 8)).unwrap();
    assert_eq!(p % 128, 0);
    a.deallocate(p, layout(100, 8));
    // Another request of the same class gets the freed block.
    assert_eq!(a.allocate(layout(128, 1)), Some(p));
}

#[test]
fn dummy_never_allocates() {
    assert_eq!(Dummy.allocate(word()), None);
}

#[test]
fn layout_validation() {
    assert!(Layout::from_size_align(8, 3).is_none());
    assert!(Layout::from_size_align(8, 0).is_none());
    assert!(Layout::from_size_align(u64::MAX, 1).is_none());
    assert!(Layout::from_size_align(i64::MAX as u64, 1).is_some());
    assert!(Layout::from_size_align(i64::MAX as u64, 2).is_none());
    let l = Layout::from_size_align(24, 16).unwrap();
    assert_eq!((l.size(), l.align()), (24, 16));
}
