use shuffling_allocator::{
    route, size_class_info, word_size, AllocError, BlockLayout, LazyAtomicCell, Route, ShufflingAllocator,
    ShufflingArray, UnderlyingAlloc, NUM_SIZE_CLASSES, SHUFFLING_ARRAY_SIZE,
};
use std::cell::{Cell, RefCell};
use std::collections::HashSet;

/// An underlying allocator that counts what it is asked for and hands out
/// distinct addresses, aligned to 64 bytes or the requested alignment.
struct Counting {
    next: Cell<usize>,
    allocs: Cell<usize>,
    frees: Cell<usize>,
    /// Allocations beyond this many fail.
    budget: Cell<usize>,
    last: Cell<usize>,
    layouts: RefCell<Vec<BlockLayout>>,
    live: RefCell<HashSet<usize>>,
    freed: RefCell<Vec<(usize, BlockLayout)>>,
}

impl UnderlyingAlloc for Counting {
    fn alloc_block(&self, layout: BlockLayout) -> usize {
        if self.allocs.get() >= self.budget.get() {
            return 0;
        }
        let align = if layout.align > 64 { layout.align } else { 64 };
        let start = (self.next.get() + align - 1) / align * align;
        self.next.set(start + layout.size + 1);
        self.allocs.set(self.allocs.get() + 1);
        self.last.set(start);
        self.layouts.borrow_mut().push(layout);
        self.live.borrow_mut().insert(start);
        start
    }

    fn dealloc_block(&self, p: usize, layout: BlockLayout) {
        assert!(self.live.borrow_mut().remove(&p), "freed a block that is not live");
        self.freed.borrow_mut().push((p, layout));
        self.frees.set(self.frees.get() + 1);
    }
}

fn counting(budget: usize) -> &'static Counting {
    Box::leak(Box::new(Counting {
        next: Cell::new(4096),
        allocs: Cell::new(0),
        frees: Cell::new(0),
        budget: Cell::new(budget),
        last: Cell::new(0),
        layouts: RefCell::new(Vec::new()),
        live: RefCell::new(HashSet::new()),
        freed: RefCell::new(Vec::new()),
    }))
}

const CLASS_SIZES_64: [usize; 32] = [
    8, 16, 24, 32, 40, 56, 72, 88, 104, 136, 168, 200, 232, 296, 360, 424, 488, 616, 744, 872,
    1000, 1256, 1512, 1768, 2024, 2536, 3048, 3560, 4072, 5096, 6120, 7144,
];

fn class_sizes() -> Vec<usize> {
    CLASS_SIZES_64.iter().map(|s| s / 8 * word_size()).collect()
}

#[test]
fn class_table_matches_stride_schedule() {
    let sizes = class_sizes();
    assert_eq!(sizes.len(), NUM_SIZE_CLASSES);
    for (i, &s) in sizes.iter().enumerate() {
        let info = size_class_info(s).unwrap();
        assert_eq!(info.index, i);
        assert_eq!(info.size_class, s);
        let next = size_class_info(s + 1);
        if i + 1 < NUM_SIZE_CLASSES {
            assert_eq!(next.unwrap().index, i + 1);
        } else {
            assert!(next.is_none());
        }
    }
}

#[test]
fn small_request_sizes() {
    let w = word_size();
    assert_eq!(size_class_info(0).unwrap().index, 0);
    assert_eq!(size_class_info(1).unwrap().index, 0);
    assert_eq!(size_class_info(w).unwrap().index, 0);
    assert_eq!(size_class_info(w + 1).unwrap().index, 1);
    assert_eq!(size_class_info(w + 1).unwrap().size_class, 2 * w);
}

#[test]
fn largest_class_boundary() {
    let top = class_sizes()[31];
    let info = size_class_info(top).unwrap();
    assert_eq!(info.index, 31);
    assert_eq!(info.size_class, 893 * word_size());
    assert!(size_class_info(top + 1).is_none());
    assert!(size_class_info(usize::MAX).is_none());
    assert_eq!(route(BlockLayout { size: top + 1, align: 1 }), Route::Bypass);
}

#[test]
fn class_size_is_smallest_fit() {
    let sizes = class_sizes();
    for s in 0..=sizes[31] {
        let info = size_class_info(s).unwrap();
        assert!(info.size_class >= s);
        if info.index > 0 {
            assert!(sizes[info.index - 1] < s);
        }
    }
}

#[test]
fn over_aligned_requests_take_the_bypass() {
    let w = word_size();
    assert_eq!(route(BlockLayout { size: 1, align: 2 * w }), Route::Bypass);
    match route(BlockLayout { size: 1, align: w }) {
        Route::Shuffle(info) => assert_eq!(info.index, 0),
        Route::Bypass => panic!("a word-aligned small request is shuffled"),
    }
}

#[test]
fn hundred_blocks_of_24_bytes() {
    let inner = counting(usize::MAX);
    let mut a = ShufflingAllocator::new(inner);
    let layout = BlockLayout { size: 24, align: 8 };
    let ps: Vec<usize> = (0..100).map(|_| a.allocate(layout).unwrap()).collect();
    assert!(ps.iter().all(|&p| p != 0));
    for p in ps {
        assert_eq!(a.deallocate(p, layout), Ok(()));
    }
    assert_eq!(inner.allocs.get(), 100 + 256);
    assert_eq!(inner.frees.get(), 100);
    let class = size_class_info(24).unwrap().size_class;
    assert!(inner.layouts.borrow().iter().all(|l| l.size == class && l.align == word_size()));
}

#[test]
fn boxes_are_distinct_and_the_class_stays_full() {
    let inner = counting(usize::MAX);
    let mut a = ShufflingAllocator::new(inner);
    let layout = BlockLayout { size: 4, align: 4 };
    let ps: Vec<usize> = (0..1024).map(|_| a.allocate(layout).unwrap()).collect();
    let distinct: HashSet<usize> = ps.iter().copied().collect();
    assert_eq!(distinct.len(), 1024);
    for p in ps {
        a.deallocate(p, layout).unwrap();
    }
    assert_eq!(inner.allocs.get() - inner.frees.get(), 256);
}

#[test]
fn aligned_bypass_returns_the_underlying_block() {
    let inner = counting(usize::MAX);
    let mut a = ShufflingAllocator::new(inner);
    let layout = BlockLayout { size: 1, align: 32 };
    let p = a.allocate(layout).unwrap();
    assert_eq!(p, inner.last.get());
    assert_eq!(p % 32, 0);
    assert_eq!(inner.allocs.get(), 1);
    a.deallocate(p, layout).unwrap();
    assert_eq!(inner.frees.get(), 1);
}

#[test]
fn large_bypass_returns_the_underlying_block() {
    let inner = counting(usize::MAX);
    let mut a = ShufflingAllocator::new(inner);
    let layout = BlockLayout { size: 893 * word_size() + 1, align: 1 };
    let p = a.allocate(layout).unwrap();
    assert_eq!(p, inner.last.get());
    assert_eq!(inner.allocs.get(), 1);
    assert_eq!(inner.layouts.borrow()[0], layout);
}

#[test]
fn class_zero_loop_warms_once() {
    let inner = counting(usize::MAX);
    let mut a = ShufflingAllocator::new(inner);
    let layout = BlockLayout { size: 1, align: 1 };
    let p = a.allocate(layout).unwrap();
    a.deallocate(p, layout).unwrap();
    assert_eq!(inner.allocs.get(), 257);
    assert_eq!(inner.frees.get(), 1);
    for _ in 1..10_000 {
        let p = a.allocate(layout).unwrap();
        assert_ne!(p, 0);
        a.deallocate(p, layout).unwrap();
    }
    assert_eq!(inner.allocs.get(), 256 + 10_000);
    assert_eq!(inner.frees.get(), 10_000);
}

#[test]
fn second_allocation_does_not_refill() {
    let inner = counting(usize::MAX);
    let mut a = ShufflingAllocator::new(inner);
    let layout = BlockLayout { size: 8, align: 8 };
    a.allocate(layout).unwrap();
    assert_eq!(inner.allocs.get(), 257);
    a.allocate(layout).unwrap();
    assert_eq!(inner.allocs.get(), 258);
}

#[test]
fn failed_warm_up_reports_the_class_layout() {
    let inner = counting(100);
    let mut a = ShufflingAllocator::new(inner);
    let r = a.allocate(BlockLayout { size: 17, align: 8 });
    let class = size_class_info(17).unwrap().size_class;
    assert_eq!(r, Err(AllocError::WarmUp(BlockLayout { size: class, align: word_size() })));
    assert_eq!(inner.allocs.get(), 100);
    assert_eq!(inner.frees.get(), 100);
}

#[test]
fn failed_replacement_hands_out_null() {
    let inner = counting(SHUFFLING_ARRAY_SIZE);
    let mut a = ShufflingAllocator::new(inner);
    assert_eq!(a.allocate(BlockLayout { size: 8, align: 8 }), Ok(0));
    assert_eq!(inner.allocs.get(), 256);
    assert_eq!(inner.frees.get(), 0);
}

#[test]
fn freeing_null_does_nothing() {
    let inner = counting(usize::MAX);
    let mut a = ShufflingAllocator::new(inner);
    assert_eq!(a.deallocate(0, BlockLayout { size: 8, align: 8 }), Ok(()));
    assert_eq!(inner.allocs.get(), 0);
    assert_eq!(inner.frees.get(), 0);
}

#[test]
fn release_returns_every_slot() {
    let inner = counting(usize::MAX);
    let mut a = ShufflingAllocator::new(inner);
    let small = BlockLayout { size: 8, align: 8 };
    let mid = BlockLayout { size: 100, align: 8 };
    let p = a.allocate(small).unwrap();
    let q = a.allocate(mid).unwrap();
    a.release();
    assert_eq!(inner.allocs.get(), 2 * 257);
    assert_eq!(inner.frees.get(), 2 * 256);
    assert!(inner.live.borrow().contains(&p));
    assert!(inner.live.borrow().contains(&q));
}

#[test]
fn three_classes_balance() {
    let inner = counting(usize::MAX);
    let mut a = ShufflingAllocator::new(inner);
    let sizes = class_sizes();
    let layouts = [0usize, 4, 12].map(|c| BlockLayout { size: sizes[c], align: word_size() });
    for i in 0..3000 {
        let l = layouts[i % 3];
        let p = a.allocate(l).unwrap();
        a.deallocate(p, l).unwrap();
    }
    assert_eq!(inner.allocs.get() - inner.frees.get(), 256 * 3);
}

#[test]
fn lazy_cell_publishes_once() {
    static UNIT: () = ();
    let mut cell: LazyAtomicCell<(), u32> = LazyAtomicCell::new(&UNIT);
    assert!(!cell.is_initialized());
    assert_eq!(cell.publish(7), None);
    assert_eq!(cell.publish(9), Some(9));
    assert_eq!(cell.get(), Some(&7));
    assert_eq!(*cell.get_or_create(|| 11), 7);
    assert_eq!(cell.take(), Some(7));
    assert_eq!(*cell.get_or_create(|| 11), 11);
}

#[test]
fn array_swap_and_drain() {
    let blocks: Vec<usize> = (1..=256).collect();
    let mut arr = ShufflingArray::new(24, blocks);
    assert_eq!(arr.elem_layout(), BlockLayout { size: 24, align: word_size() });
    assert_eq!(arr.swap(3, 1000), 4);
    assert_eq!(arr.swap(3, 1001), 1000);
    let out = arr.drain();
    assert_eq!(out.len(), 256);
    assert_eq!(out[3], 1001);
    assert_eq!(out[255], 256);
    assert!(arr.drain().is_empty());
}

#[test]
fn bypass_free_passes_block_and_layout() {
    let inner = counting(usize::MAX);
    let mut a = ShufflingAllocator::new(inner);
    let layout = BlockLayout { size: 10_000, align: 8 };
    let p = a.allocate(layout).unwrap();
    a.deallocate(p, layout).unwrap();
    assert_eq!(*inner.freed.borrow(), vec![(p, layout)]);
}

#[test]
fn shuffled_free_releases_with_the_class_layout() {
    let inner = counting(usize::MAX);
    let mut a = ShufflingAllocator::new(inner);
    let layout = BlockLayout { size: 17, align: 8 };
    let p = a.allocate(layout).unwrap();
    a.deallocate(p, layout).unwrap();
    let class = BlockLayout { size: size_class_info(17).unwrap().size_class, align: word_size() };
    let freed = inner.freed.borrow();
    assert_eq!(freed.len(), 1);
    assert_eq!(freed[0].1, class);
}
