use shuffling_allocator::{BlockLayout, ShufflingAllocator, UnderlyingAlloc};
use std::cell::{Cell, RefCell};
use std::collections::HashMap;

/// An underlying allocator over a pretend address space: blocks are carved
/// from a bump pointer, aligned to 64 bytes, and their bytes live in a map.
struct Arena {
    next: Cell<usize>,
    memory: RefCell<HashMap<usize, u8>>,
}

impl UnderlyingAlloc for Arena {
    fn alloc_block(&self, layout: BlockLayout) -> usize {
        let align = if layout.align > 64 { layout.align } else { 64 };
        let start = (self.next.get() + align - 1) / align * align;
        self.next.set(start + layout.size + 1);
        start
    }

    fn dealloc_block(&self, p: usize, _layout: BlockLayout) {
        self.memory.borrow_mut().remove(&p);
    }
}

fn arena() -> &'static Arena {
    Box::leak(Box::new(Arena { next: Cell::new(4096), memory: RefCell::new(HashMap::new()) }))
}

#[test]
fn foo() {
    println!("hello");
}

#[test]
fn strings() {
    let s = format!("foo, bar, {}", "baz");
    assert_eq!(s, "foo, bar, baz");
}

#[test]
fn test_larger_than_word_alignment() {
    let inner = arena();
    let mut a = ShufflingAllocator::new(inner);
    let layout = BlockLayout { size: 1, align: 32 };
    assert_eq!(layout.align, 32);

    for _ in 0..100 {
        let p = a.allocate(layout).unwrap();
        inner.memory.borrow_mut().insert(p, 42);

        assert_eq!(p % 32, 0, "{:x} should be aligned to 32", p);

        assert_eq!(inner.memory.borrow()[&p], 42);
        a.deallocate(p, layout).unwrap();
    }
}

#[test]
fn many_small_allocs() {
    let inner = arena();
    let mut a = ShufflingAllocator::new(inner);
    let layout = BlockLayout { size: 4, align: 4 };
    let boxes: Vec<usize> = (0..1024).map(|_| a.allocate(layout).unwrap()).collect();
    let mut sorted = boxes.clone();
    sorted.sort();
    sorted.dedup();
    assert_eq!(sorted.len(), 1024);
    for p in boxes {
        a.deallocate(p, layout).unwrap();
    }
}
