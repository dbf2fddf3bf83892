use wee_alloc::trace::{Operation, Operations};
use wee_alloc::units::WORD_SIZE;
use wee_alloc::wee_alloc::WeeAlloc;

#[test]
fn regression_test_0() {
    Operations(vec![Operation::Alloc(1)]).run_single_threaded();
}

#[test]
fn regression_test_1() {
    Operations(vec![
        Operation::Alloc(1414),
        Operation::Free(0),
        Operation::Alloc(1414),
        Operation::Free(1),
    ])
    .run_single_threaded();
}

#[test]
fn regression_test_2() {
    Operations(vec![
        Operation::Alloc(168),
        Operation::Free(0),
        Operation::Alloc(0),
        Operation::Alloc(168),
        Operation::Free(2),
    ])
    .run_single_threaded();
}

#[test]
fn regression_test_3() {
    Operations(vec![Operation::Alloc(13672), Operation::Free(0), Operation::Alloc(1)])
        .run_single_threaded();
}

#[test]
fn allocate_size_zero() {
    let mut ops: Vec<Operation> = Vec::new();
    for _ in 0..1000 {
        ops.push(Operation::Alloc(0));
    }
    for i in 0..1000 {
        ops.push(Operation::Free(i));
    }
    Operations(ops).run_single_threaded();
}

#[test]
fn allocate_many_small() {
    let mut ops: Vec<Operation> = Vec::new();
    for _ in 0..100 {
        ops.push(Operation::Alloc(16 * std::mem::size_of::<usize>()));
    }
    for i in 0..100 {
        ops.push(Operation::Free(i));
    }
    for _ in 0..100 {
        ops.push(Operation::Alloc(256 * std::mem::size_of::<usize>()));
    }
    for i in 0..100 {
        ops.push(Operation::Free(i + 100));
    }
    Operations(ops).run_single_threaded();
}

#[test]
fn allocate_many_large() {
    let mut ops: Vec<Operation> = Vec::new();
    for _ in 0..100 {
        ops.push(Operation::Alloc(257 * std::mem::size_of::<usize>()));
    }
    for i in 0..100 {
        ops.push(Operation::Free(i));
    }
    for _ in 0..100 {
        ops.push(Operation::Alloc(1024 * std::mem::size_of::<usize>()));
    }
    for i in 0..100 {
        ops.push(Operation::Free(i + 100));
    }
    Operations(ops).run_single_threaded();
}

#[test]
fn foo() {
    println!("hello");
}

#[test]
fn strings() {
    format!("foo, bar, {}", "baz");
}

#[test]
fn can_use_low_bits() {
    assert!(
        WORD_SIZE >= 0b100,
        "we rely on being able to stick tags into the lowest two bits"
    );
}

#[test]
fn test_larger_than_word_alignment() {
    // Align to 32 bytes.
    let mut a = WeeAlloc::new();
    for _ in 0..100 {
        let p = a.alloc_impl(32, 32);
        assert!(p != 0);
        assert_eq!(p % 32, 0, "{} should be aligned to 32", p);
        a.dealloc_impl(p, 32, 32);
    }
}

#[test]
fn smoke() {
    // Any subsequent one-byte allocation must succeed after a free.
    let mut a = WeeAlloc::new();
    let p0 = a.alloc_impl(1, 1);
    assert!(p0 != 0);
    a.dealloc_impl(p0, 1, 1);
    let p1 = a.alloc_impl(1, 1);
    assert!(p1 != 0);
    a.dealloc_impl(p1, 1, 1);
}

#[test]
fn zero_size_sentinel() {
    // A zero-size request returns the alignment itself, and freeing the
    // sentinel changes nothing.
    let mut a = WeeAlloc::new();
    assert_eq!(a.alloc_impl(0, 16), 16);
    assert_eq!(a.alloc_impl(0, 1), 1);
    a.dealloc_impl(16, 0, 16);
    let p = a.alloc_impl(24, 8);
    assert!(p != 0);
}

#[test]
fn overflowing_size_returns_null() {
    // A size that overflows when rounded up to words yields null.
    let mut a = WeeAlloc::new();
    assert_eq!(a.alloc_impl(usize::MAX, 8), 0);
    assert_eq!(a.alloc_impl(usize::MAX - 6, 8), 0);
}

#[test]
fn budget_exhaustion_returns_null() {
    // Once the page budget cannot cover a refill, allocation yields null.
    let mut a = WeeAlloc::with_heap_limit(65536);
    let p = a.alloc_impl(300 * 8, 8);
    assert!(p != 0);
    let q = a.alloc_impl(70000, 8);
    assert_eq!(q, 0);
}

#[test]
fn alignment_of_results() {
    // Every pointer handed out is aligned as requested.
    let mut a = WeeAlloc::new();
    for e in 0..10 {
        let align = 1usize << e;
        let p = a.alloc_impl(100, align);
        if p != 0 {
            assert_eq!(p % align, 0);
        }
    }
}

#[test]
fn mid_size_reuse() {
    // A freed mid-sized cell serves the next same-sized request.
    let mut a = WeeAlloc::new();
    let p0 = a.alloc_impl(1414, 8);
    assert!(p0 != 0);
    a.dealloc_impl(p0, 1414, 8);
    let p1 = a.alloc_impl(1414, 8);
    assert!(p1 != 0);
}

#[test]
fn coalescing_merges_neighbors() {
    // Two allocations carve the tail of one fresh block; freeing them in
    // carve order folds each into its free physical predecessor, leaving
    // the block whole again.
    let mut a = WeeAlloc::new();
    let p1 = a.alloc_impl(5000, 16);
    let p2 = a.alloc_impl(5000, 16);
    assert!(p1 != 0 && p2 != 0);
    assert_eq!(a.head.cells.len(), 3);
    a.dealloc_impl(p2, 5000, 16);
    assert_eq!(a.head.cells.len(), 2);
    a.dealloc_impl(p1, 5000, 16);
    assert_eq!(a.head.cells.len(), 1);
}
