use procgen_core::heap::{create_heap_map, HeapError, Heapable, MinHeapMap, ScoredCell};

#[test]
fn swap_works() {
    let input = [0, 32, 65, 16];
    let mut heap_map = create_heap_map(2, &input);

    let key0 = heap_map.index_of((1, 1)).unwrap();
    let key1 = heap_map.index_of((1, 2)).unwrap();
    let key2 = heap_map.index_of((2, 1)).unwrap();
    let key3 = heap_map.index_of((2, 2)).unwrap();
    heap_map.swap(key0, key1);

    // The two swapped coordinates exchange positions; the rest keep theirs.
    assert_eq!(heap_map.index_of((1, 1)), Some(key1));
    assert_eq!(heap_map.index_of((1, 2)), Some(key0));
    assert_eq!(heap_map.index_of((2, 1)), Some(key2));
    assert_eq!(heap_map.index_of((2, 2)), Some(key3));
}

#[test]
fn heap_works() {
    let input = [0, 32, 65, 16, 19, 12, 14, 7, 8];
    let mut heap_map = create_heap_map(3, &input);

    assert_eq!(
        heap_map.pop().unwrap(),
        ScoredCell { val: 0, x: 1, y: 1 }
    );
    assert_eq!(heap_map.len(), 8);
    assert_eq!(
        heap_map.pop().unwrap(),
        ScoredCell { val: 7, x: 2, y: 3 }
    );

    heap_map
        .lookup_and_mutate((2, 2), |v: ScoredCell| ScoredCell { val: 0, ..v })
        .unwrap();

    assert_eq!(
        heap_map.pop().unwrap(),
        ScoredCell { val: 0, x: 2, y: 2 }
    );

    assert_eq!(
        heap_map.lookup((3, 2)),
        Some(&ScoredCell { val: 12, x: 3, y: 2 })
    );

    assert_eq!(
        heap_map.lookup((1, 3)),
        Some(&ScoredCell { val: 14, x: 1, y: 3 })
    );

    assert_eq!(
        heap_map.pop().unwrap(),
        ScoredCell { val: 8, x: 3, y: 3 }
    );
    assert_eq!(
        heap_map.pop().unwrap(),
        ScoredCell { val: 12, x: 3, y: 2 }
    );
    assert_eq!(
        heap_map.pop().unwrap(),
        ScoredCell { val: 14, x: 1, y: 3 }
    );
    assert_eq!(
        heap_map.pop().unwrap(),
        ScoredCell { val: 16, x: 1, y: 2 }
    );
    assert_eq!(
        heap_map.pop().unwrap(),
        ScoredCell { val: 32, x: 2, y: 1 }
    );
    assert_eq!(
        heap_map.pop().unwrap(),
        ScoredCell { val: 65, x: 3, y: 1 }
    );
}

#[test]
fn pop_on_empty_fails() {
    let mut heap: MinHeapMap<ScoredCell> = MinHeapMap::new();
    assert_eq!(heap.pop(), Err(HeapError::LengthIsZero));
}

#[test]
fn mutate_missing_key_fails() {
    let input = [3, 1, 4, 1];
    let mut heap_map = create_heap_map(2, &input);
    let r = heap_map.lookup_and_mutate((9, 9), |v: ScoredCell| v);
    assert_eq!(r, Err(HeapError::LookupReturnedNone));
}

#[test]
fn lookup_missing_key_is_none() {
    let heap: MinHeapMap<ScoredCell> = MinHeapMap::new();
    assert!(heap.lookup((1, 1)).is_none());
}

/// The heap invariant, observed through the public interface: whatever
/// sequence of inserts, mutations and pops runs, every pop returns the
/// minimum of what remains and every lookup finds its element.
#[test]
fn heap_invariant_under_random_operations() {
    // A fixed linear congruential sequence stands in for random input.
    let mut state: u64 = 0x2545_F491_4F6C_DD1D;
    let mut next = move || {
        state = state.wrapping_mul(6364136223846793005).wrapping_add(1442695040888963407);
        (state >> 33) as i32
    };

    let size: u32 = 7;
    let mut vals = Vec::new();
    for _ in 0..(size * size) {
        vals.push(next() % 1000);
    }
    let mut heap = create_heap_map(size, &vals);

    // Mutate a few cells downward; the heap must keep them findable.
    for k in 0..10u32 {
        let x = k % size + 1;
        let y = (k * 3) % size + 1;
        let delta = (next() % 500).abs();
        heap.lookup_and_mutate((x, y), move |v: ScoredCell| ScoredCell {
            val: v.val - delta,
            ..v
        })
        .unwrap();
        let found = heap.lookup((x, y)).unwrap();
        assert_eq!((found.x, found.y), (x, y));
    }

    // Pops come out in nondecreasing key order.
    let mut last = i32::MIN;
    let mut count = 0;
    while let Ok(cell) = heap.pop() {
        assert!(cell.val >= last);
        last = cell.val;
        count += 1;
    }
    assert_eq!(count, size * size);
    assert_eq!(heap.len(), 0);
}
