use creature_creator::buffer_allocator::{BufferAllocator, StackBufferAllocator};

#[test]
fn buffer_allocator_counts_up_from_zero() {
    let mut allocator = StackBufferAllocator::<16>::new();
    for expected in 0..16usize {
        assert!(!allocator.is_full());
        assert_eq!(allocator.insert(), expected);
        assert!(allocator.is_allocated(expected));
    }
    assert!(allocator.is_full());
}

#[test]
fn buffer_allocator_hands_out_the_last_returned_first() {
    let mut allocator = StackBufferAllocator::<16>::new();
    for _ in 0..5 {
        allocator.insert();
    }
    allocator.remove(1);
    allocator.remove(3);
    assert!(!allocator.is_allocated(1));
    assert!(!allocator.is_allocated(3));
    assert!(allocator.is_allocated(2));
    assert!(!allocator.is_allocated(5));
    assert_eq!(allocator.insert(), 3);
    assert_eq!(allocator.insert(), 1);
    assert_eq!(allocator.insert(), 5);
}

#[test]
fn buffer_allocator_indices_in_use_are_distinct() {
    let mut allocator = StackBufferAllocator::<8>::new();
    let mut held: Vec<usize> = Vec::new();
    for _ in 0..8 {
        held.push(allocator.insert());
    }
    for give_back in [6usize, 0, 3] {
        allocator.remove(give_back);
        held.retain(|i| *i != give_back);
    }
    for _ in 0..3 {
        let i = allocator.insert();
        assert!(!held.contains(&i));
        assert!(i < 8);
        held.push(i);
    }
    held.sort();
    assert_eq!(held, vec![0, 1, 2, 3, 4, 5, 6, 7]);
    assert!(allocator.is_full());
}

#[test]
fn buffer_allocator_hands_out_a_returned_index_before_it_grows() {
    let mut a = StackBufferAllocator::<8>::new();
    let x = a.insert();
    let y = a.insert();
    a.remove(x);
    let z = a.insert();
    let w = a.insert();
    assert_eq!((x, y, z, w), (0, 1, 0, 2));
    assert_eq!(StackBufferAllocator::<4>::new().insert(), 0);
}
