use slab_allocator::{SlabAllocator, NUM_CLASSES, SLAB_SIZE};

fn counts(a: &SlabAllocator) -> Vec<usize> {
    (0..NUM_CLASSES).map(|k| a.slab(k).unwrap().free_count()).collect()
}

#[test]
fn new_allocator_is_uninitialized() {
    let a = SlabAllocator::new();
    assert!(!a.is_initialized());
    assert_eq!(counts(&a), vec![0, 0, 0, 0, 0]);
    assert!(a.slab(NUM_CLASSES).is_none());
}

#[test]
fn init_carves_every_class_once() {
    let mut a = SlabAllocator::new();
    a.init();
    assert!(a.is_initialized());
    assert_eq!(counts(&a), vec![64, 32, 16, 8, 4]);
    a.allocate(64, 1).unwrap();
    a.init();
    assert_eq!(counts(&a), vec![63, 32, 16, 8, 4]);
}

#[test]
fn first_allocate_initializes() {
    let mut a = SlabAllocator::new();
    let r = a.allocate(10, 1);
    assert!(a.is_initialized());
    assert_eq!(r, Some(4032));
}

#[test]
fn size_classes_are_smallest_fit() {
    let a = SlabAllocator::new();
    assert_eq!(a.get_slab_for_size(0), Some(0));
    assert_eq!(a.get_slab_for_size(64), Some(0));
    assert_eq!(a.get_slab_for_size(65), Some(1));
    assert_eq!(a.get_slab_for_size(128), Some(1));
    assert_eq!(a.get_slab_for_size(129), Some(2));
    assert_eq!(a.get_slab_for_size(256), Some(2));
    assert_eq!(a.get_slab_for_size(300), Some(3));
    assert_eq!(a.get_slab_for_size(512), Some(3));
    assert_eq!(a.get_slab_for_size(513), Some(4));
    assert_eq!(a.get_slab_for_size(1024), Some(4));
    assert_eq!(a.get_slab_for_size(1025), None);
    assert_eq!(a.get_slab_for_size(usize::MAX), None);
}

#[test]
fn pools_are_found_by_address() {
    let a = SlabAllocator::new();
    assert_eq!(a.find_slab_for_ptr(0), Some(0));
    assert_eq!(a.find_slab_for_ptr(SLAB_SIZE - 1), Some(0));
    assert_eq!(a.find_slab_for_ptr(SLAB_SIZE), Some(1));
    assert_eq!(a.find_slab_for_ptr(3 * SLAB_SIZE + 7), Some(3));
    assert_eq!(a.find_slab_for_ptr(5 * SLAB_SIZE - 1), Some(4));
    assert_eq!(a.find_slab_for_ptr(5 * SLAB_SIZE), None);
}

#[test]
fn small_request_routes_to_64_byte_class() {
    let mut a = SlabAllocator::new();
    let p = a.allocate(50, 8).unwrap();
    assert!(a.slab(0).unwrap().contains(p));
    assert_eq!(counts(&a), vec![63, 32, 16, 8, 4]);
}

#[test]
fn largest_request_routes_to_1024_byte_class() {
    let mut a = SlabAllocator::new();
    let p = a.allocate(1024, 1).unwrap();
    assert!(a.slab(4).unwrap().contains(p));
    assert_eq!(p, 4 * SLAB_SIZE + 3072);
    assert_eq!(counts(&a), vec![64, 32, 16, 8, 3]);
}

#[test]
fn oversize_request_yields_none() {
    let mut a = SlabAllocator::new();
    assert_eq!(a.allocate(1025, 1), None);
    assert_eq!(counts(&a), vec![64, 32, 16, 8, 4]);
    assert_eq!(a.allocate(1, 2048), None);
}

#[test]
fn alignment_raises_the_class() {
    let mut a = SlabAllocator::new();
    let p = a.allocate(8, 128).unwrap();
    assert!(a.slab(1).unwrap().contains(p));
    let q = a.allocate(200, 16).unwrap();
    assert!(a.slab(2).unwrap().contains(q));
}

#[test]
fn sixty_four_small_blocks_then_none() {
    let mut a = SlabAllocator::new();
    for _ in 0..64 {
        assert!(a.allocate(64, 1).is_some());
    }
    assert_eq!(a.allocate(64, 1), None);
    assert_eq!(counts(&a), vec![0, 32, 16, 8, 4]);
}

#[test]
fn exhausted_class_does_not_borrow_from_another() {
    let mut a = SlabAllocator::new();
    for _ in 0..4 {
        a.allocate(1000, 8).unwrap();
    }
    assert_eq!(a.allocate(1000, 8), None);
    assert_eq!(counts(&a), vec![64, 32, 16, 8, 0]);
}

#[test]
fn unowned_free_changes_nothing() {
    let mut a = SlabAllocator::new();
    a.allocate(100, 8).unwrap();
    let before = counts(&a);
    a.deallocate(5 * SLAB_SIZE, 64, 8);
    a.deallocate(usize::MAX, 64, 8);
    assert_eq!(counts(&a), before);
}

#[test]
fn free_returns_block_to_its_class() {
    let mut a = SlabAllocator::new();
    let p = a.allocate(300, 8).unwrap();
    assert_eq!(counts(&a), vec![64, 32, 16, 7, 4]);
    a.deallocate(p, 300, 8);
    assert_eq!(counts(&a), vec![64, 32, 16, 8, 4]);
    assert_eq!(a.allocate(400, 4), Some(p));
}
