use slab_allocator::{Slab, FREE_NODE_SIZE, SLAB_SIZE};

fn carved(block_size: usize) -> Slab {
    let mut s = Slab::new(block_size);
    s.init();
    s
}

#[test]
fn new_slab_has_no_blocks() {
    let mut s = Slab::new(64);
    assert_eq!(s.free_count(), 0);
    assert_eq!(s.allocate_one(), None);
}

#[test]
fn init_count_matches_block_size() {
    for b in [8usize, 16, 24, 64, 100, 128, 1000, 1024, 2048, 4096] {
        let s = carved(b);
        assert_eq!(s.free_count(), SLAB_SIZE / b.max(FREE_NODE_SIZE));
    }
    assert_eq!(carved(100).free_count(), 40);
    assert_eq!(carved(4096).free_count(), 1);
}

#[test]
fn tiny_blocks_are_widened_to_a_node() {
    assert_eq!(carved(1).free_count(), 512);
    assert_eq!(carved(0).free_count(), 512);
    let mut s = carved(1);
    assert_eq!(s.allocate_one(), Some(511 * 8));
}

#[test]
fn oversized_block_carves_nothing() {
    let mut s = carved(5000);
    assert_eq!(s.free_count(), 0);
    assert_eq!(s.allocate_one(), None);
}

#[test]
fn blocks_come_out_in_descending_order() {
    let mut s = carved(64);
    assert_eq!(s.allocate_one(), Some(4032));
    assert_eq!(s.allocate_one(), Some(3968));
    assert_eq!(s.allocate_one(), Some(3904));
    assert_eq!(s.free_count(), 61);
}

#[test]
fn allocating_past_exhaustion_yields_none() {
    let mut s = carved(512);
    for _ in 0..8 {
        assert!(s.allocate_one().is_some());
    }
    assert_eq!(s.free_count(), 0);
    assert_eq!(s.allocate_one(), None);
    assert_eq!(s.allocate_one(), None);
    assert_eq!(s.free_count(), 0);
}

#[test]
fn freed_block_is_reused_first() {
    let mut s = carved(128);
    let a = s.allocate_one().unwrap();
    let b = s.allocate_one().unwrap();
    s.dealloc(a);
    assert_eq!(s.free_count(), 31);
    assert_eq!(s.allocate_one(), Some(a));
    s.dealloc(b);
    assert_eq!(s.allocate_one(), Some(b));
}

#[test]
fn free_all_then_reallocate_gives_same_addresses() {
    let mut s = carved(256);
    let mut first: Vec<usize> = Vec::new();
    for _ in 0..10 {
        first.push(s.allocate_one().unwrap());
    }
    for i in [3usize, 7, 0, 9, 1, 5, 2, 8, 4, 6] {
        s.dealloc(first[i]);
    }
    assert_eq!(s.free_count(), 16);
    let mut second: Vec<usize> = Vec::new();
    for _ in 0..10 {
        second.push(s.allocate_one().unwrap());
    }
    first.sort();
    second.sort();
    assert_eq!(first, second);
}

#[test]
fn whole_pool_round_trip() {
    let mut s = carved(1024);
    let mut got: Vec<usize> = Vec::new();
    while let Some(a) = s.allocate_one() {
        got.push(a);
    }
    assert_eq!(got, vec![3072, 2048, 1024, 0]);
    for a in got.iter() {
        s.dealloc(*a);
    }
    assert_eq!(s.free_count(), 4);
    let mut again: Vec<usize> = Vec::new();
    while let Some(a) = s.allocate_one() {
        again.push(a);
    }
    assert_eq!(again, vec![0, 1024, 2048, 3072]);
}

#[test]
fn contains_uses_half_open_range() {
    let s = carved(64);
    assert!(s.contains(0));
    assert!(s.contains(4095));
    assert!(!s.contains(4096));
    assert!(!s.contains(usize::MAX));
}

#[test]
fn contains_every_allocated_block() {
    let mut s = Slab::new_at(64, 10_000);
    s.init();
    while let Some(a) = s.allocate_one() {
        assert!(s.contains(a));
        assert!(a >= 10_000 && a < 10_000 + SLAB_SIZE);
    }
    assert!(!s.contains(9_999));
    assert!(s.contains(10_000));
    assert!(!s.contains(10_000 + SLAB_SIZE));
}

#[test]
fn reinit_makes_every_block_free_again() {
    let mut s = carved(64);
    s.allocate_one();
    s.allocate_one();
    s.init();
    assert_eq!(s.free_count(), 64);
    assert_eq!(s.allocate_one(), Some(4032));
}
