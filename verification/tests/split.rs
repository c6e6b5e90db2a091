use std::collections::HashSet;

use rooney::draws::DrawStream;
use rooney::split::{unroll, BlockSplit};

fn sorted(mut v: Vec<usize>) -> Vec<usize> {
    v.sort();
    v
}

#[test]
fn unroll_counts_back_from_origin() {
    assert_eq!(unroll(&vec![0], 3, 10), vec![9, 8, 7]);
    assert_eq!(unroll(&vec![2, 0], 3, 10), vec![3, 2, 1, 9, 8, 7]);
    assert_eq!(unroll(&vec![], 3, 10), Vec::<usize>::new());
    assert_eq!(unroll(&vec![1, 4], 0, 10), Vec::<usize>::new());
}

#[test]
fn train_blocks_are_the_complement_of_test_blocks() {
    let test: HashSet<usize> = [7, 3].into_iter().collect();
    let split = BlockSplit::from_test_set(100, 10, 10, &test);
    assert_eq!(split.train_blocks, vec![0, 1, 2, 4, 5, 6, 8, 9]);
    assert_eq!(sorted(split.test_blocks.clone()), vec![3, 7]);
    assert_eq!(
        sorted(split.test_indices()),
        vec![20, 21, 22, 23, 24, 25, 26, 27, 28, 29, 60, 61, 62, 63, 64, 65, 66, 67, 68, 69]
    );
    assert_eq!(split.train_indices().len(), 80);
    assert_eq!(&split.train_indices()[..3], &[99, 98, 97]);
}

#[test]
fn no_test_blocks_trains_on_everything() {
    let split = BlockSplit::from_test_set(35, 4, 8, &HashSet::new());
    assert_eq!(split.train_blocks, (0..8).collect::<Vec<usize>>());
    assert_eq!(sorted(split.train_indices()), (3..35).collect::<Vec<usize>>());
}

#[test]
fn plan_uses_whole_visible_blocks() {
    // window 2 and batch 2 give blocks of 10 windows; 95 visible windows hold 9 of them.
    let split = BlockSplit::plan(120, 95, 2, 2, 3, 42);
    assert_eq!(split.block_size, 10);
    assert_eq!(split.total_blocks, 9);
    assert_eq!(split.origin, 120);
    assert!(!split.test_blocks.is_empty() && split.test_blocks.len() <= 3);
    for b in &split.test_blocks {
        assert!(*b < 9);
        assert!(!split.train_blocks.contains(b));
    }
    assert_eq!(split.train_blocks.len() + split.test_blocks.len(), 9);
}

#[test]
fn plan_test_blocks_are_the_seeded_draws() {
    let split = BlockSplit::plan(1000, 1000, 4, 4, 6, 42);
    let mut stream = DrawStream::new(42, split.total_blocks);
    let drawn: HashSet<usize> = (0..6).map(|_| stream.draw()).collect();
    let tested: HashSet<usize> = split.test_blocks.iter().cloned().collect();
    assert_eq!(drawn, tested);
}

#[test]
fn plan_partitions_visible_windows() {
    let split = BlockSplit::plan(500, 500, 8, 32, 5, 7);
    assert_eq!(split.block_size, 64);
    assert_eq!(split.total_blocks, 7);
    let train = split.train_indices();
    let test = split.test_indices();
    let all: Vec<usize> = train.iter().chain(test.iter()).cloned().collect();
    assert_eq!(sorted(all), (500 - 64 * 7..500).collect::<Vec<usize>>());
    for i in &test {
        assert!(!train.contains(i));
    }
}

#[test]
fn plan_is_deterministic_for_a_seed() {
    let a = BlockSplit::plan(1000, 1000, 4, 4, 6, 42);
    let b = BlockSplit::plan(1000, 1000, 4, 4, 6, 42);
    assert_eq!(sorted(a.test_blocks.clone()), sorted(b.test_blocks.clone()));
    assert_eq!(a.train_blocks, b.train_blocks);
    assert_eq!(sorted(a.test_indices()), sorted(b.test_indices()));
}

#[test]
fn plan_without_test_blocks() {
    let split = BlockSplit::plan(50, 50, 1, 1, 0, 42);
    assert!(split.test_blocks.is_empty());
    assert_eq!(split.train_blocks, (0..10).collect::<Vec<usize>>());
}

#[test]
fn draws_stay_below_the_bound_and_repeat_for_a_seed() {
    let mut a = DrawStream::new(3, 5);
    let mut b = DrawStream::new(3, 5);
    for _ in 0..50 {
        let x = a.draw();
        assert!(x < 5);
        assert_eq!(x, b.draw());
    }
}
