use bfs::bits::BitSet;
use bfs::sort::{check_correct, partition, quicksort};
use bfs::timing::measure_raw;

#[test]
fn partition_around_last() {
    let mut v = vec![5usize, 1, 8, 3, 4];
    let p = partition(&mut v, 0, 4);
    assert_eq!(p, 2);
    assert_eq!(v[p], 4);
    assert_eq!(v, vec![1, 3, 4, 5, 8]);
}

#[test]
fn partition_inner_range_only() {
    let mut v = vec![9usize, 7, 2, 6, 0];
    let p = partition(&mut v, 1, 3);
    assert_eq!(p, 2);
    assert_eq!(v, vec![9, 2, 6, 7, 0]);
}

#[test]
fn quicksort_sorts() {
    let mut v = vec![3usize, 9, 1, 1, 0, 7, 5, 3, 2];
    let n = v.len() - 1;
    quicksort(&mut v, 0, n);
    assert_eq!(v, vec![0, 1, 1, 2, 3, 3, 5, 7, 9]);
    assert!(check_correct(&v));
}

#[test]
fn quicksort_range_and_edges() {
    let mut v = vec![9usize, 4, 3, 2, 1, 0];
    quicksort(&mut v, 1, 4);
    assert_eq!(v, vec![9, 1, 2, 3, 4, 0]);
    let mut one = vec![5usize];
    quicksort(&mut one, 0, 0);
    assert_eq!(one, vec![5]);
    let mut same = vec![2usize; 6];
    quicksort(&mut same, 0, 5);
    assert_eq!(same, vec![2; 6]);
    let mut desc: Vec<usize> = (0..200).rev().collect();
    quicksort(&mut desc, 0, 199);
    assert_eq!(desc, (0..200).collect::<Vec<usize>>());
    let mut big = vec![usize::MAX, 0, usize::MAX - 1];
    quicksort(&mut big, 0, 2);
    assert_eq!(big, vec![0, usize::MAX - 1, usize::MAX]);
}

#[test]
fn quicksort_random_matches_std() {
    let mut rng = fastrand::Rng::with_seed(1);
    for len in 1..120 {
        let mut v: Vec<usize> = (0..len).map(|_| rng.usize(0..50)).collect();
        let mut expect = v.clone();
        expect.sort();
        quicksort(&mut v, 0, len - 1);
        assert_eq!(v, expect);
    }
}

#[test]
fn check_correct_detects_order() {
    assert!(check_correct(&[]));
    assert!(check_correct(&[4]));
    assert!(check_correct(&[1, 1, 2]));
    assert!(!check_correct(&[2, 1]));
    assert!(!check_correct(&[0, 5, 3, 9]));
}

#[test]
fn bitset_set_and_get() {
    let mut b = BitSet::zeroed(10);
    assert!(!b.get(3));
    b.set(3, true);
    assert!(b.get(3));
    assert!(!b.get(4));
    b.set(3, false);
    assert!(!b.get(3));
}

#[test]
fn measure_raw_runs_once() {
    let mut calls = 0;
    let _ = measure_raw(|| {
        calls += 1;
        calls
    });
    assert_eq!(calls, 1);
}
