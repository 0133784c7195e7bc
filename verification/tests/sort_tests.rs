use algobench::sort::partition;
use algobench::sort::quicksort_iter;
use algobench::sort::quicksort_rec;

#[test]
fn sort_concrete_scenario_rec() {
    let mut v = vec![5, -1, 3, 3, 0];
    quicksort_rec(&mut v);
    assert_eq!(v, vec![-1, 0, 3, 3, 5]);
}

#[test]
fn sort_concrete_scenario_iter() {
    let mut v = vec![5, -1, 3, 3, 0];
    quicksort_iter(&mut v);
    assert_eq!(v, vec![-1, 0, 3, 3, 5]);
}

#[test]
fn sort_empty_and_single() {
    let mut e: Vec<i32> = vec![];
    quicksort_rec(&mut e);
    assert_eq!(e, Vec::<i32>::new());
    let mut e2: Vec<i32> = vec![];
    quicksort_iter(&mut e2);
    assert_eq!(e2, Vec::<i32>::new());
    let mut s = vec![7];
    quicksort_rec(&mut s);
    assert_eq!(s, vec![7]);
    let mut s2 = vec![7];
    quicksort_iter(&mut s2);
    assert_eq!(s2, vec![7]);
}

#[test]
fn sort_already_sorted_and_reversed() {
    let mut a = vec![1, 2, 3, 4, 5];
    quicksort_rec(&mut a);
    assert_eq!(a, vec![1, 2, 3, 4, 5]);
    let mut b = vec![5, 4, 3, 2, 1];
    quicksort_iter(&mut b);
    assert_eq!(b, vec![1, 2, 3, 4, 5]);
}

#[test]
fn sort_with_duplicates_and_extremes() {
    let mut v = vec![0, i32::MAX, i32::MIN, 0, -1, 1, i32::MAX];
    let mut w = v.clone();
    quicksort_rec(&mut v);
    quicksort_iter(&mut w);
    assert_eq!(v, vec![i32::MIN, -1, 0, 0, 1, i32::MAX, i32::MAX]);
    assert_eq!(v, w);
}

#[test]
fn sort_variants_agree() {
    let inputs = vec![
        vec![2, 8, 7, 1, 3, 5, 6, 4],
        vec![-3, -3, -3],
        vec![9, -9, 8, -8, 7, -7, 0],
        vec![42],
        vec![1, 1, 2, 1, 1],
    ];
    for input in inputs {
        let mut a = input.clone();
        let mut b = input.clone();
        quicksort_rec(&mut a);
        quicksort_iter(&mut b);
        assert_eq!(a, b);
    }
}

#[test]
fn partition_places_pivot() {
    // The classic Lomuto walk-through: pivot 4 lands at index 3, smaller
    // values left of it, larger values right of it.
    let mut v = vec![2, 8, 7, 1, 3, 5, 6, 4];
    let p = partition(&mut v, 0, 7);
    assert_eq!(p, 3);
    assert_eq!(v, vec![2, 1, 3, 4, 7, 5, 6, 8]);
    let pivot = v[p as usize];
    for k in 0..p {
        assert!(v[k as usize] <= pivot);
    }
    for k in (p + 1)..8 {
        assert!(v[k as usize] >= pivot);
    }
}

#[test]
fn partition_single_element() {
    let mut v = vec![3];
    let p = partition(&mut v, 0, 0);
    assert_eq!(p, 0);
    assert_eq!(v, vec![3]);
}

#[test]
fn partition_subrange_only() {
    // Only the range [1, 3] may move; the ends must stay put.
    let mut v = vec![100, 9, 1, 5, -100];
    let p = partition(&mut v, 1, 3);
    assert_eq!(v[0], 100);
    assert_eq!(v[4], -100);
    assert_eq!(v[p as usize], 5);
    assert_eq!(p, 2);
    assert_eq!(v, vec![100, 1, 5, 9, -100]);
}
