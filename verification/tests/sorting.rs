use quicksort::{partition, quicksort, sort, sort_range, SortError};

#[test]
fn sorts_first_sample() {
    let mut v: Vec<u64> = vec![9, 2, 20, 15, 65, 32, 11, 100, 43, 5, 2, 18];
    let high: usize = v.len() - 1;
    quicksort(&mut v, 0, high);
    assert_eq!(v, vec![2, 2, 5, 9, 11, 15, 18, 20, 32, 43, 65, 100]);
}

#[test]
fn sorts_second_sample() {
    let mut v: Vec<u64> = vec![92, 20, 18, 65, 32, 51, 100, 43, 5, 4, 18];
    sort(&mut v);
    assert_eq!(v, vec![4, 5, 18, 18, 20, 32, 43, 51, 65, 92, 100]);
}

#[test]
fn single_element_is_identity() {
    let mut v: Vec<u64> = vec![7];
    sort(&mut v);
    assert_eq!(v, vec![7]);
    quicksort(&mut v, 0, 0);
    assert_eq!(v, vec![7]);
}

#[test]
fn reverse_sorted_worst_case() {
    let mut v: Vec<u64> = vec![5, 4, 3, 2, 1];
    let high: usize = v.len() - 1;
    quicksort(&mut v, 0, high);
    assert_eq!(v, vec![1, 2, 3, 4, 5]);
}

#[test]
fn empty_vector_is_noop() {
    let mut v: Vec<u64> = Vec::new();
    sort(&mut v);
    assert!(v.is_empty());
}

#[test]
fn output_is_pairwise_sorted() {
    let mut v: Vec<u64> = vec![13, 0, 7, 7, 255, 1, 64, 3, 99, 2];
    sort(&mut v);
    for i in 0..v.len() - 1 {
        assert!(v[i] <= v[i + 1]);
    }
}

#[test]
fn output_is_permutation_of_input() {
    let input: Vec<u64> = vec![13, 0, 7, 7, 255, 1, 64, 3, 99, 2];
    let mut v: Vec<u64> = input.clone();
    sort(&mut v);
    assert_eq!(v.len(), input.len());
    for x in &input {
        let before: usize = input.iter().filter(|y| *y == x).count();
        let after: usize = v.iter().filter(|y| *y == x).count();
        assert_eq!(before, after);
    }
}

#[test]
fn sorting_sorted_input_is_identity() {
    let mut v: Vec<u64> = vec![1, 2, 2, 5, 9, 100];
    sort(&mut v);
    assert_eq!(v, vec![1, 2, 2, 5, 9, 100]);
    // Sorting twice gives the same vector as sorting once.
    let mut w: Vec<u64> = vec![9, 2, 20, 15, 65];
    sort(&mut w);
    let once: Vec<u64> = w.clone();
    sort(&mut w);
    assert_eq!(w, once);
}

#[test]
fn all_equal_values() {
    let mut v: Vec<u64> = vec![4, 4, 4, 4];
    sort(&mut v);
    assert_eq!(v, vec![4, 4, 4, 4]);
}

#[test]
fn partition_places_pivot() {
    let mut v: Vec<u64> = vec![9, 2, 20, 15, 5];
    let p: usize = partition(&mut v, 0, 4);
    assert_eq!(p, 1);
    assert_eq!(v, vec![2, 5, 20, 15, 9]);
    for i in 0..p {
        assert!(v[i] < v[p]);
    }
    for i in p + 1..v.len() {
        assert!(v[i] >= v[p]);
    }
}

#[test]
fn partition_leaves_outside_untouched() {
    let mut v: Vec<u64> = vec![7, 3, 9, 1, 5, 0];
    let p: usize = partition(&mut v, 1, 4);
    assert_eq!(p, 3);
    assert_eq!(v, vec![7, 3, 1, 5, 9, 0]);
    assert_eq!(v[0], 7);
    assert_eq!(v[5], 0);
}

#[test]
fn quicksort_touches_only_its_range() {
    let mut v: Vec<u64> = vec![8, 5, 4, 3, 2, 9];
    quicksort(&mut v, 1, 4);
    assert_eq!(v, vec![8, 2, 3, 4, 5, 9]);
}

#[test]
fn quicksort_on_trivial_range_is_noop() {
    let mut v: Vec<u64> = vec![3, 1, 2];
    quicksort(&mut v, 2, 2);
    assert_eq!(v, vec![3, 1, 2]);
    quicksort(&mut v, 2, 0);
    assert_eq!(v, vec![3, 1, 2]);
}

#[test]
fn sort_range_rejects_empty_vector() {
    let mut v: Vec<u64> = Vec::new();
    assert_eq!(sort_range(&mut v, 0, 0), Err(SortError::EmptySequence));
    assert!(v.is_empty());
}

#[test]
fn sort_range_rejects_high_out_of_range() {
    let mut v: Vec<u64> = vec![3, 1, 2];
    assert_eq!(sort_range(&mut v, 0, 3), Err(SortError::OutOfRange));
    assert_eq!(v, vec![3, 1, 2]);
}

#[test]
fn sort_range_rejects_low_out_of_range() {
    let mut v: Vec<u64> = vec![3, 1, 2];
    assert_eq!(sort_range(&mut v, 5, 2), Err(SortError::OutOfRange));
    assert_eq!(v, vec![3, 1, 2]);
}

#[test]
fn sort_range_sorts_the_subrange() {
    let mut v: Vec<u64> = vec![5, 4, 3, 2, 1];
    assert_eq!(sort_range(&mut v, 1, 3), Ok(()));
    assert_eq!(v, vec![5, 2, 3, 4, 1]);
}

#[test]
fn sort_range_with_low_at_or_above_high_is_noop() {
    let mut v: Vec<u64> = vec![3, 1];
    assert_eq!(sort_range(&mut v, 1, 0), Ok(()));
    assert_eq!(v, vec![3, 1]);
    assert_eq!(sort_range(&mut v, 1, 1), Ok(()));
    assert_eq!(v, vec![3, 1]);
}
