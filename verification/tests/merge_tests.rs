use inplacemerge::in_place_merge;

#[test]
fn test_single_elements() {
    let mut vec1: Vec<i64> = vec![1];
    let mut vec2: Vec<i64> = vec![2];

    in_place_merge(&mut vec1, &mut vec2);
    assert_eq!(vec![1], vec1);
    assert_eq!(vec![2], vec2);
}

#[test]
fn test_asymetric_elements_left_right_one_or_two() {
    let mut vec1: Vec<i64> = vec![1, 3];
    let mut vec2: Vec<i64> = vec![2];

    in_place_merge(&mut vec1, &mut vec2);
    assert_eq!(vec![1, 2], vec1);
    assert_eq!(vec![3], vec2);

    let mut vec1: Vec<i64> = vec![1];
    let mut vec2: Vec<i64> = vec![2, 3];

    in_place_merge(&mut vec1, &mut vec2);
    assert_eq!(vec![1], vec1);
    assert_eq!(vec![2, 3], vec2);

    let mut vec1: Vec<i64> = vec![2];
    let mut vec2: Vec<i64> = vec![1, 3];

    in_place_merge(&mut vec1, &mut vec2);
    assert_eq!(vec![1], vec1);
    assert_eq!(vec![2, 3], vec2);
}

#[test]
fn test_asymetric_elements_left_one_right_many() {
    let mut vec1: Vec<i64> = vec![1];
    let mut vec2: Vec<i64> = vec![2, 5, 7, 9, 10];

    in_place_merge(&mut vec1, &mut vec2);
    assert_eq!(vec![1], vec1);
    assert_eq!(vec![2, 5, 7, 9, 10], vec2);

    let mut vec1: Vec<i64> = vec![10];
    let mut vec2: Vec<i64> = vec![2, 5, 7, 9];

    in_place_merge(&mut vec1, &mut vec2);
    assert_eq!(vec![2], vec1);
    assert_eq!(vec![5, 7, 9, 10], vec2);
}

#[test]
fn test_alternate_sequence_odd_first() {
    let mut vec1: Vec<i64> = vec![1, 3, 5, 7];
    let mut vec2: Vec<i64> = vec![2, 4, 6, 8];

    in_place_merge(&mut vec1, &mut vec2);
    assert_eq!(vec![1, 2, 3, 4], vec1);
    assert_eq!(vec![5, 6, 7, 8], vec2);
}

#[test]
fn test_alternate_sequence_even_first() {
    let mut vec1: Vec<i64> = vec![2, 4, 6, 8];
    let mut vec2: Vec<i64> = vec![1, 3, 5, 7];

    in_place_merge(&mut vec1, &mut vec2);
    assert_eq!(vec![1, 2, 3, 4], vec1);
    assert_eq!(vec![5, 6, 7, 8], vec2);
}

#[test]
fn test_different_sizes_off_by_two_left_larger() {
    let mut vec1: Vec<i64> = vec![2, 4, 5, 7, 8, 9];
    let mut vec2: Vec<i64> = vec![0, 1, 3, 6];

    in_place_merge(&mut vec1, &mut vec2);
    assert_eq!(vec![0, 1, 2, 3, 4, 5], vec1);
    assert_eq!(vec![6, 7, 8, 9], vec2);
}

#[test]
fn test_empty_left_leaves_right_unchanged() {
    let mut vec1: Vec<i64> = vec![];
    let mut vec2: Vec<i64> = vec![4, 5, 6];

    in_place_merge(&mut vec1, &mut vec2);
    assert_eq!(Vec::<i64>::new(), vec1);
    assert_eq!(vec![4, 5, 6], vec2);
}

#[test]
fn test_empty_right_leaves_left_unchanged() {
    let mut vec1: Vec<i64> = vec![4, 5, 6];
    let mut vec2: Vec<i64> = vec![];

    in_place_merge(&mut vec1, &mut vec2);
    assert_eq!(vec![4, 5, 6], vec1);
    assert_eq!(Vec::<i64>::new(), vec2);
}

#[test]
fn test_both_empty() {
    let mut vec1: Vec<i64> = vec![];
    let mut vec2: Vec<i64> = vec![];

    in_place_merge(&mut vec1, &mut vec2);
    assert_eq!(Vec::<i64>::new(), vec1);
    assert_eq!(Vec::<i64>::new(), vec2);
}

#[test]
fn test_duplicates_across_both_views() {
    let mut vec1: Vec<i64> = vec![1, 3, 3, 7];
    let mut vec2: Vec<i64> = vec![3, 3, 5, 9];

    in_place_merge(&mut vec1, &mut vec2);
    assert_eq!(vec![1, 3, 3, 3], vec1);
    assert_eq!(vec![3, 5, 7, 9], vec2);
}

#[test]
fn test_split_boundary_never_moves() {
    let mut vec1: Vec<i64> = vec![5, 6, 7, 8, 9];
    let mut vec2: Vec<i64> = vec![0, 1];

    in_place_merge(&mut vec1, &mut vec2);
    assert_eq!(5, vec1.len());
    assert_eq!(2, vec2.len());
    assert_eq!(vec![0, 1, 5, 6, 7], vec1);
    assert_eq!(vec![8, 9], vec2);
}

#[test]
fn test_merge_is_multiset_preserving_sorted_arrangement() {
    let mut vec1: Vec<i64> = vec![-4, 0, 2, 2, 11];
    let mut vec2: Vec<i64> = vec![-9, -4, 2, 30];

    let mut expected: Vec<i64> = vec1.clone();
    expected.extend_from_slice(&vec2);
    expected.sort();

    in_place_merge(&mut vec1, &mut vec2);
    let mut joined = vec1.clone();
    joined.extend_from_slice(&vec2);
    assert_eq!(expected, joined);
}
