use inplacemerge::lomuto_partition;
use inplacemerge::merge_range;
use inplacemerge::partition;
use inplacemerge::quicksort;

#[test]
fn partition_bounds_test_single() {
    let mut elements: Vec<i64> = vec![1];
    assert_eq!(0, partition(&mut elements));
}

#[test]
fn partition_bounds_test_mostly_sorted() {
    let mut elements: Vec<i64> = vec![10, 2, 4, 5, 6];
    let expected: Vec<i64> = vec![6, 2, 4, 5, 10];

    assert_eq!(4, partition(&mut elements));
    assert_eq!(expected, elements);

    let mut elements: Vec<i64> = vec![2, 4, 5, 6, 10];
    let expected: Vec<i64> = vec![2, 4, 5, 6, 10];

    assert_eq!(0, partition(&mut elements));
    assert_eq!(expected, elements);
}

#[test]
fn partition_bounds_test_2_elements_sorted() {
    let mut elements: Vec<i64> = vec![15, 10];
    let expected: Vec<i64> = vec![10, 15];

    assert_eq!(1, partition(&mut elements));
    assert_eq!(expected, elements);

    let mut elements: Vec<i64> = vec![10, 15];
    let expected: Vec<i64> = vec![10, 15];

    assert_eq!(0, partition(&mut elements));
    assert_eq!(expected, elements);

    let mut elements: Vec<i64> = vec![15, 5, 10];
    let expected: Vec<i64> = vec![10, 5, 15];

    assert_eq!(2, partition(&mut elements));
    assert_eq!(expected, elements);
}

#[test]
fn quicksort_test() {
    let mut vec: Vec<i64> = vec![1, 5, 10, 2, 15];
    let mut vec2 = vec.clone();

    quicksort(&mut vec);
    vec2.sort();
    assert_eq!(vec![1, 2, 5, 10, 15], vec);
    assert_eq!(vec2, vec);

    let mut vec: Vec<i64> = vec![1, 5, 10, 15, 2];
    let mut vec2 = vec.clone();

    quicksort(&mut vec);
    vec2.sort();
    assert_eq!(vec2, vec);

    let mut vec: Vec<i64> = vec![15, 5, 10];
    let mut vec2 = vec.clone();

    quicksort(&mut vec);
    vec2.sort();
    assert_eq!(vec2, vec);

    let mut vec: Vec<i64> = vec![1, 2, 3, 4, 5];
    let mut vec2 = vec.clone();

    quicksort(&mut vec);
    vec2.sort();
    assert_eq!(vec2, vec);

    let mut vec: Vec<i64> = vec![5, 4, 3, 2, 1];
    let mut vec2 = vec.clone();

    quicksort(&mut vec);
    vec2.sort();
    assert_eq!(vec2, vec);
}

#[test]
fn lomuto_partition_places_pivot() {
    let mut elements: Vec<i64> = vec![4, 7, 1, 4, 9, 0];

    let p = lomuto_partition(&mut elements);
    assert_eq!(4, elements[p]);
    for q in 0..p {
        assert!(elements[q] <= elements[p]);
    }
    for q in p + 1..elements.len() {
        assert!(elements[q] > elements[p]);
    }

    let mut empty: Vec<i64> = vec![];
    assert_eq!(0, lomuto_partition(&mut empty));
    assert_eq!(Vec::<i64>::new(), empty);
}

#[test]
fn merge_range_sorts_the_middle_only() {
    let mut v: Vec<i64> = vec![9, 2, 6, 8, 1, 5, 7, 0];
    // merge the runs [2, 6, 8] and [1, 5, 7] in place
    merge_range(&mut v, 1, 4, 7);
    assert_eq!(vec![9, 1, 2, 5, 6, 7, 8, 0], v);
}
