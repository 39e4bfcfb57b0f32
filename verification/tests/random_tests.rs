use inplacemerge::in_place_merge;
use rand::prelude::SliceRandom;
use rand::thread_rng;

#[test]
fn random_test_one() {
    let len: i64 = 10000;
    let vec: Vec<i64> = (0..len).collect();
    let vec_copy = vec.clone();

    let mut shuffled = vec.clone();
    shuffled.shuffle(&mut thread_rng());
    let half = (len / 2) as usize;
    let mut vec1: Vec<i64> = shuffled[..half].to_vec();
    let mut vec2: Vec<i64> = shuffled[half..].to_vec();
    vec1.sort();
    vec2.sort();

    in_place_merge(&mut vec1, &mut vec2);
    let mut joined = vec1.clone();
    joined.extend_from_slice(&vec2);
    assert_eq!(joined, vec_copy);
}
