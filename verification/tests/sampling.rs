use stract_core::sampler::weighted_sample;
use stract_core::slop::intersection_with_slop;

#[test]
fn sampling() {
    let items: Vec<(usize, u64)> = vec![(0, 1), (1, 2), (2, 3), (3, 4)];
    let sampled = weighted_sample(&items, 10);
    assert_eq!(sampled.len(), items.len());

    let items: Vec<(usize, u64)> = vec![(0, 1), (1, 2), (2, 3), (3, 4)];
    let sampled = weighted_sample(&items, 1);
    assert_eq!(sampled.len(), 1);

    let items: Vec<(usize, u64)> = vec![(0, 1), (1, 2), (2, 3), (3, 4)];
    let sampled = weighted_sample(&items, 0);
    assert_eq!(sampled.len(), 0);

    let items: Vec<(usize, u64)> = vec![(0, 1000000000), (1, 2)];
    let sampled = weighted_sample(&items, 1);
    assert_eq!(sampled.len(), 1);
    assert_eq!(sampled[0], 0);
}

#[test]
fn sampling_distinct_and_complete() {
    let items: Vec<(u32, u64)> = vec![(10, 0), (20, 0), (30, 5)];
    let sampled = weighted_sample(&items, 2);
    assert_eq!(sampled.len(), 2);
    assert_ne!(sampled[0], sampled[1]);
    for s in &sampled {
        assert!(items.iter().any(|(i, _)| i == s));
    }

    let all = weighted_sample(&items, 3);
    let mut got = all.clone();
    got.sort();
    assert_eq!(got, vec![10, 20, 30]);
}

fn aux_intersection(left: &[u32], right: &[u32], expected: &[u32], slop: u32) {
    let left_v: Vec<u32> = left.to_vec();
    let right_v: Vec<u32> = right.to_vec();
    let mut out = vec![0; left.len().max(right.len())];

    let intersection_size = intersection_with_slop(&left_v, &right_v, &mut out, slop);

    assert_eq!(&out[..intersection_size], expected);
}

#[test]
fn test_intersection_with_slop() {
    aux_intersection(&[20, 75, 77], &[18, 21, 60], &[21, 60], u32::MAX);
    aux_intersection(&[21, 60], &[50, 61], &[61], 1);

    aux_intersection(&[1, 2, 3], &[], &[], 1);
    aux_intersection(&[], &[1, 2, 3], &[], 1);

    aux_intersection(&[1, 2, 3], &[4, 5, 6], &[4], 1);
    aux_intersection(&[1, 2, 3], &[4, 5, 6], &[4, 5, 6], u32::MAX);

    aux_intersection(&[20, 75, 77], &[18, 21, 60], &[21, 60], u32::MAX);
    aux_intersection(&[21, 60], &[61, 62], &[61, 62], 2);

    aux_intersection(&[60], &[61, 62], &[61, 62], 2);
}
