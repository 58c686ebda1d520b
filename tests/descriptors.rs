use vslam::corners::{find_corners_mean_and_medium, get_pixel_coord};
use vslam::matching::{
    candidate_matches, descriptor_distance, matching, select_matches, symmetric_matching, threshold_matches, Descriptor,
};

fn bits(set: &[(usize, u8)]) -> Descriptor {
    let mut d = [0u8; 64];
    for &(i, b) in set {
        d[i] = b;
    }
    d
}

#[test]
fn distance_counts_differing_bits() {
    let a = bits(&[(0, 0b1011_0000), (63, 0xFF)]);
    let b = bits(&[(0, 0b0011_0001), (10, 0x0F)]);
    assert_eq!(descriptor_distance(&a, &a), 0);
    assert_eq!(descriptor_distance(&a, &b), 2 + 8 + 4);
    assert_eq!(descriptor_distance(&[0xFF; 64], &[0u8; 64]), 512);
}

#[test]
fn matching_picks_the_first_nearest() {
    let x = bits(&[(0, 0xFF)]);
    let near = bits(&[(0, 0xFE)]);
    let far = bits(&[(5, 0xFF)]);
    let r = matching(&vec![x], &vec![far, near, near]);
    assert_eq!(r, vec![(1, 1)]);
    let r = matching(&vec![x, far], &vec![x, far]);
    assert_eq!(r, vec![(0, 0), (1, 0)]);
}

#[test]
fn symmetric_matching_keeps_agreeing_pairs() {
    let p = bits(&[(0, 0xFF)]);
    let q = bits(&[(0, 0xFF), (1, 0x03)]);
    let r = bits(&[(9, 0xFF)]);
    // Forward: p -> q; reverse: q -> p. Emitted once.
    assert_eq!(symmetric_matching(&vec![p], &vec![q, r]), vec![((0, 0), 2)]);
}

#[test]
fn symmetric_matching_drops_one_sided_pairs() {
    let p = bits(&[(0, 0xFF)]);
    let closer = bits(&[(0, 0xFF), (1, 0x01)]);
    let q = bits(&[(0, 0xFF), (1, 0x03)]);
    // Both p and closer see q as nearest, but q's nearest is closer.
    assert_eq!(symmetric_matching(&vec![p, closer], &vec![q]), vec![((1, 0), 1)]);
    assert_eq!(symmetric_matching(&vec![], &vec![q]), vec![]);
    assert_eq!(symmetric_matching(&vec![p], &vec![]), vec![]);
}

#[test]
fn candidates_are_below_the_threshold() {
    let p = bits(&[(0, 0xFF)]);
    let q = bits(&[(0, 0xFF), (1, 0x03)]);
    let s = bits(&[(20, 0xFF)]);
    let t = bits(&[(20, 0xFF), (21, 0xFF)]);
    assert_eq!(candidate_matches(&vec![p, s], &vec![q, t], 64), vec![(0, 0), (1, 1)]);
    assert_eq!(candidate_matches(&vec![p, s], &vec![q, t], 8), vec![(0, 0), (1, 1)]);
    assert_eq!(candidate_matches(&vec![p, s], &vec![q, t], 7), vec![(0, 0)]);
    assert_eq!(candidate_matches(&vec![p, s], &vec![q, t], 1), vec![]);
    assert_eq!(threshold_matches(&vec![((0, 1), 3), ((2, 2), 9)], 5), vec![(0, 1)]);
    assert_eq!(threshold_matches(&vec![((0, 1), 3), ((2, 2), 9)], 9), vec![(0, 1), (2, 2)]);
}

#[test]
fn selection_skips_positions_out_of_range() {
    let m = vec![(0, 5), (1, 6), (2, 7)];
    assert_eq!(select_matches(&m, &vec![2, 9, 0]), vec![(2, 7), (0, 5)]);
    assert_eq!(select_matches(&m, &vec![]), vec![]);
}

#[test]
fn pixel_coordinates_are_clamped() {
    assert_eq!(get_pixel_coord((-5, 3), 10, 10), (0, 3));
    assert_eq!(get_pixel_coord((12, -1), 10, 20), (9, 0));
    assert_eq!(get_pixel_coord((4, 25), 10, 20), (4, 19));
    assert_eq!(get_pixel_coord((4, 5), 0, 20), (u32::MAX, 5));
}

#[test]
fn corners_mean_and_bounding_box_center() {
    let r = find_corners_mean_and_medium(&vec![(0, 0), (10, 4), (5, -7)]);
    assert_eq!(r.mean, (5, -1));
    assert_eq!(r.medium, (5, -1));
    let r = find_corners_mean_and_medium(&vec![(-3, -3), (-4, 0)]);
    assert_eq!(r.mean, (-3, -1));
    assert_eq!(r.medium, (-3, -1));
}
