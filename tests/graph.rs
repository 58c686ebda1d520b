use std::cell::Cell;
use std::rc::Rc;

use vslam::matching::Descriptor;
use vslam::{Geometry, Pair, VSlam};

#[derive(Clone, Default)]
struct Calls {
    fits: Rc<Cell<usize>>,
    solves: Rc<Cell<usize>>,
    refines: Rc<Cell<usize>>,
}

struct Stub {
    calls: Calls,
    fail_fit: bool,
    fail_pose: bool,
    reject_all: bool,
    pose: i64,
}

impl Stub {
    fn new(calls: &Calls) -> Stub {
        Stub { calls: calls.clone(), fail_fit: false, fail_pose: false, reject_all: false, pose: 10 }
    }
}

impl Geometry for Stub {
    type Intrinsics = ();
    type Image = Vec<Descriptor>;
    type Keypoint = usize;
    type Essential = ();
    type Pose = i64;
    type Point = (usize, usize);

    fn extract(&self, _intrinsics: &(), image: &Vec<Descriptor>) -> Vec<(usize, Descriptor)> {
        image.iter().enumerate().map(|(i, d)| (i, *d)).collect()
    }

    fn fit_essential(
        &mut self,
        _a: &Vec<(usize, Descriptor)>,
        _b: &Vec<(usize, Descriptor)>,
        matches: &Vec<(usize, usize)>,
    ) -> Option<((), Vec<usize>)> {
        self.calls.fits.set(self.calls.fits.get() + 1);
        if self.fail_fit {
            None
        } else {
            Some(((), (0..matches.len()).collect()))
        }
    }

    fn solve_pose(
        &mut self,
        _essential: &(),
        _a: &Vec<(usize, Descriptor)>,
        _b: &Vec<(usize, Descriptor)>,
        matches: &Vec<(usize, usize)>,
    ) -> Option<(i64, Vec<usize>)> {
        self.calls.solves.set(self.calls.solves.get() + 1);
        if self.fail_pose {
            None
        } else {
            Some((self.pose, (0..matches.len()).collect()))
        }
    }

    fn sample(&mut self, len: usize, amount: usize) -> Vec<usize> {
        (0..len.min(amount)).collect()
    }

    fn refine_pose(
        &mut self,
        pose: i64,
        _a: &Vec<(usize, Descriptor)>,
        _b: &Vec<(usize, Descriptor)>,
        _matches: &Vec<(usize, usize)>,
    ) -> i64 {
        self.calls.refines.set(self.calls.refines.get() + 1);
        pose
    }

    fn consistent(&self, _pose: &i64, _a: &usize, _b: &usize) -> bool {
        !self.reject_all
    }

    fn identity(&self) -> i64 {
        0
    }

    fn spec_identity(&self) -> i64 {
        0
    }

    fn spec_extract(&self, intrinsics: (), image: Vec<Descriptor>) -> Vec<(usize, Descriptor)> {
        self.extract(&intrinsics, &image)
    }

    fn spec_consistent(&self, pose: i64, a: usize, b: usize) -> bool {
        self.consistent(&pose, &a, &b)
    }

    fn spec_compose(&self, a: i64, b: i64) -> i64 {
        a + b
    }

    fn spec_relative(&self, from: i64, to: i64) -> i64 {
        to - from
    }

    fn spec_triangulate_relative(&self, pose: i64, a: usize, b: usize) -> Option<(usize, usize)> {
        self.triangulate_relative(&pose, &a, &b)
    }

    fn spec_triangulate_observances(&self, observations: Vec<(i64, usize)>) -> Option<(usize, usize)> {
        self.triangulate_observances(observations)
    }

    fn compose(&self, a: &i64, b: &i64) -> i64 {
        a + b
    }

    fn relative(&self, from: &i64, to: &i64) -> i64 {
        to - from
    }

    fn triangulate_relative(&self, _pose: &i64, a: &usize, b: &usize) -> Option<(usize, usize)> {
        Some((*a, *b))
    }

    fn triangulate_observances(&self, observations: Vec<(i64, usize)>) -> Option<(usize, usize)> {
        observations.first().map(|(_, k)| (*k, observations.len()))
    }

    fn refine_poses(&mut self, poses: Vec<i64>, _observations: Vec<Vec<Option<usize>>>) -> Vec<i64> {
        poses.into_iter().enumerate().map(|(i, p)| p + 100 * (i as i64 + 1)).collect()
    }
}

fn desc(seed: usize) -> Descriptor {
    let mut d = [0u8; 64];
    d[seed % 64] = 0xFF;
    d[(seed + 7) % 64] = 0x0F;
    d
}

fn image(seeds: &[usize]) -> Vec<Descriptor> {
    seeds.iter().map(|&s| desc(s)).collect()
}

/// A reconstruction with `n` frames of three features each, every frame in a
/// feed of its own, so that nothing is matched automatically.
fn isolated_frames(n: usize) -> (VSlam<Stub>, Calls) {
    let calls = Calls::default();
    let mut slam = VSlam::new(Stub::new(&calls));
    for _ in 0..n {
        let feed = slam.insert_feed(());
        slam.insert_frame(feed, &image(&[1, 2, 3]));
    }
    (slam, calls)
}

fn observances(slam: &VSlam<Stub>, h: usize) -> Vec<(usize, usize)> {
    let mut v = slam.landmark_observances(h).unwrap();
    v.sort();
    v
}

#[test]
fn pair_new_is_canonical() {
    assert_eq!(Pair::new(3, 7), Pair::new(7, 3));
    assert_eq!(Pair::new(7, 3), Pair(3, 7));
    assert_eq!(Pair::new(5, 5), Pair(5, 5));
    let p = Pair::new(9, 2);
    assert!(p.0 <= p.1);
}

#[test]
fn consecutive_frames_of_a_feed_are_matched() {
    let calls = Calls::default();
    let mut slam = VSlam::new(Stub::new(&calls));
    let feed = slam.insert_feed(());
    let a = slam.insert_frame(feed, &image(&[1, 2, 3]));
    assert_eq!(slam.match_outcome(Pair::new(a, a)), None);
    let b = slam.insert_frame(feed, &image(&[1, 2, 3]));
    assert_eq!((a, b), (0, 1));
    assert_eq!(slam.match_outcome(Pair::new(a, b)), Some(true));
    let c = slam.covisibility(Pair::new(a, b)).unwrap();
    assert_eq!(c.matches, vec![(0, 0), (1, 1), (2, 2)]);
    assert_eq!(c.pose, 10);
    assert_eq!(slam.landmark_count(), 3);
    let h = slam.feature_landmark(0, 1).unwrap();
    assert_eq!(slam.feature_landmark(1, 1), Some(h));
    assert_eq!(observances(&slam, h), vec![(0, 1), (1, 1)]);
}

#[test]
fn try_match_twice_on_success_does_not_recompute() {
    let calls = Calls::default();
    let mut slam = VSlam::new(Stub::new(&calls));
    let feed = slam.insert_feed(());
    slam.insert_frame(feed, &image(&[1, 2, 3]));
    slam.insert_frame(feed, &image(&[1, 2, 3]));
    assert_eq!(calls.fits.get(), 1);
    assert_eq!(calls.refines.get(), 1);
    assert!(slam.try_match(Pair::new(1, 0)));
    assert!(slam.try_match(Pair::new(0, 1)));
    assert_eq!(calls.fits.get(), 1);
    assert_eq!(calls.solves.get(), 1);
    assert_eq!(calls.refines.get(), 1);
    assert_eq!(slam.landmark_count(), 3);
}

#[test]
fn try_match_twice_on_failure_does_not_recompute() {
    let calls = Calls::default();
    let mut stub = Stub::new(&calls);
    stub.fail_fit = true;
    let mut slam = VSlam::new(stub);
    let feed = slam.insert_feed(());
    slam.insert_frame(feed, &image(&[1, 2, 3]));
    slam.insert_frame(feed, &image(&[1, 2, 3]));
    assert_eq!(calls.fits.get(), 1);
    assert_eq!(slam.match_outcome(Pair::new(0, 1)), Some(false));
    assert!(!slam.try_match(Pair::new(0, 1)));
    assert!(!slam.try_match(Pair::new(0, 1)));
    assert_eq!(calls.fits.get(), 1);
    assert_eq!(calls.solves.get(), 0);
    assert_eq!(slam.landmark_count(), 0);
    assert!(slam.covisibility(Pair::new(0, 1)).is_none());
}

#[test]
fn try_match_runs_the_pipeline_once_for_a_new_pair() {
    let (mut slam, calls) = isolated_frames(3);
    assert_eq!(calls.fits.get(), 0);
    assert!(slam.try_match(Pair::new(0, 2)));
    assert_eq!(calls.fits.get(), 1);
    assert!(slam.try_match(Pair::new(2, 0)));
    assert_eq!(calls.fits.get(), 1);
    assert_eq!(slam.match_outcome(Pair::new(0, 1)), None);
}

#[test]
fn frames_without_common_features_fail_to_match() {
    let calls = Calls::default();
    let mut slam = VSlam::new(Stub::new(&calls).pose_of(3));
    let feed = slam.insert_feed(());
    slam.insert_frame(feed, &image(&[]));
    slam.insert_frame(feed, &image(&[1, 2]));
    assert_eq!(slam.match_outcome(Pair::new(0, 1)), Some(false));
}

impl Stub {
    fn pose_of(mut self, pose: i64) -> Stub {
        self.pose = pose;
        self
    }
}

#[test]
fn match_threshold_refuses_distant_matches() {
    let calls = Calls::default();
    let mut slam = VSlam::new(Stub::new(&calls)).match_threshold(5);
    let feed = slam.insert_feed(());
    slam.insert_frame(feed, &image(&[1]));
    let mut other = desc(1);
    other[40] = 0xFF;
    slam.insert_frame(feed, &vec![other]);
    assert_eq!(slam.match_outcome(Pair::new(0, 1)), Some(false));
    assert_eq!(calls.fits.get(), 1);
}

#[test]
fn new_landmark_has_two_observations() {
    let (mut slam, _) = isolated_frames(2);
    let h = slam.add_match_to_landmarks(Pair::new(0, 1), (2, 0)).unwrap();
    assert_eq!(slam.landmark_count(), 1);
    assert_eq!(observances(&slam, h), vec![(0, 2), (1, 0)]);
    assert_eq!(slam.feature_landmark(0, 2), Some(h));
    assert_eq!(slam.feature_landmark(1, 0), Some(h));
    assert_eq!(slam.feature_landmark(0, 0), None);
}

#[test]
fn landmark_is_extended_by_one_observation() {
    let (mut slam, _) = isolated_frames(3);
    let h = slam.add_match_to_landmarks(Pair::new(0, 1), (0, 1)).unwrap();
    assert_eq!(slam.add_match_to_landmarks(Pair::new(1, 2), (1, 2)), Some(h));
    assert_eq!(slam.landmark_count(), 1);
    assert_eq!(observances(&slam, h), vec![(0, 0), (1, 1), (2, 2)]);
    assert_eq!(slam.feature_landmark(2, 2), Some(h));
    let g = slam.add_match_to_landmarks(Pair::new(0, 2), (1, 0)).unwrap();
    assert_ne!(g, h);
    assert_eq!(slam.add_match_to_landmarks(Pair::new(1, 2), (0, 0)), Some(g));
    assert_eq!(observances(&slam, g), vec![(0, 1), (1, 0), (2, 0)]);
}

#[test]
fn shared_landmark_is_left_alone() {
    let (mut slam, _) = isolated_frames(2);
    let h = slam.add_match_to_landmarks(Pair::new(0, 1), (1, 1)).unwrap();
    assert_eq!(slam.add_match_to_landmarks(Pair::new(0, 1), (1, 1)), Some(h));
    assert_eq!(slam.landmark_count(), 1);
    assert_eq!(observances(&slam, h), vec![(0, 1), (1, 1)]);
}

#[test]
fn different_landmarks_are_merged_into_the_first() {
    let (mut slam, _) = isolated_frames(5);
    let l1 = slam.add_match_to_landmarks(Pair::new(1, 2), (0, 1)).unwrap();
    let l2 = slam.add_match_to_landmarks(Pair::new(3, 4), (2, 0)).unwrap();
    assert_ne!(l1, l2);
    assert_eq!(slam.landmark_count(), 2);
    assert_eq!(slam.add_match_to_landmarks(Pair::new(2, 3), (1, 2)), Some(l1));
    assert_eq!(slam.landmark_count(), 1);
    assert!(slam.landmark_observances(l2).is_none());
    assert_eq!(observances(&slam, l1), vec![(1, 0), (2, 1), (3, 2), (4, 0)]);
    assert_eq!(slam.feature_landmark(3, 2), Some(l1));
    assert_eq!(slam.feature_landmark(4, 0), Some(l1));
    assert_eq!(slam.feature_landmark(1, 0), Some(l1));
}

#[test]
fn merged_landmark_handle_is_reused() {
    let (mut slam, _) = isolated_frames(4);
    let l1 = slam.add_match_to_landmarks(Pair::new(0, 1), (0, 0)).unwrap();
    let l2 = slam.add_match_to_landmarks(Pair::new(2, 3), (0, 0)).unwrap();
    slam.add_match_to_landmarks(Pair::new(1, 2), (0, 0));
    let l3 = slam.add_match_to_landmarks(Pair::new(0, 1), (1, 1)).unwrap();
    assert_eq!(l3, l2);
    assert_ne!(l3, l1);
}

/// Frames 0, 1 and 2 in one feed: (0, 1) and (1, 2) are matched, (0, 2) never is.
fn chain() -> VSlam<Stub> {
    let calls = Calls::default();
    let mut slam = VSlam::new(Stub::new(&calls));
    let feed = slam.insert_feed(());
    slam.insert_frame(feed, &image(&[1, 2, 3]));
    slam.insert_frame(feed, &image(&[1, 2, 3]));
    slam.insert_frame(feed, &image(&[1, 2, 3]));
    slam
}

#[test]
fn frame_graph_follows_a_chain() {
    let slam = chain();
    assert_eq!(slam.match_outcome(Pair::new(0, 2)), None);
    let graph = slam.frame_graph(&vec![2, 0, 1, 2]);
    let frames: Vec<usize> = graph.poses.iter().map(|p| p.0).collect();
    assert_eq!(frames, vec![0, 1, 2]);
    assert_eq!(graph.pairs, vec![Pair(0, 1), Pair(1, 2)]);
    let pose1 = graph.poses[1].1;
    let relative12 = slam.covisibility(Pair::new(1, 2)).unwrap().pose;
    assert_eq!(graph.poses[0].1, 0);
    assert_eq!(graph.poses[2].1, pose1 + relative12);
    assert_eq!(graph.poses[2].1, 20);
}

#[test]
fn frame_graph_leaves_out_disconnected_frames() {
    let calls = Calls::default();
    let mut slam = VSlam::new(Stub::new(&calls));
    let a = slam.insert_feed(());
    let b = slam.insert_feed(());
    slam.insert_frame(a, &image(&[1, 2, 3]));
    slam.insert_frame(a, &image(&[1, 2, 3]));
    for _ in 0..4 {
        slam.insert_frame(b, &image(&[4, 5, 6]));
    }
    let graph = slam.frame_graph(&vec![0, 1, 5]);
    let frames: Vec<usize> = graph.poses.iter().map(|p| p.0).collect();
    assert_eq!(frames, vec![0, 1]);
    assert_eq!(graph.pairs.len(), 1);
    assert_eq!(graph.pairs, vec![Pair(0, 1)]);
}

#[test]
fn frame_graph_of_nothing_is_empty() {
    let slam = chain();
    let graph = slam.frame_graph(&vec![]);
    assert!(graph.poses.is_empty());
    assert!(graph.pairs.is_empty());
}

#[test]
fn frame_graph_prefers_the_lowest_placed_frame() {
    let (mut slam, _) = isolated_frames(3);
    slam.try_match(Pair::new(1, 2));
    slam.try_match(Pair::new(0, 1));
    slam.try_match(Pair::new(0, 2));
    let graph = slam.frame_graph(&vec![0, 1, 2]);
    assert_eq!(graph.pairs, vec![Pair(0, 1), Pair(0, 2)]);
}

#[test]
fn bundle_adjust_without_landmarks_changes_nothing() {
    let (mut slam, calls) = isolated_frames(2);
    let before = slam.match_outcome(Pair::new(0, 1));
    slam.bundle_adjust_highest_observances(10);
    assert_eq!(slam.match_outcome(Pair::new(0, 1)), before);
    assert_eq!(calls.refines.get(), 0);
}

#[test]
fn bundle_adjust_of_no_landmarks_changes_nothing() {
    let mut slam = chain();
    let p01 = slam.covisibility(Pair::new(0, 1)).unwrap().pose;
    let p12 = slam.covisibility(Pair::new(1, 2)).unwrap().pose;
    slam.bundle_adjust_highest_observances(0);
    assert_eq!(slam.covisibility(Pair::new(0, 1)).unwrap().pose, p01);
    assert_eq!(slam.covisibility(Pair::new(1, 2)).unwrap().pose, p12);
    assert_eq!(slam.covisibility(Pair::new(0, 1)).unwrap().matches.len(), 3);
}

#[test]
fn bundle_adjust_rewrites_spanning_poses() {
    let mut slam = chain();
    slam.bundle_adjust_highest_observances(2);
    // Anchors 0, 10, 20 refined to 100, 210, 320.
    assert_eq!(slam.covisibility(Pair::new(0, 1)).unwrap().pose, 110);
    assert_eq!(slam.covisibility(Pair::new(1, 2)).unwrap().pose, 110);
    assert_eq!(slam.covisibility(Pair::new(1, 2)).unwrap().matches.len(), 3);
    assert_eq!(slam.landmark_count(), 3);
}

#[test]
fn landmarks_are_selected_by_observation_count() {
    let (mut slam, _) = isolated_frames(4);
    let a = slam.add_match_to_landmarks(Pair::new(0, 1), (0, 0)).unwrap();
    let b = slam.add_match_to_landmarks(Pair::new(0, 1), (1, 1)).unwrap();
    slam.add_match_to_landmarks(Pair::new(1, 2), (1, 1));
    slam.add_match_to_landmarks(Pair::new(2, 3), (1, 1));
    let c = slam.add_match_to_landmarks(Pair::new(2, 3), (2, 2)).unwrap();
    slam.add_match_to_landmarks(Pair::new(1, 2), (2, 2));
    assert_eq!(slam.select_landmarks(1), vec![b]);
    assert_eq!(slam.select_landmarks(2), vec![b, c]);
    assert_eq!(slam.select_landmarks(10), vec![b, c, a]);
    assert_eq!(slam.select_landmarks(0), Vec::<usize>::new());
}

#[test]
fn covisibility_points_follow_the_matches() {
    let slam = chain();
    assert_eq!(slam.covisibility_points(Pair::new(0, 1)), vec![(0, 0), (1, 1), (2, 2)]);
    assert!(slam.covisibility(Pair::new(0, 2)).is_none());
}

#[test]
fn reconstruction_points_need_enough_observations() {
    let slam = chain();
    assert_eq!(slam.reconstruction_points(0, 3), vec![(0, 3), (1, 3), (2, 3)]);
    assert_eq!(slam.reconstruction_points(0, 4), Vec::<(usize, usize)>::new());
    assert_eq!(slam.reconstruction_points(1, 2), vec![(0, 2), (1, 2), (2, 2)]);
}

#[test]
fn handles_count_frames_and_feeds() {
    let (slam, _) = isolated_frames(3);
    assert_eq!(slam.num_frames(), 3);
    assert_eq!(slam.num_feeds(), 3);
    let empty = VSlam::new(Stub::new(&Calls::default()));
    assert_eq!(empty.num_frames(), 0);
    assert_eq!(empty.landmark_count(), 0);
}

#[test]
fn failed_pose_solve_is_a_failure() {
    let calls = Calls::default();
    let mut stub = Stub::new(&calls);
    stub.fail_pose = true;
    let mut slam = VSlam::new(stub);
    let feed = slam.insert_feed(());
    slam.insert_frame(feed, &image(&[1, 2, 3]));
    slam.insert_frame(feed, &image(&[1, 2, 3]));
    assert_eq!(slam.match_outcome(Pair::new(0, 1)), Some(false));
    assert_eq!(calls.refines.get(), 0);
    assert_eq!(slam.landmark_count(), 0);
}

#[test]
fn rejecting_every_match_is_a_failure() {
    let calls = Calls::default();
    let mut stub = Stub::new(&calls);
    stub.reject_all = true;
    let mut slam = VSlam::new(stub);
    let feed = slam.insert_feed(());
    slam.insert_frame(feed, &image(&[1, 2, 3]));
    slam.insert_frame(feed, &image(&[1, 2, 3]));
    assert_eq!(calls.refines.get(), 1);
    assert_eq!(slam.match_outcome(Pair::new(0, 1)), Some(false));
    assert!(!slam.try_match(Pair::new(0, 1)));
    assert_eq!(slam.landmark_count(), 0);
}

#[test]
fn match_at_the_threshold_distance_is_kept() {
    let calls = Calls::default();
    let mut slam = VSlam::new(Stub::new(&calls)).match_threshold(8);
    let feed = slam.insert_feed(());
    slam.insert_frame(feed, &image(&[1]));
    let mut other = desc(1);
    other[40] = 0xFF;
    slam.insert_frame(feed, &vec![other]);
    assert_eq!(slam.match_outcome(Pair::new(0, 1)), Some(true));
}
