use vstd::prelude::*;

use crate::arena::{allocate_handle, new_handles, release_handle, slab_keys, slab_slots, MAX_SLOTS};
use crate::landmark::Landmark;
use crate::matching::{at_positions, candidate_matches, holds_candidates, is_candidate, select_matches, Descriptor};
use crate::pair::Pair;
use slab::Slab;
use std::collections::HashMap;

verus! {

broadcast use vstd::std_specs::hash::group_hash_axioms;

/// The geometric collaborators of the reconstruction: feature extraction,
/// robust two-view estimation, triangulation and nonlinear refinement, and the
/// algebra of camera poses. The reconstruction decides what to ask them and
/// what to keep of their answers; it never looks inside a keypoint or a pose.
///
/// The methods that take `&self` are functions of their arguments, and each
/// names its result by a spec function. The methods that take `&mut self`
/// may draw at random or search, and nothing is assumed of their results.
pub trait Geometry {
    /// The calibration of one camera.
    type Intrinsics;
    /// A captured image.
    type Image;
    /// A calibrated keypoint.
    type Keypoint: Clone;
    /// A fitted essential matrix.
    type Essential;
    /// A rigid camera pose, absolute or relative.
    type Pose: Clone;
    /// A triangulated point in space.
    type Point;

    /// The features of an image, each a keypoint calibrated by `intrinsics`
    /// together with its descriptor.
    fn extract(&self, intrinsics: &Self::Intrinsics, image: &Self::Image) -> (r: Vec<(Self::Keypoint, Descriptor)>)
        ensures
            r == self.spec_extract(*intrinsics, *image),
    ;

    /// What `extract` returns: a function of the intrinsics and the image.
    spec fn spec_extract(&self, intrinsics: Self::Intrinsics, image: Self::Image) -> Vec<(Self::Keypoint, Descriptor)>;

    /// Fits an essential matrix to the matched keypoints robustly; on success,
    /// the model and the positions in `matches` of its inliers.
    fn fit_essential(
        &mut self,
        a: &Vec<(Self::Keypoint, Descriptor)>,
        b: &Vec<(Self::Keypoint, Descriptor)>,
        matches: &Vec<(usize, usize)>,
    ) -> Option<(Self::Essential, Vec<usize>)>;

    /// Solves the unscaled relative pose from the first view to the second,
    /// keeping the matches that triangulate in front of both cameras; on
    /// success, the pose and the positions in `matches` that it keeps.
    fn solve_pose(
        &mut self,
        essential: &Self::Essential,
        a: &Vec<(Self::Keypoint, Descriptor)>,
        b: &Vec<(Self::Keypoint, Descriptor)>,
        matches: &Vec<(usize, usize)>,
    ) -> Option<(Self::Pose, Vec<usize>)>;

    /// Distinct positions below `len`, at most `amount` of them, drawn at random.
    fn sample(&mut self, len: usize, amount: usize) -> Vec<usize>;

    /// Refines a relative pose against the matched keypoints.
    fn refine_pose(
        &mut self,
        pose: Self::Pose,
        a: &Vec<(Self::Keypoint, Descriptor)>,
        b: &Vec<(Self::Keypoint, Descriptor)>,
        matches: &Vec<(usize, usize)>,
    ) -> Self::Pose;

    /// Whether the two keypoints triangulate under `pose` with a cosine
    /// residual below the accepted threshold.
    fn consistent(&self, pose: &Self::Pose, a: &Self::Keypoint, b: &Self::Keypoint) -> (r: bool)
        ensures
            r == self.spec_consistent(*pose, *a, *b),
    ;

    /// What `consistent` returns: a function of the pose and the two keypoints.
    spec fn spec_consistent(&self, pose: Self::Pose, a: Self::Keypoint, b: Self::Keypoint) -> bool;

    /// The identity pose.
    fn identity(&self) -> (r: Self::Pose)
        ensures
            r == self.spec_identity(),
    ;

    /// The identity pose, as a value.
    spec fn spec_identity(&self) -> Self::Pose;

    /// The pose `a * b`: `b` applied after `a`.
    fn compose(&self, a: &Self::Pose, b: &Self::Pose) -> (r: Self::Pose)
        ensures
            r == self.spec_compose(*a, *b),
    ;

    /// The composition `a * b`, as a value.
    spec fn spec_compose(&self, a: Self::Pose, b: Self::Pose) -> Self::Pose;

    /// The relative pose `inverse(from) * to`.
    fn relative(&self, from: &Self::Pose, to: &Self::Pose) -> (r: Self::Pose)
        ensures
            r == self.spec_relative(*from, *to),
    ;

    /// The relative pose `inverse(from) * to`, as a value.
    spec fn spec_relative(&self, from: Self::Pose, to: Self::Pose) -> Self::Pose;

    /// The point seen as `a` in a first view and as `b` in a second view at
    /// relative pose `pose`, if it triangulates.
    fn triangulate_relative(&self, pose: &Self::Pose, a: &Self::Keypoint, b: &Self::Keypoint) -> (r: Option<Self::Point>)
        ensures
            r == self.spec_triangulate_relative(*pose, *a, *b),
    ;

    /// What `triangulate_relative` returns: a function of its arguments.
    spec fn spec_triangulate_relative(&self, pose: Self::Pose, a: Self::Keypoint, b: Self::Keypoint) -> Option<Self::Point>;

    /// The point seen as each keypoint from its absolute pose, if it triangulates.
    fn triangulate_observances(&self, observations: Vec<(Self::Pose, Self::Keypoint)>) -> (r: Option<Self::Point>)
        ensures
            r == self.spec_triangulate_observances(observations),
    ;

    /// What `triangulate_observances` returns: a function of the observations.
    spec fn spec_triangulate_observances(&self, observations: Vec<(Self::Pose, Self::Keypoint)>) -> Option<Self::Point>;

    /// Refines the absolute poses of several frames jointly; `observations`
    /// holds, for each landmark, its keypoint in each frame that sees it, in
    /// the order of `poses`.
    fn refine_poses(
        &mut self,
        poses: Vec<Self::Pose>,
        observations: Vec<Vec<Option<Self::Keypoint>>>,
    ) -> Vec<Self::Pose>;
}

/// The frames of a list of placed poses, in order.
pub open spec fn keys_of<P>(poses: Seq<(usize, P)>) -> Seq<usize> {
    poses.map_values(|e: (usize, P)| e.0)
}

/// The pose placed for frame `f` in a list of placed poses.
pub open spec fn pose_at<P>(poses: Seq<(usize, P)>, f: usize) -> P {
    poses[choose|i: int| 0 <= i < poses.len() && #[trigger] poses[i].0 == f].1
}

/// The frames of a list of placed poses are in increasing order.
pub open spec fn increasing_keys<P>(poses: Seq<(usize, P)>) -> bool {
    forall|k: int, l: int| 0 <= k < l < poses.len() ==> poses[k].0 < poses[l].0
}

/// A list of distinct handles below `b` has at most `b` of them.
proof fn lemma_distinct_below(s: Seq<usize>, b: usize)
    requires
        s.no_duplicates(),
        forall|i: int| 0 <= i < s.len() ==> #[trigger] s[i] < b,
    ensures
        s.len() <= b,
{
    broadcast use vstd::seq_lib::seq_to_set_is_finite;
    let all = Seq::new(b as nat, |i: int| i as usize);
    s.unique_seq_to_set();
    all.lemma_cardinality_of_set();
    assert forall|x: usize| s.to_set().contains(x) implies all.to_set().contains(x) by {
        let i = choose|i: int| 0 <= i < s.len() && s[i] == x;
        assert(s[i] < b);
        assert(all[x as int] == x);
    }
    vstd::set_lib::lemma_len_subset(s.to_set(), all.to_set());
}

/// The matches whose verdict is `true`, in their order.
pub open spec fn flagged(matches: Seq<(usize, usize)>, verdicts: Seq<bool>) -> Seq<(usize, usize)>
    decreases matches.len(),
{
    if matches.len() == 0 {
        Seq::empty()
    } else {
        let rest = flagged(matches.drop_last(), verdicts.take(matches.len() - 1));
        if verdicts[matches.len() - 1] {
            rest.push(matches.last())
        } else {
            rest
        }
    }
}

proof fn lemma_flagged_within(matches: Seq<(usize, usize)>, verdicts: Seq<bool>)
    requires
        verdicts.len() == matches.len(),
    ensures
        forall|k: int| 0 <= k < flagged(matches, verdicts).len() ==> matches.contains(#[trigger] flagged(matches, verdicts)[k]),
        flagged(matches, verdicts).len() == 0 <==> !verdicts.contains(true),
    decreases matches.len(),
{
    if matches.len() > 0 {
        let n = matches.len() - 1;
        let rm = matches.drop_last();
        let rv = verdicts.take(n as int);
        lemma_flagged_within(rm, rv);
        let f = flagged(matches, verdicts);
        let fr = flagged(rm, rv);
        assert forall|k: int| 0 <= k < f.len() implies matches.contains(#[trigger] f[k]) by {
            if k < fr.len() {
                assert(f[k] == fr[k]);
                assert(rm.contains(fr[k]));
                let j = choose|j: int| 0 <= j < rm.len() && rm[j] == fr[k];
                assert(matches[j] == fr[k]);
            } else {
                assert(matches[n as int] == f[k]);
            }
        }
        if verdicts.contains(true) && !verdicts[n as int] {
            let j = choose|j: int| 0 <= j < verdicts.len() && verdicts[j] == true;
            assert(rv[j] == true);
        }
        if rv.contains(true) {
            let j = choose|j: int| 0 <= j < rv.len() && rv[j] == true;
            assert(verdicts[j] == true);
        }
        if verdicts[n as int] {
            assert(verdicts.contains(true));
        }
    }
}

/// The covisibility at `pose` of the matches whose verdict is `true`, or
/// `None` when no verdict is `true`.
pub fn keep_consistent<P>(pose: P, matches: &Vec<(usize, usize)>, verdicts: &Vec<bool>) -> (r: Option<Covisibility<P>>)
    requires
        verdicts.len() == matches.len(),
    ensures
        r is None <==> !verdicts@.contains(true),
        r matches Some(c) ==> c.pose == pose && c.matches@ == flagged(matches@, verdicts@),
{
    let mut kept: Vec<(usize, usize)> = Vec::new();
    let mut i: usize = 0;
    while i < matches.len()
        invariant
            0 <= i <= matches.len(),
            verdicts.len() == matches.len(),
            kept@ == flagged(matches@.take(i as int), verdicts@.take(i as int)),
        decreases matches.len() - i,
    {
        proof {
            let m1 = matches@.take(i as int + 1);
            let v1 = verdicts@.take(i as int + 1);
            assert(m1.drop_last() =~= matches@.take(i as int));
            assert(v1.take(i as int) =~= verdicts@.take(i as int));
            assert(m1.last() == matches@[i as int]);
            assert(v1[i as int] == verdicts@[i as int]);
        }
        if verdicts[i] {
            kept.push(matches[i]);
        }
        i = i + 1;
    }
    proof {
        assert(matches@.take(matches.len() as int) =~= matches@);
        assert(verdicts@.take(matches.len() as int) =~= verdicts@);
        lemma_flagged_within(matches@, verdicts@);
    }
    if kept.len() == 0 {
        None
    } else {
        Some(Covisibility { pose, matches: kept })
    }
}

/// Every pair cached before is cached after and the other way round, with
/// the same verdict and the same matches; a pair outside `touched` keeps its
/// entry whole. Only relative poses of pairs in `touched` may differ.
pub open spec fn only_poses_changed<P>(
    after: Map<Pair, Option<Covisibility<P>>>,
    before: Map<Pair, Option<Covisibility<P>>>,
    touched: Set<Pair>,
) -> bool {
    &&& after.dom() == before.dom()
    &&& forall|p: Pair|
        #[trigger] after.contains_key(p) ==> {
            &&& after[p] is Some == before[p] is Some
            &&& before[p] is Some ==> after[p]->0.matches == before[p]->0.matches
            &&& !touched.contains(p) ==> after[p] == before[p]
        }
}

/// The result of matching two frames: the relative pose from the lower frame
/// to the higher, and the accepted matches of feature indices.
pub struct Covisibility<P> {
    pub pose: P,
    pub matches: Vec<(usize, usize)>,
}

/// Absolute poses of the frames of a connected frame graph, in increasing
/// order of frame, and the pairs that connect them, in the order they were used.
pub struct BundleAdjust<P> {
    pub poses: Vec<(usize, P)>,
    pub pairs: Vec<Pair>,
}

struct Feed<I> {
    intrinsics: I,
    /// The frames of this feed, in the order they were captured.
    frames: Vec<usize>,
}

struct Frame<K> {
    feed: usize,
    features: Vec<(K, Descriptor)>,
    /// The pairs whose lower frame this is and that were matched successfully.
    covisibilities: Vec<Pair>,
}

/// An incremental reconstruction from the frames of one or more camera feeds.
pub struct VSlam<G: Geometry> {
    feeds: Vec<Feed<G::Intrinsics>>,
    frames: Vec<Frame<G::Keypoint>>,
    /// For each frame, its feature indices that are tied to a landmark.
    links: Vec<HashMap<usize, usize>>,
    landmark_handles: Slab<()>,
    landmarks: HashMap<usize, Landmark>,
    /// Above every landmark handle ever issued.
    landmark_bound: usize,
    /// Lower frame, then higher frame, to the outcome of matching them.
    covisibilities: HashMap<usize, HashMap<usize, Option<Covisibility<G::Pose>>>>,
    match_threshold: usize,
    optimization_points: usize,
    geometry: G,
}

impl<G: Geometry> VSlam<G> {
    /// The number of frames.
    pub closed spec fn frame_count(&self) -> nat {
        self.frames@.len()
    }

    /// The number of feeds.
    pub closed spec fn feed_count(&self) -> nat {
        self.feeds@.len()
    }

    /// The frames of each feed, in capture order.
    pub closed spec fn feed_frames(&self, feed: int) -> Seq<usize> {
        self.feeds@[feed].frames@
    }

    /// The number of features of a frame.
    pub closed spec fn feature_count(&self, frame: int) -> nat {
        self.frames@[frame].features@.len()
    }

    /// The landmarks: handle to observations (frame to feature index).
    pub closed spec fn landmark_map(&self) -> Map<usize, Map<usize, usize>> {
        Map::new(|h: usize| self.landmarks@.contains_key(h), |h: usize| self.landmarks@[h]@)
    }

    /// For each frame, its feature indices tied to a landmark, with the landmark.
    pub closed spec fn link_maps(&self) -> Seq<Map<usize, usize>> {
        self.links@.map_values(|m: HashMap<usize, usize>| m@)
    }

    /// For a frame, its feature indices tied to a landmark, with the landmark.
    pub open spec fn links_of(&self, frame: int) -> Map<usize, usize> {
        self.link_maps()[frame]
    }

    /// The landmark that feature `x` of `frame` is tied to, where that
    /// landmark records the tie too.
    pub open spec fn landmark_of(&self, frame: usize, x: usize) -> Option<usize> {
        if frame < self.frame_count() && self.links_of(frame as int).contains_key(x) {
            let h = self.links_of(frame as int)[x];
            if self.landmark_map().contains_key(h) && self.landmark_map()[h].contains_key(frame)
                && self.landmark_map()[h][frame] == x {
                Some(h)
            } else {
                None
            }
        } else {
            None
        }
    }

    /// Whether a pair has been matched, and how it came out.
    pub closed spec fn cache_entry(&self, p: Pair) -> Option<Option<Covisibility<G::Pose>>> {
        if self.covisibilities@.contains_key(p.0) && self.covisibilities@[p.0]@.contains_key(p.1) {
            Some(self.covisibilities@[p.0]@[p.1])
        } else {
            None
        }
    }

    /// The cache of match outcomes, keyed by pair.
    pub open spec fn cache(&self) -> Map<Pair, Option<Covisibility<G::Pose>>> {
        Map::new(|p: Pair| self.cache_entry(p) is Some, |p: Pair| self.cache_entry(p)->0)
    }

    /// The greatest match distance that is accepted.
    pub closed spec fn spec_match_threshold(&self) -> usize {
        self.match_threshold
    }

    /// How many matches seed the refinement of a pairwise pose.
    pub closed spec fn spec_optimization_points(&self) -> usize {
        self.optimization_points
    }

    /// Every cached pair is a pair of frames.
    closed spec fn cache_keys_valid(&self) -> bool {
        &&& forall|a: usize| #[trigger] self.covisibilities@.contains_key(a) ==> a < self.frames.len()
        &&& forall|a: usize, b: usize|
            self.covisibilities@.contains_key(a) && #[trigger] self.covisibilities@[a]@.contains_key(b) ==> b < self.frames.len()
    }

    /// The landmark arena agrees with its handles, every observation is
    /// recorded by its frame, and every frame has its links.
    pub closed spec fn wf(&self) -> bool {
        &&& self.links.len() == self.frames.len()
        &&& self.landmarks@.dom() == slab_keys(self.landmark_handles)
        &&& slab_slots(self.landmark_handles) <= self.landmark_bound
        &&& forall|h: usize| #[trigger] self.landmarks@.contains_key(h) ==> h < self.landmark_bound && self.landmarks@[h].wf()
        &&& forall|h: usize, f: usize|
            self.landmarks@.contains_key(h) && #[trigger] self.landmarks@[h]@.contains_key(f) ==> {
                &&& f < self.frames.len()
                &&& self.links@[f as int]@.contains_key(self.landmarks@[h]@[f])
                &&& self.links@[f as int]@[self.landmarks@[h]@[f]] == h
            }
        &&& forall|f: int, i: int|
            0 <= f < self.feeds.len() && 0 <= i < self.feeds@[f].frames.len() ==> #[trigger] self.feeds@[f].frames@[i] < self.frames.len()
        &&& self.cache_keys_valid()
    }

    /// The landmark that feature `x` of `frame` is tied to, where that
    /// landmark records the tie too.
    fn confirmed_landmark(&self, frame: usize, x: usize) -> (r: Option<usize>)
        requires
            self.wf(),
            frame < self.frame_count(),
        ensures
            r == self.landmark_of(frame, x),
    {
        match self.links[frame].get(&x) {
            None => None,
            Some(h) => {
                let h = *h;
                match self.landmarks.get(&h) {
                    None => None,
                    Some(lm) => match lm.observance(frame) {
                        Some(y) => {
                            if y == x {
                                Some(h)
                            } else {
                                None
                            }
                        },
                        None => None,
                    },
                }
            },
        }
    }

    /// Adds a new landmark seen as feature `m.0` of the pair's lower frame and
    /// as feature `m.1` of its higher frame. Returns its handle, or `None` when
    /// the arena cannot grow.
    fn add_landmark(&mut self, pair: Pair, m: (usize, usize)) -> (r: Option<usize>)
        requires
            old(self).wf(),
            pair.0 < old(self).frame_count(),
            pair.1 < old(self).frame_count(),
            old(self).landmark_of(pair.0, m.0) is None,
            old(self).landmark_of(pair.1, m.1) is None,
        ensures
            final(self).wf(),
            final(self).landmark_bound >= old(self).landmark_bound,
            final(self).frames == old(self).frames,
            final(self).feeds == old(self).feeds,
            final(self).covisibilities == old(self).covisibilities,
            final(self).geometry == old(self).geometry,
            final(self).match_threshold == old(self).match_threshold,
            final(self).optimization_points == old(self).optimization_points,
            r is None <==> old(self).arena_full(),
            r is None ==> *final(self) == *old(self),
            r matches Some(h) ==> {
                &&& !old(self).landmark_map().contains_key(h)
                &&& final(self).landmark_map() == old(self).landmark_map().insert(
                    h,
                    map![pair.0 => m.0].insert(pair.1, m.1),
                )
                &&& final(self).link_maps() == old(self).link_maps().update(
                    pair.0 as int,
                    old(self).links_of(pair.0 as int).insert(m.0, h),
                ).update(
                    pair.1 as int,
                    old(self).link_maps().update(
                        pair.0 as int,
                        old(self).links_of(pair.0 as int).insert(m.0, h),
                    )[pair.1 as int].insert(m.1, h),
                )
            },
    {
        if self.landmark_bound >= MAX_SLOTS {
            return None;
        }
        let h = allocate_handle(&mut self.landmark_handles);
        let mut lm = Landmark::new();
        lm.observe(pair.0, m.0);
        lm.observe(pair.1, m.1);
        proof {
            assert(!old(self).landmarks@.contains_key(h));
        }
        self.landmarks.insert(h, lm);
        if h >= self.landmark_bound {
            self.landmark_bound = h + 1;
        }
        self.links[pair.0].insert(m.0, h);
        self.links[pair.1].insert(m.1, h);
        proof {
            assert(self.landmarks@.dom() =~= slab_keys(self.landmark_handles));
            assert(self.landmark_map() =~= old(self).landmark_map().insert(h, map![pair.0 => m.0].insert(pair.1, m.1)));
            let lm0 = old(self).link_maps().update(pair.0 as int, old(self).links_of(pair.0 as int).insert(m.0, h));
            assert(self.link_maps() =~= lm0.update(pair.1 as int, lm0[pair.1 as int].insert(m.1, h)));
            assert forall|g: usize, f: usize|
                self.landmarks@.contains_key(g) && #[trigger] self.landmarks@[g]@.contains_key(f) implies {
                    &&& f < self.frames.len()
                    &&& self.links@[f as int]@.contains_key(self.landmarks@[g]@[f])
                    &&& self.links@[f as int]@[self.landmarks@[g]@[f]] == g
                } by {
                if g != h {
                    assert(old(self).landmarks@.contains_key(g));
                    assert(old(self).landmarks@[g]@.contains_key(f));
                }
            }
        }
        Some(h)
    }

    /// Ties feature `x` of `frame` to landmark `h`, replacing what `h`
    /// recorded for that frame. Returns `h`.
    fn add_landmark_observance(&mut self, h: usize, frame: usize, x: usize) -> (r: usize)
        requires
            old(self).wf(),
            frame < old(self).frame_count(),
            old(self).landmark_map().contains_key(h),
            old(self).landmark_of(frame, x) is None,
        ensures
            r == h,
            final(self).wf(),
            final(self).landmark_bound >= old(self).landmark_bound,
            final(self).frames == old(self).frames,
            final(self).feeds == old(self).feeds,
            final(self).covisibilities == old(self).covisibilities,
            final(self).geometry == old(self).geometry,
            final(self).match_threshold == old(self).match_threshold,
            final(self).optimization_points == old(self).optimization_points,
            final(self).landmark_map() == old(self).landmark_map().insert(h, old(self).landmark_map()[h].insert(frame, x)),
            final(self).link_maps() == old(self).link_maps().update(frame as int, old(self).links_of(frame as int).insert(x, h)),
    {
        self.links[frame].insert(x, h);
        let mut lm = self.landmarks.remove(&h).unwrap();
        lm.observe(frame, x);
        self.landmarks.insert(h, lm);
        proof {
            assert(self.landmarks@.dom() =~= slab_keys(self.landmark_handles));
            assert(self.landmark_map() =~= old(self).landmark_map().insert(h, old(self).landmark_map()[h].insert(frame, x)));
            assert(self.link_maps() =~= old(self).link_maps().update(frame as int, old(self).links_of(frame as int).insert(x, h)));
            assert forall|g: usize, f: usize|
                self.landmarks@.contains_key(g) && #[trigger] self.landmarks@[g]@.contains_key(f) implies {
                    &&& f < self.frames.len()
                    &&& self.links@[f as int]@.contains_key(self.landmarks@[g]@[f])
                    &&& self.links@[f as int]@[self.landmarks@[g]@[f]] == g
                } by {
                if !(g == h && f == frame) {
                    assert(old(self).landmarks@.contains_key(g));
                    assert(old(self).landmarks@[g]@.contains_key(f));
                }
            }
        }
        h
    }

    /// Moves every observation of landmark `l2` into landmark `l1`, ties the
    /// features of those observations to `l1`, and deletes `l2`. Where both
    /// saw the same frame, `l1` keeps the feature that `l2` recorded. Returns `l1`.
    fn join_landmarks(&mut self, l1: usize, l2: usize) -> (r: usize)
        requires
            old(self).wf(),
            l1 != l2,
            old(self).landmark_map().contains_key(l1),
            old(self).landmark_map().contains_key(l2),
        ensures
            r == l1,
            final(self).wf(),
            final(self).landmark_bound >= old(self).landmark_bound,
            final(self).frames == old(self).frames,
            final(self).feeds == old(self).feeds,
            final(self).covisibilities == old(self).covisibilities,
            final(self).geometry == old(self).geometry,
            final(self).match_threshold == old(self).match_threshold,
            final(self).optimization_points == old(self).optimization_points,
            final(self).landmark_map() == old(self).landmark_map().remove(l2).insert(
                l1,
                old(self).landmark_map()[l1].union_prefer_right(old(self).landmark_map()[l2]),
            ),
            final(self).link_maps() == Seq::new(
                old(self).link_maps().len(),
                |f: int|
                    if old(self).landmark_map()[l2].contains_key(f as usize) {
                        old(self).links_of(f).insert(old(self).landmark_map()[l2][f as usize], l1)
                    } else {
                        old(self).links_of(f)
                    },
            ),
    {
        let ghost old_links = old(self).link_maps();
        let lm2 = self.landmarks.remove(&l2).unwrap();
        release_handle(&mut self.landmark_handles, l2);
        let mut lm1 = self.landmarks.remove(&l1).unwrap();
        let ghost big1 = lm1@;
        let ghost big2 = lm2@;
        proof {
            lm2.lemma_frame_list();
        }
        let frames2 = lm2.frames();
        let mut i: usize = 0;
        while i < frames2.len()
            invariant
                0 <= i <= frames2.len(),
                frames2@ == lm2.frame_list(),
                lm2@ == big2,
                lm2.frame_list().no_duplicates(),
                forall|k: int| 0 <= k < lm2.frame_list().len() ==> big2.contains_key(#[trigger] lm2.frame_list()[k]),
                forall|f: usize| #[trigger] big2.contains_key(f) ==> f < self.links.len(),
                big1 == old(self).landmark_map()[l1],
                big2 == old(self).landmark_map()[l2],
                lm1.wf(),
                lm1@ == Map::new(
                    |f: usize| big1.contains_key(f) || frames2@.subrange(0, i as int).contains(f),
                    |f: usize| if frames2@.subrange(0, i as int).contains(f) { big2[f] } else { big1[f] },
                ),
                self.links.len() == old_links.len(),
                forall|f: int|
                    0 <= f < self.links.len() ==> #[trigger] self.links@[f]@ == if frames2@.subrange(0, i as int).contains(f as usize) {
                        old_links[f].insert(big2[f as usize], l1)
                    } else {
                        old_links[f]
                    },
                self.landmarks@ == old(self).landmarks@.remove(l2).remove(l1),
                slab_keys(self.landmark_handles) == slab_keys(old(self).landmark_handles).remove(l2),
                slab_slots(self.landmark_handles) == slab_slots(old(self).landmark_handles),
                self.frames == old(self).frames,
                self.feeds == old(self).feeds,
                self.covisibilities == old(self).covisibilities,
                self.geometry == old(self).geometry,
                self.match_threshold == old(self).match_threshold,
                self.optimization_points == old(self).optimization_points,
                self.landmark_bound == old(self).landmark_bound,
            decreases frames2.len() - i,
        {
            let f = frames2[i];
            let z = lm2.observance(f).unwrap();
            let ghost done = frames2@.subrange(0, i as int);
            let ghost done2 = frames2@.subrange(0, i as int + 1);
            proof {
                assert(big2.contains_key(f));
                assert(done2 =~= done.push(f));
                assert(!done.contains(f)) by {
                    if done.contains(f) {
                        let k = choose|k: int| 0 <= k < done.len() && done[k] == f;
                        assert(frames2@[k] == frames2@[i as int]);
                    }
                }
            }
            self.links[f].insert(z, l1);
            lm1.observe(f, z);
            i = i + 1;
            proof {
                assert forall|g: usize| #[trigger] done2.contains(g) <==> (done.contains(g) || g == f) by {
                    if done2.contains(g) && g != f {
                        let k = choose|k: int| 0 <= k < done2.len() && done2[k] == g;
                        assert(done[k] == g);
                    }
                    if done.contains(g) {
                        let k = choose|k: int| 0 <= k < done.len() && done[k] == g;
                        assert(done2[k] == g);
                    }
                    if g == f {
                        assert(done2[done.len() as int] == g);
                    }
                }
                assert(lm1@ =~= Map::new(
                    |g: usize| big1.contains_key(g) || done2.contains(g),
                    |g: usize| if done2.contains(g) { big2[g] } else { big1[g] },
                ));
                assert forall|g: int| 0 <= g < self.links.len() implies #[trigger] self.links@[g]@ == if done2.contains(g as usize) {
                    old_links[g].insert(big2[g as usize], l1)
                } else {
                    old_links[g]
                } by {
                    if g != f as int {
                        assert(done2.contains(g as usize) == done.contains(g as usize));
                    }
                }
            }
        }
        proof {
            assert forall|g: usize| frames2@.subrange(0, i as int).contains(g) <==> #[trigger] big2.contains_key(g) by {
                assert(frames2@.subrange(0, i as int) =~= frames2@);
                if big2.contains_key(g) {
                    assert(lm2.frame_list().contains(g));
                }
            }
            assert(lm1@ =~= big1.union_prefer_right(big2));
        }
        self.landmarks.insert(l1, lm1);
        proof {
            assert(self.landmarks@.dom() =~= slab_keys(self.landmark_handles));
            assert(self.landmark_map() =~= old(self).landmark_map().remove(l2).insert(l1, big1.union_prefer_right(big2)));
            assert(self.link_maps() =~= Seq::new(
                old(self).link_maps().len(),
                |f: int|
                    if old(self).landmark_map()[l2].contains_key(f as usize) {
                        old(self).links_of(f).insert(old(self).landmark_map()[l2][f as usize], l1)
                    } else {
                        old(self).links_of(f)
                    },
            ));
            assert forall|g: usize, f: usize|
                self.landmarks@.contains_key(g) && #[trigger] self.landmarks@[g]@.contains_key(f) implies {
                    &&& f < self.frames.len()
                    &&& self.links@[f as int]@.contains_key(self.landmarks@[g]@[f])
                    &&& self.links@[f as int]@[self.landmarks@[g]@[f]] == g
                } by {
                if g == l1 {
                    if !big2.contains_key(f) {
                        assert(old(self).landmarks@[l1]@.contains_key(f));
                    }
                } else {
                    assert(old(self).landmarks@.contains_key(g));
                    assert(old(self).landmarks@[g]@.contains_key(f));
                    if big2.contains_key(f) {
                        assert(old(self).landmarks@[l2]@.contains_key(f));
                    }
                }
            }
        }
        l1
    }

    /// Folds one accepted match, feature `m.0` of the pair's lower frame with
    /// feature `m.1` of its higher frame, into the landmarks:
    /// - neither feature has a landmark: a new landmark with these two observations;
    /// - exactly one has: the other feature is added to that landmark;
    /// - both have the same landmark: nothing changes;
    /// - both have different landmarks: the second is merged into the first.
    ///
    /// Returns the landmark the two features now share; `None` only where a
    /// new landmark was needed and the arena cannot grow, and then nothing changes.
    pub fn add_match_to_landmarks(&mut self, pair: Pair, m: (usize, usize)) -> (r: Option<usize>)
        requires
            old(self).wf(),
            pair.0 < old(self).frame_count(),
            pair.1 < old(self).frame_count(),
        ensures
            final(self).wf(),
            final(self).same_outside_landmarks(old(self)),
            final(self).frame_count() == old(self).frame_count(),
            final(self).feed_count() == old(self).feed_count(),
            forall|f: int| 0 <= f < old(self).frame_count() ==> #[trigger] final(self).feature_count(f) == old(self).feature_count(f),
            forall|f: int| 0 <= f < old(self).feed_count() ==> #[trigger] final(self).feed_frames(f) == old(self).feed_frames(f),
            final(self).cache() == old(self).cache(),
            r is None <==> old(self).landmark_of(pair.0, m.0) is None && old(self).landmark_of(pair.1, m.1) is None
                && old(self).arena_full(),
            old(self).arena_full() ==> final(self).arena_full(),
            final(self).link_maps().len() == old(self).link_maps().len(),
            r matches Some(l) ==> {
                &&& final(self).links_of(pair.0 as int).contains_key(m.0)
                &&& final(self).links_of(pair.0 as int)[m.0] == l
                &&& final(self).links_of(pair.1 as int).contains_key(m.1)
                &&& final(self).links_of(pair.1 as int)[m.1] == l
            },
            forall|f: int, x: usize|
                0 <= f < old(self).frame_count() && #[trigger] old(self).links_of(f).contains_key(x) ==> final(self).links_of(f).contains_key(x),
            ({
                let la = old(self).landmark_of(pair.0, m.0);
                let lb = old(self).landmark_of(pair.1, m.1);
                let lms = old(self).landmark_map();
                let links = old(self).link_maps();
                match (la, lb) {
                    (None, None) => match r {
                        None => *final(self) == *old(self),
                        Some(h) => {
                            &&& !lms.contains_key(h)
                            &&& final(self).landmark_map() == lms.insert(h, map![pair.0 => m.0].insert(pair.1, m.1))
                            &&& final(self).link_maps() == links.update(
                                pair.0 as int,
                                links[pair.0 as int].insert(m.0, h),
                            ).update(
                                pair.1 as int,
                                links.update(pair.0 as int, links[pair.0 as int].insert(m.0, h))[pair.1 as int].insert(m.1, h),
                            )
                        },
                    },
                    (Some(a), None) => {
                        &&& r == Some(a)
                        &&& final(self).landmark_map() == lms.insert(a, lms[a].insert(pair.1, m.1))
                        &&& final(self).link_maps() == links.update(pair.1 as int, links[pair.1 as int].insert(m.1, a))
                    },
                    (None, Some(b)) => {
                        &&& r == Some(b)
                        &&& final(self).landmark_map() == lms.insert(b, lms[b].insert(pair.0, m.0))
                        &&& final(self).link_maps() == links.update(pair.0 as int, links[pair.0 as int].insert(m.0, b))
                    },
                    (Some(a), Some(b)) => {
                        &&& r == Some(a)
                        &&& a == b ==> *final(self) == *old(self)
                        &&& a != b ==> {
                            &&& final(self).landmark_map() == lms.remove(b).insert(a, lms[a].union_prefer_right(lms[b]))
                            &&& final(self).link_maps() == Seq::new(
                                links.len(),
                                |f: int|
                                    if lms[b].contains_key(f as usize) {
                                        links[f].insert(lms[b][f as usize], a)
                                    } else {
                                        links[f]
                                    },
                            )
                        }
                    },
                }
            }),
    {
        let la = self.confirmed_landmark(pair.0, m.0);
        let lb = self.confirmed_landmark(pair.1, m.1);
        match (la, lb) {
            (Some(a), Some(b)) => {
                if a != b {
                    Some(self.join_landmarks(a, b))
                } else {
                    Some(a)
                }
            },
            (Some(a), None) => Some(self.add_landmark_observance(a, pair.1, m.1)),
            (None, Some(b)) => Some(self.add_landmark_observance(b, pair.0, m.0)),
            (None, None) => self.add_landmark(pair, m),
        }
    }

    /// The descriptors of a frame's features, in order.
    pub closed spec fn descriptors_of(&self, frame: int) -> Seq<Descriptor> {
        self.frames@[frame].features@.map_values(|p: (G::Keypoint, Descriptor)| p.1)
    }

    /// Feeds, frames, cached outcomes, settings and collaborators are the same
    /// in both: only landmarks and links may differ.
    pub closed spec fn same_outside_landmarks(&self, other: &Self) -> bool {
        &&& self.feeds == other.feeds
        &&& self.frames == other.frames
        &&& self.covisibilities == other.covisibilities
        &&& self.geometry == other.geometry
        &&& self.match_threshold == other.match_threshold
        &&& self.optimization_points == other.optimization_points
    }

    /// The state apart from the geometric collaborators is the same in both.
    pub closed spec fn same_but_geometry(&self, other: &Self) -> bool {
        &&& self.feeds == other.feeds
        &&& self.frames == other.frames
        &&& self.links == other.links
        &&& self.landmark_handles == other.landmark_handles
        &&& self.landmarks == other.landmarks
        &&& self.landmark_bound == other.landmark_bound
        &&& self.covisibilities == other.covisibilities
        &&& self.match_threshold == other.match_threshold
        &&& self.optimization_points == other.optimization_points
    }

    /// An empty reconstruction that asks `geometry` for its geometric work. It
    /// accepts matches at a distance of at most 64 and refines pairwise poses on
    /// 16 matches.
    pub fn new(geometry: G) -> (r: Self)
        ensures
            r.wf(),
            r.frame_count() == 0,
            r.feed_count() == 0,
            r.landmark_map() == Map::<usize, Map<usize, usize>>::empty(),
            r.cache() == Map::<Pair, Option<Covisibility<G::Pose>>>::empty(),
            r.spec_match_threshold() == 64,
            r.spec_optimization_points() == 16,
    {
        let r = VSlam {
            feeds: Vec::new(),
            frames: Vec::new(),
            links: Vec::new(),
            landmark_handles: new_handles(),
            landmarks: HashMap::new(),
            landmark_bound: 0,
            covisibilities: HashMap::new(),
            match_threshold: 64,
            optimization_points: 16,
            geometry,
        };
        proof {
            assert(r.landmarks@.dom() =~= slab_keys(r.landmark_handles));
            assert(r.landmark_map() =~= Map::<usize, Map<usize, usize>>::empty());
            assert(r.cache() =~= Map::<Pair, Option<Covisibility<G::Pose>>>::empty());
        }
        r
    }

    /// Sets the match threshold: matches farther apart than this are refused.
    pub fn match_threshold(self, match_threshold: usize) -> (r: Self)
        requires
            self.wf(),
        ensures
            r.wf(),
            r.spec_match_threshold() == match_threshold,
            r.spec_optimization_points() == self.spec_optimization_points(),
            r.frame_count() == self.frame_count(),
            r.feed_count() == self.feed_count(),
            r.landmark_map() == self.landmark_map(),
            r.cache() == self.cache(),
    {
        VSlam { match_threshold, ..self }
    }

    /// Sets how many matches seed the refinement of a pairwise pose.
    pub fn optimization_points(self, optimization_points: usize) -> (r: Self)
        requires
            self.wf(),
        ensures
            r.wf(),
            r.spec_optimization_points() == optimization_points,
            r.spec_match_threshold() == self.spec_match_threshold(),
            r.frame_count() == self.frame_count(),
            r.feed_count() == self.feed_count(),
            r.landmark_map() == self.landmark_map(),
            r.cache() == self.cache(),
    {
        VSlam { optimization_points, ..self }
    }

    /// Adds a feed with the given intrinsics; returns its handle.
    pub fn insert_feed(&mut self, intrinsics: G::Intrinsics) -> (r: usize)
        requires
            old(self).wf(),
        ensures
            final(self).wf(),
            r == old(self).feed_count(),
            final(self).feed_count() == old(self).feed_count() + 1,
            final(self).feed_frames(r as int) == Seq::<usize>::empty(),
            forall|f: int| 0 <= f < old(self).feed_count() ==> #[trigger] final(self).feed_frames(f) == old(self).feed_frames(f),
            final(self).frame_count() == old(self).frame_count(),
            final(self).landmark_map() == old(self).landmark_map(),
            final(self).link_maps() == old(self).link_maps(),
            final(self).cache() == old(self).cache(),
    {
        let r = self.feeds.len();
        self.feeds.push(Feed { intrinsics, frames: Vec::new() });
        proof {
            assert forall|f: int, i: int|
                0 <= f < self.feeds.len() && 0 <= i < self.feeds@[f].frames.len() implies #[trigger] self.feeds@[f].frames@[i] < self.frames.len() by {
                assert(f < old(self).feeds.len());
                assert(self.feeds@[f] == old(self).feeds@[f]);
            }
        }
        r
    }

    /// The descriptors of a frame's features, in order.
    fn descriptors(&self, frame: usize) -> (r: Vec<Descriptor>)
        requires
            frame < self.frame_count(),
        ensures
            r@ == self.descriptors_of(frame as int),
    {
        let features = &self.frames[frame].features;
        let mut r: Vec<Descriptor> = Vec::new();
        let mut i: usize = 0;
        while i < features.len()
            invariant
                0 <= i <= features.len(),
                *features == self.frames@[frame as int].features,
                r@ == features@.take(i as int).map_values(|p: (G::Keypoint, Descriptor)| p.1),
            decreases features.len() - i,
        {
            r.push(features[i].1);
            i = i + 1;
            proof {
                assert(r@ =~= features@.take(i as int).map_values(|p: (G::Keypoint, Descriptor)| p.1));
            }
        }
        proof {
            assert(features@.take(i as int) =~= features@);
        }
        r
    }

    /// The outcome cached for a pair: `None` if it was never matched, else
    /// whether matching succeeded.
    fn cached_outcome(&self, pair: Pair) -> (r: Option<bool>)
        ensures
            r == (if self.cache().contains_key(pair) { Some(self.cache()[pair] is Some) } else { None::<bool> }),
    {
        match self.covisibilities.get(&pair.0) {
            None => None,
            Some(inner) => match inner.get(&pair.1) {
                None => None,
                Some(outcome) => Some(outcome.is_some()),
            },
        }
    }

    /// Caches the outcome of matching a pair.
    fn record_outcome(&mut self, pair: Pair, outcome: Option<Covisibility<G::Pose>>)
        requires
            old(self).cache_keys_valid(),
            pair.0 < old(self).frames.len(),
            pair.1 < old(self).frames.len(),
        ensures
            final(self).cache_keys_valid(),
            final(self).cache() == old(self).cache().insert(pair, outcome),
            final(self).feeds == old(self).feeds,
            final(self).frames == old(self).frames,
            final(self).links == old(self).links,
            final(self).landmark_handles == old(self).landmark_handles,
            final(self).landmarks == old(self).landmarks,
            final(self).landmark_bound == old(self).landmark_bound,
            final(self).geometry == old(self).geometry,
            final(self).match_threshold == old(self).match_threshold,
            final(self).optimization_points == old(self).optimization_points,
    {
        let mut inner = match self.covisibilities.remove(&pair.0) {
            Some(m) => m,
            None => HashMap::new(),
        };
        inner.insert(pair.1, outcome);
        self.covisibilities.insert(pair.0, inner);
        proof {
            assert forall|a: usize, b: usize|
                self.covisibilities@.contains_key(a) && #[trigger] self.covisibilities@[a]@.contains_key(b) implies b < self.frames.len() by {
                if a != pair.0 && b != pair.1 {
                    assert(old(self).covisibilities@[a]@.contains_key(b));
                }
                if a != pair.0 && b == pair.1 {
                    assert(old(self).covisibilities@[a]@.contains_key(b));
                }
            }
            assert forall|p: Pair| #[trigger] self.cache_entry(p) == if p == pair { Some(outcome) } else { old(self).cache_entry(p) } by {
                if p.0 == pair.0 && p != pair {
                    assert(p.1 != pair.1);
                }
            }
            assert(self.cache() =~= old(self).cache().insert(pair, outcome));
        }
    }

    /// Estimates the covisibility of the two frames of `pair`: cross-checked
    /// descriptor matches within the match threshold, narrowed to the inliers
    /// of a robust essential-matrix fit, then to those that pass the chirality
    /// test of the pose solved from it; the pose is refined on a random sample
    /// of them, and the matches that are not consistent with the refined pose
    /// are dropped. Fails when the fit or the pose fails, or no match is left.
    ///
    /// The ghost part of the result records what the collaborators answered:
    /// whether the fit and the pose succeeded, the inlier positions of each,
    /// the refined pose, and the verdict on each chirality inlier.
    fn create_init_covisibility(&mut self, pair: Pair) -> (res: (
        Option<Covisibility<G::Pose>>,
        Ghost<(bool, Seq<usize>, bool, Seq<usize>, Seq<(usize, usize)>, G::Pose, Seq<bool>)>,
    ))
        requires
            pair.0 < old(self).frame_count(),
            pair.1 < old(self).frame_count(),
        ensures
            final(self).same_but_geometry(old(self)),
            old(self).two_view(final(self).geometry_of(), pair, res.1@, res.0),
    {
        let da = self.descriptors(pair.0);
        let db = self.descriptors(pair.1);
        let threshold = self.match_threshold;
        let matches = candidate_matches(&da, &db, threshold);
        let fa = &self.frames[pair.0].features;
        let fb = &self.frames[pair.1].features;
        let (essential, inliers) = match self.geometry.fit_essential(fa, fb, &matches) {
            Some(fit) => fit,
            None => {
                return (None, Ghost((false, Seq::empty(), false, Seq::empty(), Seq::empty(), arbitrary(), Seq::empty())));
            },
        };
        let matches2 = select_matches(&matches, &inliers);
        let (pose, inliers2) = match self.geometry.solve_pose(&essential, fa, fb, &matches2) {
            Some(solved) => solved,
            None => {
                return (None, Ghost((true, inliers@, false, Seq::empty(), Seq::empty(), arbitrary(), Seq::empty())));
            },
        };
        let matches3 = select_matches(&matches2, &inliers2);
        let positions = self.geometry.sample(matches3.len(), self.optimization_points);
        let seeds = select_matches(&matches3, &positions);
        let pose = self.geometry.refine_pose(pose, fa, fb, &seeds);
        let mut verdicts: Vec<bool> = Vec::new();
        let mut i: usize = 0;
        while i < matches3.len()
            invariant
                0 <= i <= matches3.len(),
                verdicts.len() == i,
                forall|k: int| 0 <= k < matches3.len() ==> is_candidate(da@, db@, threshold, #[trigger] matches3@[k]),
                da@.len() == fa.len(),
                db@.len() == fb.len(),
                *fa == old(self).frames@[pair.0 as int].features,
                *fb == old(self).frames@[pair.1 as int].features,
                forall|k: int| 0 <= k < i ==> #[trigger] verdicts@[k] == self.geometry.spec_consistent(
                    pose,
                    fa@[matches3@[k].0 as int].0,
                    fb@[matches3@[k].1 as int].0,
                ),
            decreases matches3.len() - i,
        {
            let m = matches3[i];
            let ok = self.geometry.consistent(&pose, &fa[m.0].0, &fb[m.1].0);
            verdicts.push(ok);
            i = i + 1;
        }
        let ghost trace = (true, inliers@, true, inliers2@, matches3@, pose, verdicts@);
        let r = keep_consistent(pose, &matches3, &verdicts);
        proof {
            assert(matches3@ == at_positions(at_positions(matches@, inliers@), inliers2@));
            assert(forall|k: int| 0 <= k < matches.len() ==> is_candidate(da@, db@, threshold, #[trigger] matches@[k]));
            if r is Some {
                let c = r->0;
                lemma_flagged_within(matches3@, verdicts@);
                assert forall|k: int| 0 <= k < c.matches.len() implies is_candidate(da@, db@, threshold, #[trigger] c.matches@[k]) by {
                    assert(matches3@.contains(c.matches@[k]));
                }
            }
        }
        proof {
            assert(holds_candidates(da@, db@, threshold, matches@));
            assert(threshold == old(self).spec_match_threshold());
            assert(holds_candidates(old(self).descriptors_of(pair.0 as int), old(self).descriptors_of(pair.1 as int), old(self).spec_match_threshold(), matches@));
            assert(*fa == old(self).features_of(pair.0 as int));
            assert(*fb == old(self).features_of(pair.1 as int));
        }
        (r, Ghost(trace))
    }

    /// Caches the outcome of matching `pair`; on success, first folds every
    /// accepted match into the landmarks and lists the pair on its lower frame.
    fn add_covisibility_outcome(&mut self, pair: Pair, outcome: Option<Covisibility<G::Pose>>)
        requires
            old(self).wf(),
            pair.0 < old(self).frame_count(),
            pair.1 < old(self).frame_count(),
        ensures
            final(self).wf(),
            final(self).cache() == old(self).cache().insert(pair, outcome),
            final(self).frame_count() == old(self).frame_count(),
            final(self).feeds == old(self).feeds,
            forall|f: int| 0 <= f < old(self).frame_count() ==> #[trigger] final(self).frames@[f].features == old(self).frames@[f].features,
            final(self).match_threshold == old(self).match_threshold,
            final(self).optimization_points == old(self).optimization_points,
            outcome is None ==> final(self).landmarks == old(self).landmarks && final(self).links == old(self).links,
            final(self).geometry == old(self).geometry,
            outcome matches Some(c) ==> (!final(self).arena_full() ==> forall|k: int|
                0 <= k < c.matches.len() ==> #[trigger] final(self).ties(pair, c.matches@[k])),
    {
        match outcome {
            Some(covisibility) => {
                let mut i: usize = 0;
                while i < covisibility.matches.len()
                    invariant
                        0 <= i <= covisibility.matches.len(),
                        self.wf(),
                        pair.0 < self.frame_count(),
                        pair.1 < self.frame_count(),
                        self.cache() == old(self).cache(),
                        self.frame_count() == old(self).frame_count(),
                        self.feeds == old(self).feeds,
                        self.frames == old(self).frames,
                        self.match_threshold == old(self).match_threshold,
                        self.optimization_points == old(self).optimization_points,
                        self.geometry == old(self).geometry,
                        !self.arena_full() ==> forall|k: int| 0 <= k < i ==> #[trigger] self.ties(pair, covisibility.matches@[k]),
                    decreases covisibility.matches.len() - i,
                {
                    let m = covisibility.matches[i];
                    let ghost before = *self;
                    self.add_match_to_landmarks(pair, m);
                    proof {
                        if !self.arena_full() {
                            assert forall|k: int| 0 <= k < i + 1 implies #[trigger] self.ties(pair, covisibility.matches@[k]) by {
                                if k < i {
                                    assert(before.ties(pair, covisibility.matches@[k]));
                                }
                            }
                        }
                    }
                    i = i + 1;
                }
                let ghost after_loop = *self;
                self.frames[pair.0].covisibilities.push(pair);
                proof {
                    assert forall|f: int, k: int|
                        0 <= f < self.feeds.len() && 0 <= k < self.feeds@[f].frames.len() implies #[trigger] self.feeds@[f].frames@[k] < self.frames.len() by {
                    }
                }
                let ghost folded = covisibility.matches@;
                let ghost mid = *self;
                self.record_outcome(pair, Some(covisibility));
                proof {
                    assert(self.link_maps() == after_loop.link_maps());
                    assert(self.arena_full() == after_loop.arena_full());
                    if !self.arena_full() {
                        assert forall|k: int| 0 <= k < folded.len() implies #[trigger] self.ties(pair, folded[k]) by {
                            assert(after_loop.ties(pair, folded[k]));
                        }
                    }
                }
            },
            None => {
                self.record_outcome(pair, None);
            },
        }
    }

    /// Attempts to match the two frames of `pair`, once: an outcome already
    /// cached, success or failure, is returned as it is and nothing is
    /// recomputed. Otherwise the two-view estimation runs, its outcome is
    /// cached, and on success the accepted matches are folded into the
    /// landmarks. Returns whether the pair is matched.
    pub fn try_match(&mut self, pair: Pair) -> (r: bool)
        requires
            old(self).wf(),
            pair.0 < old(self).frame_count(),
            pair.1 < old(self).frame_count(),
        ensures
            final(self).wf(),
            final(self).frame_count() == old(self).frame_count(),
            final(self).feed_count() == old(self).feed_count(),
            forall|f: int| 0 <= f < old(self).feed_count() ==> #[trigger] final(self).feed_frames(f) == old(self).feed_frames(f),
            forall|f: int| 0 <= f < old(self).frame_count() ==> #[trigger] final(self).descriptors_of(f) == old(self).descriptors_of(f),
            forall|f: int| 0 <= f < old(self).frame_count() ==> #[trigger] final(self).features_of(f) == old(self).features_of(f),
            final(self).spec_match_threshold() == old(self).spec_match_threshold(),
            final(self).spec_optimization_points() == old(self).spec_optimization_points(),
            final(self).cache().contains_key(pair),
            r == final(self).cache()[pair] is Some,
            old(self).cache().contains_key(pair) ==> *final(self) == *old(self),
            !r ==> final(self).landmark_map() == old(self).landmark_map() && final(self).link_maps() == old(self).link_maps(),
            !old(self).cache().contains_key(pair) ==> {
                &&& exists|trace: (bool, Seq<usize>, bool, Seq<usize>, Seq<(usize, usize)>, G::Pose, Seq<bool>)|
                    #[trigger] old(self).two_view(final(self).geometry_of(), pair, trace, final(self).cache()[pair])
                &&& final(self).cache() == old(self).cache().insert(pair, final(self).cache()[pair])
                &&& final(self).cache()[pair] matches Some(c) ==> {
                    &&& !final(self).arena_full() ==> forall|k: int|
                        0 <= k < c.matches.len() ==> #[trigger] final(self).ties(pair, c.matches@[k])
                    &&& c.matches.len() > 0
                    &&& forall|k: int|
                        0 <= k < c.matches.len() ==> is_candidate(
                            old(self).descriptors_of(pair.0 as int),
                            old(self).descriptors_of(pair.1 as int),
                            old(self).spec_match_threshold(),
                            #[trigger] c.matches@[k],
                        )
                }
            },
    {
        match self.cached_outcome(pair) {
            Some(success) => {
                return success;
            },
            None => {},
        }
        let (outcome, trace) = self.create_init_covisibility(pair);
        let ghost g = self.geometry;
        let success = outcome.is_some();
        let ghost o = outcome;
        let ghost mid = *self;
        proof {
            assert(mid.wf());
        }
        self.add_covisibility_outcome(pair, outcome);
        proof {
            assert(self.cache()[pair] == o);
            assert(self.geometry == g);
            assert(old(self).two_view(self.geometry_of(), pair, trace@, o));
            if o is None {
                assert(self.landmark_map() =~= old(self).landmark_map());
                assert(self.link_maps() =~= old(self).link_maps());
            }
            assert forall|f: int| 0 <= f < old(self).frame_count() implies #[trigger] self.descriptors_of(f) == old(self).descriptors_of(f) by {
                assert(self.frames@[f].features == old(self).frames@[f].features);
            }
            assert forall|f: int| 0 <= f < old(self).feed_count() implies #[trigger] self.feed_frames(f) == old(self).feed_frames(f) by {
            }
            assert forall|f: int| 0 <= f < old(self).frame_count() implies #[trigger] self.features_of(f) == old(self).features_of(f) by {
                assert(self.frames@[f].features == old(self).frames@[f].features);
            }
        }
        success
    }

    /// Adds a frame of `feed` captured as `image`, with the features that the
    /// geometry extracts from it. When the feed already had a frame, the new
    /// frame is matched against the one before it. Returns the frame's handle.
    pub fn insert_frame(&mut self, feed: usize, image: &G::Image) -> (r: usize)
        requires
            old(self).wf(),
            feed < old(self).feed_count(),
        ensures
            final(self).wf(),
            r == old(self).frame_count(),
            final(self).frame_count() == old(self).frame_count() + 1,
            final(self).feed_count() == old(self).feed_count(),
            final(self).feed_frames(feed as int) == old(self).feed_frames(feed as int).push(r),
            forall|f: int| 0 <= f < old(self).feed_count() && f != feed ==> #[trigger] final(self).feed_frames(f) == old(self).feed_frames(f),
            final(self).spec_match_threshold() == old(self).spec_match_threshold(),
            final(self).spec_optimization_points() == old(self).spec_optimization_points(),
            old(self).feed_frames(feed as int).len() == 0 ==> final(self).cache() == old(self).cache(),
            forall|f: int| 0 <= f < old(self).frame_count() ==> #[trigger] final(self).descriptors_of(f) == old(self).descriptors_of(f),
            final(self).features_of(r as int) == old(self).geometry_of().spec_extract(old(self).intrinsics_of(feed as int), *image),
            old(self).feed_frames(feed as int).len() > 0 ==> {
                let q = Pair::spec_new(old(self).feed_frames(feed as int).last(), r);
                &&& final(self).cache().contains_key(q)
                &&& final(self).cache().remove(q) == old(self).cache()
                &&& final(self).cache()[q] matches Some(c) ==> {
                    &&& c.matches.len() > 0
                    &&& forall|k: int|
                        0 <= k < c.matches.len() ==> is_candidate(
                            final(self).descriptors_of(q.0 as int),
                            final(self).descriptors_of(q.1 as int),
                            final(self).spec_match_threshold(),
                            #[trigger] c.matches@[k],
                        )
                    &&& !final(self).arena_full() ==> forall|k: int|
                        0 <= k < c.matches.len() ==> #[trigger] final(self).ties(q, c.matches@[k])
                }
            },
    {
        let features = self.geometry.extract(&self.feeds[feed].intrinsics, image);
        let next_id = self.frames.len();
        self.frames.push(Frame { feed, features, covisibilities: Vec::new() });
        self.links.push(HashMap::new());
        self.feeds[feed].frames.push(next_id);
        proof {
            assert forall|f: int, i: int|
                0 <= f < self.feeds.len() && 0 <= i < self.feeds@[f].frames.len() implies #[trigger] self.feeds@[f].frames@[i] < self.frames.len() by {
                if f != feed as int || i < old(self).feeds@[f].frames.len() {
                    assert(old(self).feeds@[f].frames@[i] < old(self).frames.len());
                }
            }
            assert forall|h: usize, f: usize|
                self.landmarks@.contains_key(h) && #[trigger] self.landmarks@[h]@.contains_key(f) implies {
                    &&& f < self.frames.len()
                    &&& self.links@[f as int]@.contains_key(self.landmarks@[h]@[f])
                    &&& self.links@[f as int]@[self.landmarks@[h]@[f]] == h
                } by {
                assert(old(self).landmarks@[h]@.contains_key(f));
                assert(self.links@[f as int] == old(self).links@[f as int]);
            }
            assert(self.feeds@[feed as int].frames@ == old(self).feeds@[feed as int].frames@.push(next_id));
        }
        let n = self.feeds[feed].frames.len();
        if n >= 2 {
            let a = self.feeds[feed].frames[n - 2];
            let b = self.feeds[feed].frames[n - 1];
            proof {
                assert(a == old(self).feed_frames(feed as int).last());
                assert(b == next_id);
            }
            let ghost pushed = *self;
            let q = Pair::new(a, b);
            self.try_match(q);
            proof {
                assert(pushed.cache() == old(self).cache());
                assert(!old(self).cache().contains_key(q)) by {
                    if old(self).cache().contains_key(q) {
                        assert(old(self).covisibilities@[q.0]@.contains_key(q.1));
                    }
                }
                assert(self.cache().remove(q) =~= old(self).cache());
                assert(self.descriptors_of(q.1 as int) == pushed.descriptors_of(q.1 as int));
                assert(self.features_of(next_id as int) == pushed.features_of(next_id as int));
                assert forall|f: int| 0 <= f < old(self).frame_count() implies #[trigger] self.descriptors_of(f) == old(self).descriptors_of(f) by {
                    assert(pushed.descriptors_of(f) == old(self).descriptors_of(f)) by {
                        assert(pushed.frames@[f] == old(self).frames@[f]);
                    }
                }
            }
        } else {
            proof {
                assert forall|f: int| 0 <= f < old(self).frame_count() implies #[trigger] self.descriptors_of(f) == old(self).descriptors_of(f) by {
                    assert(self.frames@[f] == old(self).frames@[f]);
                }
            }
        }
        next_id
    }

    /// Both features of match `m` of `pair` are tied to a landmark.
    pub open spec fn ties(&self, pair: Pair, m: (usize, usize)) -> bool {
        &&& self.links_of(pair.0 as int).contains_key(m.0)
        &&& self.links_of(pair.1 as int).contains_key(m.1)
    }

    /// No more landmark handles can be issued: a new landmark cannot be made.
    pub closed spec fn arena_full(&self) -> bool {
        self.landmark_bound >= MAX_SLOTS
    }

    /// What well-formedness holds, in public terms: each frame has its links,
    /// there are finitely many landmarks, and each observation of a landmark
    /// is recorded by a link of its frame to that landmark.
    pub proof fn lemma_wf(&self)
        requires
            self.wf(),
        ensures
            self.link_maps().len() == self.frame_count(),
            self.landmark_map().dom().finite(),
            forall|h: usize, f: usize|
                self.landmark_map().contains_key(h) && #[trigger] self.landmark_map()[h].contains_key(f) ==> {
                    &&& f < self.frame_count()
                    &&& self.links_of(f as int).contains_key(self.landmark_map()[h][f])
                    &&& self.links_of(f as int)[self.landmark_map()[h][f]] == h
                },
    {
        assert(self.landmark_map().dom() =~= self.landmarks@.dom());
    }

    /// The features of a frame, in order.
    pub closed spec fn features_of(&self, frame: int) -> Vec<(G::Keypoint, Descriptor)> {
        self.frames@[frame].features
    }

    /// The intrinsics of a feed.
    pub closed spec fn intrinsics_of(&self, feed: int) -> G::Intrinsics {
        self.feeds@[feed].intrinsics
    }

    /// The relative pose cached for `p` is the one between the poses placed
    /// for its two frames, where `p` is matched and both frames are placed.
    pub open spec fn refreshed(&self, poses: Seq<(usize, G::Pose)>, p: Pair) -> bool {
        self.matched(p) && keys_of(poses).contains(p.0) && keys_of(poses).contains(p.1) ==> self.cache()[p]->0.pose
            == self.geometry_of().spec_relative(pose_at(poses, p.0), pose_at(poses, p.1))
    }

    /// The geometric collaborators.
    pub closed spec fn geometry_of(&self) -> G {
        self.geometry
    }

    /// In a frame graph given by its placed poses and its pairs, the frame
    /// placed at position `i` was placed after the one at position `k`: the
    /// lowest placed frame successfully matched with it, whose pair is the
    /// `i`-th pair, at the pose of that frame composed with the relative pose
    /// cached for the pair.
    pub open spec fn placed_after(&self, poses: Seq<(usize, G::Pose)>, pairs: Seq<Pair>, i: int, k: int) -> bool {
        &&& 0 <= k < i
        &&& pairs[i - 1] == Pair::spec_new(poses[k].0, poses[i].0)
        &&& self.matched(pairs[i - 1])
        &&& forall|k2: int| 0 <= k2 < k ==> !self.matched(Pair::spec_new(#[trigger] poses[k2].0, poses[i].0))
        &&& poses[i].1 == self.geometry_of().spec_compose(poses[k].1, self.cache()[pairs[i - 1]]->0.pose)
    }

    /// The frame placed at position `i` was placed after some frame placed before it.
    pub open spec fn has_parent(&self, poses: Seq<(usize, G::Pose)>, pairs: Seq<Pair>, i: int) -> bool {
        exists|k: int| #[trigger] self.placed_after(poses, pairs, i, k)
    }

    /// The outcome `r` of estimating the covisibility of `pair` follows from
    /// what the collaborators answered, recorded in `trace`: whether the
    /// essential-matrix fit succeeded and its inlier positions, whether the
    /// pose solve succeeded and its inlier positions, the matches left, the
    /// refined pose, and the verdict of `g` on each match left under it. A
    /// failed fit or pose, or a verdict against every match, gives `None`;
    /// otherwise the refined pose with the matches whose verdict is `true`.
    pub open spec fn two_view(
        &self,
        g: G,
        pair: Pair,
        trace: (bool, Seq<usize>, bool, Seq<usize>, Seq<(usize, usize)>, G::Pose, Seq<bool>),
        r: Option<Covisibility<G::Pose>>,
    ) -> bool {
        let (fit_ok, fit_inliers, pose_ok, pose_inliers, chiral, refined, verdicts) = trace;
        let da = self.descriptors_of(pair.0 as int);
        let db = self.descriptors_of(pair.1 as int);
        &&& !fit_ok || !pose_ok ==> r is None
        &&& fit_ok && pose_ok ==> {
            &&& exists|cands: Seq<(usize, usize)>|
                #[trigger] holds_candidates(da, db, self.spec_match_threshold(), cands)
                && chiral == at_positions(at_positions(cands, fit_inliers), pose_inliers)
            &&& verdicts.len() == chiral.len()
            &&& forall|k: int| 0 <= k < chiral.len() ==> #[trigger] verdicts[k] == g.spec_consistent(
                refined,
                self.features_of(pair.0 as int)@[chiral[k].0 as int].0,
                self.features_of(pair.1 as int)@[chiral[k].1 as int].0,
            )
            &&& (r is None <==> !verdicts.contains(true))
            &&& r matches Some(c) ==> c.pose == refined && c.matches@ == flagged(chiral, verdicts)
        }
        &&& r matches Some(c) ==> {
            &&& c.matches.len() > 0
            &&& forall|k: int|
                0 <= k < c.matches.len() ==> is_candidate(da, db, self.spec_match_threshold(), #[trigger] c.matches@[k])
        }
    }

    /// Whether matching `p` was attempted and succeeded.
    pub open spec fn matched(&self, p: Pair) -> bool {
        self.cache().contains_key(p) && self.cache()[p] is Some
    }

    /// The relative pose cached for a successfully matched pair.
    fn cached_pose(&self, pair: Pair) -> (r: Option<&G::Pose>)
        ensures
            r is Some <==> self.matched(pair),
            r matches Some(p) ==> *p == self.cache()[pair]->0.pose,
    {
        match self.covisibilities.get(&pair.0) {
            None => None,
            Some(inner) => match inner.get(&pair.1) {
                Some(Some(c)) => Some(&c.pose),
                _ => None,
            },
        }
    }

    /// Places the given frames (in any order, repeats allowed) into one
    /// connected graph. The lowest frame is placed first, at the identity
    /// pose; then each other frame in increasing order is placed after the
    /// lowest frame already placed that it was successfully matched with, at
    /// that frame's pose composed with their cached relative pose, and the
    /// pair of the two is recorded. A frame matched with no placed frame is
    /// left out.
    #[verifier::spinoff_prover]
    #[verifier::rlimit(50)]
    pub fn frame_graph(&self, frames: &Vec<usize>) -> (r: BundleAdjust<G::Pose>)
        requires
            self.wf(),
            frames.len() > 0,
            forall|i: int| 0 <= i < frames.len() ==> #[trigger] frames@[i] < self.frame_count(),
        ensures
            ({
                let placed = keys_of(r.poses@);
                &&& forall|k: int, l: int| 0 <= k < l < placed.len() ==> placed[k] < placed[l]
                &&& forall|k: int| 0 <= k < placed.len() ==> frames@.contains(#[trigger] placed[k])
                &&& placed.len() > 0
                &&& placed.len() > 0 ==> forall|i: int| 0 <= i < frames.len() ==> placed[0] <= #[trigger] frames@[i]
                &&& forall|c: usize|
                    frames@.contains(c) && placed.len() > 0 && c > placed[0] ==> (#[trigger] placed.contains(c) <==> exists|k: int|
                        0 <= k < placed.len() && placed[k] < c && self.matched(Pair::spec_new(#[trigger] placed[k], c)))
                &&& r.pairs.len() == if placed.len() == 0 { 0 } else { placed.len() - 1 }
                &&& placed.len() > 0 ==> r.poses@[0].1 == self.geometry_of().spec_identity()
                &&& forall|i: int| 1 <= i < placed.len() ==> #[trigger] self.has_parent(r.poses@, r.pairs@, i)
            }),
            self.is_frame_graph(Set::new(|c: usize| frames@.contains(c)), keys_of(r.poses@), r.pairs@),
    {
        let n = self.frames.len();
        let mut member: Vec<bool> = Vec::new();
        let mut c: usize = 0;
        while c < n
            invariant
                c <= n,
                member.len() == c,
                forall|k: int| 0 <= k < c ==> !#[trigger] member@[k],
            decreases n - c,
        {
            member.push(false);
            c = c + 1;
        }
        let mut i: usize = 0;
        while i < frames.len()
            invariant
                0 <= i <= frames.len(),
                n == self.frame_count(),
                member.len() == n,
                forall|k: int| 0 <= k < frames.len() ==> #[trigger] frames@[k] < n,
                forall|x: int| 0 <= x < n ==> (#[trigger] member@[x] <==> frames@.take(i as int).contains(x as usize)),
            decreases frames.len() - i,
        {
            let f = frames[i];
            let ghost old_member = member@;
            member.set(f, true);
            proof {
                let t0 = frames@.take(i as int);
                let t1 = frames@.take(i as int + 1);
                assert(t1 =~= t0.push(f));
                assert forall|x: int| 0 <= x < n implies (#[trigger] member@[x] <==> t1.contains(x as usize)) by {
                    if x == f as int {
                        assert(t1[i as int] == f);
                    } else {
                        assert(member@[x] == old_member[x]);
                        if t0.contains(x as usize) {
                            let k = choose|k: int| 0 <= k < t0.len() && #[trigger] t0[k] == x as usize;
                            assert(t1[k] == x as usize);
                        }
                        if t1.contains(x as usize) {
                            let k = choose|k: int| 0 <= k < t1.len() && #[trigger] t1[k] == x as usize;
                            assert(k < t0.len());
                            assert(t0[k] == x as usize);
                        }
                    }
                }
            }
            i = i + 1;
        }
        proof {
            assert(frames@.take(frames.len() as int) =~= frames@);
        }
        let mut poses: Vec<(usize, G::Pose)> = Vec::new();
        let mut pairs: Vec<Pair> = Vec::new();
        let mut c: usize = 0;
        while c < n
            invariant
                c <= n,
                n == self.frame_count(),
                member.len() == n,
                self.wf(),
                forall|x: int| 0 <= x < n ==> (#[trigger] member@[x] <==> frames@.contains(x as usize)),
                forall|k: int| 0 <= k < frames.len() ==> #[trigger] frames@[k] < n,
                forall|k: int, l: int| 0 <= k < l < keys_of(poses@).len() ==> keys_of(poses@)[k] < keys_of(poses@)[l],
                forall|k: int| 0 <= k < keys_of(poses@).len() ==> #[trigger] keys_of(poses@)[k] < c && frames@.contains(keys_of(poses@)[k]),
                (exists|x: usize| x < c && frames@.contains(x)) <==> keys_of(poses@).len() > 0,
                keys_of(poses@).len() > 0 ==> forall|x: usize| x < c && #[trigger] frames@.contains(x) ==> keys_of(poses@)[0] <= x,
                forall|x: usize|
                    x < c && frames@.contains(x) && keys_of(poses@).len() > 0 && x > keys_of(poses@)[0] ==> (#[trigger] keys_of(poses@).contains(x) <==> exists|k: int|
                        0 <= k < keys_of(poses@).len() && keys_of(poses@)[k] < x && self.matched(Pair::spec_new(#[trigger] keys_of(poses@)[k], x))),
                pairs.len() == if keys_of(poses@).len() == 0 { 0 } else { keys_of(poses@).len() - 1 },
                poses.len() > 0 ==> poses@[0].1 == self.geometry_of().spec_identity(),
                forall|i: int| 1 <= i < poses.len() ==> #[trigger] self.has_parent(poses@, pairs@, i),
            decreases n - c,
        {
            let ghost placed = keys_of(poses@);
            if member[c] {
                if poses.len() == 0 {
                    poses.push((c, self.geometry.identity()));
                    proof {
                        let np = keys_of(poses@);
                        assert(np =~= seq![c]);
                        assert forall|x: usize| x < c + 1 && #[trigger] frames@.contains(x) implies np[0] <= x by {
                            if x < c {
                                assert(placed.len() > 0);
                            }
                        }
                        assert forall|x: usize| x < c + 1 && frames@.contains(x) && np.len() > 0 && x > np[0] implies (#[trigger] np.contains(x) <==> exists|k: int|
                            0 <= k < np.len() && np[k] < x && self.matched(Pair::spec_new(#[trigger] np[k], x))) by {
                        }
                        assert(exists|x: usize| x < c + 1 && frames@.contains(x)) by {
                            assert(frames@.contains(c));
                        }
                    }
                } else {
                    let mut j: usize = 0;
                    let mut found: Option<usize> = None;
                    while j < poses.len() && found.is_none()
                        invariant
                            0 <= j <= poses.len(),
                            placed == keys_of(poses@),
                            poses.len() > 0 ==> poses@[0].1 == self.geometry_of().spec_identity(),
                            forall|i: int| 1 <= i < poses.len() ==> #[trigger] self.has_parent(poses@, pairs@, i),
                            forall|k2: int| 0 <= k2 < j ==> !self.matched(Pair::spec_new(#[trigger] placed[k2], c)),
                            found matches Some(jj) ==> jj == j && j < poses.len() && self.matched(Pair::spec_new(placed[jj as int], c)),
                        decreases poses.len() - j + (if found is None { 1int } else { 0int }),
                    {
                        let p = Pair::new(poses[j].0, c);
                        if self.cached_pose(p).is_some() {
                            found = Some(j);
                        } else {
                            j = j + 1;
                        }
                    }
                    match found {
                        Some(j) => {
                            let prev = poses[j].0;
                            let pair = Pair::new(prev, c);
                            let rel = self.cached_pose(pair).unwrap();
                            let pose = self.geometry.compose(&poses[j].1, rel);
                            let ghost old_poses = poses@;
                            let ghost old_pairs = pairs@;
                            poses.push((c, pose));
                            pairs.push(pair);
                            proof {
                                let np = keys_of(poses@);
                                assert(np =~= placed.push(c));
                                assert(self.matched(Pair::spec_new(placed[j as int], c)));
                                assert forall|x: usize| x < c + 1 && frames@.contains(x) && np.len() > 0 && x > np[0] implies (#[trigger] np.contains(x) <==> exists|k: int|
                                    0 <= k < np.len() && np[k] < x && self.matched(Pair::spec_new(#[trigger] np[k], x))) by {
                                    if x < c {
                                        if placed.contains(x) {
                                            let k0 = choose|k: int| 0 <= k < placed.len() && #[trigger] placed[k] == x;
                                            assert(np[k0] == x);
                                        }
                                        if np.contains(x) {
                                            let k0 = choose|k: int| 0 <= k < np.len() && #[trigger] np[k] == x;
                                            assert(k0 < placed.len());
                                            assert(placed[k0] == x);
                                        }
                                        if exists|k: int| 0 <= k < np.len() && np[k] < x && self.matched(Pair::spec_new(#[trigger] np[k], x)) {
                                            let k0 = choose|k: int| 0 <= k < np.len() && np[k] < x && self.matched(Pair::spec_new(#[trigger] np[k], x));
                                            assert(k0 < placed.len());
                                            assert(placed[k0] == np[k0]);
                                        }
                                        if exists|k: int| 0 <= k < placed.len() && placed[k] < x && self.matched(Pair::spec_new(#[trigger] placed[k], x)) {
                                            let k0 = choose|k: int| 0 <= k < placed.len() && placed[k] < x && self.matched(Pair::spec_new(#[trigger] placed[k], x));
                                            assert(placed[k0] == np[k0]);
                                        }
                                    } else {
                                        assert(np[placed.len() as int] == c);
                                        assert(np[j as int] == placed[j as int]);
                                    }
                                }
                                assert forall|i: int| 1 <= i < poses.len() implies #[trigger] self.has_parent(poses@, pairs@, i) by {
                                    if i < old_poses.len() {
                                        assert(self.has_parent(old_poses, old_pairs, i));
                                        let k = choose|k: int| #[trigger] self.placed_after(old_poses, old_pairs, i, k);
                                        assert(poses@[k] == old_poses[k]);
                                        assert(poses@[i] == old_poses[i]);
                                        assert(pairs@[i - 1] == old_pairs[i - 1]);
                                        assert forall|k2: int| 0 <= k2 < k implies !self.matched(Pair::spec_new(#[trigger] poses@[k2].0, poses@[i].0)) by {
                                            assert(poses@[k2] == old_poses[k2]);
                                            assert(!self.matched(Pair::spec_new(old_poses[k2].0, old_poses[i].0)));
                                        }
                                        assert(self.placed_after(poses@, pairs@, i, k));
                                    } else {
                                        assert(poses@[j as int] == old_poses[j as int]);
                                        assert(pairs@[i - 1] == Pair::spec_new(np[j as int], np[i]));
                                        assert forall|k2: int| 0 <= k2 < j implies !self.matched(Pair::spec_new(#[trigger] poses@[k2].0, poses@[i].0)) by {
                                            assert(poses@[k2] == old_poses[k2]);
                                            assert(np[k2] == placed[k2]);
                                        }
                                        assert(self.placed_after(poses@, pairs@, i, j as int));
                                    }
                                }
                            }
                        },
                        None => {
                            proof {
                                assert(forall|i: int| 1 <= i < poses.len() ==> #[trigger] self.has_parent(poses@, pairs@, i));
                                assert(j == poses.len());
                                assert(!placed.contains(c)) by {
                                    if placed.contains(c) {
                                        let k0 = choose|k: int| 0 <= k < placed.len() && #[trigger] placed[k] == c;
                                        assert(placed[k0] < c);
                                    }
                                }
                                assert forall|x: usize| x < c + 1 && frames@.contains(x) && placed.len() > 0 && x > placed[0] implies (#[trigger] placed.contains(x) <==> exists|k: int|
                                    0 <= k < placed.len() && placed[k] < x && self.matched(Pair::spec_new(#[trigger] placed[k], x))) by {
                                    if x == c {
                                        assert(!placed.contains(c));
                                    }
                                }
                            }
                        },
                    }
                }
            } else {
                proof {
                    assert(!frames@.contains(c));
                }
            }
            proof {
                assert(forall|i: int| 1 <= i < poses.len() ==> #[trigger] self.has_parent(poses@, pairs@, i));
            }
            c = c + 1;
        }
        proof {
            let placed = keys_of(poses@);
            if frames.len() > 0 {
                assert(frames@[0] < n);
                assert(frames@.contains(frames@[0]));
            }
            if placed.len() > 0 {
                assert(frames@.contains(placed[0]));
                assert(frames.len() > 0);
                assert forall|i: int| 0 <= i < frames.len() implies placed[0] <= #[trigger] frames@[i] by {
                    assert(frames@[i] < n);
                    assert(frames@.contains(frames@[i]));
                }
            }
            assert forall|x: usize|
                frames@.contains(x) && placed.len() > 0 && x > placed[0] implies (#[trigger] placed.contains(x) <==> exists|k: int|
                    0 <= k < placed.len() && placed[k] < x && self.matched(Pair::spec_new(#[trigger] placed[k], x))) by {
                let k = choose|k: int| 0 <= k < frames.len() && #[trigger] frames@[k] == x;
                assert(frames@[k] < n);
            }
            let inputs = Set::new(|c: usize| frames@.contains(c));
            assert forall|c: usize| #[trigger] inputs.contains(c) implies placed[0] <= c by {
                let k = choose|k: int| 0 <= k < frames.len() && #[trigger] frames@[k] == c;
                assert(frames@[k] < n);
            }
            assert forall|i: int| 1 <= i < placed.len() implies exists|k: int| {
                &&& 0 <= k < i
                &&& #[trigger] pairs@[i - 1] == Pair::spec_new(placed[k], placed[i])
                &&& self.matched(pairs@[i - 1])
                &&& forall|k2: int| 0 <= k2 < k ==> !self.matched(Pair::spec_new(#[trigger] placed[k2], placed[i]))
            } by {
                assert(self.has_parent(poses@, pairs@, i));
                let k = choose|k: int| #[trigger] self.placed_after(poses@, pairs@, i, k);
                assert(placed[k] == poses@[k].0);
                assert(placed[i] == poses@[i].0);
                assert forall|k2: int| 0 <= k2 < k implies !self.matched(Pair::spec_new(#[trigger] placed[k2], placed[i])) by {
                    assert(placed[k2] == poses@[k2].0);
                }
            }
            assert(self.is_frame_graph(inputs, placed, pairs@));
        }
        BundleAdjust { poses, pairs }
    }

    /// The number of frames that see landmark `h`.
    pub open spec fn observation_count_of(&self, h: usize) -> nat {
        self.landmark_map()[h].len()
    }

    /// Landmark `h1` comes before landmark `h2` when picking landmarks for
    /// optimization: more observations first, then the lower handle.
    pub open spec fn ranks_before(&self, h1: usize, h2: usize) -> bool {
        ||| self.observation_count_of(h1) > self.observation_count_of(h2)
        ||| (self.observation_count_of(h1) == self.observation_count_of(h2) && h1 < h2)
    }

    /// `sel` lists the `n` landmarks with the most observations, ties broken
    /// by the lower handle, in that order; all of them where there are fewer.
    pub open spec fn is_selection(&self, n: usize, sel: Seq<usize>) -> bool {
        &&& sel.len() <= n
        &&& sel.no_duplicates()
        &&& forall|k: int| 0 <= k < sel.len() ==> self.landmark_map().contains_key(#[trigger] sel[k])
        &&& forall|k: int, l: int| 0 <= k < l < sel.len() ==> self.ranks_before(sel[k], sel[l])
        &&& forall|h: usize, k: int|
            self.landmark_map().contains_key(h) && !sel.contains(h) && 0 <= k < sel.len() ==> #[trigger] self.ranks_before(sel[k], h)
        &&& sel.len() < n ==> forall|h: usize| #[trigger] self.landmark_map().contains_key(h) ==> sel.contains(h)
    }

    /// Some of the first `i` landmarks of `sel` is seen by frame `f`.
    pub open spec fn seen_by_first(&self, sel: Seq<usize>, i: int, f: usize) -> bool {
        exists|k: int| 0 <= k < i && #[trigger] self.landmark_map()[sel[k]].contains_key(f)
    }

    /// The frames that see at least one of the landmarks `sel`.
    pub open spec fn selected_frames(&self, sel: Seq<usize>) -> Set<usize> {
        Set::new(|f: usize| exists|k: int| 0 <= k < sel.len() && #[trigger] self.landmark_map()[sel[k]].contains_key(f))
    }

    /// `placed` and `pairs` are the frame graph of the frames `inputs`: the
    /// placed frames in increasing order, the lowest input first, each other
    /// input placed exactly when some lower placed frame was matched with it,
    /// and the `i`-th pair joining the `i + 1`-th placed frame to the lowest
    /// placed frame matched with it.
    pub open spec fn is_frame_graph(&self, inputs: Set<usize>, placed: Seq<usize>, pairs: Seq<Pair>) -> bool {
        &&& forall|k: int, l: int| 0 <= k < l < placed.len() ==> placed[k] < placed[l]
        &&& forall|k: int| 0 <= k < placed.len() ==> inputs.contains(#[trigger] placed[k])
        &&& placed.len() > 0
        &&& forall|c: usize| #[trigger] inputs.contains(c) ==> placed[0] <= c
        &&& forall|c: usize|
            inputs.contains(c) && c > placed[0] ==> (#[trigger] placed.contains(c) <==> exists|k: int|
                0 <= k < placed.len() && placed[k] < c && self.matched(Pair::spec_new(#[trigger] placed[k], c)))
        &&& pairs.len() == placed.len() - 1
        &&& forall|i: int| 1 <= i < placed.len() ==> exists|k: int| {
            &&& 0 <= k < i
            &&& #[trigger] pairs[i - 1] == Pair::spec_new(placed[k], placed[i])
            &&& self.matched(pairs[i - 1])
            &&& forall|k2: int| 0 <= k2 < k ==> !self.matched(Pair::spec_new(#[trigger] placed[k2], placed[i]))
        }
    }

    /// `placed` and `pairs` are the frame graph of the frames that see the `n`
    /// landmarks with the most observations (both empty when no frame does).
    pub open spec fn spans(&self, n: usize, placed: Seq<usize>, pairs: Seq<Pair>) -> bool {
        exists|sel: Seq<usize>|
            #[trigger] self.is_selection(n, sel) && (if self.selected_frames(sel) == Set::<usize>::empty() {
                placed.len() == 0 && pairs.len() == 0
            } else {
                self.is_frame_graph(self.selected_frames(sel), placed, pairs)
            })
    }

    /// The `n` landmarks with the most observations, ties broken by the lower
    /// handle, in that order; all of them where there are fewer than `n`.
    pub fn select_landmarks(&self, n: usize) -> (r: Vec<usize>)
        requires
            self.wf(),
        ensures
            r.len() <= n,
            r@.no_duplicates(),
            forall|k: int| 0 <= k < r.len() ==> self.landmark_map().contains_key(#[trigger] r@[k]),
            forall|k: int, l: int| 0 <= k < l < r.len() ==> self.ranks_before(r@[k], r@[l]),
            forall|h: usize, k: int|
                self.landmark_map().contains_key(h) && !r@.contains(h) && 0 <= k < r.len() ==> #[trigger] self.ranks_before(r@[k], h),
            r.len() < n ==> forall|h: usize| #[trigger] self.landmark_map().contains_key(h) ==> r@.contains(h),
            self.is_selection(n, r@),
    {
        let bound = self.landmark_bound;
        let mut chosen: Vec<bool> = Vec::new();
        let mut c: usize = 0;
        while c < bound
            invariant
                c <= bound,
                chosen.len() == c,
                forall|k: int| 0 <= k < c ==> !#[trigger] chosen@[k],
            decreases bound - c,
        {
            chosen.push(false);
            c = c + 1;
        }
        let mut r: Vec<usize> = Vec::new();
        let mut exhausted = false;
        while r.len() < n && !exhausted
            invariant
                self.wf(),
                bound == self.landmark_bound,
                chosen.len() == bound,
                r.len() <= n,
                r.len() <= bound,
                r@.no_duplicates(),
                forall|k: int| 0 <= k < r.len() ==> #[trigger] r@[k] < bound,
                forall|h: int| 0 <= h < bound ==> (#[trigger] chosen@[h] <==> r@.contains(h as usize)),
                forall|k: int| 0 <= k < r.len() ==> self.landmark_map().contains_key(#[trigger] r@[k]),
                forall|k: int, l: int| 0 <= k < l < r.len() ==> self.ranks_before(r@[k], r@[l]),
                forall|h: usize, k: int|
                    self.landmark_map().contains_key(h) && !r@.contains(h) && 0 <= k < r.len() ==> #[trigger] self.ranks_before(r@[k], h),
                exhausted ==> forall|h: usize| #[trigger] self.landmark_map().contains_key(h) ==> r@.contains(h),
            decreases bound - r.len() + (if exhausted { 0int } else { 1int }),
        {
            let mut best: Option<(usize, usize)> = None;
            let mut h: usize = 0;
            while h < bound
                invariant
                    self.wf(),
                    bound == self.landmark_bound,
                    h <= bound,
                    chosen.len() == bound,
                    best matches Some(b) ==> {
                        &&& b.0 < h
                        &&& self.landmark_map().contains_key(b.0)
                        &&& !chosen@[b.0 as int]
                        &&& b.1 == self.observation_count_of(b.0)
                        &&& forall|h2: usize|
                            h2 < h && self.landmark_map().contains_key(h2) && !chosen@[h2 as int] && h2 != b.0 ==> #[trigger] self.ranks_before(b.0, h2)
                    },
                    best is None ==> forall|h2: usize|
                        h2 < h && #[trigger] self.landmark_map().contains_key(h2) ==> chosen@[h2 as int],
                decreases bound - h,
            {
                let ghost old_best = best;
                if !chosen[h] {
                    match self.landmarks.get(&h) {
                        Some(lm) => {
                            let cnt = lm.observation_count();
                            proof {
                                assert(self.landmark_map().contains_key(h));
                                assert(cnt == self.observation_count_of(h));
                            }
                            match best {
                                Some(b) => {
                                    if cnt > b.1 {
                                        best = Some((h, cnt));
                                    }
                                },
                                None => {
                                    best = Some((h, cnt));
                                },
                            }
                        },
                        None => {
                            proof {
                                assert(!self.landmark_map().contains_key(h));
                            }
                        },
                    }
                }
                proof {
                    if best is Some {
                        let b = best->0;
                        assert forall|h2: usize|
                            h2 < h + 1 && self.landmark_map().contains_key(h2) && !chosen@[h2 as int] && h2 != b.0 implies #[trigger] self.ranks_before(b.0, h2) by {
                            if old_best is Some && h2 != (old_best->0).0 && h2 < h {
                                assert(self.ranks_before((old_best->0).0, h2));
                            }
                        }
                    }
                }
                h = h + 1;
            }
            match best {
                None => {
                    exhausted = true;
                    proof {
                        assert forall|h2: usize| #[trigger] self.landmark_map().contains_key(h2) implies r@.contains(h2) by {
                            assert(h2 < bound);
                            assert(chosen@[h2 as int]);
                        }
                    }
                },
                Some(b) => {
                    let ghost old_r = r@;
                    proof {
                        assert(!old_r.contains(b.0));
                    }
                    chosen.set(b.0, true);
                    r.push(b.0);
                    proof {
                        assert forall|i: int, j: int| 0 <= i < j < r.len() implies r@[i] != r@[j] by {
                            if j == old_r.len() {
                                assert(r@[i] == old_r[i]);
                                assert(old_r.contains(old_r[i]));
                            }
                        }
                        lemma_distinct_below(r@, bound);
                        assert forall|x: int| 0 <= x < bound implies (#[trigger] chosen@[x] <==> r@.contains(x as usize)) by {
                            if old_r.contains(x as usize) {
                                let i = choose|i: int| 0 <= i < old_r.len() && old_r[i] == x as usize;
                                assert(r@[i] == x as usize);
                            }
                            if r@.contains(x as usize) && x as usize != b.0 {
                                let i = choose|i: int| 0 <= i < r.len() && r@[i] == x as usize;
                                assert(old_r[i] == x as usize);
                            }
                            if x as usize == b.0 {
                                assert(r@[old_r.len() as int] == b.0);
                            }
                        }
                        assert forall|k: int, l: int| 0 <= k < l < r.len() implies self.ranks_before(r@[k], r@[l]) by {
                            if l == old_r.len() {
                                assert(r@[k] == old_r[k]);
                                assert(!old_r.contains(b.0));
                            }
                        }
                        assert forall|h2: usize, k: int|
                            self.landmark_map().contains_key(h2) && !r@.contains(h2) && 0 <= k < r.len() implies #[trigger] self.ranks_before(r@[k], h2) by {
                            assert(r@[old_r.len() as int] == b.0);
                            if k < old_r.len() {
                                assert(r@[k] == old_r[k]);
                                if old_r.contains(h2) {
                                    let i = choose|i: int| 0 <= i < old_r.len() && old_r[i] == h2;
                                    assert(r@[i] == h2);
                                }
                            } else {
                                assert(h2 < bound);
                                assert(!chosen@[h2 as int]) by {
                                    if old_r.contains(h2) {
                                        let i = choose|i: int| 0 <= i < old_r.len() && old_r[i] == h2;
                                        assert(r@[i] == h2);
                                    }
                                }
                            }
                        }
                    }
                },
            }
        }
        r
    }

    /// Replaces the relative pose cached for a successfully matched pair.
    fn set_pose(&mut self, pair: Pair, pose: G::Pose)
        requires
            old(self).matched(pair),
            old(self).cache_keys_valid(),
        ensures
            final(self).cache_keys_valid(),
            final(self).cache() == old(self).cache().insert(
                pair,
                Some(Covisibility { pose, matches: old(self).cache()[pair]->0.matches }),
            ),
            final(self).feeds == old(self).feeds,
            final(self).frames == old(self).frames,
            final(self).links == old(self).links,
            final(self).landmark_handles == old(self).landmark_handles,
            final(self).landmarks == old(self).landmarks,
            final(self).landmark_bound == old(self).landmark_bound,
            final(self).geometry == old(self).geometry,
            final(self).match_threshold == old(self).match_threshold,
            final(self).optimization_points == old(self).optimization_points,
    {
        let mut inner = self.covisibilities.remove(&pair.0).unwrap();
        let previous = inner.remove(&pair.1).unwrap();
        let matches = previous.unwrap().matches;
        inner.insert(pair.1, Some(Covisibility { pose, matches }));
        self.covisibilities.insert(pair.0, inner);
        proof {
            assert forall|a: usize, b: usize|
                self.covisibilities@.contains_key(a) && #[trigger] self.covisibilities@[a]@.contains_key(b) implies b < self.frames.len() by {
                assert(old(self).covisibilities@[a]@.contains_key(b));
            }
            let v = Some(Covisibility { pose, matches: old(self).cache()[pair]->0.matches });
            assert forall|p: Pair| #[trigger] self.cache_entry(p) == if p == pair { Some(v) } else { old(self).cache_entry(p) } by {
                if p.0 == pair.0 && p != pair {
                    assert(p.1 != pair.1);
                }
            }
            assert(self.cache() =~= old(self).cache().insert(pair, v));
        }
    }

    /// The absolute pose placed for `frame`, if any.
    fn placed_pose<'a>(poses: &'a Vec<(usize, G::Pose)>, frame: usize) -> (r: Option<&'a G::Pose>)
        requires
            increasing_keys(poses@),
        ensures
            r is Some <==> keys_of(poses@).contains(frame),
            r matches Some(p) ==> *p == pose_at(poses@, frame),
    {
        let mut i: usize = 0;
        while i < poses.len()
            invariant
                0 <= i <= poses.len(),
                forall|k: int| 0 <= k < i ==> #[trigger] keys_of(poses@)[k] != frame,
                increasing_keys(poses@),
            decreases poses.len() - i,
        {
            if poses[i].0 == frame {
                proof {
                    assert(keys_of(poses@)[i as int] == frame);
                    assert(poses@[i as int].0 == frame);
                    let j = choose|j: int| 0 <= j < poses@.len() && #[trigger] poses@[j].0 == frame;
                    if j < i {
                        assert(poses@[j].0 < poses@[i as int].0);
                    }
                    if j > i {
                        assert(poses@[i as int].0 < poses@[j].0);
                    }
                }
                return Some(&poses[i].1);
            }
            i = i + 1;
        }
        None
    }

    /// Selects the `num_landmarks` landmarks with the most observations,
    /// places the frames that see them into one connected graph, and refines
    /// the poses of those frames jointly against the landmarks' observations.
    fn compute_bundle_adjust_highest_observances(&mut self, num_landmarks: usize) -> (r: BundleAdjust<G::Pose>)
        requires
            old(self).wf(),
        ensures
            final(self).same_but_geometry(old(self)),
            final(self).wf(),
            forall|k: int| 0 <= k < r.pairs.len() ==> final(self).matched(#[trigger] r.pairs@[k]),
            increasing_keys(r.poses@),
            exists|placed: Seq<usize>|
                #[trigger] old(self).spans(num_landmarks, placed, r.pairs@) && r.poses.len() <= placed.len()
                    && keys_of(r.poses@) == placed.take(r.poses.len() as int),
            old(self).landmarks@.len() == 0 || num_landmarks == 0 ==> {
                &&& *final(self) == *old(self)
                &&& r.pairs.len() == 0
                &&& r.poses.len() == 0
            },
    {
        if self.landmarks.len() == 0 || num_landmarks == 0 {
            proof {
                let sel = Seq::<usize>::empty();
                if self.landmarks@.len() == 0 {
                    assert(self.landmarks@.dom() =~= Set::<usize>::empty());
                    assert(forall|h: usize| !self.landmark_map().contains_key(h));
                }
                assert(self.is_selection(num_landmarks, sel));
                assert(self.selected_frames(sel) =~= Set::<usize>::empty());
                assert(self.spans(num_landmarks, Seq::empty(), Seq::<Pair>::empty()));
            }
            let none = BundleAdjust { poses: Vec::new(), pairs: Vec::new() };
            proof {
                assert(none.pairs@ =~= Seq::<Pair>::empty());
                assert(keys_of(none.poses@) =~= Seq::<usize>::empty().take(0));
                assert(old(self).spans(num_landmarks, Seq::empty(), none.pairs@));
            }
            return none;
        }
        let chosen = self.select_landmarks(num_landmarks);
        let mut frames: Vec<usize> = Vec::new();
        let mut i: usize = 0;
        while i < chosen.len()
            invariant
                self.wf(),
                0 <= i <= chosen.len(),
                forall|k: int| 0 <= k < chosen.len() ==> self.landmark_map().contains_key(#[trigger] chosen@[k]),
                forall|k: int| 0 <= k < frames.len() ==> #[trigger] frames@[k] < self.frame_count(),
                forall|x: usize| #[trigger] frames@.contains(x) <==> self.seen_by_first(chosen@, i as int, x),
            decreases chosen.len() - i,
        {
            let lm = self.landmarks.get(&chosen[i]).unwrap();
            proof {
                assert(self.landmark_map().contains_key(chosen@[i as int]));
                assert(self.landmarks@[chosen@[i as int]].wf());
                lm.lemma_frame_list();
                assert(lm@ == self.landmark_map()[chosen@[i as int]]);
            }
            let seen = lm.frames();
            let mut j: usize = 0;
            while j < seen.len()
                invariant
                    self.wf(),
                    0 <= j <= seen.len(),
                    seen@ == lm.frame_list(),
                    *lm == self.landmarks@[chosen@[i as int]],
                    self.landmarks@.contains_key(chosen@[i as int]),
                    forall|k: int| 0 <= k < seen.len() ==> lm@.contains_key(#[trigger] seen@[k]),
                    forall|k: int| 0 <= k < frames.len() ==> #[trigger] frames@[k] < self.frame_count(),
                    0 <= i < chosen.len(),
                    forall|x: usize| #[trigger] frames@.contains(x) <==> self.seen_by_first(chosen@, i as int, x) || seen@.take(j as int).contains(x),
                decreases seen.len() - j,
            {
                let f = seen[j];
                proof {
                    assert(lm@.contains_key(f));
                    assert(self.landmarks@[chosen@[i as int]]@.contains_key(f));
                }
                let ghost old_frames = frames@;
                frames.push(f);
                proof {
                    let t0 = seen@.take(j as int);
                    let t1 = seen@.take(j as int + 1);
                    assert(t1 =~= t0.push(f));
                    assert forall|x: usize| frames@.contains(x) <==> (old_frames.contains(x) || x == f) by {
                        if old_frames.contains(x) {
                            let q = choose|q: int| 0 <= q < old_frames.len() && old_frames[q] == x;
                            assert(frames@[q] == x);
                        }
                        if frames@.contains(x) && x != f {
                            let q = choose|q: int| 0 <= q < frames@.len() && frames@[q] == x;
                            assert(old_frames[q] == x);
                        }
                        if x == f {
                            assert(frames@[old_frames.len() as int] == f);
                        }
                    }
                    assert forall|x: usize| t1.contains(x) <==> (t0.contains(x) || x == f) by {
                        if t0.contains(x) {
                            let q = choose|q: int| 0 <= q < t0.len() && t0[q] == x;
                            assert(t1[q] == x);
                        }
                        if t1.contains(x) && x != f {
                            let q = choose|q: int| 0 <= q < t1.len() && t1[q] == x;
                            assert(t0[q] == x);
                        }
                        if x == f {
                            assert(t1[j as int] == f);
                        }
                    }
                    assert forall|x: usize| #[trigger] frames@.contains(x) <==> self.seen_by_first(chosen@, i as int, x) || t1.contains(x) by {
                        assert(old_frames.contains(x) <==> self.seen_by_first(chosen@, i as int, x) || t0.contains(x));
                    }
                }
                j = j + 1;
            }
            proof {
                assert(seen@.take(seen.len() as int) =~= seen@);
                assert forall|x: usize| #[trigger] frames@.contains(x) <==> self.seen_by_first(chosen@, i + 1, x) by {
                    if self.seen_by_first(chosen@, i as int, x) {
                        let k = choose|k: int| 0 <= k < i && #[trigger] self.landmark_map()[chosen@[k]].contains_key(x);
                        assert(self.seen_by_first(chosen@, i + 1, x));
                    }
                    if self.seen_by_first(chosen@, i + 1, x) && !self.landmark_map()[chosen@[i as int]].contains_key(x) {
                        let k = choose|k: int| 0 <= k < i + 1 && #[trigger] self.landmark_map()[chosen@[k]].contains_key(x);
                        assert(self.seen_by_first(chosen@, i as int, x));
                    }
                    if seen@.contains(x) {
                        let q = choose|q: int| 0 <= q < seen@.len() && seen@[q] == x;
                        assert(lm@.contains_key(seen@[q]));
                        assert(self.landmark_map()[chosen@[i as int]].contains_key(x));
                    }
                    if self.landmark_map()[chosen@[i as int]].contains_key(x) {
                        assert(lm.frame_list().contains(x));
                    }
                }
            }
            i = i + 1;
        }
        proof {
            assert(Set::new(|c: usize| frames@.contains(c)) =~= self.selected_frames(chosen@)) by {
                assert forall|c: usize| frames@.contains(c) <==> self.selected_frames(chosen@).contains(c) by {
                    assert(frames@.contains(c) <==> self.seen_by_first(chosen@, chosen@.len() as int, c));
                }
            }
        }
        if frames.len() == 0 {
            proof {
                assert(self.selected_frames(chosen@) =~= Set::<usize>::empty());
                assert(self.is_selection(num_landmarks, chosen@));
                assert(self.spans(num_landmarks, Seq::empty(), Seq::<Pair>::empty()));
            }
            let none = BundleAdjust { poses: Vec::new(), pairs: Vec::new() };
            proof {
                assert(none.pairs@ =~= Seq::<Pair>::empty());
                assert(keys_of(none.poses@) =~= Seq::<usize>::empty().take(0));
                assert(old(self).spans(num_landmarks, Seq::empty(), none.pairs@));
            }
            return none;
        }
        let graph = self.frame_graph(&frames);
        proof {
            assert(frames@.contains(frames@[0]));
            assert(self.selected_frames(chosen@).contains(frames@[0]));
            assert(self.is_selection(num_landmarks, chosen@));
            assert(self.spans(num_landmarks, keys_of(graph.poses@), graph.pairs@));
            assert forall|k: int| 0 <= k < graph.pairs.len() implies self.matched(#[trigger] graph.pairs@[k]) by {
                let i = k + 1;
                assert(1 <= i < keys_of(graph.poses@).len());
                assert(self.has_parent(graph.poses@, graph.pairs@, i));
                let kk = choose|kk: int| #[trigger] self.placed_after(graph.poses@, graph.pairs@, i, kk);
                assert(graph.pairs@[i - 1] == graph.pairs@[k]);
            }
        }
        let mut observations: Vec<Vec<Option<G::Keypoint>>> = Vec::new();
        let mut i: usize = 0;
        while i < chosen.len()
            invariant
                self.wf(),
                0 <= i <= chosen.len(),
            decreases chosen.len() - i,
        {
            let mut row: Vec<Option<G::Keypoint>> = Vec::new();
            match self.landmarks.get(&chosen[i]) {
                Some(lm) => {
                    let mut j: usize = 0;
                    while j < graph.poses.len()
                        invariant
                            0 <= j <= graph.poses.len(),
                        decreases graph.poses.len() - j,
                    {
                        let f = graph.poses[j].0;
                        let mut kp: Option<G::Keypoint> = None;
                        if f < self.frames.len() {
                            match lm.observance(f) {
                                Some(x) => {
                                    if x < self.frames[f].features.len() {
                                        kp = Some(self.frames[f].features[x].0.clone());
                                    }
                                },
                                None => {},
                            }
                        }
                        row.push(kp);
                        j = j + 1;
                    }
                },
                None => {},
            }
            observations.push(row);
            i = i + 1;
        }
        let BundleAdjust { poses: anchors, pairs } = graph;
        let mut frames_placed: Vec<usize> = Vec::new();
        let mut initial: Vec<G::Pose> = Vec::new();
        let mut i: usize = 0;
        while i < anchors.len()
            invariant
                0 <= i <= anchors.len(),
                frames_placed@ == keys_of(anchors@).take(i as int),
            decreases anchors.len() - i,
        {
            frames_placed.push(anchors[i].0);
            initial.push(anchors[i].1.clone());
            i = i + 1;
            proof {
                assert(frames_placed@ =~= keys_of(anchors@).take(i as int));
            }
        }
        proof {
            assert(keys_of(anchors@).take(anchors.len() as int) =~= keys_of(anchors@));
        }
        let refined = self.geometry.refine_poses(initial, observations);
        let mut poses: Vec<(usize, G::Pose)> = Vec::new();
        let mut i: usize = 0;
        while i < refined.len() && i < frames_placed.len()
            invariant
                0 <= i <= frames_placed.len(),
                poses.len() == i,
                keys_of(poses@) == frames_placed@.take(i as int),
            decreases frames_placed.len() - i,
        {
            poses.push((frames_placed[i], refined[i].clone()));
            i = i + 1;
            proof {
                assert(keys_of(poses@) =~= frames_placed@.take(i as int));
            }
        }
        proof {
            assert forall|k: int, l: int| 0 <= k < l < poses.len() implies poses@[k].0 < poses@[l].0 by {
                assert(poses@[k].0 == keys_of(poses@)[k]);
                assert(poses@[l].0 == keys_of(poses@)[l]);
                assert(keys_of(anchors@)[k] < keys_of(anchors@)[l]);
            }
        }
        BundleAdjust { poses, pairs }
    }

    /// Overwrites the cached relative pose of each spanning pair of `ba` with
    /// `inverse(pose(a)) * pose(b)` from its refined absolute poses.
    fn apply_bundle_adjust(&mut self, ba: BundleAdjust<G::Pose>)
        requires
            old(self).wf(),
            increasing_keys(ba.poses@),
        ensures
            forall|k: int| 0 <= k < ba.pairs.len() ==> #[trigger] final(self).refreshed(ba.poses@, ba.pairs@[k]),
            final(self).wf(),
            final(self).feeds == old(self).feeds,
            final(self).frames == old(self).frames,
            final(self).links == old(self).links,
            final(self).landmarks == old(self).landmarks,
            final(self).match_threshold == old(self).match_threshold,
            final(self).optimization_points == old(self).optimization_points,
            only_poses_changed(final(self).cache(), old(self).cache(), ba.pairs@.to_set()),
            ba.pairs.len() == 0 ==> *final(self) == *old(self),
    {
        let mut i: usize = 0;
        while i < ba.pairs.len()
            invariant
                0 <= i <= ba.pairs.len(),
                self.wf(),
                self.feeds == old(self).feeds,
                self.frames == old(self).frames,
                self.links == old(self).links,
                self.landmarks == old(self).landmarks,
                self.match_threshold == old(self).match_threshold,
                self.optimization_points == old(self).optimization_points,
                only_poses_changed(self.cache(), old(self).cache(), Set::new(|p: Pair| ba.pairs@.take(i as int).contains(p))),
                ba.pairs.len() == 0 ==> *self == *old(self),
                self.geometry == old(self).geometry,
                increasing_keys(ba.poses@),
                forall|k: int| 0 <= k < i ==> #[trigger] self.refreshed(ba.poses@, ba.pairs@[k]),
            decreases ba.pairs.len() - i,
        {
            let pair = ba.pairs[i];
            let ghost before = self.cache();
            let ghost before_state = *self;
            let ghost done = Set::new(|p: Pair| ba.pairs@.take(i as int).contains(p));
            let ghost done2 = Set::new(|p: Pair| ba.pairs@.take(i as int + 1).contains(p));
            proof {
                let t0 = ba.pairs@.take(i as int);
                let t1 = ba.pairs@.take(i as int + 1);
                assert(t1 =~= t0.push(pair));
                assert forall|p: Pair| done2.contains(p) <==> (done.contains(p) || p == pair) by {
                    if t0.contains(p) {
                        let k = choose|k: int| 0 <= k < t0.len() && t0[k] == p;
                        assert(t1[k] == p);
                    }
                    if t1.contains(p) && p != pair {
                        let k = choose|k: int| 0 <= k < t1.len() && t1[k] == p;
                        assert(t0[k] == p);
                    }
                    if p == pair {
                        assert(t1[i as int] == p);
                    }
                }
            }
            match (Self::placed_pose(&ba.poses, pair.0), Self::placed_pose(&ba.poses, pair.1)) {
                (Some(pa), Some(pb)) => {
                    if self.cached_pose(pair).is_some() {
                        let rel = self.geometry.relative(pa, pb);
                        self.set_pose(pair, rel);
                    }
                },
                _ => {},
            }
            proof {
                assert forall|p: Pair| #[trigger] self.cache().contains_key(p) implies {
                    &&& self.cache()[p] is Some == old(self).cache()[p] is Some
                    &&& old(self).cache()[p] is Some ==> self.cache()[p]->0.matches == old(self).cache()[p]->0.matches
                    &&& !done2.contains(p) ==> self.cache()[p] == old(self).cache()[p]
                } by {
                    assert(before.contains_key(p));
                }
                assert(self.cache().dom() =~= old(self).cache().dom()) by {
                    assert forall|p: Pair| self.cache().dom().contains(p) <==> before.dom().contains(p) by {}
                }
                assert forall|k: int| 0 <= k < i + 1 implies #[trigger] self.refreshed(ba.poses@, ba.pairs@[k]) by {
                    let p = ba.pairs@[k];
                    if p != pair {
                        assert(self.cache()[p] == before[p]);
                        assert(self.matched(p) == before_state.matched(p));
                        assert(before_state.refreshed(ba.poses@, ba.pairs@[k]));
                    }
                }
            }
            i = i + 1;
        }
        proof {
            assert(ba.pairs@.take(ba.pairs.len() as int) =~= ba.pairs@);
            assert(Set::new(|p: Pair| ba.pairs@.contains(p)) =~= ba.pairs@.to_set());
        }
    }

    /// Refines the reconstruction on the `num_landmarks` landmarks with the
    /// most observations: their frames are placed into one connected graph,
    /// their poses are refined jointly, and the relative pose cached for each
    /// pair of that graph is overwritten from the refined poses. Other cached
    /// pairs keep their pose. With no landmarks, or none asked for, nothing
    /// changes.
    pub fn bundle_adjust_highest_observances(&mut self, num_landmarks: usize)
        requires
            old(self).wf(),
        ensures
            final(self).wf(),
            final(self).frame_count() == old(self).frame_count(),
            final(self).feed_count() == old(self).feed_count(),
            forall|f: int| 0 <= f < old(self).feed_count() ==> #[trigger] final(self).feed_frames(f) == old(self).feed_frames(f),
            forall|f: int| 0 <= f < old(self).frame_count() ==> #[trigger] final(self).descriptors_of(f) == old(self).descriptors_of(f),
            final(self).landmark_map() == old(self).landmark_map(),
            final(self).link_maps() == old(self).link_maps(),
            final(self).spec_match_threshold() == old(self).spec_match_threshold(),
            final(self).spec_optimization_points() == old(self).spec_optimization_points(),
            exists|poses: Seq<(usize, G::Pose)>, placed: Seq<usize>, pairs: Seq<Pair>|
                #![trigger old(self).spans(num_landmarks, placed, pairs), keys_of(poses)]
            {
                &&& old(self).spans(num_landmarks, placed, pairs)
                &&& poses.len() <= placed.len()
                &&& keys_of(poses) == placed.take(poses.len() as int)
                &&& only_poses_changed(final(self).cache(), old(self).cache(), pairs.to_set())
                &&& forall|k: int| 0 <= k < pairs.len() ==> #[trigger] final(self).refreshed(poses, pairs[k])
            },
            old(self).landmark_map() == Map::<usize, Map<usize, usize>>::empty() || num_landmarks == 0 ==> *final(self) == *old(self),
    {
        proof {
            if old(self).landmark_map() == Map::<usize, Map<usize, usize>>::empty() {
                assert(!old(self).landmark_map().contains_key(0));
                assert(old(self).landmarks@.dom() =~= Set::<usize>::empty());
            }
        }
        let ba = self.compute_bundle_adjust_highest_observances(num_landmarks);
        let ghost mid = self.cache();
        let ghost gposes = ba.poses@;
        let ghost gpairs = ba.pairs@;
        self.apply_bundle_adjust(ba);
        proof {
            assert(mid == old(self).cache());
            let placed = choose|placed: Seq<usize>|
                #[trigger] old(self).spans(num_landmarks, placed, gpairs) && gposes.len() <= placed.len()
                    && keys_of(gposes) == placed.take(gposes.len() as int);
            assert(old(self).spans(num_landmarks, placed, gpairs));
            assert(forall|k: int| 0 <= k < gpairs.len() ==> #[trigger] self.refreshed(gposes, gpairs[k]));
            assert(self.landmark_map() =~= old(self).landmark_map());
            assert(self.link_maps() =~= old(self).link_maps());
        }
    }

    /// The number of live landmarks.
    pub fn landmark_count(&self) -> (r: usize)
        requires
            self.wf(),
        ensures
            r == self.landmark_map().len(),
    {
        proof {
            assert(self.landmark_map().dom() =~= self.landmarks@.dom());
        }
        self.landmarks.len()
    }

    /// The observations of landmark `h`, one `(frame, feature)` per observing
    /// frame; `None` if there is no such landmark.
    pub fn landmark_observances(&self, h: usize) -> (r: Option<Vec<(usize, usize)>>)
        requires
            self.wf(),
        ensures
            r is Some <==> self.landmark_map().contains_key(h),
            r matches Some(v) ==> {
                &&& v.len() == self.landmark_map()[h].len()
                &&& forall|k: int| 0 <= k < v.len() ==> self.landmark_map()[h].contains_key(#[trigger] v@[k].0)
                    && self.landmark_map()[h][v@[k].0] == v@[k].1
                &&& forall|f: usize| #[trigger] self.landmark_map()[h].contains_key(f) ==> exists|k: int| 0 <= k < v.len() && v@[k].0 == f
            },
    {
        match self.landmarks.get(&h) {
            None => None,
            Some(lm) => {
                proof {
                    assert(self.landmarks@[h].wf());
                    lm.lemma_frame_list();
                }
                let seen = lm.frames();
                let mut v: Vec<(usize, usize)> = Vec::new();
                let mut i: usize = 0;
                while i < seen.len()
                    invariant
                        0 <= i <= seen.len(),
                        seen@ == lm.frame_list(),
                        v.len() == i,
                        forall|k: int| 0 <= k < seen.len() ==> lm@.contains_key(#[trigger] seen@[k]),
                        forall|k: int| 0 <= k < i ==> (#[trigger] v@[k]).0 == seen@[k] && v@[k].1 == lm@[seen@[k]],
                    decreases seen.len() - i,
                {
                    let f = seen[i];
                    let x = lm.observance(f).unwrap();
                    v.push((f, x));
                    i = i + 1;
                }
                proof {
                    assert(lm@ == self.landmark_map()[h]);
                    assert forall|f: usize| #[trigger] lm@.contains_key(f) implies exists|k: int| 0 <= k < v.len() && v@[k].0 == f by {
                        assert(lm.frame_list().contains(f));
                        let k = choose|k: int| 0 <= k < seen.len() && seen@[k] == f;
                        assert(v@[k].0 == f);
                    }
                    seen@.unique_seq_to_set();
                    assert(seen@.to_set() =~= lm@.dom());
                }
                Some(v)
            },
        }
    }

    /// The landmark that feature `feature` of `frame` is tied to, if any.
    pub fn feature_landmark(&self, frame: usize, feature: usize) -> (r: Option<usize>)
        requires
            self.wf(),
        ensures
            r == self.landmark_of(frame, feature),
    {
        if frame < self.frames.len() {
            self.confirmed_landmark(frame, feature)
        } else {
            None
        }
    }

    /// Whether matching `pair` was attempted: `None` if not, else whether it succeeded.
    pub fn match_outcome(&self, pair: Pair) -> (r: Option<bool>)
        ensures
            r == (if self.cache().contains_key(pair) { Some(self.cache()[pair] is Some) } else { None::<bool> }),
    {
        self.cached_outcome(pair)
    }

    /// The covisibility of a successfully matched pair.
    pub fn covisibility(&self, pair: Pair) -> (r: Option<&Covisibility<G::Pose>>)
        ensures
            r is Some <==> self.matched(pair),
            r matches Some(c) ==> *c == self.cache()[pair]->0,
    {
        match self.covisibilities.get(&pair.0) {
            None => None,
            Some(inner) => match inner.get(&pair.1) {
                Some(Some(c)) => Some(c),
                _ => None,
            },
        }
    }

    /// The point that match `m` of `pair` triangulates to under `pose`, if
    /// both its features exist and it triangulates.
    pub open spec fn match_point(&self, pair: Pair, pose: G::Pose, m: (usize, usize)) -> Option<G::Point> {
        if m.0 < self.features_of(pair.0 as int).len() && m.1 < self.features_of(pair.1 as int).len() {
            self.geometry_of().spec_triangulate_relative(
                pose,
                self.features_of(pair.0 as int)@[m.0 as int].0,
                self.features_of(pair.1 as int)@[m.1 as int].0,
            )
        } else {
            None
        }
    }

    /// The points that the matches `ms` of `pair` triangulate to under `pose`,
    /// in order; a match that does not triangulate gives no point.
    pub open spec fn match_points(&self, pair: Pair, pose: G::Pose, ms: Seq<(usize, usize)>) -> Seq<G::Point> {
        ms.filter_map(|m: (usize, usize)| self.match_point(pair, pose, m))
    }

    /// The points triangulated from the accepted matches of a successfully
    /// matched pair, under its relative pose, in the order of the matches; a
    /// match that does not triangulate gives no point.
    pub fn covisibility_points(&self, pair: Pair) -> (r: Vec<G::Point>)
        requires
            self.wf(),
            self.matched(pair),
        ensures
            r@ == self.match_points(pair, self.cache()[pair]->0.pose, self.cache()[pair]->0.matches@),
    {
        let c = self.covisibility(pair).unwrap();
        proof {
            let w = self.cache()[pair]->0;
            assert(pair.0 < self.frame_count() && pair.1 < self.frame_count()) by {
                assert(self.covisibilities@[pair.0]@.contains_key(pair.1));
            }
        }
        let mut points: Vec<G::Point> = Vec::new();
        let mut i: usize = 0;
        while i < c.matches.len()
            invariant
                0 <= i <= c.matches.len(),
                *c == self.cache()[pair]->0,
                pair.0 < self.frames.len(),
                pair.1 < self.frames.len(),
                points@ == self.match_points(pair, c.pose, c.matches@.take(i as int)),
            decreases c.matches.len() - i,
        {
            proof {
                assert(c.matches@.take(i as int + 1).drop_last() =~= c.matches@.take(i as int));
                assert(c.matches@.take(i as int + 1).last() == c.matches@[i as int]);
            }
            let (x, y) = c.matches[i];
            let ghost before = points@;
            if x < self.frames[pair.0].features.len() && y < self.frames[pair.1].features.len() {
                let t = self.geometry.triangulate_relative(
                    &c.pose,
                    &self.frames[pair.0].features[x].0,
                    &self.frames[pair.1].features[y].0,
                );
                proof {
                    assert(c.matches@[i as int] == (x, y));
                    assert(t == self.match_point(pair, c.pose, (x, y)));
                }
                match t {
                    Some(p) => {
                        points.push(p);
                        proof {
                            assert(self.match_point(pair, c.pose, c.matches@[i as int]) == Some(p));
                            assert(points@ =~= before + seq![p]);
                        }
                    },
                    None => {
                        proof {
                            assert(self.match_point(pair, c.pose, c.matches@[i as int]) is None);
                        }
                    },
                }
            } else {
                proof {
                    assert(self.match_point(pair, c.pose, c.matches@[i as int]) is None);
                }
            }
            proof {
                let t1 = c.matches@.take(i as int + 1);
                assert(t1.drop_last() =~= c.matches@.take(i as int));
                assert(self.match_points(pair, c.pose, t1) == self.match_points(pair, c.pose, t1.drop_last()) + (match self.match_point(pair, c.pose, t1.last()) {
                    Some(p) => seq![p],
                    None => Seq::<G::Point>::empty(),
                }));
            }
            i = i + 1;
        }
        proof {
            assert(c.matches@.take(c.matches.len() as int) =~= c.matches@);
        }
        points
    }

    /// The points of the landmarks seen in at least `min_observances` frames,
    /// each triangulated from its observations in the frames from `start` on
    /// that connect into one graph with the lowest of them; a landmark that
    /// does not triangulate gives no point.
    pub fn reconstruction_points(&self, start: usize, min_observances: usize) -> (r: Vec<G::Point>)
        requires
            self.wf(),
            start < self.frame_count(),
        ensures
            r.len() <= self.well_seen(min_observances).len(),
    {
        let mut frames: Vec<usize> = Vec::new();
        let mut f: usize = start;
        while f < self.frames.len()
            invariant
                forall|k: int| 0 <= k < frames.len() ==> #[trigger] frames@[k] < self.frame_count(),
                start <= f,
                f > start ==> frames.len() > 0,
            decreases self.frames.len() - f,
        {
            frames.push(f);
            f = f + 1;
        }
        let graph = self.frame_graph(&frames);
        let mut points: Vec<G::Point> = Vec::new();
        let mut h: usize = 0;
        proof {
            assert(self.landmark_map().dom() =~= self.landmarks@.dom());
        }
        while h < self.landmark_bound
            invariant
                h <= self.landmark_bound,
                self.wf(),
                self.landmark_map().dom().finite(),
                points.len() <= Set::new(|x: usize| x < h && self.well_seen(min_observances).contains(x)).len(),
            decreases self.landmark_bound - h,
        {
            let ghost before = Set::new(|x: usize| x < h && self.well_seen(min_observances).contains(x));
            let ghost after = Set::new(|x: usize| x < h + 1 && self.well_seen(min_observances).contains(x));
            proof {
                vstd::set_lib::lemma_len_subset(before, self.landmark_map().dom());
                vstd::set_lib::lemma_len_subset(after, self.landmark_map().dom());
                if self.well_seen(min_observances).contains(h) {
                    assert(after =~= before.insert(h));
                } else {
                    assert(after =~= before);
                }
            }
            match self.landmarks.get(&h) {
                Some(lm) => {
                    proof {
                        assert(self.landmark_map().contains_key(h));
                    }
                    if lm.observation_count() >= min_observances {
                        let mut observations: Vec<(G::Pose, G::Keypoint)> = Vec::new();
                        let mut j: usize = 0;
                        while j < graph.poses.len()
                            invariant
                                0 <= j <= graph.poses.len(),
                            decreases graph.poses.len() - j,
                        {
                            let fr = graph.poses[j].0;
                            match lm.observance(fr) {
                                Some(x) => {
                                    if fr < self.frames.len() && x < self.frames[fr].features.len() {
                                        observations.push((graph.poses[j].1.clone(), self.frames[fr].features[x].0.clone()));
                                    }
                                },
                                None => {},
                            }
                            j = j + 1;
                        }
                        match self.geometry.triangulate_observances(observations) {
                            Some(p) => points.push(p),
                            None => {},
                        }
                    }
                },
                None => {},
            }
            h = h + 1;
        }
        proof {
            assert(Set::new(|x: usize| x < h && self.well_seen(min_observances).contains(x)) =~= self.well_seen(min_observances));
        }
        points
    }

    /// The landmarks seen in at least `min` frames.
    pub open spec fn well_seen(&self, min: usize) -> Set<usize> {
        Set::new(|h: usize| self.landmark_map().contains_key(h) && self.observation_count_of(h) >= min)
    }

    /// The number of frames; frame handles are the numbers below it.
    pub fn num_frames(&self) -> (r: usize)
        ensures
            r == self.frame_count(),
    {
        self.frames.len()
    }

    /// The number of feeds; feed handles are the numbers below it.
    pub fn num_feeds(&self) -> (r: usize)
        ensures
            r == self.feed_count(),
    {
        self.feeds.len()
    }
}

} // verus!
