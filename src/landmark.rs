use vstd::prelude::*;

use std::collections::HashMap;

verus! {

broadcast use vstd::std_specs::hash::group_hash_axioms;

/// A physical point seen in several frames: for each frame that sees it, the
/// index of the feature of that frame that it was seen as.
pub struct Landmark {
    observances: HashMap<usize, usize>,
    /// The frames of `observances`, each once, in the order they were added.
    frames: Vec<usize>,
}

impl View for Landmark {
    type V = Map<usize, usize>;

    /// The observations: frame handle to feature index.
    closed spec fn view(&self) -> Map<usize, usize> {
        self.observances@
    }
}

impl Landmark {
    /// The list of frames holds each observing frame once.
    pub closed spec fn wf(&self) -> bool {
        &&& self.frames@.no_duplicates()
        &&& forall|i: int| 0 <= i < self.frames.len() ==> self.observances@.contains_key(#[trigger] self.frames@[i])
        &&& forall|f: usize| self.observances@.contains_key(f) ==> #[trigger] self.frames@.contains(f)
    }

    /// The observing frames, each once.
    pub closed spec fn frame_list(&self) -> Seq<usize> {
        self.frames@
    }

    pub proof fn lemma_frame_list(&self)
        requires
            self.wf(),
        ensures
            self.frame_list().no_duplicates(),
            forall|i: int| 0 <= i < self.frame_list().len() ==> self@.contains_key(#[trigger] self.frame_list()[i]),
            forall|f: usize| self@.contains_key(f) ==> #[trigger] self.frame_list().contains(f),
    {
    }

    /// A landmark with no observations.
    pub fn new() -> (r: Landmark)
        ensures
            r.wf(),
            r@ == Map::<usize, usize>::empty(),
    {
        Landmark { observances: HashMap::new(), frames: Vec::new() }
    }

    /// Records that `frame` sees this landmark as its feature `feature`,
    /// replacing any earlier observation in that frame.
    pub fn observe(&mut self, frame: usize, feature: usize)
        requires
            old(self).wf(),
        ensures
            final(self).wf(),
            final(self)@ == old(self)@.insert(frame, feature),
    {
        let ghost old_frames = self.frames@;
        if !self.observances.contains_key(&frame) {
            proof {
                assert(!old_frames.contains(frame));
            }
            self.frames.push(frame);
            proof {
                assert(self.frames@ == old_frames.push(frame));
                assert forall|i: int, j: int|
                    0 <= i < j < self.frames@.len() implies self.frames@[i] != self.frames@[j] by {
                    if j == old_frames.len() {
                        assert(old_frames[i] == self.frames@[i]);
                    }
                }
                assert forall|f: usize| #[trigger] old_frames.contains(f) implies self.frames@.contains(f) by {
                    let i = choose|i: int| 0 <= i < old_frames.len() && old_frames[i] == f;
                    assert(self.frames@[i] == f);
                }
                assert(self.frames@[old_frames.len() as int] == frame);
            }
        }
        self.observances.insert(frame, feature);
        proof {
            assert(self.frames@.contains(frame));
            assert forall|g: usize| self.observances@.contains_key(g) implies #[trigger] self.frames@.contains(g) by {
                if g != frame {
                    assert(old_frames.contains(g));
                }
            }
        }
    }

    /// The feature index that `frame` sees this landmark as, if it does.
    pub fn observance(&self, frame: usize) -> (r: Option<usize>)
        ensures
            r == (if self@.contains_key(frame) { Some(self@[frame]) } else { None::<usize> }),
    {
        match self.observances.get(&frame) {
            Some(x) => Some(*x),
            None => None,
        }
    }

    /// The number of frames that see this landmark.
    pub fn observation_count(&self) -> (r: usize)
        ensures
            r == self@.len(),
    {
        self.observances.len()
    }

    /// The observing frames, each once.
    pub fn frames(&self) -> (r: &Vec<usize>)
        ensures
            r@ == self.frame_list(),
    {
        &self.frames
    }
}

} // verus!
