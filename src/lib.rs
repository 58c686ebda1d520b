//! An incremental visual-SLAM backend: frames, landmarks and cached
//! pairwise covisibilities, with verified graph maintenance.
use vstd::prelude::*;

pub mod arena;
pub mod corners;
pub mod landmark;
pub mod matching;
pub mod pair;
pub mod vslam;

pub use crate::pair::Pair;
pub use crate::vslam::{BundleAdjust, Covisibility, Geometry, VSlam};

verus! {

} // verus!
