//! ORB-style feature detection, rotated-BRIEF description and Hamming-space
//! matching on 8-bit grayscale images.
use vstd::prelude::*;

pub mod bitvec;
pub mod corners;
pub mod features;
pub mod gray;
pub mod integral;
pub mod lsh;
pub mod pyramid;
pub mod rbrief;
pub mod trainer;

verus! {

} // verus!
