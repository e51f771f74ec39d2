//! A pixel position flagged during the threshold sweep as a possible
//! marker center.

use vstd::prelude::*;

verus! {

/// A possible TopCode center, recorded while thresholding and tested by the
/// decoder afterwards.
#[derive(Clone, Copy, PartialEq, Eq, Debug)]
pub struct Candidate {
    /// Horizontal pixel coordinate of the possible center.
    pub x: usize,
    /// Vertical pixel coordinate of the possible center.
    pub y: usize,
}

impl Candidate {
    pub fn new(x: usize, y: usize) -> (r: Self)
        ensures
            r.x == x,
            r.y == y,
    {
        Candidate { x, y }
    }
}

} // verus!
