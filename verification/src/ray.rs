//! Parametric rays.

use crate::fixed::Fixed;
use crate::vec3::Vec3;
use vstd::prelude::*;

verus! {

/// The half line `ori + t * dir`.
#[derive(Clone, Copy, Debug, PartialEq, Eq, Structural)]
pub struct Ray {
    pub ori: Vec3,
    pub dir: Vec3,
}

impl Ray {
    /// The point of the ray at parameter `t`.
    pub open spec fn at_spec(self, t: Fixed) -> Vec3 {
        self.ori.plus(self.dir.scale(t))
    }

    /// The point of the ray at parameter `t`.
    #[verifier::when_used_as_spec(at_spec)]
    pub fn at(self, t: Fixed) -> (p: Vec3)
        ensures
            p == self.at_spec(t),
    {
        self.ori.plus(self.dir.scale(t))
    }
}

} // verus!
