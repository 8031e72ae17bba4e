//! The optical information of a whole model: view-factor sets and
//! daylight-coefficient matrices for both sides of every surface and
//! fenestration.

use crate::matrix::Matrix;
use vstd::prelude::*;

verus! {

/// A set of view factors as seen by one surface side: the fractions of its
/// hemispherical view occupied by the sky, the ground, and surroundings at
/// air temperature.
#[derive(Debug, Clone, Copy)]
pub struct IRViewFactorSet<T> {
    /// The fraction of the view that corresponds to the sky.
    pub sky: T,
    /// The fraction of the view that corresponds to the ground.
    pub ground: T,
    /// The fraction of the view that corresponds to other objects and
    /// surfaces, assumed to be at air temperature.
    pub air: T,
}

/// Information about the solar radiation and other optical elements of the
/// whole model: one view-factor set per surface side, and one
/// daylight-coefficient matrix per surface family and side.
pub struct OpticalInfo<T> {
    /// The view factors for the front side of each surface.
    pub front_surfaces_view_factors: Vec<IRViewFactorSet<T>>,
    /// The view factors for the back side of each surface.
    pub back_surfaces_view_factors: Vec<IRViewFactorSet<T>>,
    /// The view factors for the front side of each fenestration.
    pub front_fenestrations_view_factors: Vec<IRViewFactorSet<T>>,
    /// The view factors for the back side of each fenestration.
    pub back_fenestrations_view_factors: Vec<IRViewFactorSet<T>>,
    /// The daylight-coefficient matrix for the front side of the surfaces.
    pub front_surfaces_dc: Matrix<T>,
    /// The daylight-coefficient matrix for the back side of the surfaces.
    pub back_surfaces_dc: Matrix<T>,
    /// The daylight-coefficient matrix for the front side of the
    /// fenestrations.
    pub front_fenestrations_dc: Matrix<T>,
    /// The daylight-coefficient matrix for the back side of the
    /// fenestrations.
    pub back_fenestrations_dc: Matrix<T>,
}

impl<T> OpticalInfo<T> {
    /// Well-formedness: every stored matrix is well-formed.
    pub open spec fn wf(&self) -> bool {
        &&& self.front_surfaces_dc.wf()
        &&& self.back_surfaces_dc.wf()
        &&& self.front_fenestrations_dc.wf()
        &&& self.back_fenestrations_dc.wf()
    }
}

} // verus!
