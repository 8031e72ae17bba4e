//! Model-level decisions: recovering the sky discretization from a stored
//! coefficient matrix, and choosing the infrared irradiance source for a
//! surface side.

use crate::optical_info::OpticalInfo;
use crate::solar_surface::Boundary;
use vstd::prelude::*;

verus! {

/// Failures of the model-level decisions.
#[derive(Debug, Clone, Copy, PartialEq, Eq, Structural)]
pub enum ModelError {
    /// A stored daylight-coefficient matrix has zero columns.
    CorruptOpticalData,
    /// No tried sky discretization yields the stored column count.
    DiscretizationTooHigh,
}

/// Index of the first entry equal to `v`, or the length when there is none.
pub open spec fn first_count_idx(s: Seq<usize>, v: usize) -> int
    decreases s.len(),
{
    if s.len() == 0 {
        0
    } else if s.first() == v {
        0
    } else {
        1 + first_count_idx(s.drop_first(), v)
    }
}

/// Characterizes [`first_count_idx`] by a scan.
proof fn lemma_first_count_idx(s: Seq<usize>, v: usize, k: int)
    requires
        0 <= k <= s.len(),
        forall|j: int| 0 <= j < k ==> s[j] != v,
        k == s.len() || s[k] == v,
    ensures
        first_count_idx(s, v) == k,
    decreases k,
{
    if k > 0 {
        lemma_first_count_idx(s.drop_first(), v, k - 1);
    }
}

/// Recovers the sky discretization whose bin count matches the column count
/// of a stored coefficient matrix. `bin_counts[i]` is the bin count of
/// discretization `i + 1`, as the sky collaborator reports it; the smallest
/// matching discretization wins. Zero columns mean corrupt data; no match
/// means the discretization lies beyond the tried ones.
pub fn derive_mf(ncols: usize, bin_counts: &[usize]) -> (r: Result<usize, ModelError>)
    ensures
        ncols == 0 ==> r == Err::<usize, ModelError>(ModelError::CorruptOpticalData),
        ncols != 0 && (exists|i: int| 0 <= i < bin_counts@.len() && bin_counts@[i] == ncols)
            ==> r == Ok::<usize, ModelError>(
            (first_count_idx(bin_counts@, ncols) + 1) as usize,
        ),
        ncols != 0 && !(exists|i: int| 0 <= i < bin_counts@.len() && bin_counts@[i] == ncols)
            ==> r == Err::<usize, ModelError>(ModelError::DiscretizationTooHigh),
{
    if ncols == 0 {
        return Err(ModelError::CorruptOpticalData);
    }
    let n: usize = bin_counts.len();
    let mut i: usize = 0;
    while i < n
        invariant
            ncols != 0,
            i <= n,
            n == bin_counts@.len(),
            forall|j: int| 0 <= j < i ==> bin_counts@[j] != ncols,
        decreases n - i,
    {
        if bin_counts[i] == ncols {
            proof {
                lemma_first_count_idx(bin_counts@, ncols, i as int);
            }
            return Ok(i + 1);
        }
        i = i + 1;
    }
    Err(ModelError::DiscretizationTooHigh)
}

/// Where a surface side's infrared irradiance comes from.
#[derive(Debug, Clone, Copy, PartialEq, Eq, Structural)]
pub enum IrSource {
    /// A side facing another space exchanges with that space's surface
    /// node temperature.
    NodeTemperature,
    /// A side facing a fixed ambient temperature exchanges with it.
    FixedTemperature,
    /// A side facing the ground is skipped.
    Skipped,
    /// An outdoor side combines its sky view with ground and surroundings.
    SkyAndSurroundings,
}

/// Chooses the infrared irradiance source for a side with the given
/// boundary; `None` stands for a side with no boundary set, which is
/// outdoors.
pub fn ir_irradiance_source(boundary: Option<&Boundary>) -> (r: IrSource)
    ensures
        r == match boundary {
            None => IrSource::SkyAndSurroundings,
            Some(Boundary::Space) => IrSource::NodeTemperature,
            Some(Boundary::AmbientTemperature) => IrSource::FixedTemperature,
            Some(Boundary::Ground) => IrSource::Skipped,
            Some(Boundary::Outdoor) => IrSource::SkyAndSurroundings,
        },
{
    match boundary {
        None => IrSource::SkyAndSurroundings,
        Some(Boundary::Space) => IrSource::NodeTemperature,
        Some(Boundary::AmbientTemperature) => IrSource::FixedTemperature,
        Some(Boundary::Ground) => IrSource::Skipped,
        Some(Boundary::Outdoor) => IrSource::SkyAndSurroundings,
    }
}

/// The solar simulation model: the precomputed optical information and the
/// sky discretization its coefficient matrices were built with. The weather
/// and state collaborators that drive a simulation step live outside this
/// library.
pub struct SolarModel<T> {
    /// The model's daylight-coefficient matrices and view factors.
    pub optical_info: OpticalInfo<T>,
    /// The sky discretization matching the stored matrices.
    pub solar_sky_discretization: usize,
}

impl<T> SolarModel<T> {
    /// Builds the model around precomputed optical information, recovering
    /// the sky discretization from the stored coefficient matrix with
    /// [`derive_mf`]; `bin_counts[i]` is the bin count of discretization
    /// `i + 1`.
    pub fn new(optical_info: OpticalInfo<T>, bin_counts: &[usize]) -> (r: Result<
        SolarModel<T>,
        ModelError,
    >)
        ensures
            ({
                let ncols = optical_info.back_surfaces_dc.spec_cols();
                &&& (ncols == 0 ==> (r matches Err(e) && e == ModelError::CorruptOpticalData))
                &&& (ncols != 0 && (exists|i: int|
                    0 <= i < bin_counts@.len() && bin_counts@[i] == ncols) ==> (r matches Ok(m)
                    && m.solar_sky_discretization == (first_count_idx(
                    bin_counts@,
                    ncols as usize,
                ) + 1) as usize && m.optical_info == optical_info))
                &&& (ncols != 0 && !(exists|i: int|
                    0 <= i < bin_counts@.len() && bin_counts@[i] == ncols) ==> (r matches Err(e)
                    && e == ModelError::DiscretizationTooHigh))
            }),
    {
        let (_, ncols) = optical_info.back_surfaces_dc.size();
        match derive_mf(ncols, bin_counts) {
            Ok(mf) => Ok(SolarModel { optical_info, solar_sky_discretization: mf }),
            Err(e) => Err(e),
        }
    }
}

} // verus!
