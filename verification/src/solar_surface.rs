//! Surface bookkeeping for solar calculations.
//!
//! A solar surface carries the stochastically placed sensor points of one
//! building surface, its outward normal, and whether each of its two sides
//! can receive sun at all. Point and normal types are opaque to this
//! module: placing points inside the polygon is the geometry collaborator's
//! work, while the bookkeeping — how many points exist, which sides are
//! sampled, and how per-surface coefficient rows combine into one matrix —
//! is verified here.

use crate::matrix::{Matrix, MatrixError};
use vstd::prelude::*;

verus! {

/// What lies on one side of a surface. A side facing another conditioned
/// space or the outdoors can receive sun; one facing the ground or a fixed
/// ambient temperature cannot.
#[derive(Debug, Clone, Copy, PartialEq, Eq, Structural)]
pub enum Boundary {
    /// Another conditioned space.
    Space,
    /// The ground.
    Ground,
    /// A fixed ambient temperature.
    AmbientTemperature,
    /// The outdoors.
    Outdoor,
}

/// Whether a side with this boundary receives sun; `None` stands for a side
/// with no boundary set, which is outdoors.
pub open spec fn spec_receives_sun(boundary: Option<Boundary>) -> bool {
    match boundary {
        None => true,
        Some(Boundary::AmbientTemperature) => false,
        Some(Boundary::Ground) => false,
        Some(Boundary::Space) => true,
        Some(Boundary::Outdoor) => true,
    }
}

/// A source of stochastically placed points on a surface's area, one per
/// call; the geometry collaborator implements it by picking a triangle of
/// the triangulated polygon with probability proportional to its area and a
/// uniform point inside it.
pub trait PointSource<P> {
    /// The next sampled point.
    fn next_point(&mut self) -> P;
}

/// The sensor-point set of one building surface: sampled points, the
/// outward normal, and which sides receive sun.
pub struct SolarSurface<P, N> {
    /// The sampled sensor points.
    pub points: Vec<P>,
    /// The outward normal of the surface's polygon.
    pub normal: N,
    /// Whether the front side can receive sun.
    pub receives_sun_front: bool,
    /// Whether the back side can receive sun.
    pub receives_sun_back: bool,
}

impl<P, N> SolarSurface<P, N> {
    /// The sampled points.
    pub open spec fn spec_points(&self) -> Seq<P> {
        self.points@
    }

    /// Whether the given side can receive sun.
    pub open spec fn spec_side_receives_sun(&self, front_side: bool) -> bool {
        if front_side {
            self.receives_sun_front
        } else {
            self.receives_sun_back
        }
    }

    /// Creates a new solar surface by drawing exactly `n_rays` sample
    /// points from the surface's point source.
    pub fn new<S: PointSource<P>>(
        n_rays: usize,
        source: &mut S,
        normal: N,
        receives_sun_front: bool,
        receives_sun_back: bool,
    ) -> (s: SolarSurface<P, N>)
        ensures
            s.spec_points().len() == n_rays,
            s.receives_sun_front == receives_sun_front,
            s.receives_sun_back == receives_sun_back,
            s.normal == normal,
    {
        let mut points: Vec<P> = Vec::new();
        let mut k: usize = 0;
        while k < n_rays
            invariant
                k <= n_rays,
                points@.len() == k,
            decreases n_rays - k,
        {
            points.push(source.next_point());
            k = k + 1;
        }
        SolarSurface { points, normal, receives_sun_front, receives_sun_back }
    }

    /// Whether a side with the given boundary receives sun, exactly as
    /// [`spec_receives_sun`] describes.
    pub fn boundary_receives_sun(boundary: Option<&Boundary>) -> (r: bool)
        ensures
            r == spec_receives_sun(match boundary {
                None => None,
                Some(b) => Some(*b),
            }),
    {
        match boundary {
            None => true,
            Some(Boundary::AmbientTemperature) => false,
            Some(Boundary::Ground) => false,
            Some(_) => true,
        }
    }

    /// The number of sensor points.
    pub fn n_points(&self) -> (n: usize)
        ensures
            n == self.spec_points().len(),
    {
        self.points.len()
    }

    /// Borrows the sensor points.
    pub fn points(&self) -> (p: &Vec<P>)
        ensures
            p@ == self.spec_points(),
    {
        &self.points
    }

    /// Whether the given side can receive sun.
    pub fn side_receives_sun(&self, front_side: bool) -> (r: bool)
        ensures
            r == self.spec_side_receives_sun(front_side),
    {
        if front_side {
            self.receives_sun_front
        } else {
            self.receives_sun_back
        }
    }
}

/// The indices of the surfaces whose given side receives sun, in order:
/// exactly those surfaces contribute rows to the side's coefficient matrix,
/// so callers can map matrix rows back to surfaces.
pub fn retained_indices<P, N>(list: &[SolarSurface<P, N>], front_side: bool) -> (idx: Vec<usize>)
    ensures
        forall|j: int|
            0 <= j < idx@.len() ==> (#[trigger] idx@[j]) < list@.len() && list@[idx@[j] as int]
                .spec_side_receives_sun(front_side),
        forall|j1: int, j2: int| 0 <= j1 < j2 < idx@.len() ==> idx@[j1] < idx@[j2],
        forall|q: int|
            0 <= q < list@.len() && (#[trigger] list@[q]).spec_side_receives_sun(front_side)
                ==> exists|j: int| 0 <= j < idx@.len() && idx@[j] == q,
{
    let n: usize = list.len();
    let mut idx: Vec<usize> = Vec::new();
    let mut q: usize = 0;
    while q < n
        invariant
            q <= n,
            n == list@.len(),
            forall|j: int|
                0 <= j < idx@.len() ==> (#[trigger] idx@[j]) < q && list@[idx@[j] as int]
                    .spec_side_receives_sun(front_side),
            forall|j1: int, j2: int| 0 <= j1 < j2 < idx@.len() ==> idx@[j1] < idx@[j2],
            forall|p: int|
                0 <= p < q && (#[trigger] list@[p]).spec_side_receives_sun(front_side)
                    ==> exists|j: int| 0 <= j < idx@.len() && idx@[j] == p,
        decreases n - q,
    {
        if list[q].side_receives_sun(front_side) {
            let ghost old_idx = idx@;
            idx.push(q);
            proof {
                assert forall|p: int|
                    0 <= p < q + 1 && (#[trigger] list@[p]).spec_side_receives_sun(
                        front_side,
                    ) implies exists|j: int| 0 <= j < idx@.len() && idx@[j] == p by {
                    if p == q {
                        assert(idx@[idx@.len() - 1] == q);
                    } else {
                        let j = choose|j: int| 0 <= j < old_idx.len() && old_idx[j] == p;
                        assert(idx@[j] == p);
                    }
                }
            }
        }
        q = q + 1;
    }
    idx
}

/// Total row count of a list of matrices.
pub open spec fn sum_rows<T>(s: Seq<Matrix<T>>) -> int
    decreases s.len(),
{
    if s.len() == 0 {
        0
    } else {
        s.first().spec_rows() + sum_rows(s.drop_first())
    }
}

/// The concatenated row-major data of a list of matrices.
pub open spec fn cat_data<T>(s: Seq<Matrix<T>>) -> Seq<T>
    decreases s.len(),
{
    if s.len() == 0 {
        Seq::empty()
    } else {
        s.first().spec_data() + cat_data(s.drop_first())
    }
}

/// Whether every matrix in the list has the column count of the first.
pub open spec fn all_cols_match<T>(s: Seq<Matrix<T>>) -> bool {
    forall|i: int| 0 <= i < s.len() ==> (#[trigger] s[i]).spec_cols() == s[0].spec_cols()
}

/// Index of the first matrix whose column count differs from the first's,
/// or the length when all match.
pub open spec fn first_cols_mismatch<T>(s: Seq<Matrix<T>>, cols: nat) -> int
    decreases s.len(),
{
    if s.len() == 0 {
        0
    } else if s.first().spec_cols() != cols {
        0
    } else {
        1 + first_cols_mismatch(s.drop_first(), cols)
    }
}

/// Copies a matrix cell for cell.
fn copy_matrix<T: Copy>(m: &Matrix<T>) -> (c: Matrix<T>)
    requires
        m.wf(),
    ensures
        c.wf(),
        c.spec_rows() == m.spec_rows(),
        c.spec_cols() == m.spec_cols(),
        c.spec_data() == m.spec_data(),
{
    let data = m.row_major_data();
    let n: usize = data.len();
    let mut v: Vec<T> = Vec::new();
    let mut i: usize = 0;
    while i < n
        invariant
            i <= n,
            n == data@.len(),
            data@ == m.spec_data(),
            v@ == data@.take(i as int),
        decreases n - i,
    {
        v.push(data[i]);
        proof {
            assert(data@.take(i + 1) =~= data@.take(i as int).push(data@[i as int]));
        }
        i = i + 1;
    }
    proof {
        assert(data@.take(n as int) =~= data@);
    }
    let (rows, cols) = m.size();
    match Matrix::from_vec(rows, cols, v) {
        Ok(c) => c,
        Err(_) => {
            proof {
                assert(false);
            }
            vstd::pervasive::unreached()
        },
    }
}

/// Stacks per-surface coefficient matrices into one matrix, top to bottom.
/// An empty list yields the empty matrix; otherwise all matrices must share
/// the first one's column count, and the first differing one is reported.
pub fn concat_dc_rows<T: Copy>(dcs: &[Matrix<T>]) -> (r: Result<Matrix<T>, MatrixError>)
    requires
        forall|i: int| 0 <= i < dcs@.len() ==> (#[trigger] dcs@[i]).wf(),
        sum_rows(dcs@) <= usize::MAX,
    ensures
        dcs@.len() == 0 ==> (r matches Ok(m) && m.wf() && m.spec_rows() == 0 && m.spec_cols()
            == 0),
        dcs@.len() > 0 && all_cols_match(dcs@) ==> (r matches Ok(m) && m.wf() && m.spec_cols()
            == dcs@[0].spec_cols() && m.spec_rows() == sum_rows(dcs@) && m.spec_data() == cat_data(
            dcs@,
        )),
        dcs@.len() > 0 && !all_cols_match(dcs@) ==> r == Err::<Matrix<T>, MatrixError>(
            MatrixError::DimensionMismatch {
                left_cols: dcs@[0].spec_cols() as usize,
                right_cols: dcs@[first_cols_mismatch(dcs@, dcs@[0].spec_cols())].spec_cols()
                    as usize,
            },
        ),
{
    let n: usize = dcs.len();
    if n == 0 {
        return Ok(Matrix::empty());
    }
    let ghost all = dcs@;
    let ghost cols0 = dcs@[0].spec_cols();
    let mut acc = copy_matrix(&dcs[0]);
    let mut i: usize = 1;
    proof {
        assert(all.take(1).drop_first() =~= Seq::<Matrix<T>>::empty());
        assert(all.take(1).first() == all[0]);
        assert(sum_rows(Seq::<Matrix<T>>::empty()) == 0);
        assert(cat_data(Seq::<Matrix<T>>::empty()) == Seq::<T>::empty());
        assert(acc.spec_data() =~= cat_data(all.take(1)));
        assert(acc.spec_rows() == sum_rows(all.take(1)));
    }
    while i < n
        invariant
            1 <= i <= n,
            n == dcs@.len(),
            all == dcs@,
            cols0 == all[0].spec_cols(),
            forall|k: int| 0 <= k < all.len() ==> (#[trigger] all[k]).wf(),
            sum_rows(all) <= usize::MAX,
            acc.wf(),
            acc.spec_cols() == cols0,
            acc.spec_rows() == sum_rows(all.take(i as int)),
            acc.spec_data() == cat_data(all.take(i as int)),
            forall|k: int| 0 <= k < i ==> (#[trigger] all[k]).spec_cols() == cols0,
        decreases n - i,
    {
        let next = &dcs[i];
        proof {
            lemma_sum_rows_split(all, i as int);
            lemma_sum_rows_nonneg(all.take(i as int));
            lemma_sum_rows_nonneg(all.skip(i as int));
            assert(all.skip(i as int).first() == all[i as int]);
            assert(all.skip(i as int).drop_first() =~= all.skip(i + 1));
            lemma_sum_rows_nonneg(all.skip(i + 1));
            assert(sum_rows(all.take(i as int)) + all[i as int].spec_rows() <= sum_rows(all));
        }
        match acc.concat_rows(next) {
            Ok(()) => {
                proof {
                    assert(all.take(i + 1) =~= all.take(i as int).push(all[i as int]));
                    lemma_sum_rows_push(all.take(i as int), all[i as int]);
                    lemma_cat_data_push(all.take(i as int), all[i as int]);
                }
            },
            Err(e) => {
                proof {
                    lemma_first_cols_mismatch(all, cols0, i as int);
                    assert(!all_cols_match(all));
                }
                return Err(e);
            },
        }
        i = i + 1;
    }
    proof {
        assert(all.take(n as int) =~= all);
        assert(all_cols_match(all));
    }
    Ok(acc)
}

/// Row totals are never negative.
proof fn lemma_sum_rows_nonneg<T>(s: Seq<Matrix<T>>)
    ensures
        sum_rows(s) >= 0,
    decreases s.len(),
{
    if s.len() > 0 {
        lemma_sum_rows_nonneg(s.drop_first());
    }
}

/// The row total splits at any prefix.
proof fn lemma_sum_rows_split<T>(s: Seq<Matrix<T>>, i: int)
    requires
        0 <= i <= s.len(),
    ensures
        sum_rows(s) == sum_rows(s.take(i)) + sum_rows(s.skip(i)),
    decreases i,
{
    if i == 0 {
        assert(s.take(0) =~= Seq::<Matrix<T>>::empty());
        assert(s.skip(0) =~= s);
    } else {
        lemma_sum_rows_split(s.drop_first(), i - 1);
        assert(s.take(i).first() == s.first());
        assert(s.take(i).drop_first() =~= s.drop_first().take(i - 1));
        assert(s.drop_first().skip(i - 1) =~= s.skip(i));
    }
}

/// Appending one matrix adds its rows to the total.
proof fn lemma_sum_rows_push<T>(s: Seq<Matrix<T>>, m: Matrix<T>)
    ensures
        sum_rows(s.push(m)) == sum_rows(s) + m.spec_rows(),
    decreases s.len(),
{
    if s.len() == 0 {
        assert(s.push(m).first() == m);
        assert(s.push(m).drop_first() =~= Seq::<Matrix<T>>::empty());
        assert(sum_rows(Seq::<Matrix<T>>::empty()) == 0);
        assert(s =~= Seq::<Matrix<T>>::empty());
    } else {
        lemma_sum_rows_push(s.drop_first(), m);
        assert(s.push(m).first() == s.first());
        assert(s.push(m).drop_first() =~= s.drop_first().push(m));
    }
}

/// Appending one matrix appends its data to the concatenation.
proof fn lemma_cat_data_push<T>(s: Seq<Matrix<T>>, m: Matrix<T>)
    ensures
        cat_data(s.push(m)) == cat_data(s) + m.spec_data(),
    decreases s.len(),
{
    if s.len() == 0 {
        assert(s.push(m).first() == m);
        assert(s.push(m).drop_first() =~= Seq::<Matrix<T>>::empty());
        assert(cat_data(Seq::<Matrix<T>>::empty()) == Seq::<T>::empty());
        assert(s =~= Seq::<Matrix<T>>::empty());
        assert(cat_data(s.push(m)) =~= cat_data(s) + m.spec_data());
    } else {
        lemma_cat_data_push(s.drop_first(), m);
        assert(s.push(m).first() == s.first());
        assert(s.push(m).drop_first() =~= s.drop_first().push(m));
        assert(cat_data(s.push(m)) =~= cat_data(s) + m.spec_data());
    }
}

/// If a prefix matches the first column count and entry `i` does not, the
/// first mismatch is at `i`.
proof fn lemma_first_cols_mismatch<T>(s: Seq<Matrix<T>>, cols: nat, i: int)
    requires
        0 <= i < s.len(),
        forall|k: int| 0 <= k < i ==> (#[trigger] s[k]).spec_cols() == cols,
        s[i].spec_cols() != cols,
    ensures
        first_cols_mismatch(s, cols) == i,
    decreases i,
{
    if i > 0 {
        assert forall|k: int| 0 <= k < i - 1 implies (#[trigger] s.drop_first()[k]).spec_cols()
            == cols by {
            assert(s.drop_first()[k] == s[k + 1]);
        }
        assert(s.drop_first()[i - 1] == s[i]);
        lemma_first_cols_mismatch(s.drop_first(), cols, i - 1);
    }
}

/// How a sample cast from a sensor point left the scene, for the view
/// factor estimate: escaped toward the sky, escaped toward the ground, or
/// hit scene geometry.
#[derive(Debug, Clone, Copy, PartialEq, Eq, Structural)]
pub enum EscapeClass {
    /// Escaped with an upward direction.
    Sky,
    /// Escaped with a level or downward direction.
    Ground,
    /// Hit the scene.
    Blocked,
}

/// Number of sky escapes among the sample outcomes.
pub open spec fn count_sky(s: Seq<EscapeClass>) -> nat
    decreases s.len(),
{
    if s.len() == 0 {
        0
    } else {
        count_sky(s.drop_last()) + if s.last() is Sky {
            1nat
        } else {
            0nat
        }
    }
}

/// Number of ground escapes among the sample outcomes.
pub open spec fn count_ground(s: Seq<EscapeClass>) -> nat
    decreases s.len(),
{
    if s.len() == 0 {
        0
    } else {
        count_ground(s.drop_last()) + if s.last() is Ground {
            1nat
        } else {
            0nat
        }
    }
}

/// Counts the sky and ground escapes of a view-factor sampling run; the two
/// never exceed the sample count together, so the raw sky and ground
/// fractions sum to at most one.
pub fn view_factor_counts(events: &[EscapeClass]) -> (r: (usize, usize))
    ensures
        r.0 == count_sky(events@),
        r.1 == count_ground(events@),
        r.0 + r.1 <= events@.len(),
{
    let n: usize = events.len();
    let mut sky: usize = 0;
    let mut ground: usize = 0;
    let mut i: usize = 0;
    while i < n
        invariant
            i <= n,
            n == events@.len(),
            sky == count_sky(events@.take(i as int)),
            ground == count_ground(events@.take(i as int)),
            sky + ground <= i,
        decreases n - i,
    {
        proof {
            assert(events@.take(i + 1).drop_last() =~= events@.take(i as int));
            assert(events@.take(i + 1).last() == events@[i as int]);
        }
        match events[i] {
            EscapeClass::Sky => {
                sky = sky + 1;
            },
            EscapeClass::Ground => {
                ground = ground + 1;
            },
            EscapeClass::Blocked => {},
        }
        i = i + 1;
    }
    proof {
        assert(events@.take(n as int) =~= events@);
    }
    (sky, ground)
}

} // verus!
