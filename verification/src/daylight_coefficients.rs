//! Control logic of the daylight-coefficient tracing engine.
//!
//! The engine drives a recursive, adaptively branching path tracer. All
//! scene- and radiometry-dependent work — intersecting rays, sampling
//! reflection directions, weighing throughput, Russian roulette — sits
//! behind the [`SceneSampler`] capability interface, so the engine can be
//! run against the real intersection engine or against stub scenes. The
//! engine itself owns, and this module verifies, the path bookkeeping:
//! [`DCFactory::trace_step`] fixes exactly what each reported path event
//! does to the accumulator and which events are fatal; [`DCFactory::trace_ray`]
//! drives the depth-bounded recursion over it; [`DCFactory::accumulate_row`]
//! folds terminal contributions into one matrix row without touching any
//! other cell; [`DCFactory::calc_dc`] assembles the whole matrix.

use crate::matrix::{lemma_row_major_injective, Matrix};
use vstd::prelude::*;

verus! {

/// Configuration of one daylight-coefficient computation.
pub struct DCFactory {
    /// Bounces beyond this depth are cut off; a path of depth
    /// `max_depth + 1` contributes nothing.
    pub max_depth: usize,
    /// Primary hemisphere samples per sensor ray; also the initial
    /// branching denominator.
    pub n_ambient_samples: usize,
    /// Number of sky-discretization bins; the width of the output matrix.
    pub n_bins: usize,
}

/// What the scene reports for one traced ray.
#[derive(Debug, Clone, Copy, PartialEq, Eq, Structural)]
pub enum PathEvent {
    /// The ray left the scene; the sky discretization put its direction in
    /// `bin`.
    Escaped { bin: usize },
    /// The ray hit a light-emitting material: fatal for this engine.
    EmitterHit,
    /// The ray itself is malformed — a zero-length direction or a
    /// degenerate normal: a precondition violation, surfaced as an error.
    MalformedGeometry,
    /// The ray hit a surface side the model cannot attribute; the path is
    /// dropped.
    Inapplicable,
    /// The ray hit a reflecting surface; `branch_root` is the adaptive
    /// sampling heuristic's rounded square root for this bounce, before the
    /// at-least-one clamp.
    SurfaceHit { branch_root: usize },
}

/// The scene, material and sampling collaborator of the engine.
///
/// `R` is the ray type and `V` the throughput value type; both are opaque
/// to the engine. The methods carry no contracts: the engine promises only
/// what holds for every implementation, and tests drive it with stub
/// scenes.
pub trait SceneSampler<R, V> {
    /// Casts a ray and classifies the outcome; for a reflecting hit it also
    /// evaluates the adaptive sample-count heuristic from the current
    /// throughput and denominator.
    fn trace(&mut self, ray: &R, value: &V, denom: usize) -> PathEvent;

    /// Samples up to `n` reflected sub-paths at the last hit, with their
    /// attenuated throughputs; sub-paths killed by Russian roulette are
    /// left out.
    fn spawn(&mut self, ray: &R, value: &V, n: usize) -> Vec<(R, V)>;

    /// A primary hemisphere sample for a sensor ray: the sampled ray and
    /// its initial throughput.
    fn primary(&mut self, sensor: &R, sample_index: usize) -> (R, V);

    /// The zero of the accumulator.
    fn zero_value(&mut self) -> V;

    /// Adds one terminal contribution, scaled by the units constant and the
    /// branching denominator, onto an accumulator cell.
    fn accumulate(&mut self, acc: &V, value: &V, denom: usize) -> V;
}

/// Failures of a trace: the scene broke the engine's modeling contract or
/// the path bookkeeping left the machine's range.
#[derive(Debug, Clone, Copy, PartialEq, Eq, Structural)]
pub enum TraceError {
    /// A light-emitting material was struck while gathering daylight
    /// coefficients; the scene violates the engine's precondition.
    EmitterHit { depth: usize },
    /// A malformed ray — degenerate normal or zero-length direction — was
    /// traced; the geometry violates the engine's precondition.
    MalformedGeometry { depth: usize },
    /// The sky discretization returned a bin at or beyond `n_bins`.
    BinOutOfRange { bin: usize, n_bins: usize },
    /// The branching denominator left the machine's range.
    DenominatorOverflow,
}

/// One terminal path: the sky bin it escaped into, the throughput it
/// carried, the cumulative branching denominator, and the bounce depth at
/// which it escaped.
pub struct Contribution<V> {
    /// The sky bin.
    pub bin: usize,
    /// The throughput at escape.
    pub value: V,
    /// The product of the initial sample count and every branch count along
    /// the path.
    pub denom: usize,
    /// The recursion depth at which the path escaped.
    pub depth: usize,
}

/// What one path event asks the tracer to do next.
pub enum StepAction<V> {
    /// The path ended: its contribution, if any, is recorded.
    Stop,
    /// Spawn `n` reflected sub-paths at the next depth, each carrying the
    /// denominator `denom`; `value` is the throughput handed back for the
    /// reflection sampling.
    Spawn { n: usize, denom: usize, value: V },
}

/// Number of sub-paths spawned at a reflecting bounce, given the rounded
/// square root computed by the adaptive sampling heuristic: never below
/// one, so Russian roulette and adaptive sampling can never starve a
/// bounce.
pub fn branch_count(root: usize) -> (n: usize)
    ensures
        n == if root == 0 { 1usize } else { root },
        n >= 1,
{
    if root == 0 {
        1
    } else {
        root
    }
}

impl DCFactory {
    /// A contribution this factory may record: its bin is inside the sky
    /// discretization, its depth within the cutoff, its denominator
    /// positive.
    pub open spec fn contribution_ok<V>(&self, c: Contribution<V>) -> bool {
        c.bin < self.n_bins && c.depth <= self.max_depth && c.denom >= 1
    }

    /// Handles one path event at an active depth. This fixes the engine's
    /// per-event behaviour exactly:
    ///
    /// - an escape into a bin of the sky discretization appends exactly one
    ///   contribution carrying that bin, the throughput, the denominator
    ///   and the depth, and stops the path;
    /// - an escape into a bin at or beyond `n_bins` is an error;
    /// - a light-emitting hit is fatal, reported with the depth;
    /// - a malformed ray is fatal, reported with the depth;
    /// - an unattributable surface side drops the path silently;
    /// - a reflecting hit spawns the clamped branch count with the
    ///   denominator multiplied by it, or fails when that product leaves
    ///   the machine's range.
    ///
    /// On anything but a recorded escape the accumulator is unchanged.
    pub fn trace_step<V>(
        &self,
        event: PathEvent,
        current_depth: usize,
        current_value: V,
        denom_samples: usize,
        contribution: &mut Vec<Contribution<V>>,
    ) -> (r: Result<StepAction<V>, TraceError>)
        requires
            denom_samples >= 1,
            current_depth <= self.max_depth,
        ensures
            r matches Ok(StepAction::Spawn { n, denom, value }) ==> n >= 1 && denom
                == denom_samples * n && value == current_value && final(contribution)@ == old(
                contribution)@,
            final(contribution)@.len() >= old(contribution)@.len(),
            final(contribution)@.take(old(contribution)@.len() as int) == old(contribution)@,
            forall|i: int|
                old(contribution)@.len() <= i < final(contribution)@.len() ==> (#[trigger] final(contribution)@[i]).bin < self.n_bins && final(contribution)@[i].depth == current_depth && final(contribution)@[i].denom == denom_samples,
            ({
                match event {
                    PathEvent::Escaped { bin } => {
                        if bin < self.n_bins {
                            &&& r matches Ok(a) && a is Stop
                            &&& final(contribution)@ == old(contribution)@.push(
                                Contribution {
                                    bin,
                                    value: current_value,
                                    denom: denom_samples,
                                    depth: current_depth,
                                },
                            )
                        } else {
                            &&& r == Err::<StepAction<V>, TraceError>(
                                TraceError::BinOutOfRange { bin, n_bins: self.n_bins },
                            )
                            &&& final(contribution)@ == old(contribution)@
                        }
                    },
                    PathEvent::EmitterHit => {
                        &&& r == Err::<StepAction<V>, TraceError>(
                            TraceError::EmitterHit { depth: current_depth },
                        )
                        &&& final(contribution)@ == old(contribution)@
                    },
                    PathEvent::MalformedGeometry => {
                        &&& r == Err::<StepAction<V>, TraceError>(
                            TraceError::MalformedGeometry { depth: current_depth },
                        )
                        &&& final(contribution)@ == old(contribution)@
                    },
                    PathEvent::Inapplicable => {
                        &&& r matches Ok(a) && a is Stop
                        &&& final(contribution)@ == old(contribution)@
                    },
                    PathEvent::SurfaceHit { branch_root } => {
                        let n: usize = if branch_root == 0 {
                            1usize
                        } else {
                            branch_root
                        };
                        if denom_samples * n <= usize::MAX {
                            &&& r matches Ok(a) && a == (StepAction::Spawn {
                                n,
                                denom: (denom_samples * n) as usize,
                                value: current_value,
                            })
                            &&& final(contribution)@ == old(contribution)@
                        } else {
                            &&& r == Err::<StepAction<V>, TraceError>(
                                TraceError::DenominatorOverflow,
                            )
                            &&& final(contribution)@ == old(contribution)@
                        }
                    },
                }
            }),
    {
        proof {
            assert(contribution@.take(contribution@.len() as int) == contribution@);
        }
        match event {
            PathEvent::Escaped { bin } => {
                if bin >= self.n_bins {
                    return Err(TraceError::BinOutOfRange { bin, n_bins: self.n_bins });
                }
                let ghost old_len = contribution@.len();
                contribution.push(
                    Contribution {
                        bin,
                        value: current_value,
                        denom: denom_samples,
                        depth: current_depth,
                    },
                );
                proof {
                    assert(contribution@.take(old_len as int) =~= contribution@.drop_last());
                }
                Ok(StepAction::Stop)
            },
            PathEvent::EmitterHit => Err(TraceError::EmitterHit { depth: current_depth }),
            PathEvent::MalformedGeometry => Err(
                TraceError::MalformedGeometry { depth: current_depth },
            ),
            PathEvent::Inapplicable => Ok(StepAction::Stop),
            PathEvent::SurfaceHit { branch_root } => {
                let n = branch_count(branch_root);
                match denom_samples.checked_mul(n) {
                    Some(denom) => Ok(StepAction::Spawn { n, denom, value: current_value }),
                    None => Err(TraceError::DenominatorOverflow),
                }
            },
        }
    }

    /// Traces one path and every sub-path it spawns, appending each
    /// terminal contribution to `contribution`.
    ///
    /// Each traced ray's event is handled exactly as [`DCFactory::trace_step`]
    /// states. A call at a depth beyond `max_depth` returns successfully at
    /// once with the accumulator untouched — depth exhaustion is normal
    /// termination, not an error — so the recursion, whose measure is
    /// `max_depth + 1 - current_depth`, never exceeds `max_depth + 1`
    /// nested frames regardless of sampled branch counts. Existing entries
    /// of the accumulator are never touched; every appended entry escaped
    /// at a depth between `current_depth` and `max_depth` into a bin inside
    /// the sky discretization, with a denominator at least `denom_samples`.
    /// Whether the trace succeeds depends on the scene: an emitting
    /// material or a malformed ray (each reported with a depth no earlier
    /// than `current_depth`), an out-of-range bin, or a denominator beyond
    /// the machine stop it with the matching error.
    pub fn trace_ray<R, V, S: SceneSampler<R, V>>(
        &self,
        sampler: &mut S,
        ray: R,
        current_depth: usize,
        current_value: V,
        denom_samples: usize,
        contribution: &mut Vec<Contribution<V>>,
    ) -> (r: Result<(), TraceError>)
        requires
            denom_samples >= 1,
            self.max_depth < usize::MAX,
        ensures
            current_depth > self.max_depth ==> r == Ok::<(), TraceError>(()) && final(contribution)@ == old(contribution)@,
            final(contribution)@.len() >= old(contribution)@.len(),
            final(contribution)@.take(old(contribution)@.len() as int) == old(contribution)@,
            forall|i: int|
                old(contribution)@.len() <= i < final(contribution)@.len()
                    ==> self.contribution_ok(#[trigger] final(contribution)@[i])
                    && final(contribution)@[i].denom >= denom_samples
                    && final(contribution)@[i].depth >= current_depth,
            r matches Err(e) ==> match e {
                TraceError::EmitterHit { depth } => current_depth <= depth <= self.max_depth,
                TraceError::MalformedGeometry { depth } => current_depth <= depth
                    <= self.max_depth,
                TraceError::BinOutOfRange { bin, n_bins } => n_bins == self.n_bins && bin
                    >= self.n_bins,
                TraceError::DenominatorOverflow => true,
            },
        decreases self.max_depth + 1 - current_depth,
    {
        if current_depth > self.max_depth {
            proof {
                assert(contribution@.take(contribution@.len() as int) == contribution@);
            }
            return Ok(());
        }
        let event = sampler.trace(&ray, &current_value, denom_samples);
        let action = match self.trace_step(
            event,
            current_depth,
            current_value,
            denom_samples,
            contribution,
        ) {
            Ok(a) => a,
            Err(e) => {
                return Err(e);
            },
        };
        match action {
            StepAction::Stop => Ok(()),
            StepAction::Spawn { n, denom: new_denom, value } => {
                proof {
                    assert(new_denom >= denom_samples) by (nonlinear_arith)
                        requires
                            new_denom == denom_samples * n,
                            n >= 1,
                            denom_samples >= 1,
                    ;
                }
                let mut branches = sampler.spawn(&ray, &value, n);
                let ghost entry_len = contribution@.len();
                while branches.len() > 0
                    invariant
                        denom_samples >= 1,
                        new_denom >= denom_samples,
                        self.max_depth < usize::MAX,
                        current_depth <= self.max_depth,
                        contribution@.len() >= entry_len,
                        contribution@.take(entry_len as int) == old(contribution)@,
                        entry_len == old(contribution)@.len(),
                        forall|i: int|
                            entry_len <= i < contribution@.len() ==> self.contribution_ok(
                                #[trigger] contribution@[i],
                            ) && contribution@[i].denom >= denom_samples && contribution@[i].depth
                                >= current_depth,
                    decreases branches@.len(),
                {
                    let (sub_ray, sub_value) = match branches.pop() {
                        Some(b) => b,
                        None => {
                            proof {
                                assert(false);
                            }
                            vstd::pervasive::unreached()
                        },
                    };
                    let ghost before = contribution@;
                    match self.trace_ray(
                        sampler,
                        sub_ray,
                        current_depth + 1,
                        sub_value,
                        new_denom,
                        contribution,
                    ) {
                        Ok(()) => {},
                        Err(e) => {
                            proof {
                                assert(contribution@.take(entry_len as int) =~= contribution@.take(
                                    before.len() as int,
                                ).take(entry_len as int));
                                assert forall|i: int|
                                    entry_len <= i
                                        < contribution@.len() implies self.contribution_ok(
                                    #[trigger] contribution@[i],
                                ) && contribution@[i].denom >= denom_samples
                                    && contribution@[i].depth >= current_depth by {
                                    if i < before.len() {
                                        assert(contribution@.take(before.len() as int)[i]
                                            == contribution@[i]);
                                        assert(before[i] == contribution@[i]);
                                    }
                                }
                            }
                            return Err(e);
                        },
                    }
                    proof {
                        assert(contribution@.take(entry_len as int) =~= contribution@.take(
                            before.len() as int,
                        ).take(entry_len as int));
                        assert forall|i: int|
                            entry_len <= i < contribution@.len() implies self.contribution_ok(
                            #[trigger] contribution@[i],
                        ) && contribution@[i].denom >= denom_samples && contribution@[i].depth
                            >= current_depth by {
                            if i < before.len() {
                                assert(contribution@.take(before.len() as int)[i]
                                    == contribution@[i]);
                                assert(before[i] == contribution@[i]);
                            }
                        }
                    }
                }
                Ok(())
            },
        }
    }

    /// Folds terminal contributions into one sensor's matrix row: each
    /// contribution is accumulated onto the cell of its bin, through the
    /// sampler's accumulation, and no other cell of the matrix changes.
    pub fn accumulate_row<R, V: Copy, S: SceneSampler<R, V>>(
        &self,
        sampler: &mut S,
        result: &mut Matrix<V>,
        sensor: usize,
        contribs: &Vec<Contribution<V>>,
    )
        requires
            old(result).wf(),
            sensor < old(result).spec_rows(),
            forall|k: int|
                0 <= k < contribs@.len() ==> (#[trigger] contribs@[k]).bin < old(result).spec_cols(),
        ensures
            final(result).wf(),
            final(result).spec_rows() == old(result).spec_rows(),
            final(result).spec_cols() == old(result).spec_cols(),
            forall|rr: int, cc: int|
                0 <= rr < final(result).spec_rows() && 0 <= cc < final(result).spec_cols() && !(rr
                    == sensor && exists|k: int|
                    0 <= k < contribs@.len() && (#[trigger] contribs@[k]).bin == cc) ==> #[trigger] final(result).entry(rr, cc) == old(result).entry(rr, cc),
    {
        let n: usize = contribs.len();
        let mut c: usize = 0;
        while c < n
            invariant
                c <= n,
                n == contribs@.len(),
                sensor < result.spec_rows(),
                forall|k: int|
                    0 <= k < contribs@.len() ==> (#[trigger] contribs@[k]).bin
                        < result.spec_cols(),
                result.wf(),
                result.spec_rows() == old(result).spec_rows(),
                result.spec_cols() == old(result).spec_cols(),
                forall|rr: int, cc: int|
                    0 <= rr < result.spec_rows() && 0 <= cc < result.spec_cols() && !(rr == sensor
                        && exists|k: int|
                        0 <= k < contribs@.len() && (#[trigger] contribs@[k]).bin == cc)
                        ==> #[trigger] result.entry(rr, cc) == old(result).entry(rr, cc),
            decreases n - c,
        {
            let bin = contribs[c].bin;
            let ghost prev = *result;
            let cur = match result.get(sensor, bin) {
                Ok(v) => v,
                Err(_) => {
                    proof {
                        assert(false);
                    }
                    vstd::pervasive::unreached()
                },
            };
            let updated = sampler.accumulate(&cur, &contribs[c].value, contribs[c].denom);
            match result.set(sensor, bin, updated) {
                Ok(()) => {},
                Err(_) => {
                    proof {
                        assert(false);
                    }
                    vstd::pervasive::unreached()
                },
            }
            proof {
                let cols = result.spec_cols() as int;
                assert forall|rr: int, cc: int|
                    0 <= rr < result.spec_rows() && 0 <= cc < result.spec_cols() && !(rr
                        == sensor && exists|k: int|
                        0 <= k < contribs@.len() && (#[trigger] contribs@[k]).bin
                            == cc) implies #[trigger] result.entry(rr, cc) == old(result).entry(
                    rr,
                    cc,
                ) by {
                    if rr * cols + cc == sensor as int * cols + bin {
                        lemma_row_major_injective(rr, cc, sensor as int, bin as int, cols);
                        assert(contribs@[c as int].bin == cc);
                    } else {
                        crate::matrix::lemma_row_major_index(
                            rr,
                            cc,
                            result.spec_rows() as int,
                            cols,
                        );
                        crate::matrix::lemma_row_major_index(
                            sensor as int,
                            bin as int,
                            result.spec_rows() as int,
                            cols,
                        );
                        assert(result.entry(rr, cc) == prev.entry(rr, cc));
                    }
                }
            }
            c = c + 1;
        }
    }

    /// Builds the daylight-coefficient matrix for a set of sensor rays: one
    /// row per sensor, one column per sky bin. For each sensor it draws
    /// `n_ambient_samples` primary paths, traces each as
    /// [`DCFactory::trace_ray`] states, and folds every terminal
    /// contribution into the sensor's row as [`DCFactory::accumulate_row`]
    /// states, so cells only ever change through an escape into their bin.
    /// With no sensors the computation trivially succeeds; otherwise a
    /// scene failure aborts the whole computation with [`DCFactory::trace_ray`]'s
    /// error.
    pub fn calc_dc<R, V: Copy, S: SceneSampler<R, V>>(&self, sampler: &mut S, rays: &[R]) -> (r:
        Result<Matrix<V>, TraceError>)
        requires
            self.n_ambient_samples >= 1,
            self.max_depth < usize::MAX,
            rays@.len() * self.n_bins <= usize::MAX,
        ensures
            rays@.len() == 0 ==> r is Ok,
            r matches Ok(m) ==> m.wf() && m.spec_rows() == rays@.len() && m.spec_cols()
                == self.n_bins && m.spec_data().len() == rays@.len() * self.n_bins,
    {
        let zero = sampler.zero_value();
        let mut result: Matrix<V> = Matrix::new(zero, rays.len(), self.n_bins);
        let n_sensors: usize = rays.len();
        let mut sensor: usize = 0;
        while sensor < n_sensors
            invariant
                n_sensors == rays@.len(),
                self.n_ambient_samples >= 1,
                self.max_depth < usize::MAX,
                result.wf(),
                result.spec_rows() == rays@.len(),
                result.spec_cols() == self.n_bins,
            decreases n_sensors - sensor,
        {
            let mut k: usize = 0;
            while k < self.n_ambient_samples
                invariant
                    n_sensors == rays@.len(),
                    sensor < n_sensors,
                    self.n_ambient_samples >= 1,
                    self.max_depth < usize::MAX,
                    result.wf(),
                    result.spec_rows() == rays@.len(),
                    result.spec_cols() == self.n_bins,
                decreases self.n_ambient_samples - k,
            {
                let (primary_ray, primary_value) = sampler.primary(&rays[sensor], k);
                let mut contribs: Vec<Contribution<V>> = Vec::new();
                match self.trace_ray(
                    sampler,
                    primary_ray,
                    0,
                    primary_value,
                    self.n_ambient_samples,
                    &mut contribs,
                ) {
                    Ok(()) => {},
                    Err(e) => {
                        return Err(e);
                    },
                }
                self.accumulate_row(sampler, &mut result, sensor, &contribs);
                k = k + 1;
            }
            sensor = sensor + 1;
        }
        Ok(result)
    }
}

} // verus!
