use solar_dc::daylight_coefficients::{
    branch_count, Contribution, DCFactory, PathEvent, SceneSampler, StepAction, TraceError,
};

/// A scene with nothing in it: every ray escapes into bin zero.
struct EmptySky;

impl SceneSampler<u32, f64> for EmptySky {
    fn trace(&mut self, _ray: &u32, _value: &f64, _denom: usize) -> PathEvent {
        PathEvent::Escaped { bin: 0 }
    }
    fn spawn(&mut self, _ray: &u32, _value: &f64, _n: usize) -> Vec<(u32, f64)> {
        Vec::new()
    }
    fn primary(&mut self, sensor: &u32, _sample_index: usize) -> (u32, f64) {
        (*sensor, 1.0)
    }
    fn zero_value(&mut self) -> f64 {
        0.0
    }
    fn accumulate(&mut self, acc: &f64, value: &f64, denom: usize) -> f64 {
        acc + 3.0 * value / denom as f64
    }
}

#[test]
fn test_empty_sky_convergence() {
    // A sensor looking at an empty sky with depth 0: all radiometric mass
    // lands in the sky bin the rays escape into, and sums to the
    // normalization constant.
    let factory = DCFactory { max_depth: 0, n_ambient_samples: 10000, n_bins: 2 };
    let mut scene = EmptySky;
    let rays = vec![7u32];
    let m = factory.calc_dc(&mut scene, &rays).unwrap();
    assert_eq!(m.size(), (1, 2));
    let mass = m.get(0, 0).unwrap();
    assert!((mass - 3.0).abs() < 1e-6, "mass = {mass}");
    assert_eq!(m.get(0, 1).unwrap(), 0.0);
}

/// A scene whose rays always hit a reflecting surface and branch in two.
struct AlwaysHit {
    traces: usize,
}

impl SceneSampler<u32, f64> for AlwaysHit {
    fn trace(&mut self, _ray: &u32, _value: &f64, _denom: usize) -> PathEvent {
        self.traces += 1;
        PathEvent::SurfaceHit { branch_root: 2 }
    }
    fn spawn(&mut self, ray: &u32, value: &f64, n: usize) -> Vec<(u32, f64)> {
        let mut v = Vec::new();
        for _ in 0..n {
            v.push((*ray, value * 0.5));
        }
        v
    }
    fn primary(&mut self, sensor: &u32, _sample_index: usize) -> (u32, f64) {
        (*sensor, 1.0)
    }
    fn zero_value(&mut self) -> f64 {
        0.0
    }
    fn accumulate(&mut self, acc: &f64, value: &f64, denom: usize) -> f64 {
        acc + 3.0 * value / denom as f64
    }
}

#[test]
fn test_depth_cutoff_bounds_recursion() {
    // With every bounce spawning two sub-paths, the depth cutoff is the only
    // terminator: depths 0..=4 are traced (1 + 2 + 4 + 8 + 16 casts), the
    // depth-5 sub-paths are dropped without a cast, and nothing contributes.
    let factory = DCFactory { max_depth: 4, n_ambient_samples: 10, n_bins: 1 };
    let mut scene = AlwaysHit { traces: 0 };
    let mut contribs: Vec<Contribution<f64>> = Vec::new();
    let r = factory.trace_ray(&mut scene, 0u32, 0, 1.0, 10, &mut contribs);
    assert_eq!(r, Ok(()));
    assert_eq!(scene.traces, 31);
    assert!(contribs.is_empty());
}

/// A scene scripted to hit once, branch, lose one sub-path to roulette,
/// and let the survivors escape.
struct OneBounce {
    casts: usize,
}

impl SceneSampler<u32, f64> for OneBounce {
    fn trace(&mut self, _ray: &u32, _value: &f64, _denom: usize) -> PathEvent {
        self.casts += 1;
        if self.casts == 1 {
            PathEvent::SurfaceHit { branch_root: 3 }
        } else {
            PathEvent::Escaped { bin: 1 }
        }
    }
    fn spawn(&mut self, ray: &u32, value: &f64, n: usize) -> Vec<(u32, f64)> {
        // Russian roulette kills one of the requested sub-paths.
        let mut v = Vec::new();
        for _ in 0..n - 1 {
            v.push((*ray, value * 0.25));
        }
        v
    }
    fn primary(&mut self, sensor: &u32, _sample_index: usize) -> (u32, f64) {
        (*sensor, 1.0)
    }
    fn zero_value(&mut self) -> f64 {
        0.0
    }
    fn accumulate(&mut self, acc: &f64, value: &f64, denom: usize) -> f64 {
        acc + 3.0 * value / denom as f64
    }
}

#[test]
fn test_branching_multiplies_denominator() {
    let factory = DCFactory { max_depth: 2, n_ambient_samples: 10, n_bins: 2 };
    let mut scene = OneBounce { casts: 0 };
    let mut contribs: Vec<Contribution<f64>> = Vec::new();
    let r = factory.trace_ray(&mut scene, 0u32, 0, 1.0, 10, &mut contribs);
    assert_eq!(r, Ok(()));
    // Three branches requested, one killed by roulette, two escaped at
    // depth 1 with the denominator multiplied by the branch count.
    assert_eq!(contribs.len(), 2);
    for c in &contribs {
        assert_eq!(c.bin, 1);
        assert_eq!(c.denom, 30);
        assert_eq!(c.depth, 1);
        assert_eq!(c.value, 0.25);
    }
}

/// A scene that reports a light-emitting hit.
struct Emitter;

impl SceneSampler<u32, f64> for Emitter {
    fn trace(&mut self, _ray: &u32, _value: &f64, _denom: usize) -> PathEvent {
        PathEvent::EmitterHit
    }
    fn spawn(&mut self, _ray: &u32, _value: &f64, _n: usize) -> Vec<(u32, f64)> {
        Vec::new()
    }
    fn primary(&mut self, sensor: &u32, _sample_index: usize) -> (u32, f64) {
        (*sensor, 1.0)
    }
    fn zero_value(&mut self) -> f64 {
        0.0
    }
    fn accumulate(&mut self, acc: &f64, _value: &f64, _denom: usize) -> f64 {
        *acc
    }
}

#[test]
fn test_emitter_hit_is_fatal() {
    let factory = DCFactory { max_depth: 2, n_ambient_samples: 4, n_bins: 1 };
    let mut scene = Emitter;
    let rays = vec![0u32];
    match factory.calc_dc(&mut scene, &rays) {
        Err(e) => assert_eq!(e, TraceError::EmitterHit { depth: 0 }),
        Ok(_) => panic!("an emitting hit must abort the computation"),
    }
}

/// A scene whose sky discretization misbehaves.
struct BadBin;

impl SceneSampler<u32, f64> for BadBin {
    fn trace(&mut self, _ray: &u32, _value: &f64, _denom: usize) -> PathEvent {
        PathEvent::Escaped { bin: 7 }
    }
    fn spawn(&mut self, _ray: &u32, _value: &f64, _n: usize) -> Vec<(u32, f64)> {
        Vec::new()
    }
    fn primary(&mut self, sensor: &u32, _sample_index: usize) -> (u32, f64) {
        (*sensor, 1.0)
    }
    fn zero_value(&mut self) -> f64 {
        0.0
    }
    fn accumulate(&mut self, acc: &f64, _value: &f64, _denom: usize) -> f64 {
        *acc
    }
}

#[test]
fn test_bin_out_of_range_is_an_error() {
    let factory = DCFactory { max_depth: 0, n_ambient_samples: 1, n_bins: 3 };
    let mut scene = BadBin;
    let mut contribs: Vec<Contribution<f64>> = Vec::new();
    let r = factory.trace_ray(&mut scene, 0u32, 0, 1.0, 1, &mut contribs);
    assert_eq!(r, Err(TraceError::BinOutOfRange { bin: 7, n_bins: 3 }));
    assert!(contribs.is_empty());
}

#[test]
fn test_branch_count_clamps_to_one() {
    assert_eq!(branch_count(0), 1);
    assert_eq!(branch_count(1), 1);
    assert_eq!(branch_count(5), 5);
}

/// A stochastic scene driven by an explicit linear-congruential generator.
struct SeededScene {
    state: u64,
    n_bins: usize,
}

impl SeededScene {
    fn next(&mut self) -> u64 {
        self.state = self.state.wrapping_mul(6364136223846793005).wrapping_add(1442695040888963407);
        self.state >> 33
    }
}

impl SceneSampler<u32, f64> for SeededScene {
    fn trace(&mut self, _ray: &u32, _value: &f64, _denom: usize) -> PathEvent {
        if self.next() % 4 == 0 {
            PathEvent::SurfaceHit { branch_root: (self.next() % 3) as usize }
        } else {
            PathEvent::Escaped { bin: (self.next() as usize) % self.n_bins }
        }
    }
    fn spawn(&mut self, ray: &u32, value: &f64, n: usize) -> Vec<(u32, f64)> {
        let mut v = Vec::new();
        for _ in 0..n {
            let weight = (self.next() % 1000) as f64 / 1000.0;
            v.push((*ray, value * weight));
        }
        v
    }
    fn primary(&mut self, sensor: &u32, _sample_index: usize) -> (u32, f64) {
        (*sensor, 1.0)
    }
    fn zero_value(&mut self) -> f64 {
        0.0
    }
    fn accumulate(&mut self, acc: &f64, value: &f64, denom: usize) -> f64 {
        acc + 3.0 * value / denom as f64
    }
}

#[test]
fn test_determinism_under_seed() {
    // Two single-threaded runs with the same seed and configuration produce
    // identical matrices, bit for bit.
    let factory = DCFactory { max_depth: 3, n_ambient_samples: 50, n_bins: 4 };
    let rays = vec![0u32, 1, 2];
    let mut first = SeededScene { state: 20260101, n_bins: 4 };
    let a = factory.calc_dc(&mut first, &rays).unwrap();
    let mut second = SeededScene { state: 20260101, n_bins: 4 };
    let b = factory.calc_dc(&mut second, &rays).unwrap();
    assert_eq!(a.size(), b.size());
    for r in 0..3 {
        for c in 0..4 {
            let x: f64 = a.get(r, c).unwrap();
            let y: f64 = b.get(r, c).unwrap();
            assert!(x == y, "row {r} col {c}: {x} vs {y}");
        }
    }
    // And a different seed does change the outcome somewhere.
    let mut third = SeededScene { state: 4, n_bins: 4 };
    let d = factory.calc_dc(&mut third, &rays).unwrap();
    let mut differs = false;
    for r in 0..3 {
        for c in 0..4 {
            if a.get(r, c).unwrap() != d.get(r, c).unwrap() {
                differs = true;
            }
        }
    }
    assert!(differs);
}

/// A scene that cannot attribute the hit side: the path is dropped.
struct SidelessHit;

impl SceneSampler<u32, f64> for SidelessHit {
    fn trace(&mut self, _ray: &u32, _value: &f64, _denom: usize) -> PathEvent {
        PathEvent::Inapplicable
    }
    fn spawn(&mut self, _ray: &u32, _value: &f64, _n: usize) -> Vec<(u32, f64)> {
        Vec::new()
    }
    fn primary(&mut self, sensor: &u32, _sample_index: usize) -> (u32, f64) {
        (*sensor, 1.0)
    }
    fn zero_value(&mut self) -> f64 {
        0.0
    }
    fn accumulate(&mut self, acc: &f64, _value: &f64, _denom: usize) -> f64 {
        *acc
    }
}

#[test]
fn test_inapplicable_side_contributes_nothing() {
    let factory = DCFactory { max_depth: 1, n_ambient_samples: 2, n_bins: 1 };
    let mut scene = SidelessHit;
    let mut contribs: Vec<Contribution<f64>> = Vec::new();
    assert_eq!(factory.trace_ray(&mut scene, 0u32, 0, 1.0, 2, &mut contribs), Ok(()));
    assert!(contribs.is_empty());
}

/// A scene that rejects its ray as malformed geometry.
struct DegenerateRay;

impl SceneSampler<u32, f64> for DegenerateRay {
    fn trace(&mut self, _ray: &u32, _value: &f64, _denom: usize) -> PathEvent {
        PathEvent::MalformedGeometry
    }
    fn spawn(&mut self, _ray: &u32, _value: &f64, _n: usize) -> Vec<(u32, f64)> {
        Vec::new()
    }
    fn primary(&mut self, sensor: &u32, _sample_index: usize) -> (u32, f64) {
        (*sensor, 1.0)
    }
    fn zero_value(&mut self) -> f64 {
        0.0
    }
    fn accumulate(&mut self, acc: &f64, _value: &f64, _denom: usize) -> f64 {
        *acc
    }
}

#[test]
fn test_malformed_geometry_is_an_error() {
    let factory = DCFactory { max_depth: 2, n_ambient_samples: 4, n_bins: 1 };
    let mut scene = DegenerateRay;
    let rays = vec![0u32];
    match factory.calc_dc(&mut scene, &rays) {
        Err(e) => assert_eq!(e, TraceError::MalformedGeometry { depth: 0 }),
        Ok(_) => panic!("a malformed ray must abort the computation"),
    }
}

#[test]
fn test_calc_dc_no_sensors_succeeds() {
    let factory = DCFactory { max_depth: 2, n_ambient_samples: 4, n_bins: 5 };
    let mut scene = Emitter;
    let rays: Vec<u32> = Vec::new();
    let m = factory.calc_dc(&mut scene, &rays).unwrap();
    assert_eq!(m.size(), (0, 5));
}

#[test]
fn test_trace_step_escape_appends_exactly_one_entry() {
    let factory = DCFactory { max_depth: 3, n_ambient_samples: 8, n_bins: 4 };
    let mut contribs: Vec<Contribution<f64>> = Vec::new();
    let r = factory.trace_step(PathEvent::Escaped { bin: 2 }, 1, 0.75, 24, &mut contribs);
    assert!(matches!(r, Ok(StepAction::Stop)));
    assert_eq!(contribs.len(), 1);
    assert_eq!(contribs[0].bin, 2);
    assert_eq!(contribs[0].value, 0.75);
    assert_eq!(contribs[0].denom, 24);
    assert_eq!(contribs[0].depth, 1);
}

#[test]
fn test_trace_step_escape_out_of_range_bin() {
    let factory = DCFactory { max_depth: 3, n_ambient_samples: 8, n_bins: 4 };
    let mut contribs: Vec<Contribution<f64>> = Vec::new();
    let r = factory.trace_step(PathEvent::Escaped { bin: 4 }, 0, 1.0, 8, &mut contribs);
    assert!(matches!(r, Err(TraceError::BinOutOfRange { bin: 4, n_bins: 4 })));
    assert!(contribs.is_empty());
}

#[test]
fn test_trace_step_fatal_events() {
    let factory = DCFactory { max_depth: 3, n_ambient_samples: 8, n_bins: 4 };
    let mut contribs: Vec<Contribution<f64>> = Vec::new();
    let r = factory.trace_step(PathEvent::EmitterHit, 2, 1.0, 8, &mut contribs);
    assert!(matches!(r, Err(TraceError::EmitterHit { depth: 2 })));
    let r = factory.trace_step(PathEvent::MalformedGeometry, 3, 1.0, 8, &mut contribs);
    assert!(matches!(r, Err(TraceError::MalformedGeometry { depth: 3 })));
    assert!(contribs.is_empty());
}

#[test]
fn test_trace_step_inapplicable_drops_path() {
    let factory = DCFactory { max_depth: 3, n_ambient_samples: 8, n_bins: 4 };
    let mut contribs: Vec<Contribution<f64>> = Vec::new();
    let r = factory.trace_step(PathEvent::Inapplicable, 0, 1.0, 8, &mut contribs);
    assert!(matches!(r, Ok(StepAction::Stop)));
    assert!(contribs.is_empty());
}

#[test]
fn test_trace_step_surface_hit_clamps_and_multiplies() {
    let factory = DCFactory { max_depth: 3, n_ambient_samples: 8, n_bins: 4 };
    let mut contribs: Vec<Contribution<f64>> = Vec::new();
    match factory.trace_step(PathEvent::SurfaceHit { branch_root: 0 }, 0, 1.0, 10, &mut contribs) {
        Ok(StepAction::Spawn { n, denom, value }) => {
            assert_eq!(n, 1);
            assert_eq!(denom, 10);
            assert_eq!(value, 1.0);
        },
        _ => panic!("a reflecting hit must spawn"),
    }
    match factory.trace_step(PathEvent::SurfaceHit { branch_root: 3 }, 0, 0.5, 10, &mut contribs) {
        Ok(StepAction::Spawn { n, denom, value }) => {
            assert_eq!(n, 3);
            assert_eq!(denom, 30);
            assert_eq!(value, 0.5);
        },
        _ => panic!("a reflecting hit must spawn"),
    }
    let r = factory.trace_step(
        PathEvent::SurfaceHit { branch_root: 2 },
        0,
        1.0,
        usize::MAX,
        &mut contribs,
    );
    assert!(matches!(r, Err(TraceError::DenominatorOverflow)));
    assert!(contribs.is_empty());
}

#[test]
fn test_accumulate_row_touches_only_contributed_bins() {
    let factory = DCFactory { max_depth: 1, n_ambient_samples: 1, n_bins: 3 };
    let mut scene = EmptySky;
    let mut m = solar_dc::matrix::Matrix::new(0.0f64, 2, 3);
    m.set(0, 0, 10.0).unwrap();
    m.set(0, 1, 20.0).unwrap();
    m.set(0, 2, 30.0).unwrap();
    m.set(1, 1, 40.0).unwrap();
    let contribs = vec![
        Contribution { bin: 1, value: 6.0, denom: 2, depth: 0 },
        Contribution { bin: 1, value: 4.0, denom: 4, depth: 1 },
    ];
    factory.accumulate_row(&mut scene, &mut m, 0, &contribs);
    // Only (0, 1) changed: 20 + 3*6/2 + 3*4/4 = 32.
    assert_eq!(m.get(0, 0).unwrap(), 10.0);
    assert_eq!(m.get(0, 1).unwrap(), 32.0);
    assert_eq!(m.get(0, 2).unwrap(), 30.0);
    assert_eq!(m.get(1, 0).unwrap(), 0.0);
    assert_eq!(m.get(1, 1).unwrap(), 40.0);
    assert_eq!(m.get(1, 2).unwrap(), 0.0);
}
