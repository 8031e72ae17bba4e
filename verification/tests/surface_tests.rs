use solar_dc::matrix::{Matrix, MatrixError};
use solar_dc::solar_surface::{
    concat_dc_rows, retained_indices, view_factor_counts, Boundary, EscapeClass, PointSource,
    SolarSurface,
};

type Point = (f64, f64, f64);

/// Hands out points along a line, one per call.
struct LineSource {
    at: f64,
}

impl PointSource<Point> for LineSource {
    fn next_point(&mut self) -> Point {
        let p = (self.at, 0.5, 0.0);
        self.at += 1.0;
        p
    }
}

#[test]
fn test_surface_point_count_matches_request() {
    let mut source = LineSource { at: 0.0 };
    let s: SolarSurface<Point, Point> =
        SolarSurface::new(10, &mut source, (0.0, 0.0, 1.0), true, false);
    assert_eq!(s.n_points(), 10);
    assert!(s.receives_sun_front);
    assert!(!s.receives_sun_back);
    assert_eq!(s.normal, (0.0, 0.0, 1.0));
    // The points are exactly what the source produced, in order.
    for (i, p) in s.points().iter().enumerate() {
        assert_eq!(*p, (i as f64, 0.5, 0.0));
    }
}

#[test]
fn test_surface_zero_points() {
    let mut source = LineSource { at: 0.0 };
    let s: SolarSurface<Point, Point> =
        SolarSurface::new(0, &mut source, (0.0, 0.0, 1.0), true, true);
    assert_eq!(s.n_points(), 0);
}

#[test]
fn test_boundary_receives_sun() {
    // Mirrors the boundary handling of the surface builders: no boundary and
    // space/outdoor boundaries receive sun; ground and fixed ambient
    // temperature do not.
    assert!(SolarSurface::<Point, Point>::boundary_receives_sun(None));
    assert!(SolarSurface::<Point, Point>::boundary_receives_sun(Some(&Boundary::Space)));
    assert!(SolarSurface::<Point, Point>::boundary_receives_sun(Some(&Boundary::Outdoor)));
    assert!(!SolarSurface::<Point, Point>::boundary_receives_sun(Some(&Boundary::Ground)));
    assert!(!SolarSurface::<Point, Point>::boundary_receives_sun(Some(
        &Boundary::AmbientTemperature
    )));
}

fn surface(front: bool, back: bool) -> SolarSurface<Point, Point> {
    let mut source = LineSource { at: 0.0 };
    SolarSurface::new(1, &mut source, (0.0, 0.0, 1.0), front, back)
}

#[test]
fn test_retained_indices() {
    let list = vec![surface(true, false), surface(false, true), surface(true, true)];
    assert_eq!(retained_indices(&list, true), vec![0, 2]);
    assert_eq!(retained_indices(&list, false), vec![1, 2]);
    let none: Vec<SolarSurface<Point, Point>> = Vec::new();
    assert_eq!(retained_indices(&none, true), Vec::<usize>::new());
}

#[test]
fn test_concat_dc_rows() {
    let a = Matrix::from_vec(1, 2, vec![1.0f64, 2.0]).unwrap();
    let b = Matrix::from_vec(2, 2, vec![3.0f64, 4.0, 5.0, 6.0]).unwrap();
    let m = concat_dc_rows(&[a, b]).unwrap();
    assert_eq!(m.size(), (3, 2));
    assert_eq!(m.get(0, 0), Ok(1.0));
    assert_eq!(m.get(1, 0), Ok(3.0));
    assert_eq!(m.get(2, 1), Ok(6.0));
}

#[test]
fn test_concat_dc_rows_empty() {
    let none: Vec<Matrix<f64>> = Vec::new();
    let m = concat_dc_rows(&none).unwrap();
    assert_eq!(m.size(), (0, 0));
    assert!(m.is_empty());
}

#[test]
fn test_concat_dc_rows_mismatch() {
    let a = Matrix::from_vec(1, 2, vec![1.0f64, 2.0]).unwrap();
    let b = Matrix::from_vec(1, 2, vec![3.0f64, 4.0]).unwrap();
    let c = Matrix::from_vec(1, 3, vec![5.0f64, 6.0, 7.0]).unwrap();
    assert_eq!(
        concat_dc_rows(&[a, b, c]).unwrap_err(),
        MatrixError::DimensionMismatch { left_cols: 2, right_cols: 3 }
    );
}

/// The raw fractions and the correction that splits raw sky into true sky
/// and surroundings at air temperature.
fn view_factors(events: &[EscapeClass]) -> (f64, f64, f64) {
    let (sky_count, ground_count) = view_factor_counts(events);
    let n = events.len() as f64;
    let mut sky = sky_count as f64 / n;
    let ground = ground_count as f64 / n;
    let beta = sky.sqrt();
    let air = sky * (1.0 - beta);
    sky *= beta;
    (sky, ground, air)
}

#[test]
fn test_view_factors_horizontal_up() {
    // A horizontal, unobstructed surface facing up sees only sky.
    let events = vec![EscapeClass::Sky; 10000];
    let (sky, ground, air) = view_factors(&events);
    assert!((sky - 1.0).abs() < 1e-9);
    assert!(ground.abs() < 1e-9);
    assert!(air.abs() < 1e-9);
}

#[test]
fn test_view_factors_horizontal_down() {
    // Facing down it sees only ground.
    let events = vec![EscapeClass::Ground; 10000];
    let (sky, ground, air) = view_factors(&events);
    assert!(sky.abs() < 1e-9);
    assert!((ground - 1.0).abs() < 1e-9);
    assert!(air.abs() < 1e-9);
}

#[test]
fn test_view_factors_vertical() {
    // A vertical surface sees half sky, half ground; the correction moves
    // part of the raw sky fraction to surroundings at air temperature.
    let mut events = vec![EscapeClass::Sky; 5000];
    events.extend(vec![EscapeClass::Ground; 5000]);
    let (sky, ground, air) = view_factors(&events);
    let beta = (0.5f64).sqrt();
    assert!((ground - 0.5).abs() < 1e-9);
    assert!((sky - 0.5 * beta).abs() < 1e-9);
    assert!((air - 0.5 * (1.0 - beta)).abs() < 1e-9);
}

#[test]
fn test_view_factor_counts_ignore_blocked() {
    let events = vec![
        EscapeClass::Sky,
        EscapeClass::Blocked,
        EscapeClass::Ground,
        EscapeClass::Sky,
        EscapeClass::Blocked,
    ];
    let (sky, ground) = view_factor_counts(&events);
    assert_eq!(sky, 2);
    assert_eq!(ground, 1);
    assert!(sky + ground <= events.len());
}
