use reticle_app::geom::Point;
use reticle_app::measure::Measurement;

fn distance_dbu(m: &Measurement) -> f64 {
    (m.distance_squared() as f64).sqrt()
}

fn distance_microns(m: &Measurement) -> f64 {
    distance_dbu(m) / m.dbu_per_micron() as f64
}

#[test]
fn axis_aligned_distance() {
    let m = Measurement::new(Point::new(0, 0), Point::new(4000, 0), 1000);
    assert!((distance_dbu(&m) - 4000.0).abs() < 1e-6);
    assert!((distance_microns(&m) - 4.0).abs() < 1e-9);
    assert_eq!(m.dx(), 4000);
    assert_eq!(m.dy(), 0);
}

#[test]
fn pythagorean_triple() {
    let m = Measurement::new(Point::new(1000, 1000), Point::new(4000, 5000), 1000);
    assert!((distance_dbu(&m) - 5000.0).abs() < 1e-6);
    assert_eq!(m.dx(), 3000);
    assert_eq!(m.dy(), 4000);
}

#[test]
fn negative_deltas() {
    let m = Measurement::new(Point::new(5000, 5000), Point::new(2000, 1000), 1000);
    assert_eq!(m.dx(), -3000);
    assert_eq!(m.dy(), -4000);
    assert!((distance_dbu(&m) - 5000.0).abs() < 1e-6);
}

#[test]
fn micron_conversion_respects_resolution() {
    let m = Measurement::new(Point::new(0, 0), Point::new(2000, 0), 2000);
    assert!((distance_microns(&m) - 1.0).abs() < 1e-9);
}

#[test]
fn nonpositive_resolution_does_not_divide_by_zero() {
    let m = Measurement::new(Point::new(0, 0), Point::new(1000, 0), 0);
    assert!(distance_microns(&m).is_finite());
    assert_eq!(m.dbu_per_micron(), 1);
}

#[test]
fn squared_distance_is_exact_at_the_extremes() {
    let m = Measurement::new(Point::new(i32::MIN, i32::MIN), Point::new(i32::MAX, i32::MAX), 1);
    let span: i128 = (1i128 << 32) - 1;
    assert_eq!(m.distance_squared(), 2 * span * span);
    assert_eq!(m.dx(), span as i64);
}
