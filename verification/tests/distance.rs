use thalweg::bathymetry::Bathymetry;

#[test]
fn distance_to_self_is_zero() {
    let point = Bathymetry::new(0, 0, 0);
    assert_eq!(point.distance_to(&point), 0);
}

#[test]
fn distance_between_points_is_positive() {
    let a = Bathymetry::new(0, 0, 0);
    let b = Bathymetry::new(1000000, 1000000, 1000);
    assert!(a.distance_to(&b) > 0);
    assert!(b.distance_to(&a) > 0);
}

#[test]
fn distance_between_points_is_reflexive() {
    let a = Bathymetry::new(0, 0, 0);
    let b = Bathymetry::new(1000000, 1000000, 1000);
    assert_eq!(a.distance_to(&b), b.distance_to(&a));
}

#[test]
fn distance_at_equator() {
    let start = Bathymetry::new(0, 0, 0);
    let end = Bathymetry::new(1000000, 1000000, 1000);
    let distance_km = start.distance_to(&end) as f64 / 1000.0 / 1000.0;
    // distance should be ~157km
    assert!((156.5..157.5).contains(&distance_km));
}

#[test]
fn distance_in_vancouver() {
    let start = Bathymetry::new(49467800, -122883000, 0);
    let end = Bathymetry::new(49298900, -122940000, 0);
    let distance_km = start.distance_to(&end) as f64 / 1000.0 / 1000.0;
    // distance should be ~19km
    assert!((18.5..19.5).contains(&distance_km));
}
