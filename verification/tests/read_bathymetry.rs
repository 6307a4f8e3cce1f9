use thalweg::bathymetry::Bathymetry;
use thalweg::parse::BoundingBox;
use thalweg::read::bathymetry::{from_csv, from_nonna};
use thalweg::read::ReadError;

#[test]
fn bathymetry_reads_bathymetry_lines() {
    let source = "0-0-0.0N 0-0-0.0E 0.0";
    let actual = from_nonna(source, &None);
    let expected = vec![Bathymetry::new(0, 0, 0)];
    assert_eq!(actual, expected);
}

#[test]
fn bathymetry_reads_multiple_bathymetry_lines() {
    let source = "0-0-0.0N 0-0-0.0E 0.0\n0-0-0.0N 0-0-0.0E 0.0";
    let actual = from_nonna(source, &None);
    let expected = vec![Bathymetry::new(0, 0, 0), Bathymetry::new(0, 0, 0)];
    assert_eq!(actual, expected);
}

#[test]
fn bathymetry_ignores_non_bathymetry_lines() {
    let source = "not actual bathymetry\n0-0-0.0N 0-0-0.0E 0.0";
    let actual = from_nonna(source, &None);
    let expected = vec![Bathymetry::new(0, 0, 0)];
    assert_eq!(actual, expected);
}

#[test]
fn reads_bathymetry_from_csv() {
    let source = "longitude,latitude,depth\n-123.456,49.58,100.0";
    let actual = from_csv(source, &None);
    let expected = vec![Bathymetry::new(49580000, -123456000, 100000)];
    assert!(actual.is_ok());
    assert_eq!(actual.unwrap(), expected);
}

#[test]
fn reads_bathymetry_from_csv_with_elevation() {
    let source = "longitude,latitude,elevation\n-123.456,49.58,-100.0";
    let actual = from_csv(source, &None);
    let expected = vec![Bathymetry::new(49580000, -123456000, 100000)];
    assert!(actual.is_ok());
    assert_eq!(actual.unwrap(), expected);
}

#[test]
fn rejects_bathymetry_csv_without_depth() {
    let source = "longitude,latitude\n-123.456,49.58";
    let actual = from_csv(source, &None);
    assert_eq!(actual, Err(ReadError::MissingDepth));
}

#[test]
fn bounding_box_filters_bathymetry_lines() {
    let bb = BoundingBox { x1: -1000000, y1: -1000000, x2: 1000000, y2: 1000000 };
    let source = "0-0-0.0N 0-0-0.0E 5.0\n0-0-0.0N 2-0-0.0E 5.0";
    let actual = from_nonna(source, &Some(bb));
    let expected = vec![Bathymetry::new(0, 0, 5000)];
    assert_eq!(actual, expected);
}
