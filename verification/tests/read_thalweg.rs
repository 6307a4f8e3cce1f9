use thalweg::bathymetry::Bathymetry;
use thalweg::read::thalweg::{from_csv, from_geojson, from_nonna};

#[test]
fn reads_thalweg_from_nonna() {
    let source = "0-0-0.0N 0-0-0.0E 0.0";
    let actual = from_nonna(source);
    let expected = vec![Bathymetry::new(0, 0, 0)];
    assert_eq!(actual, expected);
}

#[test]
fn reads_thalweg_with_multiple_lines() {
    let source = "0-0-0.0N 0-0-0.0E 0.0\n0-0-0.0N 0-0-0.0E 0.0";
    let actual = from_nonna(source);
    let expected = vec![Bathymetry::new(0, 0, 0), Bathymetry::new(0, 0, 0)];
    assert_eq!(actual, expected);
}

#[test]
fn reads_thalweg_from_csv() {
    let source = "longitude,latitude,depth\n-123.456,49.58,100.0";
    let actual = from_csv(source);
    let expected = vec![Bathymetry::new(49580000, -123456000, 100000)];
    assert!(actual.is_ok());
    assert_eq!(actual.unwrap(), expected);
}

#[test]
fn reads_thalweg_from_geoson_feature_collection() {
    let source = r#"{"type":"FeatureCollection","features":[{"type":"Feature","properties":{},"geometry":{"type":"LineString","coordinates":[[-122.882765,49.46419,-9.144]]}}]}"#;
    let actual = from_geojson(source);
    let expected = vec![Bathymetry::new(49464190, -122882765, 9144)];
    assert!(actual.is_ok());
    assert_eq!(actual.unwrap(), expected);
}

#[test]
fn reads_thalweg_from_geoson_feature() {
    let source = r#"{"type":"Feature","properties":{},"geometry":{"type":"LineString","coordinates":[[-122.882765,49.46419,-9.144]]}}"#;
    let actual = from_geojson(source);
    let expected = vec![Bathymetry::new(49464190, -122882765, 9144)];
    assert!(actual.is_ok());
    assert_eq!(actual.unwrap(), expected);
}

#[test]
fn reads_thalweg_from_geoson_line_string() {
    let source = r#"{"type":"LineString","coordinates":[[-122.882765,49.46419,-9.144]]}"#;
    let actual = from_geojson(source);
    let expected = vec![Bathymetry::new(49464190, -122882765, 9144)];
    assert!(actual.is_ok());
    assert_eq!(actual.unwrap(), expected);
}

#[test]
fn rejects_thalweg_from_geojson_wrong_type() {
    let source = r#"{"type":"Point","coordinates":[-122.882765,49.46419,-9.144]}"#;
    let actual = from_geojson(source);
    assert!(actual.is_err());
}
