use thalweg::read::point::{from_csv, from_geojson, from_geojson_line, from_nonna};

#[test]
fn reads_point_lines() {
    let source = "0-0-0.0N 0-0-0.0E";
    let actual = from_nonna(source);
    let expected = vec![(0, 0)];
    assert_eq!(actual, expected);
}

#[test]
fn reads_multiple_point_lines() {
    let source = "0-0-0.0N 0-0-0.0E\n0-0-0.0N 0-0-0.0E";
    let actual = from_nonna(source);
    let expected = vec![(0, 0), (0, 0)];
    assert_eq!(actual, expected);
}

#[test]
fn rejects_non_point_lines() {
    let source = "not actual point\n0-0-0.0N 0-0-0.0E";
    let actual = from_nonna(source);
    let expected = vec![(0, 0)];
    assert_eq!(actual, expected);
}

#[test]
fn reads_point_csv_longitude_first() {
    let source = "longitude,latitude\n-123.456,49.58";
    let actual = from_csv(source);
    let expected = vec![(-123456000, 49580000)];
    assert!(actual.is_ok());
    assert_eq!(actual.unwrap(), expected);
}

#[test]
fn reads_point_csv_latitude_first() {
    let source = "latitude,longitude\n49.58,-123.456";
    let actual = from_csv(source);
    let expected = vec![(-123456000, 49580000)];
    assert!(actual.is_ok());
    assert_eq!(actual.unwrap(), expected);
}

#[test]
fn reads_point_csv_short_names() {
    let source = "lon,lat\n-123.456,49.58";
    let actual = from_csv(source);
    let expected = vec![(-123456000, 49580000)];
    assert!(actual.is_ok());
    assert_eq!(actual.unwrap(), expected);
}

#[test]
fn reads_point_csv_capitalized_names() {
    let source = "Longitude,Latitiude\n-123.456,49.58";
    let actual = from_csv(source);
    let expected = vec![(-123456000, 49580000)];
    assert!(actual.is_ok());
    assert_eq!(actual.unwrap(), expected);
}

#[test]
fn reads_point_csv_despite_formatting() {
    let source = "\"longitude (float)\", \"latitiude (float)\"\n-123.456,49.58";
    let actual = from_csv(source);
    let expected = vec![(-123456000, 49580000)];
    assert!(actual.is_ok());
    assert_eq!(actual.unwrap(), expected);
}

#[test]
fn reads_point_csv_with_other_columns() {
    let source = "elevation,longitude,depth,latitiude,noise\n0.0,-123.456,0.0,49.58,0.0";
    let actual = from_csv(source);
    let expected = vec![(-123456000, 49580000)];
    assert!(actual.is_ok());
    assert_eq!(actual.unwrap(), expected);
}

#[test]
fn reads_point_geojson_just_one_point() {
    let source = r#"{"type":"Point","coordinates":[-123.4,54.3]}"#;
    let actual = from_geojson(source);
    let expected = vec![(-123400000, 54300000)];
    assert!(actual.is_ok());
    assert_eq!(actual.unwrap(), expected);
}

#[test]
fn reads_point_geojson_just_one_feature() {
    let source = r#"{"type":"Feature","properties":{},"geometry":{"type":"Point","coordinates":[-123.4,54.3]}}"#;
    let actual = from_geojson(source);
    let expected = vec![(-123400000, 54300000)];
    assert!(actual.is_ok());
    assert_eq!(actual.unwrap(), expected);
}

#[test]
fn reads_point_geojson_full_collection() {
    let source = r#"{"type":"FeatureCollection","features":[
        {"type":"Feature","properties":{},"geometry":{"type":"Point","coordinates":[-123.4,54.3]}},
        {"type":"Feature","properties":{},"geometry":{"type":"Point","coordinates":[-123.3,54.4]}}
    ]}"#;
    let actual = from_geojson(source);
    let expected = vec![(-123400000, 54300000), (-123300000, 54400000)];
    assert!(actual.is_ok());
    assert_eq!(actual.unwrap(), expected);
}

#[test]
fn rejects_points_from_geojson_wrong_type() {
    let source = r#"{"type":"FeatureCollection","features":[{"type":"Feature","properties":{},"geometry":{"type":"LineString","coordinates":[[-122.882765,49.46419,-9.144]]}}]}"#;
    let actual = from_geojson(source);
    assert!(actual.is_err());
}

#[test]
fn reads_points_from_geoson_line_feature_collection() {
    let source = r#"{"type":"FeatureCollection","features":[{"type":"Feature","properties":{},"geometry":{"type":"LineString","coordinates":[[-122.882765,49.46419,-9.144]]}}]}"#;
    let actual = from_geojson_line(source);
    let expected = vec![(-122882765, 49464190)];
    assert!(actual.is_ok());
    assert_eq!(actual.unwrap(), expected);
}

#[test]
fn reads_points_from_geoson_line_feature() {
    let source = r#"{"type":"Feature","properties":{},"geometry":{"type":"LineString","coordinates":[[-122.882765,49.46419,-9.144]]}}"#;
    let actual = from_geojson_line(source);
    let expected = vec![(-122882765, 49464190)];
    assert!(actual.is_ok());
    assert_eq!(actual.unwrap(), expected);
}

#[test]
fn reads_points_from_geoson_line_string() {
    let source = r#"{"type":"LineString","coordinates":[[-122.882765,49.46419,-9.144]]}"#;
    let actual = from_geojson_line(source);
    let expected = vec![(-122882765, 49464190)];
    assert!(actual.is_ok());
    assert_eq!(actual.unwrap(), expected);
}

#[test]
fn rejects_points_from_geojson_line_wrong_type() {
    let source = r#"{"type":"Point","coordinates":[-122.882765,49.46419,-9.144]}"#;
    let actual = from_geojson_line(source);
    assert!(actual.is_err());
}
