use thalweg::bathymetry::Bathymetry;
use thalweg::read::{read_corner_csv, read_corner_lines, read_data_lines};

#[test]
fn read_reads_bathymetry_lines() {
    let source = "0-0-0.0N 0-0-0.0E 0.0";
    let actual = read_data_lines(source);
    let expected = vec![Bathymetry::new(0, 0, 0)];
    assert_eq!(actual, expected);
}

#[test]
fn read_reads_multiple_bathymetry_lines() {
    let source = "0-0-0.0N 0-0-0.0E 0.0\n0-0-0.0N 0-0-0.0E 0.0";
    let actual = read_data_lines(source);
    let expected = vec![Bathymetry::new(0, 0, 0), Bathymetry::new(0, 0, 0)];
    assert_eq!(actual, expected);
}

#[test]
fn read_ignores_non_bathymetry_lines() {
    let source = "not actual bathymetry\n0-0-0.0N 0-0-0.0E 0.0";
    let actual = read_data_lines(source);
    let expected = vec![Bathymetry::new(0, 0, 0)];
    assert_eq!(actual, expected);
}

#[test]
fn reads_corner_lines() {
    let source = "0-0-0.0N 0-0-0.0E";
    let actual = read_corner_lines(source);
    let expected = vec![(0, 0)];
    assert_eq!(actual, expected);
}

#[test]
fn reads_multiple_corner_lines() {
    let source = "0-0-0.0N 0-0-0.0E\n0-0-0.0N 0-0-0.0E";
    let actual = read_corner_lines(source);
    let expected = vec![(0, 0), (0, 0)];
    assert_eq!(actual, expected);
}

#[test]
fn rejects_non_corner_lines() {
    let source = "not actual corner\n0-0-0.0N 0-0-0.0E";
    let actual = read_corner_lines(source);
    let expected = vec![(0, 0)];
    assert_eq!(actual, expected);
}

#[test]
fn reads_corner_csv_longitude_first() {
    let source = "longitude,latitude\n-123.456,49.58";
    let actual = read_corner_csv(source);
    let expected = vec![(-123456000, 49580000)];
    assert_eq!(actual, expected);
}

#[test]
fn reads_corner_csv_latitude_first() {
    let source = "latitude,longitude\n49.58,-123.456";
    let actual = read_corner_csv(source);
    let expected = vec![(-123456000, 49580000)];
    assert_eq!(actual, expected);
}

#[test]
fn reads_corner_csv_short_names() {
    let source = "lon,lat\n-123.456,49.58";
    let actual = read_corner_csv(source);
    let expected = vec![(-123456000, 49580000)];
    assert_eq!(actual, expected);
}

#[test]
fn reads_corner_csv_capitalized_names() {
    let source = "Longitude,Latitiude\n-123.456,49.58";
    let actual = read_corner_csv(source);
    let expected = vec![(-123456000, 49580000)];
    assert_eq!(actual, expected);
}

#[test]
fn reads_corner_csv_despite_formatting() {
    let source = "\"longitude (float)\", \"latitiude (float)\"\n-123.456,49.58";
    let actual = read_corner_csv(source);
    let expected = vec![(-123456000, 49580000)];
    assert_eq!(actual, expected);
}
