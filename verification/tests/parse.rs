use thalweg::bathymetry::Bathymetry;
use thalweg::format::{convert, parse_format, OutputFormat};
use thalweg::parse::{
    parse_bounding_box, parse_dms_latitude, parse_dms_longitude, parse_micros, BoundingBox,
};
use thalweg::read;

#[test]
fn reads_proper_latitude() {
    assert_eq!(parse_dms_latitude("49-12-00.000N"), Some(49200000));
    assert_eq!(parse_dms_latitude("49-12-00.000S"), Some(-49200000));
}

#[test]
fn rejects_improper_latitude() {
    assert_eq!(parse_dms_latitude("not a latitude"), None);
}

#[test]
fn reads_proper_longitude() {
    assert_eq!(parse_dms_longitude("122-56-24.360E"), Some(122940100));
    assert_eq!(parse_dms_longitude("122-56-24.360W"), Some(-122940100));
}

#[test]
fn rejects_improper_longitude() {
    assert_eq!(parse_dms_longitude("not a longitude"), None);
}

#[test]
fn reads_proper_float() {
    assert_eq!(parse_micros("-0.99565"), Some(-995650));
}

#[test]
fn rejects_improper_float() {
    assert_eq!(parse_micros("not a float"), None);
}

#[test]
fn reads_bounding_box() {
    let expected = BoundingBox {
        x1: -123400000,
        y1: 54300000,
        x2: -123900000,
        y2: 55000000,
    };
    assert_eq!(parse_bounding_box("-123.4,54.3,-123.9,55.0"), Some(expected));
}

#[test]
fn rejects_invalid_box() {
    assert_eq!(parse_bounding_box("not a bounding box"), None);
    assert_eq!(parse_bounding_box("-123.4"), None);
    assert_eq!(parse_bounding_box("-123.4,missing,-123.9,55.0"), None);
}

#[test]
fn bounding_box_contains_interior_only() {
    let bb = BoundingBox {
        x1: -123400000,
        y1: 54300000,
        x2: -123900000,
        y2: 55000000,
    };
    assert!(bb.contains((-123500000, 54500000)));
    assert!(!bb.contains((-123400000, 54500000)));
    assert!(!bb.contains((0, 0)));
}

#[test]
fn reads_format_names_ignoring_case() {
    assert!(matches!(parse_format("CSV"), Ok(OutputFormat::Csv)));
    assert!(matches!(parse_format("dms"), Ok(OutputFormat::Dms)));
    assert!(matches!(parse_format("GeoJson"), Ok(OutputFormat::GeoJson)));
    assert!(parse_format("map").is_err());
}

#[test]
fn dms_round_trip_recovers_every_nearby_microdegree() {
    for m in -5..6_i64 {
        let input = vec![Bathymetry::new(m, 2 * m, 0)];
        let string = convert(OutputFormat::Dms, &input);
        let actual = read::thalweg::from_nonna(&string);
        assert_eq!(actual.len(), 1);
        assert_eq!(actual[0].location(), (2 * m, m));
    }
}
