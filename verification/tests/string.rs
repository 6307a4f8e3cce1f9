use thalweg::bathymetry::Bathymetry;
use thalweg::format::{convert, OutputFormat};
use thalweg::read;

#[test]
fn geojson_parse_unparse_equivalent() {
    let input = vec![
        Bathymetry::new(0, 0, 0),
        Bathymetry::new(49580000, -123456000, 100000),
    ];
    let string = convert(OutputFormat::GeoJson, &input);
    let actual = read::thalweg::from_geojson(&string);
    assert!(actual.is_ok());
    let actual = actual.unwrap();
    assert_eq!(actual, input);
    for (a, b) in actual.iter().zip(input.iter()) {
        assert_eq!(a.depth(), b.depth());
    }
}

#[test]
fn csv_parse_unparse_equivalent() {
    let input = vec![
        Bathymetry::new(0, 0, 0),
        Bathymetry::new(49580000, -123456000, 100000),
    ];
    let string = convert(OutputFormat::Csv, &input);
    let actual = read::thalweg::from_csv(&string);
    assert!(actual.is_ok());
    let actual = actual.unwrap();
    assert_eq!(actual, input);
    for (a, b) in actual.iter().zip(input.iter()) {
        assert_eq!(a.depth(), b.depth());
    }
}

#[test]
fn nonna_parse_unparse_equivalent() {
    let input = vec![
        Bathymetry::new(0, 0, 0),
        Bathymetry::new(49580000, -123456000, 100000),
    ];
    let string = convert(OutputFormat::Dms, &input);
    let actual = read::thalweg::from_nonna(&string);
    assert_eq!(actual, input);
    for (a, b) in actual.iter().zip(input.iter()) {
        assert_eq!(a.depth(), b.depth());
    }
}
