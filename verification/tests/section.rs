use thalweg::bathymetry::Bathymetry;
use thalweg::section::{section, to_csv, Section};

#[test]
fn section_from_single_point() {
    let input = vec![Bathymetry::new(0, 0, 0)];
    assert_eq!(section(input), vec![Section::new(0, 0)]);
}

#[test]
fn section_from_many_points() {
    let input = vec![
        Bathymetry::new(49240000, -122590000, 157692),
        Bathymetry::new(49240000, -122530000, 96996),
        Bathymetry::new(49240000, -122460000, 107072),
    ];
    let expected = vec![
        Section::new(0, 157692),
        Section::new(4355, 96996),
        Section::new(9436, 107072),
    ];
    assert_eq!(section(input), expected);
}

#[test]
fn section_to_csv_no_points() {
    let input = vec![];
    let expected = "distance,depth\n";
    assert_eq!(to_csv(input), expected);
}

#[test]
fn section_to_csv_one_point() {
    let input = vec![Section::new(0, 157692)];
    let expected = "distance,depth\n0,157.692\n";
    assert_eq!(to_csv(input), expected);
}

#[test]
fn section_to_csv_many_points() {
    let input = vec![Section::new(0, 157692), Section::new(4355, 96996)];
    let expected = "distance,depth\n0,157.692\n4.355,96.996\n";
    assert_eq!(to_csv(input), expected);
}
