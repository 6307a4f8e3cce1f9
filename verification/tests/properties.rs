use thalweg::bathymetry::Bathymetry;
use thalweg::generator::ThalwegGenerator;
use thalweg::read::ReadError;

const SECOND: i64 = 277;
const KM: i64 = 1000000;

// five soundings in a row along the equator, ten thousand microdegrees apart:
// adjacent soundings are about 1113 metres from one another
fn equator_row() -> Vec<Bathymetry> {
    vec![
        Bathymetry::new(0, 0, 5 * KM),
        Bathymetry::new(0, 10000, 5 * KM),
        Bathymetry::new(0, 20000, 5 * KM),
        Bathymetry::new(0, 30000, 5 * KM),
        Bathymetry::new(0, 40000, 5 * KM),
    ]
}

#[test]
fn weighted_search_prefers_the_deep_row() {
    let shallow = 5 * KM;
    let deep = 150 * KM;
    let coords: [i64; 3] = [-SECOND, 0, SECOND];
    let mut data = Vec::new();
    for row in 0..3 {
        for col in 0..3 {
            let depth = if row == 1 { deep } else { shallow };
            data.push(Bathymetry::new(coords[row], coords[col], depth));
        }
    }
    let source = data[0].point();
    let sink = data[8].point();
    // a 35 m resolution allows the 31 m orthogonal hops but not diagonals
    let generator = ThalwegGenerator::new(data, 35, true);
    let path = generator.thalweg(source, sink).expect("a path exists");
    assert!(path.len() > 2);
    for point in &path[1..path.len() - 1] {
        assert!(point.depth() >= 100 * KM);
    }
}

#[test]
fn populate_is_idempotent_at_fixed_spacing() {
    let data = equator_row();
    let generator = ThalwegGenerator::from_points(data.clone(), 1114);
    let once = generator.populate(&data);
    assert_eq!(once, data);
    let twice = generator.populate(&once);
    assert_eq!(twice, once);
}

#[test]
fn populate_fills_a_sparse_path_from_the_index() {
    let data = equator_row();
    let generator = ThalwegGenerator::from_points(data.clone(), 1114);
    let sparse = vec![data[0].clone(), data[4].clone()];
    let full = generator.populate(&sparse);
    assert_eq!(full, data);
}

#[test]
fn populate_invents_no_points_outside_the_index() {
    let data = equator_row();
    let generator = ThalwegGenerator::from_points(data.clone(), 1114);
    let sparse = vec![data[0].clone(), data[3].clone(), data[4].clone()];
    let full = generator.populate(&sparse);
    for point in full {
        assert!(data.iter().any(|elem| *elem == point));
    }
}

#[test]
fn add_midpoints_twice_quarters_a_wide_pair() {
    let data = equator_row();
    let generator = ThalwegGenerator::from_points(data.clone(), 1114);
    let input = vec![data[0].clone(), data[4].clone()];
    let path = generator.add_midpoints(&generator.add_midpoints(&input));
    assert_eq!(path, data);
}

#[test]
fn add_midpoints_twice_keeps_a_subdivided_path() {
    let data = equator_row();
    let generator = ThalwegGenerator::from_points(data.clone(), 1114);
    let path = generator.add_midpoints(&generator.add_midpoints(&data));
    assert_eq!(path, data);
}

#[test]
fn refinement_keeps_degenerate_paths() {
    let data = equator_row();
    let generator = ThalwegGenerator::from_points(data.clone(), 1114);
    let empty: Vec<Bathymetry> = vec![];
    let single = vec![data[2].clone()];
    assert_eq!(generator.sink(&empty), empty);
    assert_eq!(generator.sink(&single), single);
    assert_eq!(generator.shrink(&empty), empty);
    assert_eq!(generator.shrink(&single), single);
    assert_eq!(generator.with_midpoints(&empty), empty);
    assert_eq!(generator.with_midpoints(&single), single);
    assert_eq!(generator.populate(&empty), empty);
    assert_eq!(generator.populate(&single), single);
    assert_eq!(generator.simplify(&empty), empty);
    assert_eq!(generator.simplify(&single), single);
}

#[test]
fn simplify_drops_collinear_interior_points() {
    let data = equator_row();
    let generator = ThalwegGenerator::from_points(data.clone(), 1114);
    let simplified = generator.simplify(&data);
    assert_eq!(simplified.len(), 2);
    assert_eq!(simplified[0], data[0]);
    assert_eq!(simplified[1], data[4]);
}

#[test]
fn from_path_snaps_to_the_index() {
    let data = equator_row();
    let generator = ThalwegGenerator::from_points(data.clone(), 1114);
    let raw = vec![(2, 1), (9998, 0)];
    let snapped = generator.from_path(&raw);
    assert_eq!(snapped, vec![data[0].clone(), data[1].clone()]);
}

#[test]
fn improve_keeps_the_endpoints() {
    let data = equator_row();
    let generator = ThalwegGenerator::from_points(data.clone(), 1114);
    let input = vec![data[0].clone(), data[4].clone()];
    let improved = generator.improve(&input, false);
    assert!(improved.len() >= 2);
    assert_eq!(improved.first().unwrap().location(), data[0].location());
    assert_eq!(improved.last().unwrap().location(), data[4].location());
}

#[test]
fn sink_never_shrinks_depths() {
    let data = equator_row();
    let generator = ThalwegGenerator::from_points(data.clone(), 1114);
    let input = vec![data[0].clone(), data[2].clone(), data[4].clone()];
    let sunk = generator.sink(&input);
    assert_eq!(sunk.len(), input.len());
    for (a, b) in input.iter().zip(sunk.iter()) {
        assert!(b.depth() >= a.depth());
    }
}

#[test]
fn point_csv_without_latitude_is_an_error() {
    let actual = thalweg::read::point::from_csv("longitude\n-123.4");
    assert_eq!(actual, Err(ReadError::MissingLatitude));
}

#[test]
fn point_csv_without_longitude_is_an_error() {
    let actual = thalweg::read::point::from_csv("latitude\n49.5");
    assert_eq!(actual, Err(ReadError::MissingLongitude));
}

#[test]
fn thalweg_csv_without_depth_is_an_error() {
    let actual = thalweg::read::thalweg::from_csv("latitude,longitude\n49.5,-123.4");
    assert_eq!(actual, Err(ReadError::MissingDepth));
}

#[test]
fn geojson_that_is_not_json_is_an_error() {
    let actual = thalweg::read::point::from_geojson("not a document");
    assert_eq!(actual, Err(ReadError::BadDocument));
}

#[test]
fn geojson_line_without_coordinates_is_an_error() {
    let source = r#"{"type":"LineString","coordinates":null}"#;
    let actual = thalweg::read::point::from_geojson_line(source);
    assert_eq!(actual, Err(ReadError::MissingCoordinate));
}

#[test]
fn improve_status_reports_the_fixed_point() {
    let data = equator_row();
    let generator = ThalwegGenerator::from_points(data.clone(), 1114);
    let input = vec![data[0].clone(), data[4].clone()];
    let (improved, converged) = generator.improve_status(&input, false);
    assert!(converged);
    assert_eq!(generator.sink(&improved), improved);
}
