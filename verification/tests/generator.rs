use thalweg::bathymetry::Bathymetry;
use thalweg::generator::ThalwegGenerator;

const SECOND: i64 = 277;
const KM: i64 = 1000000;

fn grid_3x3() -> Vec<Bathymetry> {
    vec![
        Bathymetry::new(-SECOND, -SECOND, 140 * KM),
        Bathymetry::new(-SECOND, 0, 150 * KM),
        Bathymetry::new(-SECOND, SECOND, 100 * KM),
        Bathymetry::new(0, -SECOND, 100 * KM),
        Bathymetry::new(0, 0, 9 * KM),
        Bathymetry::new(0, SECOND, 140 * KM),
        Bathymetry::new(SECOND, -SECOND, 5 * KM),
        Bathymetry::new(SECOND, 0, 6 * KM),
        Bathymetry::new(SECOND, SECOND, 100 * KM),
    ]
}

fn grid_5x5() -> Vec<Bathymetry> {
    // two arc seconds quantize to 555 microdegrees, one to 277
    let coords: [i64; 5] = [-555, -SECOND, 0, SECOND, 555];
    let depths: [i64; 25] = [
        10, 200, 100, 100, 100, 140, 140, 150, 100, 100, 100, 100, 9, 140, 100, 5, 5, 6, 100, 5,
        5, 5, 6, 100, 5,
    ];
    let mut out = Vec::new();
    for row in 0..5 {
        for col in 0..5 {
            out.push(Bathymetry::new(coords[row], coords[col], depths[row * 5 + col] * KM));
        }
    }
    out
}

#[test]
fn thalweg_provides_nodes_containing_source_and_sink() {
    let data = vec![Bathymetry::new(0, 0, 0), Bathymetry::new(10, 10, 0)];
    let generator = ThalwegGenerator::from_points(data.clone(), 400);
    let path = generator.thalweg(data.first().unwrap().point(), data.last().unwrap().point());
    assert_eq!(path, Some(data));
}

#[test]
fn thalweg_ignores_nodes_not_between_source_and_sink() {
    let data = vec![
        Bathymetry::new(0, 0, 0),
        Bathymetry::new(10, 10, 0),
        Bathymetry::new(-1000000, -1000000, 0),
    ];
    let expected = vec![Bathymetry::new(0, 0, 0), Bathymetry::new(10, 10, 0)];
    let generator = ThalwegGenerator::from_points(data, 400);
    let path = generator.thalweg(
        expected.first().unwrap().point(),
        expected.last().unwrap().point(),
    );
    assert_eq!(path, Some(expected));
}

#[test]
fn thalweg_provides_a_path_ignoring_depth() {
    let data = grid_3x3();
    let expected = vec![data[0].clone(), data[4].clone(), data[8].clone()];
    let generator = ThalwegGenerator::from_points(data, 50);
    let path = generator.thalweg(
        expected.first().unwrap().point(),
        expected.last().unwrap().point(),
    );
    assert_eq!(path, Some(expected));
}

#[test]
fn thalweg_returns_none_when_no_chain_exists() {
    let data = vec![Bathymetry::new(0, 0, 0), Bathymetry::new(1000000, 1000000, 0)];
    let generator = ThalwegGenerator::from_points(data.clone(), 400);
    let path = generator.thalweg(data[0].point(), data[1].point());
    assert_eq!(path, None);
}

#[test]
fn sink_provides_a_path_with_the_same_number_of_points() {
    let data = grid_3x3();
    let input = vec![data[0].clone(), data[4].clone(), data[8].clone()];
    let generator = ThalwegGenerator::from_points(data, 50);
    let path = generator.sink(&input);
    assert_eq!(path.len(), input.len());
}

#[test]
fn sink_provides_a_deeper_path() {
    let data = grid_5x5();
    let input = vec![data[0].clone(), data[12].clone(), data[24].clone()];
    let expected = vec![data[0].clone(), data[7].clone(), data[24].clone()];
    let generator = ThalwegGenerator::from_points(data, 50);
    let path = generator.sink(&input);
    assert_eq!(path, expected);
}

#[test]
fn shrink_does_not_modify_values() {
    let input = vec![
        Bathymetry::new(-SECOND, -SECOND, 140 * KM),
        Bathymetry::new(0, 0, 9 * KM),
        Bathymetry::new(SECOND, SECOND, 100 * KM),
    ];
    let generator = ThalwegGenerator::from_points(vec![], 40);
    let new_path = generator.shrink(&input);
    for point in new_path {
        assert!(input.iter().any(|elem| *elem == point));
    }
}

#[test]
fn shrink_can_shrink_path() {
    let input = vec![
        Bathymetry::new(-SECOND, -SECOND, 140 * KM),
        Bathymetry::new(0, 0, 9 * KM),
        Bathymetry::new(SECOND, SECOND, 100 * KM),
    ];
    let generator = ThalwegGenerator::from_points(vec![], 100);
    let new_path = generator.shrink(&input);
    assert!(new_path.len() < input.len());
}

#[test]
fn with_midpoint_produces_new_values_between_existing_ones() {
    let data = grid_5x5();
    let input = vec![data[0].clone(), data[24].clone()];
    let expected = vec![data[0].clone(), data[12].clone(), data[24].clone()];
    let generator = ThalwegGenerator::from_points(data, 50);
    let path = generator.with_midpoints(&input);
    assert_eq!(path, expected);
}

#[test]
fn with_midpoint_applied_twice_subdivides_further() {
    let data = grid_5x5();
    let input = vec![data[0].clone(), data[24].clone()];
    let expected = vec![
        data[0].clone(),
        data[6].clone(),
        data[12].clone(),
        data[18].clone(),
        data[24].clone(),
    ];
    let generator = ThalwegGenerator::from_points(data, 50);
    let path = generator.with_midpoints(&generator.with_midpoints(&input));
    assert_eq!(path, expected);
}

#[test]
fn with_midpoint_does_not_invent_data() {
    let data = grid_5x5();
    let input = vec![
        data[0].clone(),
        data[6].clone(),
        data[12].clone(),
        data[18].clone(),
        data[24].clone(),
    ];
    let generator = ThalwegGenerator::from_points(data, 50);
    let path = generator.with_midpoints(&generator.with_midpoints(&input));
    assert_eq!(path, input);
}
