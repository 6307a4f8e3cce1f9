use thalweg::bathymetry::Bathymetry;
use thalweg::format::{convert, extension, OutputFormat};

#[test]
fn to_dms_no_value() {
    let expected = "\"Lat (DMS)\" \"Long (DMS)\" \"Depth (m)\"\n";
    assert_eq!(convert(OutputFormat::Dms, &vec![]), expected);
}

#[test]
fn to_dms_one_value() {
    let input = Bathymetry::new(0, 0, 0);
    let expected = "\"Lat (DMS)\" \"Long (DMS)\" \"Depth (m)\"\n00-00-0.000N 00-00-0.000E 0.000\n";
    assert_eq!(convert(OutputFormat::Dms, &vec![input]), expected);
}

#[test]
fn to_dms_many_values() {
    let input = Bathymetry::new(0, 0, 0);
    let expected = "\"Lat (DMS)\" \"Long (DMS)\" \"Depth (m)\"\n00-00-0.000N 00-00-0.000E 0.000\n00-00-0.000N 00-00-0.000E 0.000\n";
    assert_eq!(convert(OutputFormat::Dms, &vec![input.clone(), input]), expected);
}

#[test]
fn to_geojson_no_value() {
    let expected = "{\"type\":\"FeatureCollection\",\"features\":[{\"type\":\"Feature\",\"properties\":{},\"geometry\":{\"type\":\"LineString\",\"coordinates\":[]}}]}";
    assert_eq!(convert(OutputFormat::GeoJson, &vec![]), expected);
}

#[test]
fn to_geojson_one_value() {
    let a = Bathymetry::new(48700000, -123700000, 100400);
    let expected = "{\"type\":\"FeatureCollection\",\"features\":[{\"type\":\"Feature\",\"properties\":{},\"geometry\":{\"type\":\"LineString\",\"coordinates\":[[-123.7,48.7,-100.4]]}}]}";
    assert_eq!(convert(OutputFormat::GeoJson, &vec![a]), expected);
}

#[test]
fn to_geojson_many_values() {
    let a = Bathymetry::new(48700000, -123700000, 100400);
    let b = Bathymetry::new(49700000, -123700000, 100400);
    let expected = "{\"type\":\"FeatureCollection\",\"features\":[{\"type\":\"Feature\",\"properties\":{},\"geometry\":{\"type\":\"LineString\",\"coordinates\":[[-123.7,48.7,-100.4],[-123.7,49.7,-100.4]]}}]}";
    assert_eq!(convert(OutputFormat::GeoJson, &vec![a, b]), expected);
}

#[test]
fn to_csv_one_value() {
    let a = Bathymetry::new(48700000, -123700000, 100400);
    let expected = "longitude,latitude,depth\n-123.7,48.7,100.4\n";
    assert_eq!(convert(OutputFormat::Csv, &vec![a]), expected);
}

#[test]
fn to_csv_many_values() {
    let a = Bathymetry::new(48700000, -123700000, 100400);
    let b = Bathymetry::new(49700000, -123700000, 100400);
    let expected = "longitude,latitude,depth\n-123.7,48.7,100.4\n-123.7,49.7,100.4\n";
    assert_eq!(convert(OutputFormat::Csv, &vec![a, b]), expected);
}

#[test]
fn extension_names_each_format() {
    assert_eq!(extension(OutputFormat::Csv), "csv");
    assert_eq!(extension(OutputFormat::Dms), "txt");
    assert_eq!(extension(OutputFormat::GeoJson), "geojson");
}
