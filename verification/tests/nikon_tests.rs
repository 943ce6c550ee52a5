use tsconvert::format::NikonCoordReader;
use tsconvert::format::NikonCoordWriter;
use tsconvert::geometry::Point;

fn lines(v: &[&str]) -> Vec<String> {
    v.iter().map(|s| s.to_string()).collect()
}

fn point(name: &str, north: i64, east: i64, elev: i64, code: &str) -> Point {
    Point { east, north, elev, name: name.to_string(), code: code.to_string() }
}

#[test]
fn records_parse_in_field_order() {
    let mut reader = NikonCoordReader::new(lines(&["P1,1.5,2.5,3,ROAD"]));
    let points = reader.parse();
    assert_eq!(points.len(), 1);
    assert_eq!(points[0].name, "P1");
    assert_eq!(points[0].north, 1_500_000);
    assert_eq!(points[0].east, 2_500_000);
    assert_eq!(points[0].elev, 3_000_000);
    assert_eq!(points[0].code, "ROAD");
}

#[test]
fn missing_trailing_fields_default() {
    let mut reader = NikonCoordReader::new(lines(&["P9", "P8,4"]));
    let points = reader.parse();
    assert_eq!(points.len(), 2);
    assert_eq!(points[0].name, "P9");
    assert_eq!(points[0].north, 0);
    assert_eq!(points[0].east, 0);
    assert_eq!(points[0].elev, 0);
    assert_eq!(points[0].code, "");
    assert_eq!(points[1].north, 4_000_000);
    assert_eq!(points[1].east, 0);
}

#[test]
fn unparsable_numeric_fields_default_to_zero() {
    let mut reader = NikonCoordReader::new(lines(&["P1,x,1.2.3, 4,C"]));
    let points = reader.parse();
    assert_eq!(points[0].north, 0);
    assert_eq!(points[0].east, 0);
    // the field holds " 4": numeric fields are taken verbatim
    assert_eq!(points[0].elev, 0);
}

#[test]
fn blank_lines_are_skipped() {
    let mut reader = NikonCoordReader::new(lines(&["", "   ", "P1,1,2,3,C"]));
    assert_eq!(reader.parse().len(), 1);
}

#[test]
fn writer_emits_one_line_per_point() {
    let writer = NikonCoordWriter::new(
        vec![point("P1", 1_500_000, 2_500_000, 3_000_000, "ROAD")],
        Vec::new(),
    );
    let out = writer.render();
    assert_eq!(out, vec!["P1,1.5,2.5,3,ROAD".to_string()]);
}

#[test]
fn writer_skips_points_outside_the_filter() {
    let writer = NikonCoordWriter::new(
        vec![
            point("P1", 1_000_000, 0, 0, "ROAD"),
            point("P2", 2_000_000, 0, 0, "FENCE"),
            point("P3", 3_000_000, 0, 0, "ROAD"),
        ],
        vec!["ROAD".to_string()],
    );
    let out = writer.render();
    assert_eq!(out.len(), 2);
    assert!(out[0].starts_with("P1,"));
    assert!(out[1].starts_with("P3,"));
}

#[test]
fn delimited_round_trip_preserves_points() {
    let points = vec![
        point("P1", 1_500_000, 2_500_000, 3_000_000, "ROAD"),
        point("", -250_000, 0, 999_999, ""),
        point("A7", 7_000_000, -1, 1, "FENCE"),
    ];
    let writer = NikonCoordWriter::new(points.clone(), Vec::new());
    let written = writer.render();
    let mut reader = NikonCoordReader::new(written);
    let back = reader.parse();
    assert_eq!(back.len(), points.len());
    for (a, b) in back.iter().zip(points.iter()) {
        assert_eq!(a.name, b.name);
        assert_eq!(a.north, b.north);
        assert_eq!(a.east, b.east);
        assert_eq!(a.elev, b.elev);
        assert_eq!(a.code, b.code);
    }
}
