use tsconvert::format::DxfReader;
use tsconvert::format::DxfWriter;
use tsconvert::format::dxf::DxfElement;
use tsconvert::format::dxf::DxfEntity;
use tsconvert::geometry::Point;

fn point(name: &str, north: i64, east: i64, elev: i64, code: &str) -> Point {
    Point { east, north, elev, name: name.to_string(), code: code.to_string() }
}

fn circle(layer: &str, x: i64, y: i64, z: i64) -> DxfEntity {
    DxfEntity::Circle { layer: layer.to_string(), x, y, z }
}

fn text(layer: &str, x: i64, y: i64, value: &str) -> DxfEntity {
    DxfEntity::Text { layer: layer.to_string(), x, y, value: value.to_string() }
}

#[test]
fn a_label_within_snap_tolerance_names_the_point() {
    // circle at (10.000, 20.000), label "P1" at (10.0004, 19.9996)
    let mut reader = DxfReader::new(vec![
        text("TEXT", 10_000_400, 19_999_600, "P1"),
        circle("ROAD", 10_000_000, 20_000_000, 0),
    ]);
    let points = reader.parse();
    assert_eq!(points.len(), 1);
    assert_eq!(points[0].name, "P1");
    assert_eq!(points[0].east, 10_000_000);
    assert_eq!(points[0].north, 20_000_000);
    assert_eq!(points[0].code, "ROAD");
}

#[test]
fn unlabeled_points_get_distinct_auto_names() {
    let mut reader = DxfReader::new(vec![
        circle("0", 1_000_000, 1_000_000, 0),
        circle("0", 2_000_000, 2_000_000, 0),
    ]);
    let points = reader.parse();
    assert_eq!(points.len(), 2);
    assert_eq!(points[0].name, "A1");
    assert_eq!(points[1].name, "A2");
}

#[test]
fn a_line_contributes_both_endpoints() {
    let mut reader = DxfReader::new(vec![DxfEntity::Line {
        layer: " fence ".to_string(),
        x1: 1_000_000,
        y1: 2_000_000,
        z1: 0,
        x2: 3_000_000,
        y2: 4_000_000,
        z2: 0,
    }]);
    let points = reader.parse();
    assert_eq!(points.len(), 2);
    assert_eq!(points[0].east, 1_000_000);
    assert_eq!(points[1].east, 3_000_000);
    // layer names are trimmed and upper-cased into codes
    assert_eq!(points[0].code, "FENCE");
    assert_eq!(points[1].code, "FENCE");
    assert_eq!(points[0].name, "A1");
    assert_eq!(points[1].name, "A2");
}

#[test]
fn other_entities_are_ignored() {
    let mut reader = DxfReader::new(vec![DxfEntity::Other, circle("0", 0, 0, 0)]);
    assert_eq!(reader.parse().len(), 1);
}

fn count_circles(d: &tsconvert::format::dxf::Drawing) -> usize {
    d.entities.iter().filter(|e| matches!(e, DxfElement::Circle { .. })).count()
}

fn count_texts(d: &tsconvert::format::dxf::Drawing) -> usize {
    d.entities.iter().filter(|e| matches!(e, DxfElement::Text { .. })).count()
}

fn count_lines(d: &tsconvert::format::dxf::Drawing) -> usize {
    d.entities.iter().filter(|e| matches!(e, DxfElement::Line { .. })).count()
}

#[test]
fn filtering_spares_markers_and_labels_but_not_connectors() {
    // codes {"", "FENCE", "ROAD"} with filter {"ROAD"}
    let points = vec![
        point("P1", 0, 0, 0, ""),
        point("P2", 1_000_000, 0, 0, "FENCE"),
        point("P3", 2_000_000, 0, 0, "FENCE"),
        point("P4", 3_000_000, 0, 0, "ROAD"),
        point("", 4_000_000, 0, 0, "ROAD"),
    ];
    let writer = DxfWriter::new(points, vec!["ROAD".to_string()]);
    let d = writer.render();
    // every point gets a marker, every named point a label
    assert_eq!(count_circles(d), 5);
    assert_eq!(count_texts(d), 4);
    // only the two ROAD points are chained
    assert_eq!(count_lines(d), 1);
    match d.entities.iter().find(|e| matches!(e, DxfElement::Line { .. })).unwrap() {
        DxfElement::Line { layer, .. } => assert_eq!(layer, "ROAD"),
        _ => unreachable!(),
    }
    // the fixed layers fail the filter; only ROAD is registered
    assert_eq!(d.layers.len(), 1);
    assert_eq!(d.layers[0].name, "ROAD");
    assert_eq!(d.layers[0].color, 3);
}

#[test]
fn unfiltered_codes_chain_and_get_colored_layers() {
    let points = vec![
        point("P1", 0, 0, 0, "ROAD"),
        point("P2", 1_000_000, 0, 0, "FENCE"),
        point("P3", 2_000_000, 0, 0, "ROAD"),
    ];
    let writer = DxfWriter::new(points, Vec::new());
    let d = writer.render();
    assert_eq!(d.layers.len(), 4);
    assert_eq!(d.layers[0].name, "POINTS");
    assert_eq!(d.layers[0].color, 1);
    assert_eq!(d.layers[1].name, "TEXT");
    assert_eq!(d.layers[1].color, 2);
    assert_eq!(d.layers[2].name, "ROAD");
    assert_eq!(d.layers[2].color, 3);
    assert_eq!(d.layers[3].name, "FENCE");
    assert_eq!(d.layers[3].color, 4);
    assert_eq!(count_lines(d), 1);
}

#[test]
fn empty_code_points_chain_on_the_default_layer() {
    let points = vec![point("P1", 0, 0, 0, ""), point("P2", 1_000_000, 0, 0, "")];
    let writer = DxfWriter::new(points, Vec::new());
    let d = writer.render();
    assert_eq!(count_lines(d), 1);
    match d.entities.iter().find(|e| matches!(e, DxfElement::Line { .. })).unwrap() {
        DxfElement::Line { layer, .. } => assert_eq!(layer, "0"),
        _ => unreachable!(),
    }
    // the empty code registers no new layer
    assert_eq!(d.layers.len(), 2);
}

#[test]
fn viewport_covers_the_bounding_box() {
    // east spans 0..100 units, north spans 0..50 units
    let points = vec![
        point("P1", 0, 0, 0, ""),
        point("P2", 50_000_000, 100_000_000, 0, ""),
        point("P3", 20_000_000, 30_000_000, 0, ""),
    ];
    let writer = DxfWriter::new(points, Vec::new());
    let d = writer.render();
    assert_eq!(d.viewport.center_east, 50_000_000);
    assert_eq!(d.viewport.center_north, 25_000_000);
    assert_eq!(d.viewport.height, 50_000_000);
    assert_eq!(d.viewport.width, 100_000_000);
}

#[test]
fn an_empty_drawing_still_has_fixed_layers_and_a_viewport() {
    let writer = DxfWriter::new(Vec::new(), Vec::new());
    let d = writer.render();
    assert_eq!(d.layers.len(), 2);
    assert_eq!(d.layers[0].name, "POINTS");
    assert_eq!(d.layers[1].name, "TEXT");
    assert_eq!(d.entities.len(), 0);
    assert_eq!(d.viewport.center_east, 0);
    assert_eq!(d.viewport.center_north, 0);
    assert_eq!(d.viewport.width, 0);
    assert_eq!(d.viewport.height, 0);
}

#[test]
fn markers_and_labels_use_the_fixed_sizes() {
    let writer = DxfWriter::new(vec![point("P1", 2_000_000, 1_000_000, 500_000, "")], Vec::new());
    let d = writer.render();
    match &d.entities[0] {
        DxfElement::Circle { layer, x, y, z, radius } => {
            assert_eq!(layer, "POINTS");
            assert_eq!(*x, 1_000_000);
            assert_eq!(*y, 2_000_000);
            assert_eq!(*z, 500_000);
            assert_eq!(*radius, 100_000);
        },
        _ => unreachable!(),
    }
    match &d.entities[1] {
        DxfElement::Text { layer, height, value, .. } => {
            assert_eq!(layer, "TEXT");
            assert_eq!(*height, 500_000);
            assert_eq!(value, "P1");
        },
        _ => unreachable!(),
    }
}

#[test]
fn a_later_label_at_the_same_position_wins() {
    let mut reader = DxfReader::new(vec![
        text("TEXT", 1_000_000, 1_000_000, "OLD"),
        text("TEXT", 1_000_200, 999_800, "NEW"),
        circle("0", 1_000_000, 1_000_000, 0),
    ]);
    let points = reader.parse();
    assert_eq!(points[0].name, "NEW");
}

#[test]
fn label_values_are_trimmed_into_names() {
    let mut reader = DxfReader::new(vec![
        text("TEXT", 0, 0, "  P7  "),
        circle("0", 0, 0, 0),
    ]);
    let points = reader.parse();
    assert_eq!(points[0].name, "P7");
}

#[test]
fn snapping_rounds_negative_coordinates_away_from_zero() {
    // -0.0005 units snaps to the -0.001 cell, away from zero, so a
    // label there names a circle at -0.001
    let mut reader = DxfReader::new(vec![
        text("TEXT", -500, -500, "N1"),
        circle("0", -1_000, -1_000, 0),
    ]);
    let points = reader.parse();
    assert_eq!(points[0].name, "N1");
}

#[test]
fn each_new_code_takes_the_next_palette_color() {
    let points = vec![
        point("P1", 0, 0, 0, "A"),
        point("P2", 0, 0, 0, "B"),
        point("P3", 0, 0, 0, "C"),
        point("P4", 0, 0, 0, "A"),
    ];
    let writer = DxfWriter::new(points, Vec::new());
    let d = writer.render();
    // POINTS, TEXT, then one layer per new code in first-seen order
    assert_eq!(d.layers.len(), 5);
    assert_eq!(d.layers[2].name, "A");
    assert_eq!(d.layers[2].color, 3);
    assert_eq!(d.layers[3].name, "B");
    assert_eq!(d.layers[3].color, 4);
    assert_eq!(d.layers[4].name, "C");
    assert_eq!(d.layers[4].color, 5);
}

#[test]
fn viewport_center_is_the_bounding_box_midpoint() {
    let points = vec![
        point("P1", 5_000_000, 10_000_000, 0, ""),
        point("P2", 15_000_000, 30_000_000, 0, ""),
    ];
    let writer = DxfWriter::new(points, Vec::new());
    let d = writer.render();
    assert_eq!(d.viewport.center_east, 20_000_000);
    assert_eq!(d.viewport.center_north, 10_000_000);
    assert_eq!(d.viewport.width, 20_000_000);
    assert_eq!(d.viewport.height, 10_000_000);
}

#[test]
fn a_flat_drawing_has_a_zero_height_viewport() {
    let points = vec![
        point("P1", 7_000_000, 1_000_000, 0, ""),
        point("P2", 7_000_000, 9_000_000, 0, ""),
    ];
    let writer = DxfWriter::new(points, Vec::new());
    let d = writer.render();
    assert_eq!(d.viewport.height, 0);
    assert_eq!(d.viewport.width, 8_000_000);
    assert_eq!(d.viewport.center_north, 7_000_000);
}
