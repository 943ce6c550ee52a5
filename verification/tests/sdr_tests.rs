use tsconvert::format::SdrReader;

fn lines(v: &[&str]) -> Vec<String> {
    v.iter().map(|s| s.to_string()).collect()
}

#[test]
fn sdr33_records_parse_with_wide_columns() {
    let input = lines(&[
        "00NMSDR33 V04-04.2",
        format!("08KI{:<16}{:<16}{:<16}{:<16}{}", "P1", "100.5", "200.25", "7", "ROAD").as_str(),
    ]);
    let mut reader = SdrReader::new(input).unwrap();
    let points = reader.parse();
    assert_eq!(points.len(), 1);
    assert_eq!(points[0].name, "P1");
    assert_eq!(points[0].north, 100_500_000);
    assert_eq!(points[0].east, 200_250_000);
    assert_eq!(points[0].elev, 7_000_000);
    assert_eq!(points[0].code, "ROAD");
}

#[test]
fn sdr2x_records_parse_with_narrow_columns() {
    let input = lines(&[
        "00NMSDR20 V03-05",
        format!("08KI{:<4}{:<10}{:<10}{:<10}{}", "12", "1.5", "2.5", "3.5", "TREE").as_str(),
    ]);
    let mut reader = SdrReader::new(input).unwrap();
    let points = reader.parse();
    assert_eq!(points.len(), 1);
    assert_eq!(points[0].name, "12");
    assert_eq!(points[0].north, 1_500_000);
    assert_eq!(points[0].east, 2_500_000);
    assert_eq!(points[0].elev, 3_500_000);
    assert_eq!(points[0].code, "TREE");
}

#[test]
fn header_selects_the_matching_mode() {
    // the same record line reads differently under the two layouts; the
    // header decides which applies
    let record = format!(
        "08KI{:<16}{:<16}{:<16}{:<16}{}",
        "A", "1", "2", "3", "C"
    );
    let with_33 = lines(&["junk", "00NMSDR33", record.as_str()]);
    let mut r33 = SdrReader::new(with_33).unwrap();
    let p33 = r33.parse();
    assert_eq!(p33[0].name, "A");
    assert_eq!(p33[0].north, 1_000_000);

    let with_2x = lines(&["junk", "00NMSDR20", record.as_str()]);
    let mut r2x = SdrReader::new(with_2x).unwrap();
    let p2x = r2x.parse();
    // under the narrow layout the name column reads "A   " -> "A", but
    // the numeric columns land elsewhere and read blank -> 0
    assert_eq!(p2x[0].name, "A");
    assert_eq!(p2x[0].north, 0);
}

#[test]
fn missing_header_is_a_hard_error() {
    let input = lines(&["some line", "08KI0001"]);
    assert!(SdrReader::new(input).is_err());
}

#[test]
fn header_after_other_lines_is_found() {
    let input = lines(&["a", "b", "00NMSDR33", "ignored", "also ignored"]);
    let mut reader = SdrReader::new(input).unwrap();
    assert_eq!(reader.parse().len(), 0);
}

#[test]
fn malformed_numeric_columns_yield_zero() {
    let input = lines(&[
        "00NMSDR20",
        "08KIABCD",
        format!("08KI{:<4}{:<10}{:<10}{:<10}{}", "N", "oops", "2.x", "", "").as_str(),
    ]);
    let mut reader = SdrReader::new(input).unwrap();
    let points = reader.parse();
    assert_eq!(points.len(), 2);
    assert_eq!(points[0].name, "ABCD");
    assert_eq!(points[0].north, 0);
    assert_eq!(points[0].east, 0);
    assert_eq!(points[0].elev, 0);
    assert_eq!(points[0].code, "");
    assert_eq!(points[1].name, "N");
    assert_eq!(points[1].north, 0);
    assert_eq!(points[1].east, 0);
    assert_eq!(points[1].elev, 0);
}

#[test]
fn non_record_lines_are_ignored() {
    let input = lines(&[
        "00NMSDR33",
        "13NMnote",
        "",
        format!("08KI{:<16}{:<16}{:<16}{:<16}{}", "P", "1", "1", "1", "").as_str(),
    ]);
    let mut reader = SdrReader::new(input).unwrap();
    assert_eq!(reader.parse().len(), 1);
}
