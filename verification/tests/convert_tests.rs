use tsconvert::convert::Conversion;
use tsconvert::convert::ConvertOptions;
use tsconvert::convert::InputDoc;
use tsconvert::convert::OutputDoc;
use tsconvert::convert::RunResult;
use tsconvert::convert::default_output_path;
use tsconvert::convert::run;
use tsconvert::format::InFormat;
use tsconvert::format::OutFormat;

fn lines(v: &[&str]) -> Vec<String> {
    v.iter().map(|s| s.to_string()).collect()
}

fn options(from: InFormat, to: OutFormat) -> ConvertOptions {
    ConvertOptions {
        from,
        to,
        layers: Vec::new(),
        output: None,
        input: "survey.sdr".to_string(),
    }
}

#[test]
fn default_output_replaces_the_extension() {
    let ext = "txt".to_string();
    assert_eq!(default_output_path("survey.sdr", &ext), "survey.txt");
    assert_eq!(default_output_path("a/b/c.one.two", &ext), "a/b/c.one.txt");
    assert_eq!(default_output_path("noext", &ext), "noext.txt");
    assert_eq!(default_output_path("dir.d/noext", &ext), "dir.d/noext.txt");
    assert_eq!(default_output_path(".hidden", &ext), ".hidden.txt");
}

#[test]
fn sdr_to_delimited_conversion() {
    let input = InputDoc::Lines(lines(&[
        "00NMSDR33",
        format!("08KI{:<16}{:<16}{:<16}{:<16}{}", "P1", "1.5", "2.5", "3", "ROAD").as_str(),
    ]));
    let r = run(options(InFormat::Sdr, OutFormat::NikonCoord), input).unwrap();
    match r {
        RunResult::Converted(Conversion { output_path, doc }) => {
            assert_eq!(output_path, "survey.txt");
            match doc {
                OutputDoc::Lines(out) => {
                    assert_eq!(out, vec!["P1,1.5,2.5,3,ROAD".to_string()]);
                },
                _ => panic!("expected a delimited document"),
            }
        },
        _ => panic!("expected a conversion"),
    }
}

#[test]
fn an_explicit_output_path_is_kept() {
    let mut opts = options(InFormat::NikonCoord, OutFormat::Dxf);
    opts.output = Some("out.dxf".to_string());
    let input = InputDoc::Lines(lines(&["P1,1,2,3,ROAD"]));
    match run(opts, input).unwrap() {
        RunResult::Converted(c) => assert_eq!(c.output_path, "out.dxf"),
        _ => panic!("expected a conversion"),
    }
}

#[test]
fn layer_filters_are_uppercased_once() {
    let mut opts = options(InFormat::NikonCoord, OutFormat::Dxf);
    opts.layers = vec!["road".to_string()];
    // the delimited reader keeps codes verbatim; "ROAD" passes the
    // uppercased filter, "fence" does not
    let input = InputDoc::Lines(lines(&["P1,1,2,3,ROAD", "P2,4,5,6,ROAD", "P3,7,8,9,fence"]));
    match run(opts, input).unwrap() {
        RunResult::Converted(c) => match c.doc {
            OutputDoc::Drawing(d) => {
                assert_eq!(d.layers.len(), 1);
                assert_eq!(d.layers[0].name, "ROAD");
            },
            _ => panic!("expected a drawing"),
        },
        _ => panic!("expected a conversion"),
    }
}

#[test]
fn same_format_requests_are_a_no_op() {
    let input = InputDoc::Lines(lines(&["P1,1,2,3,ROAD"]));
    match run(options(InFormat::NikonCoord, OutFormat::NikonCoord), input).unwrap() {
        RunResult::SameFormat => {},
        _ => panic!("expected the informational no-op"),
    }
    let input = InputDoc::Entities(Vec::new());
    match run(options(InFormat::Dxf, OutFormat::Dxf), input).unwrap() {
        RunResult::SameFormat => {},
        _ => panic!("expected the informational no-op"),
    }
}

#[test]
fn a_headerless_fixed_width_document_fails() {
    let input = InputDoc::Lines(lines(&["08KI0001", "data"]));
    let r = run(options(InFormat::Sdr, OutFormat::NikonCoord), input);
    let e = match r {
        Err(e) => e,
        Ok(_) => panic!("expected a format-detection error"),
    };
    assert!(!e.message().is_empty());
}

#[test]
fn drawing_input_converts_to_delimited() {
    let input = InputDoc::Entities(vec![
        tsconvert::format::dxf::DxfEntity::Circle {
            layer: "road".to_string(),
            x: 2_500_000,
            y: 1_500_000,
            z: 0,
        },
    ]);
    match run(options(InFormat::Dxf, OutFormat::NikonCoord), input).unwrap() {
        RunResult::Converted(c) => match c.doc {
            OutputDoc::Lines(out) => {
                assert_eq!(out, vec!["A1,1.5,2.5,0,ROAD".to_string()]);
            },
            _ => panic!("expected a delimited document"),
        },
        _ => panic!("expected a conversion"),
    }
}
