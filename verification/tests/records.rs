use fir_boundaries::boundary::{bool_to_num, numstr_to_bool, write_to_file, FIRBoundary, Mode};
use fir_boundaries::decimal::Decimal;
use fir_boundaries::errors::{render_lines, ErrorCollector, FIRParsingError};
use fir_boundaries::fill::Fill;
use fir_boundaries::point::Point;

fn dec(text: &str) -> Decimal {
    Decimal::parse(text).unwrap()
}

fn point(lat: &str, lon: &str) -> Point {
    Point::new(dec(lat), dec(lon)).unwrap()
}

fn lines(text: &str) -> Vec<String> {
    text.lines().map(String::from).collect()
}

fn parse_one(text: &str, mode: Mode) -> Result<Result<FIRBoundary, ErrorCollector>, FIRParsingError> {
    let mut count = 0;
    let mut linenr = 0;
    FIRBoundary::parse_fields(&lines(text), &mut count, mode, &mut linenr)
}

const SQUARE: &str = "ENOR|0|0|4|0|0|1|1|0.5|0.5\n0|0\n1|0\n1|1\n0|1\n";

#[test]
fn flags_are_zero_and_one() {
    assert_eq!(numstr_to_bool("0"), Ok(false));
    assert_eq!(numstr_to_bool("1"), Ok(true));
    assert_eq!(bool_to_num(true), 1);
    assert_eq!(bool_to_num(false), 0);
}

#[test]
fn anything_else_is_no_flag() {
    for bad in ["", "2", "01", "true", " 1"] {
        match numstr_to_bool(bad) {
            Err(FIRParsingError::FIRParsing(m)) => {
                assert_eq!(m, format!("only supports '0' or '1' as values, found: {}", bad))
            }
            other => panic!("{:?}", other),
        }
    }
}

#[test]
fn a_clean_record_is_read_as_it_stands() {
    let input = lines(SQUARE);
    let mut count = 3;
    let mut linenr = 0;
    let fir = FIRBoundary::parse_fields(&input, &mut count, Mode::Strict, &mut linenr)
        .unwrap()
        .unwrap();
    assert_eq!(count, 4);
    assert_eq!(linenr, 5);
    assert_eq!(fir.id, 3);
    assert_eq!(fir.icao, "ENOR");
    assert!(!fir.is_oseanic);
    assert!(!fir.is_extension);
    assert_eq!(fir.min_lat, dec("0"));
    assert_eq!(fir.min_lon, dec("0"));
    assert_eq!(fir.max_lat, dec("1"));
    assert_eq!(fir.max_lon, dec("1"));
    assert_eq!(fir.lable, point("0.5", "0.5"));
    assert_eq!(
        fir.boundary_corners,
        vec![point("0", "0"), point("1", "0"), point("1", "1"), point("0", "1")]
    );
    assert_eq!(fir.polygon_or_hole(), Ok(Fill::Polygon));
}

#[test]
fn a_record_is_written_as_it_was_read() {
    let text = "ENOR|1|0|4|0.00|0|1|1.0|0.5|0.50\n0|0\n1.0|0\n1|1\n0|1.000\n";
    let fir = parse_one(text, Mode::Strict).unwrap().unwrap();
    assert_eq!(fir.to_lines(), lines(text));
    assert_eq!(write_to_file(&vec![fir.clone(), fir]), lines(&format!("{}{}", text, text)));
}

#[test]
fn the_end_of_the_input_is_no_error() {
    assert_eq!(parse_one("", Mode::Strict), Err(FIRParsingError::EOFError));
    // a last line that is no header, with nothing after it
    assert_eq!(parse_one("   ", Mode::Strict), Err(FIRParsingError::EOFError));
    let input = lines(SQUARE);
    let mut count = 1;
    let mut linenr = 5;
    assert_eq!(
        FIRBoundary::parse_fields(&input, &mut count, Mode::Fix, &mut linenr),
        Err(FIRParsingError::EOFError)
    );
    assert_eq!((count, linenr), (1, 5));
}

#[test]
fn a_short_header_before_more_lines_is_fatal() {
    match parse_one("ENOR|0|0|4\n0|0\n", Mode::Strict) {
        Err(FIRParsingError::FIRParsing(m)) => assert_eq!(m, "Expected 10 fields, found: 4"),
        other => panic!("{:?}", other),
    }
}

#[test]
fn a_count_that_is_no_number_is_fatal() {
    let r = parse_one("ENOR|0|0|four|0|0|1|1|0.5|0.5\n0|0\n", Mode::Strict);
    assert!(matches!(r, Err(FIRParsingError::ParseIntError(_))));
}

#[test]
fn a_missing_point_line_is_fatal() {
    match parse_one("ENOR|0|0|5|0|0|1|1|0.5|0.5\n0|0\n1|0\n1|1\n0|1\n", Mode::Strict) {
        Err(FIRParsingError::FIRParsing(m)) => {
            assert_eq!(m, "A point expects 2 fields (lat|lon), got: 1")
        }
        other => panic!("{:?}", other),
    }
}

#[test]
fn a_bad_flag_is_fatal() {
    match parse_one("ENOR|2|0|4|0|0|1|1|0.5|0.5\n0|0\n1|0\n1|1\n0|1\n", Mode::Strict) {
        Err(FIRParsingError::FIRParsing(m)) => {
            assert_eq!(m, "only supports '0' or '1' as values, found: 2")
        }
        other => panic!("{:?}", other),
    }
}

#[test]
fn a_bound_that_is_no_number_is_fatal() {
    let r = parse_one("ENOR|0|0|4|0|zero|1|1|0.5|0.5\n0|0\n1|0\n1|1\n0|1\n", Mode::Fix);
    assert!(matches!(r, Err(FIRParsingError::ParseDecimalError(_))));
}

#[test]
fn a_ring_without_area_is_fatal() {
    let r = parse_one("ENOR|0|0|3|0|0|2|2|0.5|0.5\n0|0\n1|1\n2|2\n", Mode::Strict);
    assert_eq!(r, Err(FIRParsingError::DegenerateRing));
    let r = parse_one("ENOR|0|0|0|0|0|2|2|0.5|0.5\n", Mode::Fix);
    assert_eq!(r, Err(FIRParsingError::DegenerateRing));
}

#[test]
fn a_point_out_of_range_rejects_the_record_before_its_ring_is_checked() {
    // the ring is also drawn clockwise and has a duplicate: neither is reported
    let text = "ENOR|0|0|5|0|0|1|1|0.5|0.5\n0|1\n1|1\n91|0\n1|1\n0|0\n";
    let input = lines(text);
    let mut count = 0;
    let mut linenr = 0;
    let errors = FIRBoundary::parse_fields(&input, &mut count, Mode::Strict, &mut linenr)
        .unwrap()
        .unwrap_err();
    assert_eq!((count, linenr), (1, 6));
    assert_eq!(
        errors.errors(),
        &vec![FIRParsingError::PointOutOfRange(Point { lat: dec("91"), lon: dec("0") })]
    );
    let fixed = parse_one(text, Mode::Fix).unwrap().unwrap_err();
    assert_eq!(fixed.len(), 1);
}

#[test]
fn a_label_out_of_range_rejects_the_record() {
    let text = "ENOR|0|0|4|0|0|1|1|0.5|181\n0|0\n1|0\n1|1\n0|1\n";
    let errors = parse_one(text, Mode::Strict).unwrap().unwrap_err();
    assert_eq!(
        errors.errors(),
        &vec![FIRParsingError::PointOutOfRange(Point { lat: dec("0.5"), lon: dec("181") })]
    );
}

#[test]
fn strict_mode_reports_a_duplicate_vertex() {
    let text = "ENOR|0|0|5|0|0|1|1|0.5|0.5\n0|0\n1|0\n1|0\n1|1\n0|1\n";
    let errors = parse_one(text, Mode::Strict).unwrap().unwrap_err();
    assert_eq!(
        errors.errors(),
        &vec![FIRParsingError::DuplicatePointError {
            points: vec![point("1", "0")],
            owner: "ENOR".to_string(),
        }]
    );
}

#[test]
fn fix_mode_removes_a_duplicate_vertex() {
    let text = "ENOR|0|0|5|0|0|1|1|0.5|0.5\n0|0\n1|0\n1|0\n1|1\n0|1\n";
    let fir = parse_one(text, Mode::Fix).unwrap().unwrap();
    assert_eq!(
        fir.boundary_corners,
        vec![point("0", "0"), point("1", "0"), point("1", "1"), point("0", "1")]
    );
    assert_eq!(fir.to_lines(), lines(SQUARE));
}

#[test]
fn strict_mode_reports_a_clockwise_ring() {
    let text = "ENOR|0|0|4|0|0|1|1|0.5|0.5\n0|1\n1|1\n1|0\n0|0\n";
    let errors = parse_one(text, Mode::Strict).unwrap().unwrap_err();
    assert_eq!(
        errors.errors(),
        &vec![FIRParsingError::AirspaceDrawDirection("ENOR".to_string())]
    );
}

#[test]
fn fix_mode_turns_a_clockwise_ring_round() {
    let text = "ENOR|0|0|4|0|0|1|1|0.5|0.5\n0|1\n1|1\n1|0\n0|0\n";
    let fir = parse_one(text, Mode::Fix).unwrap().unwrap();
    assert_eq!(fir.to_lines(), lines(SQUARE));
    assert_eq!(fir.polygon_or_hole(), Ok(Fill::Polygon));
}

#[test]
fn strict_mode_reports_every_wrong_bound() {
    let text = "ENOR|0|0|4|0|-1|2|1|0.5|0.5\n0|0\n1|0\n1|1\n0|1\n";
    let errors = parse_one(text, Mode::Strict).unwrap().unwrap_err();
    assert_eq!(
        errors.errors(),
        &vec![FIRParsingError::WrongMinMax(
            vec![
                (dec("-1"), dec("0"), "minimum longitude"),
                (dec("2"), dec("1"), "maximum latitude"),
            ],
            "ENOR".to_string()
        )]
    );
}

#[test]
fn strict_mode_compares_bounds_by_value() {
    let text = "ENOR|0|0|4|0.0|0.00|1.0|1.000|0.5|0.5\n0|0\n1|0\n1|1\n0|1\n";
    assert!(parse_one(text, Mode::Strict).unwrap().is_ok());
}

#[test]
fn strict_mode_reports_all_defects_of_a_record_in_order() {
    let text = "ENOR|0|0|5|0|0|1|2|0.5|0.5\n0|1\n1|1\n1|1\n1|0\n0|0\n";
    let errors = parse_one(text, Mode::Strict).unwrap().unwrap_err();
    assert_eq!(
        errors.errors(),
        &vec![
            FIRParsingError::AirspaceDrawDirection("ENOR".to_string()),
            FIRParsingError::DuplicatePointError {
                points: vec![point("1", "1")],
                owner: "ENOR".to_string(),
            },
            FIRParsingError::WrongMinMax(
                vec![(dec("2"), dec("1"), "maximum longitude")],
                "ENOR".to_string()
            ),
        ]
    );
}

#[test]
fn fix_mode_computes_the_bounds_anew() {
    let text = "ENOR|0|0|4|5|5|5|5|0.5|0.5\n0|0\n1|0\n1|1\n0|1\n";
    let fir = parse_one(text, Mode::Fix).unwrap().unwrap();
    assert_eq!(fir.to_lines(), lines(SQUARE));
}

#[test]
fn bounds_across_the_antimeridian_are_stored_swapped() {
    let text = "NZZO|1|0|4|10|170|20|-170|15|180\n10|-170\n20|-170\n20|170\n10|170\n";
    let strict = parse_one(text, Mode::Strict).unwrap().unwrap();
    assert_eq!(strict.min_lon, dec("170"));
    assert_eq!(strict.max_lon, dec("-170"));
    let naive = "NZZO|1|0|4|10|-170|20|170|15|180\n10|-170\n20|-170\n20|170\n10|170\n";
    let errors = parse_one(naive, Mode::Strict).unwrap().unwrap_err();
    assert_eq!(
        errors.errors(),
        &vec![FIRParsingError::WrongMinMax(
            vec![
                (dec("-170"), dec("170"), "minimum longitude"),
                (dec("170"), dec("-170"), "maximum longitude"),
            ],
            "NZZO".to_string()
        )]
    );
    let fixed = parse_one(naive, Mode::Fix).unwrap().unwrap();
    assert_eq!(fixed.to_lines(), lines(text));
}

#[test]
fn validate_leaves_the_record_alone() {
    let text = "ENOR|0|0|5|0|0|1|2|0.5|0.5\n0|1\n1|1\n1|1\n1|0\n0|0\n";
    let fir = parse_one(text, Mode::Fix).unwrap().unwrap();
    let copy = fir.clone();
    assert_eq!(fir.validate().unwrap().len(), 0);
    assert_eq!(fir, copy);
}

#[test]
fn normalize_twice_is_normalize_once() {
    let text = "ENOR|0|0|6|9|9|9|9|0.5|0.5\n0|1\n1|1\n1|1\n1|0\n0|0\n0|1\n";
    let mut once = parse_one(text, Mode::Fix).unwrap().unwrap();
    let first = once.clone();
    assert_eq!(once.normalize(), Ok(()));
    assert_eq!(once, first);
    assert_eq!(once.to_lines(), first.to_lines());
}

#[test]
fn recoverable_errors_are_told_from_fatal_ones() {
    let p = Point { lat: dec("91"), lon: dec("0") };
    assert!(FIRParsingError::PointOutOfRange(p).recoverable().is_ok());
    assert!(FIRParsingError::AirspaceDrawDirection("A".to_string()).recoverable().is_ok());
    assert!(FIRParsingError::DuplicatePointError { points: vec![p], owner: "A".to_string() }
        .recoverable()
        .is_ok());
    assert!(FIRParsingError::ExtentionNotAfterFir(vec!["A".to_string()]).recoverable().is_ok());
    assert!(FIRParsingError::WrongMinMax(Vec::new(), "A".to_string()).recoverable().is_ok());
    assert!(FIRParsingError::FIRParsing("x".to_string()).recoverable().is_err());
    assert!(FIRParsingError::MultipleFirs(Vec::new()).recoverable().is_err());
    assert!(FIRParsingError::EOFError.recoverable().is_err());
    assert!(FIRParsingError::DegenerateRing.recoverable().is_err());
    assert!(FIRParsingError::DecimalOverflow.recoverable().is_err());
    assert!(FIRParsingError::OrphanExtension("A".to_string()).recoverable().is_err());
    assert!(Decimal::parse("x").unwrap_err().recoverable().is_err());
}

#[test]
fn the_collector_keeps_recoverable_errors_in_order() {
    let mut c = ErrorCollector::new();
    assert_eq!(c.len(), 0);
    assert_eq!(c.adderror(FIRParsingError::AirspaceDrawDirection("A".to_string())), Ok(()));
    assert_eq!(
        c.adderror(FIRParsingError::FIRParsing("x".to_string())),
        Err(FIRParsingError::FIRParsing("x".to_string()))
    );
    assert_eq!(c.addresult(Ok::<u8, FIRParsingError>(7)), Ok(Some(7)));
    assert_eq!(
        c.addresult(Err::<u8, FIRParsingError>(FIRParsingError::AirspaceDrawDirection(
            "B".to_string()
        ))),
        Ok(None)
    );
    assert_eq!(
        c.addresult(Err::<u8, FIRParsingError>(FIRParsingError::DegenerateRing)),
        Err(FIRParsingError::DegenerateRing)
    );
    let mut other = ErrorCollector::new();
    other.adderror(FIRParsingError::AirspaceDrawDirection("C".to_string())).unwrap();
    c.adderrors(other);
    assert_eq!(
        c.errors(),
        &vec![
            FIRParsingError::AirspaceDrawDirection("A".to_string()),
            FIRParsingError::AirspaceDrawDirection("B".to_string()),
            FIRParsingError::AirspaceDrawDirection("C".to_string()),
        ]
    );
    assert!(c.to_col_result(1).is_err());
    assert_eq!(ErrorCollector::new().to_col_result(1), Ok(1));
}

#[test]
fn messages_are_rendered_each_on_its_own_line() {
    assert_eq!(render_lines(&Vec::new()), "");
    assert_eq!(render_lines(&vec!["one".to_string()]), "one");
    assert_eq!(
        render_lines(&vec!["one".to_string(), "two".to_string(), "three".to_string()]),
        "one\ntwo\nthree"
    );
}
