use fir_boundaries::decimal::Decimal;
use fir_boundaries::errors::FIRParsingError;
use fir_boundaries::point::Point;
use fir_boundaries::ring::{
    bounding_box, dedup_points, duplicate_points, fix_min_max_lon, greatest, least,
};

fn dec(text: &str) -> Decimal {
    Decimal::parse(text).unwrap()
}

fn point(lat: &str, lon: &str) -> Point {
    Point::new(dec(lat), dec(lon)).unwrap()
}

fn ring(pairs: &[(&str, &str)]) -> Vec<Point> {
    pairs.iter().map(|&(lat, lon)| point(lat, lon)).collect()
}

#[test]
fn latitude_91_is_out_of_range() {
    let r = Point::new(dec("91"), dec("0"));
    assert_eq!(
        r,
        Err(FIRParsingError::PointOutOfRange(Point { lat: dec("91"), lon: dec("0") }))
    );
}

#[test]
fn bounds_are_inclusive() {
    assert!(Point::new(dec("90"), dec("180")).is_ok());
    assert!(Point::new(dec("-90.0"), dec("-180.00")).is_ok());
    assert!(Point::new(dec("90.0000001"), dec("0")).is_err());
    assert!(Point::new(dec("-90.0000001"), dec("0")).is_err());
    assert!(Point::new(dec("0"), dec("180.0000001")).is_err());
    assert!(Point::new(dec("0"), dec("-180.0000001")).is_err());
}

#[test]
fn point_text_is_lat_bar_lon() {
    assert_eq!(point("59.50", "-10.250").to_fir_dat_str(), "59.50|-10.250");
}

#[test]
fn point_is_read_from_a_line() {
    let p = Point::from_str(" 59.5 | 10.25 \n").unwrap();
    assert_eq!(p, point("59.5", "10.25"));
    assert_eq!(p.to_fir_dat_str(), "59.5|10.25");
}

#[test]
fn point_line_needs_two_fields() {
    match Point::from_str("1|2|3") {
        Err(FIRParsingError::FIRParsing(m)) => {
            assert_eq!(m, "A point expects 2 fields (lat|lon), got: 3")
        }
        other => panic!("{:?}", other),
    }
    match Point::from_str("") {
        Err(FIRParsingError::FIRParsing(m)) => {
            assert_eq!(m, "A point expects 2 fields (lat|lon), got: 1")
        }
        other => panic!("{:?}", other),
    }
}

#[test]
fn point_line_needs_numbers() {
    assert!(matches!(Point::from_str("x|1"), Err(FIRParsingError::ParseDecimalError(_))));
    assert!(matches!(Point::from_str("1|"), Err(FIRParsingError::ParseDecimalError(_))));
}

#[test]
fn point_line_out_of_range_is_rejected() {
    assert_eq!(
        Point::from_str("91|0"),
        Err(FIRParsingError::PointOutOfRange(Point { lat: dec("91"), lon: dec("0") }))
    );
}

#[test]
fn points_are_equal_by_value() {
    assert_eq!(point("1.0", "2"), point("1", "2.00"));
    assert!(point("1.0", "2").same_as(&point("1", "2.00")));
    assert_ne!(point("1.0", "2"), point("2", "1"));
}

#[test]
fn dedup_keeps_the_first_of_each_place() {
    let r = ring(&[("0", "0"), ("1", "0"), ("1", "0"), ("1", "1"), ("0", "1")]);
    let d = dedup_points(&r);
    assert_eq!(d, ring(&[("0", "0"), ("1", "0"), ("1", "1"), ("0", "1")]));
}

#[test]
fn dedup_goes_by_value_and_keeps_the_first_text() {
    let r = ring(&[("1.0", "2"), ("3", "4"), ("1", "2.00")]);
    let d = dedup_points(&r);
    assert_eq!(d.len(), 2);
    assert_eq!(d[0].to_fir_dat_str(), "1.0|2");
    assert_eq!(d[1].to_fir_dat_str(), "3|4");
}

#[test]
fn duplicates_are_listed_once() {
    let r = ring(&[("0", "0"), ("1", "0"), ("1", "0"), ("1", "1"), ("1", "0"), ("0", "0")]);
    let d = duplicate_points(&r);
    assert_eq!(d, ring(&[("1", "0"), ("0", "0")]));
    assert!(duplicate_points(&ring(&[("0", "0"), ("1", "0")])).is_empty());
}

#[test]
fn least_is_the_first_and_greatest_the_last_of_equals() {
    let s = vec![dec("2.0"), dec("1.0"), dec("3.00"), dec("1"), dec("3")];
    assert_eq!(least(&s).to_text(), "1.0");
    assert_eq!(greatest(&s).to_text(), "3");
}

#[test]
fn span_over_half_a_turn_swaps_the_longitudes() {
    let mut lo = dec("-170");
    let mut hi = dec("170");
    assert_eq!(fix_min_max_lon(&mut lo, &mut hi), Ok(()));
    assert_eq!(lo, dec("170"));
    assert_eq!(hi, dec("-170"));
}

#[test]
fn span_of_half_a_turn_or_less_stays() {
    let mut lo = dec("-90");
    let mut hi = dec("90");
    assert_eq!(fix_min_max_lon(&mut lo, &mut hi), Ok(()));
    assert_eq!((lo, hi), (dec("-90"), dec("90")));
    let mut lo = dec("10");
    let mut hi = dec("20.5");
    assert_eq!(fix_min_max_lon(&mut lo, &mut hi), Ok(()));
    assert_eq!((lo, hi), (dec("10"), dec("20.5")));
}

#[test]
fn bounding_box_of_a_ring_across_the_antimeridian() {
    let r = ring(&[("10", "170"), ("10", "-170"), ("20", "-170"), ("20", "170")]);
    let b = bounding_box(&r).unwrap();
    assert_eq!(b.min_lat, dec("10"));
    assert_eq!(b.max_lat, dec("20"));
    assert_eq!(b.min_lon, dec("170"));
    assert_eq!(b.max_lon, dec("-170"));
}

#[test]
fn bounding_box_of_a_plain_ring() {
    let r = ring(&[("0.5", "3"), ("-1", "2.25"), ("4", "-7")]);
    let b = bounding_box(&r).unwrap();
    assert_eq!(b.min_lat, dec("-1"));
    assert_eq!(b.max_lat, dec("4"));
    assert_eq!(b.min_lon, dec("-7"));
    assert_eq!(b.max_lon, dec("3"));
}

#[test]
fn a_span_that_overflows_is_an_error_and_changes_nothing() {
    let mut lo = Decimal::new(-79_228_162_514_264_337_593_543_950_335, 0).unwrap();
    let mut hi = Decimal::new(79_228_162_514_264_337_593_543_950_335, 0).unwrap();
    assert_eq!(fix_min_max_lon(&mut lo, &mut hi), Err(FIRParsingError::DecimalOverflow));
    assert_eq!(lo.mantissa, -79_228_162_514_264_337_593_543_950_335);
    assert_eq!(hi.mantissa, 79_228_162_514_264_337_593_543_950_335);
}
