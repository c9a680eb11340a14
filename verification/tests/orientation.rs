use fir_boundaries::decimal::Decimal;
use fir_boundaries::errors::FIRParsingError;
use fir_boundaries::fill::{classify, cross, polygon_or_hole, shoelace_sum, Fill};
use fir_boundaries::geo_json::Geometry;
use fir_boundaries::point::Point;

fn point(lat: i64, lon: i64) -> Point {
    Point::new(Decimal::from_int(lat), Decimal::from_int(lon)).unwrap()
}

fn ring_lat_lon(pairs: &[(i64, i64)]) -> Vec<Point> {
    pairs.iter().map(|&(lat, lon)| point(lat, lon)).collect()
}

fn make_test_geometry() -> Geometry {
    let a = [[1, 1], [0, 2], [1, 3], [2, 2]];
    let arr: Vec<Point> = a.iter().map(|v| point(v[1], v[0])).collect();
    Geometry { typ: "MultiPolygon".to_string(), array: vec![arr] }
}

#[test]
fn test_polygon_or_hole() {
    let g = make_test_geometry();
    assert_eq!(g.polygon_or_hole(), vec![Ok(Fill::Polygon)]);
    assert_eq!(polygon_or_hole(&g.array[0]), Ok(Fill::Polygon));
}

#[test]
fn unit_square_is_a_polygon_one_way_and_a_hole_the_other() {
    let square = ring_lat_lon(&[(0, 0), (1, 0), (1, 1), (0, 1)]);
    let mut reversed = square.clone();
    reversed.reverse();
    assert_eq!(polygon_or_hole(&square), Ok(Fill::Polygon));
    assert_eq!(polygon_or_hole(&reversed), Ok(Fill::Hole));
}

#[test]
fn shoelace_sum_of_the_unit_square_is_minus_two() {
    let square = ring_lat_lon(&[(0, 0), (1, 0), (1, 1), (0, 1)]);
    let sum = shoelace_sum(&square).unwrap();
    assert_eq!(sum, Decimal::from_int(-2));
}

#[test]
fn the_closing_pair_is_not_part_of_the_sum() {
    // Three points: only the two consecutive pairs count.
    let ring = ring_lat_lon(&[(0, 0), (0, 2), (2, 2)]);
    // terms: 0*0 - 0*2 = 0 and 2*2 - 0*2 = 4
    assert_eq!(shoelace_sum(&ring).unwrap(), Decimal::from_int(4));
    assert_eq!(polygon_or_hole(&ring), Ok(Fill::Hole));
}

#[test]
fn cross_term_is_lon_times_lat_minus_lat_times_lon() {
    let a = point(2, 3);
    let b = point(5, 7);
    // a.lon * b.lat - a.lat * b.lon = 3 * 5 - 2 * 7 = 1
    assert_eq!(cross(&a, &b), Some(Decimal::from_int(1)));
}

#[test]
fn a_straight_line_has_no_direction() {
    let line = ring_lat_lon(&[(0, 0), (1, 1), (2, 2)]);
    assert_eq!(polygon_or_hole(&line), Err(FIRParsingError::DegenerateRing));
}

#[test]
fn fewer_than_two_points_have_no_direction() {
    assert_eq!(polygon_or_hole(&Vec::new()), Err(FIRParsingError::DegenerateRing));
    assert_eq!(polygon_or_hole(&ring_lat_lon(&[(1, 1)])), Err(FIRParsingError::DegenerateRing));
}

#[test]
fn classify_goes_by_the_sign() {
    assert_eq!(classify(Decimal::parse("-0.001").unwrap()), Ok(Fill::Polygon));
    assert_eq!(classify(Decimal::parse("0.001").unwrap()), Ok(Fill::Hole));
    assert_eq!(classify(Decimal::parse("0.000").unwrap()), Err(FIRParsingError::DegenerateRing));
}

#[test]
fn cross_terms_keep_the_scales_of_decimal_arithmetic() {
    let a = Point::new(Decimal::parse("1.5").unwrap(), Decimal::parse("2.25").unwrap()).unwrap();
    let b = Point::new(Decimal::parse("4").unwrap(), Decimal::parse("0.5").unwrap()).unwrap();
    // a.lon * b.lat - a.lat * b.lon = 2.25 * 4 - 1.5 * 0.5 = 9.00 - 0.75
    let term = cross(&a, &b).unwrap();
    assert_eq!(term.to_text(), "8.25");
    assert_eq!(shoelace_sum(&vec![a, b]).unwrap().to_text(), "8.25");
    assert_eq!(shoelace_sum(&vec![a, b, a]).unwrap().to_text(), "0.00");
}

#[test]
fn decimal_parse_failure_is_an_error_of_its_own() {
    assert!(matches!(Decimal::parse("1.2.3"), Err(FIRParsingError::ParseDecimalError(_))));
}

#[test]
fn overflowing_arithmetic_is_an_error() {
    let huge = Decimal::new(79_228_162_514_264_337_593_543_950_335, 0).unwrap();
    let far = Point { lat: huge, lon: huge };
    let near = Point { lat: Decimal::from_int(2), lon: Decimal::from_int(3) };
    assert_eq!(cross(&far, &far), None);
    assert_eq!(shoelace_sum(&vec![near, far, far]), None);
    assert_eq!(polygon_or_hole(&vec![near, far, far]), Err(FIRParsingError::DecimalOverflow));
}
