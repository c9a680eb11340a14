use fir_boundaries::decimal::Decimal;
use fir_boundaries::text::{count_to_text, split_fields};

#[test]
fn parse_keeps_the_scale() {
    let d = Decimal::parse("1.50").unwrap();
    assert_eq!(d.mantissa, 150);
    assert_eq!(d.scale, 2);
    let n = Decimal::parse("-12.345").unwrap();
    assert_eq!(n.mantissa, -12345);
    assert_eq!(n.scale, 3);
}

#[test]
fn parse_rejects_what_is_no_number() {
    assert!(Decimal::parse("abc").is_err());
    assert!(Decimal::parse("").is_err());
}

#[test]
fn text_is_printed_at_the_stored_precision() {
    assert_eq!(Decimal::parse("1.50").unwrap().to_text(), "1.50");
    assert_eq!(Decimal::parse("-0.001").unwrap().to_text(), "-0.001");
    assert_eq!(Decimal::from_int(180).to_text(), "180");
    assert_eq!(Decimal::new(12345, 2).unwrap().to_text(), "123.45");
}

#[test]
fn new_checks_the_range_of_its_parts() {
    assert!(Decimal::new(1, 28).is_some());
    assert!(Decimal::new(1, 29).is_none());
    assert!(Decimal::new(79_228_162_514_264_337_593_543_950_335, 0).is_some());
    assert!(Decimal::new(79_228_162_514_264_337_593_543_950_336, 0).is_none());
    assert!(Decimal::new(-79_228_162_514_264_337_593_543_950_336, 0).is_none());
}

#[test]
fn equality_is_by_value() {
    assert_eq!(Decimal::parse("1.0").unwrap(), Decimal::parse("1.00").unwrap());
    assert_eq!(Decimal::parse("10").unwrap(), Decimal::parse("10.000").unwrap());
    assert_ne!(Decimal::parse("1.0").unwrap(), Decimal::parse("1.01").unwrap());
    assert!(Decimal::parse("-2.50").unwrap().eq_value(Decimal::parse("-2.5").unwrap()));
}

#[test]
fn normalize_strips_trailing_zeros() {
    let d = Decimal::parse("1.500").unwrap().normalize();
    assert_eq!((d.mantissa, d.scale), (15, 1));
    let z = Decimal::parse("0.000").unwrap().normalize();
    assert_eq!((z.mantissa, z.scale), (0, 0));
    let w = Decimal::parse("-1200").unwrap().normalize();
    assert_eq!((w.mantissa, w.scale), (-1200, 0));
}

#[test]
fn order_is_by_value_across_scales() {
    let a = Decimal::parse("1.5").unwrap();
    let b = Decimal::parse("1.49999").unwrap();
    assert!(b.lt(a));
    assert!(!a.lt(b));
    assert!(!a.lt(Decimal::parse("1.50").unwrap()));
    assert!(Decimal::parse("-3").unwrap().lt(Decimal::parse("-2.999").unwrap()));
}

#[test]
fn fields_are_split_on_bars_and_trimmed() {
    assert_eq!(split_fields("a| b |c\n"), vec!["a", "b", "c"]);
    assert_eq!(split_fields(""), vec![""]);
    assert_eq!(split_fields("|"), vec!["", ""]);
    assert_eq!(split_fields(" 1.5 |\t2.5\r\n"), vec!["1.5", "2.5"]);
    assert_eq!(split_fields("a||b|"), vec!["a", "", "b", ""]);
    assert_eq!(split_fields("   "), vec![""]);
}

#[test]
fn counts_are_printed_in_digits() {
    assert_eq!(count_to_text(0), "0");
    assert_eq!(count_to_text(7), "7");
    assert_eq!(count_to_text(10), "10");
    assert_eq!(count_to_text(4096), "4096");
    assert_eq!(count_to_text(1234567890), "1234567890");
}

#[test]
fn order_holds_where_one_number_cannot_be_brought_to_the_scale_of_the_other() {
    let huge = Decimal::new(79_228_162_514_264_337_593_543_950_335, 0).unwrap();
    let tiny = Decimal::new(1, 28).unwrap();
    let small = Decimal::new(-1, 28).unwrap();
    let low = Decimal::new(-79_228_162_514_264_337_593_543_950_335, 0).unwrap();
    assert!(tiny.lt(huge));
    assert!(!huge.lt(tiny));
    assert!(low.lt(small));
    assert!(!small.lt(low));
    assert!(low.lt(tiny));
    assert!(small.lt(tiny));
    assert!(!tiny.lt(small));
    let seven = Decimal::parse("7.0000000000000000000000000001").unwrap();
    assert!(Decimal::from_int(7).lt(seven));
    assert!(!seven.lt(Decimal::from_int(7)));
    assert!(seven.lt(Decimal::from_int(8)));
    let zero = Decimal::parse("0.0000000000000000000000000000").unwrap();
    assert!(!zero.lt(Decimal::from_int(0)));
    assert!(!Decimal::from_int(0).lt(zero));
    assert!(zero.lt(huge));
    assert!(low.lt(zero));
}
