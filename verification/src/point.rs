//! Points on the earth: a latitude and a longitude in decimal degrees.

use crate::decimal::{decimal_from_text, decimal_text, Decimal};
use crate::errors::FIRParsingError;
use crate::text::{count_text, count_to_text, fields_of, split_fields};
use vstd::prelude::*;
use vstd::string::*;

verus! {

/// A latitude and a longitude.
#[derive(Clone, Copy, Debug)]
pub struct Point {
    pub lat: Decimal,
    pub lon: Decimal,
}

/// The largest latitude, 90 degrees.
pub open spec fn lat_bound() -> Decimal {
    Decimal { mantissa: 90, scale: 0 }
}

/// The largest longitude, 180 degrees.
pub open spec fn lon_bound() -> Decimal {
    Decimal { mantissa: 180, scale: 0 }
}

/// `-bound <= d <= bound`, by value.
pub open spec fn within(bound: Decimal, d: Decimal) -> bool {
    -bound.units() <= d.units() <= bound.units()
}

/// The message of the error for a point line with the wrong number of fields.
pub open spec fn point_fields_message(found: nat) -> Seq<char> {
    "A point expects 2 fields (lat|lon), got: "@ + count_text(found)
}

/// What a point line reads as: the point, or the kind of failure.
pub enum PointReading {
    /// The line holds a point in range.
    Point(Point),
    /// The line does not have two fields; the number found.
    FieldCount(nat),
    /// A field is no decimal number.
    NotDecimal,
    /// Both fields are numbers, but not in range.
    OutOfRange(Point),
}

/// The reading of a point line `lat|lon`.
pub open spec fn point_reading(line: Seq<char>) -> PointReading {
    let fields = fields_of(line);
    if fields.len() != 2 {
        PointReading::FieldCount(fields.len())
    } else {
        match (decimal_from_text(fields[0]), decimal_from_text(fields[1])) {
            (Some(lat), Some(lon)) => {
                let p = Point { lat, lon };
                if p.in_range() {
                    PointReading::Point(p)
                } else {
                    PointReading::OutOfRange(p)
                }
            },
            _ => PointReading::NotDecimal,
        }
    }
}

/// Whether `bound` bounds `d` on both sides.
fn validate_range(bound: i64, d: Decimal) -> (r: bool)
    requires
        d.wf(),
        0 <= bound <= 1000,
    ensures
        r == within(Decimal { mantissa: bound as i128, scale: 0 }, d),
{
    let hi = Decimal::from_int(bound);
    let lo = Decimal::from_int(-bound);
    assert(lo.units() == -hi.units()) by (nonlinear_arith)
        requires
            lo.mantissa == -hi.mantissa,
            lo.units() == lo.mantissa * crate::decimal::pow10(28),
            hi.units() == hi.mantissa * crate::decimal::pow10(28),
    ;
    !hi.lt(d) && !d.lt(lo)
}

impl Point {
    /// Both coordinates are well-formed decimals.
    pub open spec fn wf(self) -> bool {
        self.lat.wf() && self.lon.wf()
    }

    /// The latitude is within 90 degrees and the longitude within 180, both
    /// bounds included.
    pub open spec fn in_range(self) -> bool {
        within(lat_bound(), self.lat) && within(lon_bound(), self.lon)
    }

    /// Two points have the same coordinates by value.
    pub open spec fn same_place(self, other: Point) -> bool {
        self.lat.same_value(other.lat) && self.lon.same_value(other.lon)
    }

    /// The point in the native format: `lat|lon`.
    pub open spec fn text(self) -> Seq<char> {
        decimal_text(self.lat) + seq!['|'] + decimal_text(self.lon)
    }

    /// A point from its coordinates, if they are in range.
    pub fn new(lat: Decimal, lon: Decimal) -> (r: Result<Point, FIRParsingError>)
        requires
            lat.wf(),
            lon.wf(),
        ensures
            (Point { lat, lon }).in_range() ==> r == Ok::<Point, FIRParsingError>(
                Point { lat, lon },
            ),
            !(Point { lat, lon }).in_range() ==> r == Err::<Point, FIRParsingError>(
                FIRParsingError::PointOutOfRange(Point { lat, lon }),
            ),
    {
        if validate_range(90, lat) && validate_range(180, lon) {
            Ok(Point { lat, lon })
        } else {
            Err(FIRParsingError::PointOutOfRange(Point { lat, lon }))
        }
    }

    /// Whether two points have the same coordinates by value.
    pub fn same_as(&self, other: &Point) -> (r: bool)
        ensures
            r == self.same_place(*other),
    {
        self.lat.eq_value(other.lat) && self.lon.eq_value(other.lon)
    }

    /// Prints the point in the native format.
    pub fn to_fir_dat_str(&self) -> (r: String)
        requires
            self.wf(),
        ensures
            r@ == self.text(),
    {
        proof {
            reveal_strlit("|");
        }
        let mut out = self.lat.to_text();
        out.append("|");
        let lon = self.lon.to_text();
        out.append(lon.as_str());
        assert("|"@ =~= seq!['|']);
        out
    }

    /// Reads a point from a line of the native format.
    pub fn from_str(s: &str) -> (r: Result<Point, FIRParsingError>)
        ensures
            match point_reading(s@) {
                PointReading::Point(p) => r == Ok::<Point, FIRParsingError>(p) && p.wf(),
                PointReading::FieldCount(n) => r matches Err(FIRParsingError::FIRParsing(m))
                    && m@ == point_fields_message(n),
                PointReading::NotDecimal => r matches Err(FIRParsingError::ParseDecimalError(_)),
                PointReading::OutOfRange(p) => r == Err::<Point, FIRParsingError>(
                    FIRParsingError::PointOutOfRange(p),
                ),
            },
    {
        let fields = split_fields(s);
        assert(fields@.len() == fields_of(s@).len());
        if fields.len() != 2 {
            let mut m = String::from_str("A point expects 2 fields (lat|lon), got: ");
            let n = count_to_text(fields.len());
            m.append(n.as_str());
            return Err(FIRParsingError::FIRParsing(m));
        }
        assert(fields@[0]@ == fields_of(s@)[0]);
        assert(fields@[1]@ == fields_of(s@)[1]);
        let lat = match Decimal::parse(fields[0].as_str()) {
            Ok(d) => d,
            Err(e) => {
                return Err(e);
            },
        };
        let lon = match Decimal::parse(fields[1].as_str()) {
            Ok(d) => d,
            Err(e) => {
                return Err(e);
            },
        };
        Point::new(lat, lon)
    }
}

/// `==` compares the coordinates by value.
impl PartialEq for Point {
    fn eq(&self, other: &Point) -> (r: bool) {
        self.same_as(other)
    }
}

impl vstd::std_specs::cmp::PartialEqSpecImpl for Point {
    open spec fn obeys_eq_spec() -> bool {
        true
    }

    open spec fn eq_spec(&self, other: &Point) -> bool {
        self.same_place(*other)
    }
}

impl Eq for Point {

}

} // verus!
