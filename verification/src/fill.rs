//! The direction in which a ring is drawn, from the sign of its shoelace sum.

use crate::decimal::{
    accumulate, decimal_difference, decimal_product, decimal_sum, multiply, subtract, Decimal,
};
use crate::errors::FIRParsingError;
use crate::point::Point;
use vstd::prelude::*;

verus! {

/// What a ring encloses: drawn counter-clockwise it is a polygon, drawn
/// clockwise a hole.
#[derive(Debug, Clone, Copy, PartialEq, Eq, Structural, PartialOrd, Ord, Hash)]
pub enum Fill {
    Polygon,
    Hole,
}

/// Every point of the ring has well-formed coordinates.
pub open spec fn ring_wf(ring: Seq<Point>) -> bool {
    forall|i: int| 0 <= i < ring.len() ==> (#[trigger] ring[i]).wf()
}

/// The shoelace term of two consecutive points, longitude as x and latitude
/// as y: `a.lon * b.lat - a.lat * b.lon`. `None` where the arithmetic
/// overflows.
pub open spec fn cross_term(a: Point, b: Point) -> Option<Decimal> {
    match (decimal_product(a.lon, b.lat), decimal_product(a.lat, b.lon)) {
        (Some(x), Some(y)) => decimal_difference(x, y),
        _ => None,
    }
}

/// The sum of the shoelace terms over the consecutive pairs of the ring,
/// added up from the first pair on, starting at zero. The pair of the last
/// and the first point is not part of it.
pub open spec fn shoelace(ring: Seq<Point>) -> Option<Decimal>
    decreases ring.len(),
{
    if ring.len() < 2 {
        Some(Decimal { mantissa: 0, scale: 0 })
    } else {
        match (
            shoelace(ring.drop_last()),
            cross_term(ring[ring.len() - 2], ring[ring.len() - 1]),
        ) {
            (Some(sum), Some(term)) => decimal_sum(sum, term),
            _ => None,
        }
    }
}

/// The direction that a shoelace sum stands for: negative is a polygon,
/// positive a hole, and zero is no ring at all.
pub open spec fn fill_of_sum(sum: Decimal) -> Result<Fill, FIRParsingError> {
    if sum.mantissa < 0 {
        Ok(Fill::Polygon)
    } else if sum.mantissa > 0 {
        Ok(Fill::Hole)
    } else {
        Err(FIRParsingError::DegenerateRing)
    }
}

/// The direction of a ring.
pub open spec fn fill_of(ring: Seq<Point>) -> Result<Fill, FIRParsingError> {
    match shoelace(ring) {
        Some(sum) => fill_of_sum(sum),
        None => Err(FIRParsingError::DecimalOverflow),
    }
}

/// Classifies a shoelace sum.
pub fn classify(sum: Decimal) -> (r: Result<Fill, FIRParsingError>)
    ensures
        r == fill_of_sum(sum),
{
    if sum.mantissa < 0 {
        Ok(Fill::Polygon)
    } else if sum.mantissa > 0 {
        Ok(Fill::Hole)
    } else {
        Err(FIRParsingError::DegenerateRing)
    }
}

/// The shoelace term of two consecutive points.
pub fn cross(a: &Point, b: &Point) -> (r: Option<Decimal>)
    requires
        a.wf(),
        b.wf(),
    ensures
        r == cross_term(*a, *b),
        r.is_some() ==> r.unwrap().wf(),
{
    let x = match multiply(a.lon, b.lat) {
        Some(x) => x,
        None => {
            return None;
        },
    };
    let y = match multiply(a.lat, b.lon) {
        Some(y) => y,
        None => {
            return None;
        },
    };
    subtract(x, y)
}

/// The shoelace sum of a ring.
pub fn shoelace_sum(ring: &Vec<Point>) -> (r: Option<Decimal>)
    requires
        ring_wf(ring@),
    ensures
        r == shoelace(ring@),
        r.is_some() ==> r.unwrap().wf(),
{
    let mut sum = Decimal::from_int(0);
    if ring.len() < 2 {
        return Some(sum);
    }
    let mut i: usize = 1;
    assert(ring@.take(1).len() < 2);
    while i < ring.len()
        invariant
            1 <= i,
            ring_wf(ring@),
            sum.wf(),
            i <= ring@.len(),
            shoelace(ring@.take(i as int)) == Some(sum),
        decreases ring.len() - i,
    {
        proof {
            let next = ring@.take(i as int + 1);
            assert(next.drop_last() == ring@.take(i as int));
            assert(next[next.len() - 2] == ring@[i as int - 1]);
            assert(next[next.len() - 1] == ring@[i as int]);
        }
        let term = match cross(&ring[i - 1], &ring[i]) {
            Some(t) => t,
            None => {
                proof {
                    lemma_overflow_stays(ring@, i as int + 1);
                }
                return None;
            },
        };
        sum = match accumulate(sum, term) {
            Some(s) => s,
            None => {
                proof {
                    lemma_overflow_stays(ring@, i as int + 1);
                }
                return None;
            },
        };
        i = i + 1;
    }
    assert(ring@.take(i as int) == ring@);
    Some(sum)
}

/// Once the sum of a prefix has overflowed, so has the sum of the ring.
proof fn lemma_overflow_stays(ring: Seq<Point>, n: int)
    requires
        0 <= n <= ring.len(),
        shoelace(ring.take(n)).is_none(),
    ensures
        shoelace(ring).is_none(),
    decreases ring.len() - n,
{
    if n < ring.len() {
        assert(ring.take(n + 1).drop_last() == ring.take(n));
        lemma_overflow_stays(ring, n + 1);
    } else {
        assert(ring.take(n) == ring);
    }
}

/// The direction in which a ring is drawn.
pub fn polygon_or_hole(ring: &Vec<Point>) -> (r: Result<Fill, FIRParsingError>)
    requires
        ring_wf(ring@),
    ensures
        r == fill_of(ring@),
{
    match shoelace_sum(ring) {
        Some(sum) => classify(sum),
        None => Err(FIRParsingError::DecimalOverflow),
    }
}

} // verus!
