//! Rings of points: repeated vertices and the bounding box.

use crate::decimal::{decimal_difference, subtract, Decimal};
use crate::errors::FIRParsingError;
use crate::fill::ring_wf;
use crate::point::Point;
use indexmap::IndexSet;
use vstd::prelude::*;

verus! {

/// The insertion-ordered hash set of the `indexmap` crate.
#[verifier::external_type_specification]
#[verifier::external_body]
#[verifier::reject_recursive_types(T)]
#[verifier::reject_recursive_types(S)]
pub struct ExIndexSet<T, S>(IndexSet<T, S>);

/// What identifies a point's place: the normal forms of its latitude and
/// longitude, as mantissa and scale.
pub type PlaceKey = (i128, u32, i128, u32);

/// The keys that a set holds, in the order of their insertion.
pub uninterp spec fn set_keys(s: IndexSet<PlaceKey>) -> Seq<PlaceKey>;

/// Calls `IndexSet::new`, which makes an empty set.
#[verifier::external_body]
fn new_set() -> (r: IndexSet<PlaceKey>)
    ensures
        set_keys(r) == Seq::<PlaceKey>::empty(),
{
    IndexSet::new()
}

/// Calls `IndexSet::insert`. A key that the set holds already leaves the set
/// as it is and gives `false`; any other key goes to the end and gives `true`.
#[verifier::external_body]
fn insert_key(s: &mut IndexSet<PlaceKey>, k: PlaceKey) -> (r: bool)
    ensures
        r == !set_keys(*old(s)).contains(k),
        set_keys(*final(s)) == if r {
            set_keys(*old(s)).push(k)
        } else {
            set_keys(*old(s))
        },
{
    s.insert(k)
}

/// The key of a point's place.
pub open spec fn place_key(p: Point) -> PlaceKey {
    (p.lat.normal().mantissa, p.lat.normal().scale, p.lon.normal().mantissa, p.lon.normal().scale)
}

/// Whether some point of `s` is at the place of `p`.
pub open spec fn occurs(s: Seq<Point>, p: Point) -> bool
    decreases s.len(),
{
    s.len() > 0 && (s.last().same_place(p) || occurs(s.drop_last(), p))
}

/// The points of a ring without those at a place seen before: of each
/// place the first point stays, in the order of the ring.
pub open spec fn distinct(ring: Seq<Point>) -> Seq<Point>
    decreases ring.len(),
{
    if ring.len() == 0 {
        ring
    } else if occurs(ring.drop_last(), ring.last()) {
        distinct(ring.drop_last())
    } else {
        distinct(ring.drop_last()).push(ring.last())
    }
}

/// The points that repeat an earlier place of the ring: one point for each
/// such place, namely its second occurrence, in the order of the ring.
pub open spec fn repeated(ring: Seq<Point>) -> Seq<Point>
    decreases ring.len(),
{
    if ring.len() == 0 {
        ring
    } else {
        let before = repeated(ring.drop_last());
        if occurs(ring.drop_last(), ring.last()) && !occurs(before, ring.last()) {
            before.push(ring.last())
        } else {
            before
        }
    }
}

fn key_of(p: &Point) -> (r: PlaceKey)
    ensures
        r == place_key(*p),
{
    let lat = p.lat.normalize();
    let lon = p.lon.normalize();
    (lat.mantissa, lat.scale, lon.mantissa, lon.scale)
}

/// A set of keys stands for the places of a sequence of points.
spec fn stands_for(keys: Seq<PlaceKey>, s: Seq<Point>) -> bool {
    forall|p: Point| keys.contains(#[trigger] place_key(p)) == occurs(s, p)
}

proof fn lemma_stands_for_push(keys: Seq<PlaceKey>, s: Seq<Point>, q: Point, added: bool)
    requires
        stands_for(keys, s),
        added == !keys.contains(place_key(q)),
    ensures
        added == !occurs(s, q),
        stands_for(
            if added {
                keys.push(place_key(q))
            } else {
                keys
            },
            s.push(q),
        ),
{
    let next = if added {
        keys.push(place_key(q))
    } else {
        keys
    };
    assert(s.push(q).drop_last() == s);
    assert forall|p: Point| next.contains(#[trigger] place_key(p)) == occurs(s.push(q), p) by {
        assert(q.same_place(p) == (place_key(q) == place_key(p)));
        if added {
            if place_key(p) == place_key(q) {
                assert(next[keys.len() as int] == place_key(p));
            } else if keys.contains(place_key(p)) {
                let j = choose|j: int| 0 <= j < keys.len() && keys[j] == place_key(p);
                assert(next[j] == place_key(p));
            } else if next.contains(place_key(p)) {
                let j = choose|j: int| 0 <= j < next.len() && next[j] == place_key(p);
                assert(keys[j] == place_key(p));
            }
        } else {
            if place_key(p) == place_key(q) {
                assert(occurs(s, p));
            }
        }
    }
}

/// Removes the points at a place seen before.
pub fn dedup_points(ring: &Vec<Point>) -> (r: Vec<Point>)
    ensures
        r@ == distinct(ring@),
        ring_wf(ring@) ==> ring_wf(r@),
{
    let mut seen = new_set();
    let mut out: Vec<Point> = Vec::new();
    let mut i: usize = 0;
    assert(ring@.take(0) == Seq::<Point>::empty());
    while i < ring.len()
        invariant
            i <= ring@.len(),
            stands_for(set_keys(seen), ring@.take(i as int)),
            out@ == distinct(ring@.take(i as int)),
            forall|j: int| 0 <= j < out@.len() ==> ring@.contains(#[trigger] out@[j]),
        decreases ring.len() - i,
    {
        let p = ring[i];
        let ghost before = set_keys(seen);
        let added = insert_key(&mut seen, key_of(&p));
        proof {
            assert(ring@.take(i as int + 1) == ring@.take(i as int).push(p));
            assert(ring@.take(i as int + 1).drop_last() == ring@.take(i as int));
            lemma_stands_for_push(before, ring@.take(i as int), p, added);
        }
        if added {
            out.push(p);
            assert(ring@[i as int] == p);
        }
        i = i + 1;
    }
    assert(ring@.take(i as int) == ring@);
    out
}

/// Lists the points that repeat an earlier place, each place once.
pub fn duplicate_points(ring: &Vec<Point>) -> (r: Vec<Point>)
    ensures
        r@ == repeated(ring@),
{
    let mut seen = new_set();
    let mut twice = new_set();
    let mut out: Vec<Point> = Vec::new();
    let mut i: usize = 0;
    assert(ring@.take(0) == Seq::<Point>::empty());
    while i < ring.len()
        invariant
            i <= ring@.len(),
            stands_for(set_keys(seen), ring@.take(i as int)),
            stands_for(set_keys(twice), out@),
            out@ == repeated(ring@.take(i as int)),
        decreases ring.len() - i,
    {
        let p = ring[i];
        let ghost before = set_keys(seen);
        let added = insert_key(&mut seen, key_of(&p));
        proof {
            assert(ring@.take(i as int + 1) == ring@.take(i as int).push(p));
            assert(ring@.take(i as int + 1).drop_last() == ring@.take(i as int));
            lemma_stands_for_push(before, ring@.take(i as int), p, added);
        }
        if !added {
            let ghost before_twice = set_keys(twice);
            let fresh = insert_key(&mut twice, key_of(&p));
            proof {
                lemma_stands_for_push(before_twice, out@, p, fresh);
            }
            if fresh {
                out.push(p);
            } else {
                proof {
                    lemma_stands_for_same(set_keys(twice), out@, p);
                }
            }
        }
        i = i + 1;
    }
    assert(ring@.take(i as int) == ring@);
    out
}

proof fn lemma_stands_for_same(keys: Seq<PlaceKey>, s: Seq<Point>, q: Point)
    requires
        stands_for(keys, s.push(q)),
        occurs(s, q),
    ensures
        stands_for(keys, s),
{
    assert(s.push(q).drop_last() == s);
    assert forall|p: Point| keys.contains(#[trigger] place_key(p)) == occurs(s, p) by {
        if q.same_place(p) {
            lemma_occurs_same(s, q, p);
        }
    }
}

/// Points at the same place occur in the same sequences.
pub proof fn lemma_occurs_same(s: Seq<Point>, q: Point, p: Point)
    requires
        q.same_place(p),
    ensures
        occurs(s, q) == occurs(s, p),
    decreases s.len(),
{
    if s.len() > 0 {
        lemma_occurs_same(s.drop_last(), q, p);
    }
}

/// The declared or computed bounds of a ring.
#[derive(Clone, Copy, Debug, PartialEq, Eq)]
pub struct Bounds {
    pub min_lat: Decimal,
    pub min_lon: Decimal,
    pub max_lat: Decimal,
    pub max_lon: Decimal,
}

/// Every number of the sequence is well formed.
pub open spec fn all_wf(s: Seq<Decimal>) -> bool {
    forall|i: int| 0 <= i < s.len() ==> (#[trigger] s[i]).wf()
}

/// The latitudes of a ring, in order.
pub open spec fn lats(ring: Seq<Point>) -> Seq<Decimal> {
    ring.map_values(|p: Point| p.lat)
}

/// The longitudes of a ring, in order.
pub open spec fn lons(ring: Seq<Point>) -> Seq<Decimal> {
    ring.map_values(|p: Point| p.lon)
}

/// The least number of a non-empty sequence; of several equal ones the
/// first.
pub open spec fn first_least(s: Seq<Decimal>) -> Decimal
    recommends
        s.len() > 0,
    decreases s.len(),
{
    if s.len() <= 1 {
        s[0]
    } else {
        let m = first_least(s.drop_last());
        if s.last().units() < m.units() {
            s.last()
        } else {
            m
        }
    }
}

/// The greatest number of a non-empty sequence; of several equal ones the
/// last.
pub open spec fn last_greatest(s: Seq<Decimal>) -> Decimal
    recommends
        s.len() > 0,
    decreases s.len(),
{
    if s.len() <= 1 {
        s[0]
    } else {
        let m = last_greatest(s.drop_last());
        if s.last().units() < m.units() {
            m
        } else {
            s.last()
        }
    }
}

/// Half a turn, 180 degrees.
pub open spec fn half_turn() -> Decimal {
    Decimal { mantissa: 180, scale: 0 }
}

/// Whether the span from `min_lon` to `max_lon` is more than half a turn,
/// so that the ring is taken to cross the antimeridian. `None` where the
/// subtraction overflows.
pub open spec fn crosses_antimeridian(min_lon: Decimal, max_lon: Decimal) -> Option<bool> {
    match decimal_difference(max_lon, min_lon) {
        Some(span) => Some(half_turn().units() < span.units()),
        None => None,
    }
}

/// The bounds of a non-empty ring: the least and greatest latitude, and the
/// least and greatest longitude, these two exchanged where the ring is
/// taken to cross the antimeridian.
pub open spec fn bounds_of(ring: Seq<Point>) -> Option<Bounds>
    recommends
        ring.len() > 0,
{
    let lo = first_least(lons(ring));
    let hi = last_greatest(lons(ring));
    match crosses_antimeridian(lo, hi) {
        Some(crossing) => Some(
            Bounds {
                min_lat: first_least(lats(ring)),
                min_lon: if crossing {
                    hi
                } else {
                    lo
                },
                max_lat: last_greatest(lats(ring)),
                max_lon: if crossing {
                    lo
                } else {
                    hi
                },
            },
        ),
        None => None,
    }
}

/// Exchanges the two longitudes where their span is more than half a turn.
/// Fails, changing nothing, where the subtraction overflows.
pub fn fix_min_max_lon(min_lon: &mut Decimal, max_lon: &mut Decimal) -> (r: Result<
    (),
    FIRParsingError,
>)
    requires
        old(min_lon).wf(),
        old(max_lon).wf(),
    ensures
        final(min_lon).wf(),
        final(max_lon).wf(),
        match crosses_antimeridian(*old(min_lon), *old(max_lon)) {
            Some(crossing) => r == Ok::<(), FIRParsingError>(()) && *final(min_lon) == (if crossing {
                *old(max_lon)
            } else {
                *old(min_lon)
            }) && *final(max_lon) == (if crossing {
                *old(min_lon)
            } else {
                *old(max_lon)
            }),
            None => r == Err::<(), FIRParsingError>(FIRParsingError::DecimalOverflow)
                && *final(min_lon) == *old(min_lon) && *final(max_lon) == *old(max_lon),
        },
{
    match subtract(*max_lon, *min_lon) {
        Some(span) => {
            if Decimal::from_int(180).lt(span) {
                let lo = *min_lon;
                *min_lon = *max_lon;
                *max_lon = lo;
            }
            Ok(())
        },
        None => Err(FIRParsingError::DecimalOverflow),
    }
}

/// The least number of a sequence, the first of several.
pub fn least(s: &Vec<Decimal>) -> (r: Decimal)
    requires
        s@.len() > 0,
        all_wf(s@),
    ensures
        r == first_least(s@),
        r.wf(),
{
    let mut m = s[0];
    let mut i: usize = 1;
    assert(s@.take(1).drop_last().len() == 0);
    while i < s.len()
        invariant
            1 <= i <= s@.len(),
            all_wf(s@),
            m.wf(),
            m == first_least(s@.take(i as int)),
        decreases s.len() - i,
    {
        assert(s@.take(i as int + 1).drop_last() == s@.take(i as int));
        if s[i].lt(m) {
            m = s[i];
        }
        i = i + 1;
    }
    assert(s@.take(i as int) == s@);
    m
}

/// The greatest number of a sequence, the last of several.
pub fn greatest(s: &Vec<Decimal>) -> (r: Decimal)
    requires
        s@.len() > 0,
        all_wf(s@),
    ensures
        r == last_greatest(s@),
        r.wf(),
{
    let mut m = s[0];
    let mut i: usize = 1;
    assert(s@.take(1).drop_last().len() == 0);
    while i < s.len()
        invariant
            1 <= i <= s@.len(),
            all_wf(s@),
            m.wf(),
            m == last_greatest(s@.take(i as int)),
        decreases s.len() - i,
    {
        assert(s@.take(i as int + 1).drop_last() == s@.take(i as int));
        if !s[i].lt(m) {
            m = s[i];
        }
        i = i + 1;
    }
    assert(s@.take(i as int) == s@);
    m
}

/// The latitudes and the longitudes of a ring.
fn coordinates(ring: &Vec<Point>) -> (r: (Vec<Decimal>, Vec<Decimal>))
    requires
        ring_wf(ring@),
    ensures
        r.0@ == lats(ring@),
        r.1@ == lons(ring@),
        all_wf(r.0@),
        all_wf(r.1@),
{
    let mut la: Vec<Decimal> = Vec::new();
    let mut lo: Vec<Decimal> = Vec::new();
    let mut i: usize = 0;
    while i < ring.len()
        invariant
            i <= ring@.len(),
            ring_wf(ring@),
            la@ == lats(ring@.take(i as int)),
            lo@ == lons(ring@.take(i as int)),
            all_wf(la@),
            all_wf(lo@),
        decreases ring.len() - i,
    {
        assert(ring@.take(i as int + 1) == ring@.take(i as int).push(ring@[i as int]));
        assert(ring@[i as int].wf());
        la.push(ring[i].lat);
        lo.push(ring[i].lon);
        assert(la@ == lats(ring@.take(i as int + 1)));
        assert(lo@ == lons(ring@.take(i as int + 1)));
        i = i + 1;
    }
    assert(ring@.take(i as int) == ring@);
    (la, lo)
}

/// Computes the bounds of a ring.
pub fn bounding_box(ring: &Vec<Point>) -> (r: Result<Bounds, FIRParsingError>)
    requires
        ring@.len() > 0,
        ring_wf(ring@),
    ensures
        match bounds_of(ring@) {
            Some(b) => r == Ok::<Bounds, FIRParsingError>(b) && b.min_lat.wf() && b.min_lon.wf()
                && b.max_lat.wf() && b.max_lon.wf(),
            None => r == Err::<Bounds, FIRParsingError>(FIRParsingError::DecimalOverflow),
        },
{
    let (la, lo) = coordinates(ring);
    let min_lat = least(&la);
    let max_lat = greatest(&la);
    let mut min_lon = least(&lo);
    let mut max_lon = greatest(&lo);
    match fix_min_max_lon(&mut min_lon, &mut max_lon) {
        Ok(()) => Ok(Bounds { min_lat, min_lon, max_lat, max_lon }),
        Err(e) => Err(e),
    }
}

} // verus!
