//! Laws that relate the functions of the library to each other.

use crate::boundary::{
    bounds_finding, duplicate_finding, fixed, fixed_ring, max_lat_name, max_lon_name, min_lat_name,
    min_lon_name, mismatch, mismatches, strict_findings, winding_finding, BoundaryModel,
};
use crate::boundary::Mode;
use crate::errors::{ErrorModel, FIRParsingError};
use crate::collection::{
    assembled, definitions, lemma_push_contains, multiple_firs, repeated_bases, PassModel,
};
use crate::parser::{line_at, record_reading, ring_reading, Reading, RingReading};
use crate::text::{count_from_text, fields_of};
use crate::fill::{fill_of, Fill};
use crate::point::Point;
use crate::ring::{bounds_of, distinct, lemma_occurs_same, occurs, repeated};
use vstd::prelude::*;

verus! {

/// No two points of the sequence are at the same place.
pub open spec fn no_repeats(s: Seq<Point>) -> bool {
    forall|i: int, j: int| 0 <= i < j < s.len() ==> !(#[trigger] s[i]).same_place(#[trigger] s[j])
}

/// A point occurs in a sequence exactly if one of its members is at the
/// point's place.
pub proof fn lemma_occurs_index(s: Seq<Point>, p: Point)
    ensures
        occurs(s, p) == exists|i: int| 0 <= i < s.len() && (#[trigger] s[i]).same_place(p),
    decreases s.len(),
{
    if s.len() > 0 {
        let t = s.drop_last();
        lemma_occurs_index(t, p);
        if occurs(s, p) {
            if s.last().same_place(p) {
                assert(s[s.len() - 1].same_place(p));
            } else {
                let i = choose|i: int| 0 <= i < t.len() && (#[trigger] t[i]).same_place(p);
                assert(s[i].same_place(p));
            }
        }
        if exists|i: int| 0 <= i < s.len() && (#[trigger] s[i]).same_place(p) {
            let i = choose|i: int| 0 <= i < s.len() && (#[trigger] s[i]).same_place(p);
            if i < s.len() - 1 {
                assert(t[i].same_place(p));
            }
        }
    }
}

/// Removing repeated points removes no place.
pub proof fn lemma_distinct_keeps_places(s: Seq<Point>, p: Point)
    ensures
        occurs(distinct(s), p) == occurs(s, p),
    decreases s.len(),
{
    if s.len() > 0 {
        let t = s.drop_last();
        lemma_distinct_keeps_places(t, p);
        if occurs(t, s.last()) {
            if s.last().same_place(p) {
                lemma_occurs_same(t, s.last(), p);
            }
        } else {
            assert(distinct(s).drop_last() == distinct(t));
        }
    }
}

/// What is left after removing repeated points has no repeated point.
pub proof fn lemma_distinct_has_no_repeats(s: Seq<Point>)
    ensures
        no_repeats(distinct(s)),
    decreases s.len(),
{
    if s.len() > 0 {
        let t = s.drop_last();
        lemma_distinct_has_no_repeats(t);
        if !occurs(t, s.last()) {
            let d = distinct(t);
            lemma_distinct_keeps_places(t, s.last());
            lemma_occurs_index(d, s.last());
            assert forall|i: int, j: int| 0 <= i < j < d.push(s.last()).len() implies !(
            #[trigger] d.push(s.last())[i]).same_place(#[trigger] d.push(s.last())[j]) by {
                if j == d.len() {
                    assert(d[i] == d.push(s.last())[i]);
                    if d[i].same_place(s.last()) {
                        assert(false);
                    }
                } else {
                    assert(d[i] == d.push(s.last())[i]);
                    assert(d[j] == d.push(s.last())[j]);
                }
            }
        }
    }
}

/// Removing repeated points from a sequence without any changes nothing.
pub proof fn lemma_distinct_of_no_repeats(s: Seq<Point>)
    requires
        no_repeats(s),
    ensures
        distinct(s) == s,
        repeated(s).len() == 0,
    decreases s.len(),
{
    if s.len() > 0 {
        let t = s.drop_last();
        assert(no_repeats(t)) by {
            assert forall|i: int, j: int| 0 <= i < j < t.len() implies !(#[trigger] t[i]).same_place(
                #[trigger] t[j],
            ) by {
                assert(t[i] == s[i] && t[j] == s[j]);
            }
        }
        lemma_distinct_of_no_repeats(t);
        lemma_occurs_index(t, s.last());
        if occurs(t, s.last()) {
            let i = choose|i: int| 0 <= i < t.len() && (#[trigger] t[i]).same_place(s.last());
            assert(s[i].same_place(s[s.len() - 1]));
            assert(false);
        }
        assert(t.push(s.last()) == s);
    }
}

/// A sequence without repeated points has none when turned round.
pub proof fn lemma_reverse_has_no_repeats(s: Seq<Point>)
    requires
        no_repeats(s),
    ensures
        no_repeats(s.reverse()),
{
    let r = s.reverse();
    assert forall|i: int, j: int| 0 <= i < j < r.len() implies !(#[trigger] r[i]).same_place(
        #[trigger] r[j],
    ) by {
        let a = s.len() - 1 - j;
        let b = s.len() - 1 - i;
        assert(r[i] == s[b] && r[j] == s[a]);
        assert(!s[a].same_place(s[b]));
    }
}

/// The ring that fix mode leaves is a polygon without repeated points.
pub proof fn lemma_fixed_ring_is_clean(ring: Seq<Point>)
    ensures
        fixed_ring(ring) matches Ok(r) ==> fill_of(r) == Ok::<Fill, FIRParsingError>(Fill::Polygon)
            && no_repeats(r),
{
    lemma_distinct_has_no_repeats(ring);
    lemma_reverse_has_no_repeats(distinct(ring));
}

/// Fix mode is idempotent on rings: a ring that it has repaired is left as
/// it is.
pub proof fn lemma_fixed_ring_idempotent(ring: Seq<Point>)
    ensures
        fixed_ring(ring) matches Ok(r) ==> fixed_ring(r) == fixed_ring(ring),
{
    lemma_fixed_ring_is_clean(ring);
    match fixed_ring(ring) {
        Ok(r) => {
            lemma_distinct_of_no_repeats(r);
        },
        Err(_) => {},
    }
}

/// Fix mode is idempotent: repairing a repaired record changes nothing.
pub proof fn lemma_fix_idempotent(b: BoundaryModel)
    ensures
        fixed(b) matches Ok(f) ==> fixed(f) == fixed(b),
{
    lemma_fixed_ring_idempotent(b.boundary_corners);
}

/// Strict mode finds nothing in a record that fix mode has repaired.
pub proof fn lemma_fixed_passes_strict(b: BoundaryModel)
    ensures
        fixed(b) matches Ok(f) ==> strict_findings(f) == Ok::<Seq<ErrorModel>, ErrorModel>(
            Seq::empty(),
        ),
{
    match fixed(b) {
        Ok(f) => {
            lemma_fixed_ring_is_clean(b.boundary_corners);
            lemma_distinct_of_no_repeats(f.boundary_corners);
            match bounds_of(f.boundary_corners) {
                Some(computed) => {
                    assert(mismatches(f.bounds, computed) =~= Seq::empty());
                    assert(winding_finding(Fill::Polygon, f.icao) + duplicate_finding(
                        f.boundary_corners,
                        f.icao,
                    ) + bounds_finding(f.bounds, computed, f.icao) =~= Seq::<ErrorModel>::empty());
                },
                None => {},
            }
        },
        Err(_) => {},
    }
}

/// Where strict mode finds nothing, fix mode keeps the ring and every bound
/// keeps its value.
pub proof fn lemma_clean_record_is_fixed(b: BoundaryModel)
    requires
        strict_findings(b) == Ok::<Seq<ErrorModel>, ErrorModel>(Seq::empty()),
    ensures
        fixed(b) matches Ok(f) && f.boundary_corners == b.boundary_corners
            && f.bounds.min_lat.same_value(b.bounds.min_lat) && f.bounds.min_lon.same_value(
            b.bounds.min_lon,
        ) && f.bounds.max_lat.same_value(b.bounds.max_lat) && f.bounds.max_lon.same_value(
            b.bounds.max_lon,
        ) && f.icao == b.icao && f.id == b.id && f.lable == b.lable && f.is_oseanic
            == b.is_oseanic && f.is_extension == b.is_extension,
{
    let ring = b.boundary_corners;
    match (fill_of(ring), bounds_of(ring)) {
        (Ok(fill), Some(computed)) => {
            let w = winding_finding(fill, b.icao);
            let d = duplicate_finding(ring, b.icao);
            let m = bounds_finding(b.bounds, computed, b.icao);
            assert((w + d + m).len() == w.len() + d.len() + m.len());
            assert(repeated(ring).len() == 0);
            lemma_no_repeated_means_distinct(ring);
            let a = mismatch(b.bounds.min_lat, computed.min_lat, min_lat_name());
            let c = mismatch(b.bounds.min_lon, computed.min_lon, min_lon_name());
            let e = mismatch(b.bounds.max_lat, computed.max_lat, max_lat_name());
            let g = mismatch(b.bounds.max_lon, computed.max_lon, max_lon_name());
            assert((a + c + e + g).len() == a.len() + c.len() + e.len() + g.len());
        },
        _ => {},
    }
}

/// A record that strict mode accepts is accepted by fix mode too, with the
/// same ring and with bounds of the same values: the two modes differ only
/// on records with defects.
pub proof fn lemma_strict_record_is_fix_record(lines: Seq<Seq<char>>, at: int, count: usize)
    ensures
        record_reading(lines, at, count, Mode::Strict) matches Reading::Record {
            record,
            lines_read,
        } ==> (record_reading(lines, at, count, Mode::Fix) matches Reading::Record {
            record: repaired,
            lines_read: as_many,
        } && as_many == lines_read && repaired.boundary_corners == record.boundary_corners
            && repaired.icao == record.icao && repaired.id == record.id && repaired.lable
            == record.lable && repaired.bounds.min_lat.same_value(record.bounds.min_lat)
            && repaired.bounds.min_lon.same_value(record.bounds.min_lon)
            && repaired.bounds.max_lat.same_value(record.bounds.max_lat)
            && repaired.bounds.max_lon.same_value(record.bounds.max_lon)),
{
    match record_reading(lines, at, count, Mode::Strict) {
        Reading::Record { record, lines_read } => {
            lemma_clean_record_is_fixed(record);
        },
        _ => {},
    }
}

/// Up to the look at the ring the two modes read alike: where one mode
/// meets the end of the input, so does the other.
pub proof fn lemma_end_of_input_in_both_modes(lines: Seq<Seq<char>>, at: int, count: usize)
    ensures
        record_reading(lines, at, count, Mode::Strict) is EndOfInput == record_reading(
            lines,
            at,
            count,
            Mode::Fix,
        ) is EndOfInput,
{
}

/// Every point that comes out of reading point lines is in range.
pub proof fn lemma_read_points_in_range(lines: Seq<Seq<char>>, from: int, n: nat)
    ensures
        ring_reading(lines, from, n) matches RingReading::Read { ring, rejected } ==> forall|
            i: int,
        | 0 <= i < ring.len() ==> (#[trigger] ring[i]).in_range(),
    decreases n,
{
    if n > 0 {
        lemma_read_points_in_range(lines, from, (n - 1) as nat);
    }
}

/// Every point left after removing repeated points is a point of the ring.
pub proof fn lemma_distinct_members(s: Seq<Point>)
    ensures
        forall|j: int| 0 <= j < distinct(s).len() ==> s.contains(#[trigger] distinct(s)[j]),
    decreases s.len(),
{
    if s.len() > 0 {
        let t = s.drop_last();
        lemma_distinct_members(t);
        assert forall|j: int| 0 <= j < distinct(s).len() implies s.contains(
            #[trigger] distinct(s)[j],
        ) by {
            if j < distinct(t).len() {
                let p = distinct(t)[j];
                assert(t.contains(p));
                let i = choose|i: int| 0 <= i < t.len() && t[i] == p;
                assert(s[i] == p);
            } else {
                assert(s[s.len() - 1] == s.last());
            }
        }
    }
}

/// A record that is accepted, in either mode, has its label and every point
/// of its ring in range: a point out of range never reaches the look at the
/// ring.
pub proof fn lemma_accepted_record_in_range(lines: Seq<Seq<char>>, at: int, count: usize, mode: Mode)
    ensures
        record_reading(lines, at, count, mode) matches Reading::Record { record, lines_read }
            ==> record.lable.in_range() && forall|i: int|
            0 <= i < record.boundary_corners.len() ==> (
            #[trigger] record.boundary_corners[i]).in_range(),
{
    let fields = fields_of(line_at(lines, at));
    if fields.len() == 10 {
        match count_from_text(fields[3]) {
            Some(amount) => {
                lemma_read_points_in_range(lines, at + 1, amount as nat);
                match ring_reading(lines, at + 1, amount as nat) {
                    RingReading::Read { ring, rejected } => {
                        lemma_distinct_members(ring);
                        let d = distinct(ring);
                        assert forall|i: int| 0 <= i < d.len() implies (#[trigger] d[i]).in_range() by {
                            let k = choose|k: int| 0 <= k < ring.len() && ring[k] == d[i];
                            assert(ring[k].in_range());
                        }
                        assert forall|i: int| 0 <= i < d.reverse().len() implies (
                        #[trigger] d.reverse()[i]).in_range() by {
                            assert(d.reverse()[i] == d[d.len() - 1 - i]);
                        }
                    },
                    _ => {},
                }
            },
            None => {},
        }
    }
}

/// The regions listed as defined more than once are exactly those with two
/// definitions or more.
pub proof fn lemma_repeated_bases(s: Seq<BoundaryModel>, icao: Seq<char>, oceanic: bool)
    ensures
        repeated_bases(s).contains((icao, oceanic)) == (definitions(s, icao, oceanic) >= 2),
    decreases s.len(),
{
    if s.len() > 0 {
        let t = s.drop_last();
        lemma_repeated_bases(t, icao, oceanic);
        if !s.last().is_extension && definitions(t, s.last().icao, s.last().is_oseanic) == 1 {
            lemma_push_contains(
                repeated_bases(t),
                (s.last().icao, s.last().is_oseanic),
                (icao, oceanic),
            );
        }
    } else {
        assert(!repeated_bases(s).contains((icao, oceanic)));
    }
}

/// A region defined twice or more is fatal to the pass, whatever else the
/// pass has found, and is named with the number of its definitions.
pub proof fn lemma_twice_defined_is_fatal(
    s: Seq<BoundaryModel>,
    errors: Seq<ErrorModel>,
    mode: Mode,
    icao: Seq<char>,
    oceanic: bool,
)
    requires
        definitions(s, icao, oceanic) >= 2,
    ensures
        assembled(s, errors, mode) matches PassModel::Fatal(ErrorModel::MultipleFirs(named))
            && named.contains((icao, definitions(s, icao, oceanic) as usize)),
{
    lemma_repeated_bases(s, icao, oceanic);
    let r = repeated_bases(s);
    let j = choose|j: int| 0 <= j < r.len() && r[j] == (icao, oceanic);
    assert(multiple_firs(s)[j] == (icao, definitions(s, icao, oceanic) as usize));
}

/// Where no region is defined twice, the pass is not stopped by the
/// collection.
pub proof fn lemma_once_defined_is_not_fatal(
    s: Seq<BoundaryModel>,
    errors: Seq<ErrorModel>,
    mode: Mode,
)
    requires
        forall|icao: Seq<char>, oceanic: bool| #[trigger] definitions(s, icao, oceanic) <= 1,
    ensures
        !(assembled(s, errors, mode) is Fatal),
{
    let r = repeated_bases(s);
    if r.len() != 0 {
        lemma_repeated_bases(s, r[0].0, r[0].1);
        assert(r.contains(r[0]));
        assert(definitions(s, r[0].0, r[0].1) <= 1);
    }
}

/// A ring in which no point repeats an earlier place is left as it is when
/// repeated points are removed.
pub proof fn lemma_no_repeated_means_distinct(s: Seq<Point>)
    requires
        repeated(s).len() == 0,
    ensures
        distinct(s) == s,
    decreases s.len(),
{
    if s.len() > 0 {
        let t = s.drop_last();
        lemma_repeated_grows(s);
        lemma_no_repeated_means_distinct(t);
        assert(t.push(s.last()) == s);
    }
}

/// The list of repeated points never shrinks as the ring grows.
pub proof fn lemma_repeated_grows(s: Seq<Point>)
    requires
        s.len() > 0,
    ensures
        repeated(s.drop_last()).len() <= repeated(s).len(),
{
}

} // verus!
