//! One boundary record, its check in strict mode, its repair in fix mode,
//! and its lines in the native format.

use crate::decimal::{decimal_text, Decimal};
use crate::errors::{models, ErrorCollector, ErrorModel, FIRParsingError};
use crate::fill::{fill_of, polygon_or_hole, ring_wf, Fill};
use crate::point::Point;
use crate::ring::{
    bounding_box, bounds_of, dedup_points, distinct, duplicate_points, repeated, Bounds,
};
use crate::text::{count_text, count_to_text, views};
use vstd::prelude::*;
use vstd::string::*;

verus! {

/// What is done about a defect: report it, or repair it.
#[derive(Debug, Copy, Clone, PartialEq, Eq, Structural, PartialOrd, Ord)]
pub enum Mode {
    Strict,
    Fix,
}

/// One boundary record.
#[derive(Debug, Eq, PartialEq, Clone)]
pub struct FIRBoundary {
    /// The position of the record in its input, from 0.
    pub id: usize,
    pub icao: String,
    pub is_oseanic: bool,
    pub is_extension: bool,
    pub min_lat: Decimal,
    pub min_lon: Decimal,
    pub max_lat: Decimal,
    pub max_lon: Decimal,
    pub lable: Point,
    pub boundary_corners: Vec<Point>,
}

/// A record with its text and ring as mathematical sequences.
pub struct BoundaryModel {
    pub id: usize,
    pub icao: Seq<char>,
    pub is_oseanic: bool,
    pub is_extension: bool,
    pub bounds: Bounds,
    pub lable: Point,
    pub boundary_corners: Seq<Point>,
}

impl View for FIRBoundary {
    type V = BoundaryModel;

    open spec fn view(&self) -> BoundaryModel {
        BoundaryModel {
            id: self.id,
            icao: self.icao@,
            is_oseanic: self.is_oseanic,
            is_extension: self.is_extension,
            bounds: Bounds {
                min_lat: self.min_lat,
                min_lon: self.min_lon,
                max_lat: self.max_lat,
                max_lon: self.max_lon,
            },
            lable: self.lable,
            boundary_corners: self.boundary_corners@,
        }
    }
}

/// The four bounds are well-formed decimals.
pub open spec fn bounds_wf(b: Bounds) -> bool {
    b.min_lat.wf() && b.min_lon.wf() && b.max_lat.wf() && b.max_lon.wf()
}

/// The message of the error for a flag that is neither `0` nor `1`.
pub open spec fn flag_message(found: Seq<char>) -> Seq<char> {
    "only supports '0' or '1' as values, found: "@ + found
}

/// Reads a flag: `0` is false and `1` is true; nothing else is a flag.
pub fn numstr_to_bool(a: &str) -> (r: Result<bool, FIRParsingError>)
    ensures
        a@ == seq!['0'] ==> r == Ok::<bool, FIRParsingError>(false),
        a@ == seq!['1'] ==> r == Ok::<bool, FIRParsingError>(true),
        a@ != seq!['0'] && a@ != seq!['1'] ==> (r matches Err(FIRParsingError::FIRParsing(m))
            && m@ == flag_message(a@)),
{
    if a.unicode_len() == 1 {
        let c = a.get_char(0);
        if c == '0' {
            assert(a@ =~= seq!['0']);
            return Ok(false);
        }
        if c == '1' {
            assert(a@ =~= seq!['1']);
            return Ok(true);
        }
    }
    let mut m = String::from_str("only supports '0' or '1' as values, found: ");
    m.append(a);
    Err(FIRParsingError::FIRParsing(m))
}

/// The digit of a flag.
pub fn bool_to_num(b: bool) -> (r: u8)
    ensures
        r == if b {
            1u8
        } else {
            0u8
        },
{
    match b {
        true => 1,
        false => 0,
    }
}

/// The name of a bound, as reports give it.
pub open spec fn min_lat_name() -> Seq<char> {
    "minimum latitude"@
}

pub open spec fn min_lon_name() -> Seq<char> {
    "minimum longitude"@
}

pub open spec fn max_lat_name() -> Seq<char> {
    "maximum latitude"@
}

pub open spec fn max_lon_name() -> Seq<char> {
    "maximum longitude"@
}

/// A declared bound with the computed one and its name, where the two
/// differ by value; nothing where they agree.
pub open spec fn mismatch(declared: Decimal, computed: Decimal, name: Seq<char>) -> Seq<
    (Decimal, Decimal, Seq<char>),
> {
    if declared.same_value(computed) {
        Seq::empty()
    } else {
        seq![(declared, computed, name)]
    }
}

/// The bounds that differ, in the order minimum latitude, minimum
/// longitude, maximum latitude, maximum longitude.
pub open spec fn mismatches(declared: Bounds, computed: Bounds) -> Seq<
    (Decimal, Decimal, Seq<char>),
> {
    mismatch(declared.min_lat, computed.min_lat, min_lat_name()) + mismatch(
        declared.min_lon,
        computed.min_lon,
        min_lon_name(),
    ) + mismatch(declared.max_lat, computed.max_lat, max_lat_name()) + mismatch(
        declared.max_lon,
        computed.max_lon,
        max_lon_name(),
    )
}

/// The report on the direction: a ring drawn clockwise is reported.
pub open spec fn winding_finding(fill: Fill, icao: Seq<char>) -> Seq<ErrorModel> {
    if fill == Fill::Hole {
        seq![ErrorModel::AirspaceDrawDirection(icao)]
    } else {
        Seq::empty()
    }
}

/// The report on repeated vertices: one error that lists them all.
pub open spec fn duplicate_finding(ring: Seq<Point>, icao: Seq<char>) -> Seq<ErrorModel> {
    if repeated(ring).len() != 0 {
        seq![ErrorModel::DuplicatePointError { points: repeated(ring), owner: icao }]
    } else {
        Seq::empty()
    }
}

/// The report on the bounds: one error that lists every bound that differs.
pub open spec fn bounds_finding(declared: Bounds, computed: Bounds, icao: Seq<char>) -> Seq<
    ErrorModel,
> {
    if mismatches(declared, computed).len() != 0 {
        seq![ErrorModel::WrongMinMax(mismatches(declared, computed), icao)]
    } else {
        Seq::empty()
    }
}

/// What strict mode finds in a record: the recoverable defects in the order
/// direction, repeated vertices, bounds; or the fatal error of a ring
/// without direction or of arithmetic that overflowed.
pub open spec fn strict_findings(b: BoundaryModel) -> Result<Seq<ErrorModel>, ErrorModel> {
    match fill_of(b.boundary_corners) {
        Err(e) => Err(e@),
        Ok(fill) => match bounds_of(b.boundary_corners) {
            None => Err(ErrorModel::DecimalOverflow),
            Some(computed) => Ok(
                winding_finding(fill, b.icao) + duplicate_finding(b.boundary_corners, b.icao)
                    + bounds_finding(b.bounds, computed, b.icao),
            ),
        },
    }
}

/// The ring as fix mode leaves it: without repeated vertices, and turned
/// round if it was drawn clockwise. The turned ring must then be a polygon.
pub open spec fn fixed_ring(ring: Seq<Point>) -> Result<Seq<Point>, ErrorModel> {
    let d = distinct(ring);
    match fill_of(d) {
        Err(e) => Err(e@),
        Ok(Fill::Polygon) => Ok(d),
        Ok(Fill::Hole) => match fill_of(d.reverse()) {
            Err(e) => Err(e@),
            Ok(Fill::Polygon) => Ok(d.reverse()),
            Ok(Fill::Hole) => Err(ErrorModel::DegenerateRing),
        },
    }
}

/// The record as fix mode leaves it: the ring repaired and the bounds
/// computed from it.
pub open spec fn fixed(b: BoundaryModel) -> Result<BoundaryModel, ErrorModel> {
    match fixed_ring(b.boundary_corners) {
        Err(e) => Err(e),
        Ok(ring) => match bounds_of(ring) {
            None => Err(ErrorModel::DecimalOverflow),
            Some(bounds) => Ok(BoundaryModel { bounds, boundary_corners: ring, ..b }),
        },
    }
}

/// The digit of a flag, as text.
pub open spec fn flag_text(b: bool) -> Seq<char> {
    if b {
        seq!['1']
    } else {
        seq!['0']
    }
}

/// The header line of a record.
pub open spec fn header_text(b: BoundaryModel) -> Seq<char> {
    b.icao + seq!['|'] + flag_text(b.is_oseanic) + seq!['|'] + flag_text(b.is_extension) + seq![
        '|',
    ] + count_text(b.boundary_corners.len()) + seq!['|'] + decimal_text(b.bounds.min_lat) + seq![
        '|',
    ] + decimal_text(b.bounds.min_lon) + seq!['|'] + decimal_text(b.bounds.max_lat) + seq!['|']
        + decimal_text(b.bounds.max_lon) + seq!['|'] + b.lable.text()
}

/// The lines of a record: its header, then one line for each point.
pub open spec fn record_lines(b: BoundaryModel) -> Seq<Seq<char>> {
    seq![header_text(b)] + b.boundary_corners.map_values(|p: Point| p.text())
}

/// A ring with a direction has at least two points.
pub proof fn lemma_directed_ring_len(ring: Seq<Point>)
    requires
        fill_of(ring).is_ok(),
    ensures
        ring.len() >= 2,
{
}

/// The points of a ring in the opposite order.
pub fn reversed(ring: &Vec<Point>) -> (r: Vec<Point>)
    ensures
        r@ == ring@.reverse(),
{
    let mut out: Vec<Point> = Vec::new();
    let n = ring.len();
    let mut i: usize = 0;
    while i < n
        invariant
            n == ring@.len(),
            i <= n,
            out@.len() == i,
            forall|j: int| 0 <= j < i ==> out@[j] == ring@[n - 1 - j],
        decreases n - i,
    {
        out.push(ring[n - 1 - i]);
        i = i + 1;
    }
    assert(out@ =~= ring@.reverse());
    out
}

fn add_mismatch(
    list: &mut Vec<(Decimal, Decimal, &'static str)>,
    declared: Decimal,
    computed: Decimal,
    name: &'static str,
)
    ensures
        mismatch_models(final(list)@) == mismatch_models(old(list)@) + mismatch(
            declared,
            computed,
            name@,
        ),
{
    if !declared.eq_value(computed) {
        list.push((declared, computed, name));
        assert(mismatch_models(list@) =~= mismatch_models(old(list)@) + mismatch(
            declared,
            computed,
            name@,
        ));
    } else {
        assert(mismatch_models(list@) =~= mismatch_models(old(list)@) + mismatch(
            declared,
            computed,
            name@,
        ));
    }
}

/// The models of a list of differing bounds.
pub open spec fn mismatch_models(l: Seq<(Decimal, Decimal, &'static str)>) -> Seq<
    (Decimal, Decimal, Seq<char>),
> {
    l.map_values(|e: (Decimal, Decimal, &'static str)| (e.0, e.1, e.2@))
}

impl FIRBoundary {
    /// All decimals of the record are well formed.
    pub open spec fn wf(&self) -> bool {
        &&& bounds_wf(self@.bounds)
        &&& self.lable.wf()
        &&& ring_wf(self.boundary_corners@)
    }

    /// The direction in which the record's ring is drawn.
    pub fn polygon_or_hole(&self) -> (r: Result<Fill, FIRParsingError>)
        requires
            self.wf(),
        ensures
            r == fill_of(self@.boundary_corners),
    {
        polygon_or_hole(&self.boundary_corners)
    }

    /// Checks the record in strict mode. The record is left as it is; what
    /// comes back are the recoverable defects, or a fatal error.
    pub fn validate(&self) -> (r: Result<ErrorCollector, FIRParsingError>)
        requires
            self.wf(),
        ensures
            match strict_findings(self@) {
                Ok(found) => r is Ok && models(r.unwrap()@) == found,
                Err(e) => r is Err && r.unwrap_err()@ == e,
            },
    {
        let mut errors = ErrorCollector::new();
        assert(models(errors@) =~= Seq::<ErrorModel>::empty());
        let fill = match self.polygon_or_hole() {
            Ok(f) => f,
            Err(e) => {
                return Err(e);
            },
        };
        proof {
            lemma_directed_ring_len(self@.boundary_corners);
        }
        if fill == Fill::Hole {
            let ghost before = errors@;
            let e = FIRParsingError::AirspaceDrawDirection(self.icao.clone());
            let _ = errors.adderror(e);
            assert(models(errors@) =~= models(before).push(e@));
        }
        assert(models(errors@) =~= winding_finding(fill, self@.icao));
        let duplicates = duplicate_points(&self.boundary_corners);
        if duplicates.len() != 0 {
            let ghost before = errors@;
            let e = FIRParsingError::DuplicatePointError {
                points: duplicates,
                owner: self.icao.clone(),
            };
            let _ = errors.adderror(e);
            assert(models(errors@) =~= models(before).push(e@));
        }
        assert(models(errors@) =~= winding_finding(fill, self@.icao) + duplicate_finding(
            self@.boundary_corners,
            self@.icao,
        ));
        let computed = match bounding_box(&self.boundary_corners) {
            Ok(b) => b,
            Err(e) => {
                return Err(e);
            },
        };
        let mut wrong: Vec<(Decimal, Decimal, &'static str)> = Vec::new();
        assert(mismatch_models(wrong@) =~= Seq::<(Decimal, Decimal, Seq<char>)>::empty());
        add_mismatch(&mut wrong, self.min_lat, computed.min_lat, "minimum latitude");
        add_mismatch(&mut wrong, self.min_lon, computed.min_lon, "minimum longitude");
        add_mismatch(&mut wrong, self.max_lat, computed.max_lat, "maximum latitude");
        add_mismatch(&mut wrong, self.max_lon, computed.max_lon, "maximum longitude");
        assert(mismatch_models(wrong@) =~= mismatches(self@.bounds, computed));
        if wrong.len() != 0 {
            let ghost before = errors@;
            let e = FIRParsingError::WrongMinMax(wrong, self.icao.clone());
            let _ = errors.adderror(e);
            assert(models(errors@) =~= models(before).push(e@));
        }
        assert(models(errors@) =~= winding_finding(fill, self@.icao) + duplicate_finding(
            self@.boundary_corners,
            self@.icao,
        ) + bounds_finding(self@.bounds, computed, self@.icao));
        Ok(errors)
    }

    /// Repairs the record in fix mode: repeated vertices go, a clockwise
    /// ring is turned round, and the bounds are computed anew. On a fatal
    /// error the record is left as it was.
    pub fn normalize(&mut self) -> (r: Result<(), FIRParsingError>)
        requires
            old(self).wf(),
        ensures
            match fixed(old(self)@) {
                Ok(m) => r is Ok && final(self)@ == m && final(self).wf(),
                Err(e) => r is Err && r.unwrap_err()@ == e && *final(self) == *old(self),
            },
    {
        let mut ring = dedup_points(&self.boundary_corners);
        let fill = match polygon_or_hole(&ring) {
            Ok(f) => f,
            Err(e) => {
                return Err(e);
            },
        };
        if fill == Fill::Hole {
            let turned = reversed(&ring);
            assert(ring_wf(turned@)) by {
                assert forall|i: int| 0 <= i < turned@.len() implies (#[trigger] turned@[i]).wf() by {
                    assert(turned@[i] == ring@[ring@.len() - 1 - i]);
                }
            }
            match polygon_or_hole(&turned) {
                Ok(Fill::Polygon) => {
                    ring = turned;
                },
                Ok(Fill::Hole) => {
                    return Err(FIRParsingError::DegenerateRing);
                },
                Err(e) => {
                    return Err(e);
                },
            }
        }
        proof {
            lemma_directed_ring_len(ring@);
        }
        let bounds = match bounding_box(&ring) {
            Ok(b) => b,
            Err(e) => {
                return Err(e);
            },
        };
        self.boundary_corners = ring;
        self.min_lat = bounds.min_lat;
        self.min_lon = bounds.min_lon;
        self.max_lat = bounds.max_lat;
        self.max_lon = bounds.max_lon;
        Ok(())
    }

    /// The header line of the record in the native format.
    pub fn header_line(&self) -> (r: String)
        requires
            self.wf(),
        ensures
            r@ == header_text(self@),
    {
        proof {
            reveal_strlit("|");
            reveal_strlit("0");
            reveal_strlit("1");
            assert("|"@ =~= seq!['|']);
            assert("0"@ =~= seq!['0']);
            assert("1"@ =~= seq!['1']);
        }
        let mut out = self.icao.clone();
        out.append("|");
        out.append(
            if bool_to_num(self.is_oseanic) == 1 {
                "1"
            } else {
                "0"
            },
        );
        out.append("|");
        out.append(
            if bool_to_num(self.is_extension) == 1 {
                "1"
            } else {
                "0"
            },
        );
        out.append("|");
        out.append(count_to_text(self.boundary_corners.len()).as_str());
        out.append("|");
        out.append(self.min_lat.to_text().as_str());
        out.append("|");
        out.append(self.min_lon.to_text().as_str());
        out.append("|");
        out.append(self.max_lat.to_text().as_str());
        out.append("|");
        out.append(self.max_lon.to_text().as_str());
        out.append("|");
        out.append(self.lable.to_fir_dat_str().as_str());
        out
    }

    /// The lines of the record in the native format.
    pub fn to_lines(&self) -> (r: Vec<String>)
        requires
            self.wf(),
        ensures
            views(r@) == record_lines(self@),
    {
        let mut out: Vec<String> = Vec::new();
        out.push(self.header_line());
        let mut i: usize = 0;
        while i < self.boundary_corners.len()
            invariant
                self.wf(),
                i <= self.boundary_corners@.len(),
                views(out@) == seq![header_text(self@)] + self.boundary_corners@.take(
                    i as int,
                ).map_values(|p: Point| p.text()),
            decreases self.boundary_corners.len() - i,
        {
            assert(self.boundary_corners@[i as int].wf());
            let line = self.boundary_corners[i].to_fir_dat_str();
            let ghost before = out@;
            out.push(line);
            assert(views(out@) =~= views(before).push(line@));
            assert(self.boundary_corners@.take(i as int + 1) == self.boundary_corners@.take(
                i as int,
            ).push(self.boundary_corners@[i as int]));
            assert(views(out@) =~= seq![header_text(self@)] + self.boundary_corners@.take(
                i as int + 1,
            ).map_values(|p: Point| p.text()));
            i = i + 1;
        }
        assert(self.boundary_corners@.take(i as int) == self.boundary_corners@);
        out
    }
}

/// The lines of a list of records.
pub open spec fn all_lines(records: Seq<FIRBoundary>) -> Seq<Seq<char>>
    decreases records.len(),
{
    if records.len() == 0 {
        Seq::empty()
    } else {
        all_lines(records.drop_last()) + record_lines(records.last()@)
    }
}

/// Writes a list of records in the native format: the lines of the file,
/// record after record.
pub fn write_to_file(firs: &Vec<FIRBoundary>) -> (r: Vec<String>)
    requires
        forall|i: int| 0 <= i < firs@.len() ==> (#[trigger] firs@[i]).wf(),
    ensures
        views(r@) == all_lines(firs@),
{
    let mut out: Vec<String> = Vec::new();
    let mut i: usize = 0;
    assert(firs@.take(0).len() == 0);
    assert(views(out@) =~= all_lines(firs@.take(0)));
    while i < firs.len()
        invariant
            i <= firs@.len(),
            forall|i: int| 0 <= i < firs@.len() ==> (#[trigger] firs@[i]).wf(),
            views(out@) == all_lines(firs@.take(i as int)),
        decreases firs.len() - i,
    {
        assert(firs@.take(i as int + 1).drop_last() == firs@.take(i as int));
        assert(firs@[i as int].wf());
        let mut lines = firs[i].to_lines();
        let ghost before = out@;
        let ghost added = lines@;
        out.append(&mut lines);
        assert(views(out@) =~= views(before) + views(added));
        i = i + 1;
    }
    assert(firs@.take(i as int) == firs@);
    out
}

} // verus!
