//! Reading one record from the lines of a file: a header line of ten
//! fields, then as many point lines as the header announces.

use crate::boundary::{
    fixed, flag_message, numstr_to_bool, strict_findings, BoundaryModel, FIRBoundary, Mode,
};
use crate::decimal::{decimal_from_text, Decimal};
use crate::errors::{models, ErrorCollector, ErrorModel, FIRParsingError};
use crate::fill::ring_wf;
use crate::point::{point_fields_message, point_reading, Point, PointReading};
use crate::ring::Bounds;
use crate::text::{count_from_text, count_text, count_to_text, fields_of, parse_count, split_fields, views};
use vstd::prelude::*;
use vstd::string::*;

verus! {

/// The line at a position, or the empty line past the end of the input.
pub open spec fn line_at(lines: Seq<Seq<char>>, k: int) -> Seq<char> {
    if 0 <= k < lines.len() {
        lines[k]
    } else {
        Seq::empty()
    }
}

/// The message of the error for a header with the wrong number of fields.
pub open spec fn header_fields_message(found: nat) -> Seq<char> {
    "Expected 10 fields, found: "@ + count_text(found)
}

/// What the point lines of a record read as.
pub enum RingReading {
    /// A line is no point at all: the pass stops.
    Fatal(ErrorModel),
    /// Every line is a point: those in range, in order, and an error for each
    /// one out of range.
    Read { ring: Seq<Point>, rejected: Seq<ErrorModel> },
}

/// The reading of the `n` lines from position `from` on as points. A line
/// past the end of the input reads as an empty line, which is no point.
pub open spec fn ring_reading(lines: Seq<Seq<char>>, from: int, n: nat) -> RingReading
    decreases n,
{
    if n == 0 {
        RingReading::Read { ring: Seq::empty(), rejected: Seq::empty() }
    } else {
        match ring_reading(lines, from, (n - 1) as nat) {
            RingReading::Fatal(e) => RingReading::Fatal(e),
            RingReading::Read { ring, rejected } => match point_reading(
                line_at(lines, from + n - 1),
            ) {
                PointReading::Point(p) => RingReading::Read { ring: ring.push(p), rejected },
                PointReading::OutOfRange(p) => RingReading::Read {
                    ring,
                    rejected: rejected.push(ErrorModel::PointOutOfRange(p)),
                },
                PointReading::FieldCount(k) => RingReading::Fatal(
                    ErrorModel::FIRParsing(point_fields_message(k)),
                ),
                PointReading::NotDecimal => RingReading::Fatal(ErrorModel::ParseDecimalError),
            },
        }
    }
}

/// The flag that a field stands for, if it is one.
pub open spec fn flag_reading(t: Seq<char>) -> Option<bool> {
    if t == seq!['0'] {
        Some(false)
    } else if t == seq!['1'] {
        Some(true)
    } else {
        None
    }
}

/// The record that ten header fields and a ring make, with the errors of
/// the points out of range, the label last; or the fatal error of a field
/// that is no flag or no number.
pub open spec fn header_reading(
    fields: Seq<Seq<char>>,
    ring: Seq<Point>,
    rejected: Seq<ErrorModel>,
    id: usize,
) -> Result<(BoundaryModel, Seq<ErrorModel>), ErrorModel> {
    if flag_reading(fields[1]).is_none() {
        Err(ErrorModel::FIRParsing(flag_message(fields[1])))
    } else if flag_reading(fields[2]).is_none() {
        Err(ErrorModel::FIRParsing(flag_message(fields[2])))
    } else {
        match (
            decimal_from_text(fields[4]),
            decimal_from_text(fields[5]),
            decimal_from_text(fields[6]),
            decimal_from_text(fields[7]),
            decimal_from_text(fields[8]),
            decimal_from_text(fields[9]),
        ) {
            (Some(min_lat), Some(min_lon), Some(max_lat), Some(max_lon), Some(lat), Some(lon)) => {
                let lable = Point { lat, lon };
                Ok(
                    (
                        BoundaryModel {
                            id,
                            icao: fields[0],
                            is_oseanic: flag_reading(fields[1]).unwrap(),
                            is_extension: flag_reading(fields[2]).unwrap(),
                            bounds: Bounds { min_lat, min_lon, max_lat, max_lon },
                            lable,
                            boundary_corners: ring,
                        },
                        if lable.in_range() {
                            rejected
                        } else {
                            rejected.push(ErrorModel::PointOutOfRange(lable))
                        },
                    ),
                )
            },
            _ => Err(ErrorModel::ParseDecimalError),
        }
    }
}

/// What reading one record comes to.
pub enum Reading {
    /// The input ended where a header was due.
    EndOfInput,
    /// The pass must stop.
    Fatal(ErrorModel),
    /// The record was read and has the recoverable defects listed.
    Rejected { errors: Seq<ErrorModel>, lines_read: nat },
    /// The record was read and accepted.
    Record { record: BoundaryModel, lines_read: nat },
}

/// The reading of the record that starts at line `at`, as the record number
/// `count`. A header without ten fields is the end of the input where no
/// line follows it, and fatal anywhere else. A record with a point out of
/// range is rejected before its ring is looked at. In strict mode a record
/// with defects is rejected and a clean one stays as it was read; in fix
/// mode the record is repaired.
pub open spec fn record_reading(lines: Seq<Seq<char>>, at: int, count: usize, mode: Mode) -> Reading {
    let fields = fields_of(line_at(lines, at));
    if fields.len() != 10 {
        if at + 1 >= lines.len() {
            Reading::EndOfInput
        } else {
            Reading::Fatal(ErrorModel::FIRParsing(header_fields_message(fields.len())))
        }
    } else {
        match count_from_text(fields[3]) {
            None => Reading::Fatal(ErrorModel::ParseIntError),
            Some(amount) => match ring_reading(lines, at + 1, amount as nat) {
                RingReading::Fatal(e) => Reading::Fatal(e),
                RingReading::Read { ring, rejected } => match header_reading(
                    fields,
                    ring,
                    rejected,
                    count,
                ) {
                    Err(e) => Reading::Fatal(e),
                    Ok((record, errors)) => {
                        let lines_read = (1 + amount) as nat;
                        if errors.len() != 0 {
                            Reading::Rejected { errors, lines_read }
                        } else {
                            match mode {
                                Mode::Strict => match strict_findings(record) {
                                    Err(e) => Reading::Fatal(e),
                                    Ok(found) => if found.len() != 0 {
                                        Reading::Rejected { errors: found, lines_read }
                                    } else {
                                        Reading::Record { record, lines_read }
                                    },
                                },
                                Mode::Fix => match fixed(record) {
                                    Err(e) => Reading::Fatal(e),
                                    Ok(repaired) => Reading::Record { record: repaired, lines_read },
                                },
                            }
                        }
                    },
                },
            },
        }
    }
}

/// The line at a position, or the empty line past the end.
fn read_line(lines: &Vec<String>, k: usize) -> (r: &str)
    ensures
        r@ == line_at(views(lines@), k as int),
{
    if k < lines.len() {
        lines[k].as_str()
    } else {
        proof {
            reveal_strlit("");
        }
        assert(""@ =~= Seq::<char>::empty());
        ""
    }
}

/// Reads the point lines of a record.
fn read_ring(lines: &Vec<String>, from: usize, amount: u64, errors: &mut ErrorCollector) -> (r:
    Result<Vec<Point>, FIRParsingError>)
    requires
        from <= lines@.len(),
        old(errors)@.len() == 0,
    ensures
        match ring_reading(views(lines@), from as int, amount as nat) {
            RingReading::Fatal(e) => r is Err && r.unwrap_err()@ == e,
            RingReading::Read { ring, rejected } => r is Ok && r.unwrap()@ == ring && models(
                final(errors)@,
            ) == rejected && ring_wf(ring) && from + amount <= lines@.len(),
        },
{
    let mut ring: Vec<Point> = Vec::new();
    let mut i: u64 = 0;
    let mut k: usize = from;
    let total = lines.len();
    assert(models(errors@) =~= Seq::<ErrorModel>::empty());
    while i < amount
        invariant
            i <= amount,
            total == lines@.len(),
            k == from + i,
            k <= lines@.len(),
            ring_wf(ring@),
            ring_reading(views(lines@), from as int, i as nat) == (RingReading::Read {
                ring: ring@,
                rejected: models(errors@),
            }),
        decreases amount - i,
    {
        let line = read_line(lines, k);
        let ghost before = errors@;
        proof {
            if k >= lines@.len() {
                assert(crate::text::pieces(line@).len() == 1);
                assert(fields_of(line@).len() == 1);
            }
        }
        match Point::from_str(line) {
            Ok(p) => {
                ring.push(p);
            },
            Err(e) => {
                proof {
                    if !e.is_recoverable() {
                        lemma_fatal_stays(views(lines@), from as int, (i + 1) as nat, amount as nat);
                    }
                }
                match errors.adderror(e) {
                    Ok(()) => {
                        assert(models(errors@) =~= models(before).push(e@));
                    },
                    Err(e) => {
                        return Err(e);
                    },
                }
            },
        }
        i = i + 1;
        k = k + 1;
    }
    Ok(ring)
}

/// A fatal error among the first lines of a ring is the outcome of reading
/// any number of lines beyond them.
proof fn lemma_fatal_stays(lines: Seq<Seq<char>>, from: int, n: nat, m: nat)
    requires
        n <= m,
        ring_reading(lines, from, n) is Fatal,
    ensures
        ring_reading(lines, from, m) == ring_reading(lines, from, n),
    decreases m - n,
{
    if n < m {
        lemma_fatal_stays(lines, from, n, (m - 1) as nat);
    }
}

impl FIRBoundary {
    /// Reads the record that starts at line `*linenr`, as the record number
    /// `*count`. After a record was read, accepted or not, `*linenr` is the
    /// line after it and `*count` is one more; after the end of the input
    /// or a fatal error both are as they were.
    pub fn parse_fields(lines: &Vec<String>, count: &mut usize, mode: Mode, linenr: &mut usize) -> (r:
        Result<Result<FIRBoundary, ErrorCollector>, FIRParsingError>)
        requires
            *old(count) < usize::MAX,
        ensures
            match record_reading(views(lines@), *old(linenr) as int, *old(count), mode) {
                Reading::EndOfInput => r is Err && r.unwrap_err()@ == ErrorModel::EOFError
                    && *final(linenr) == *old(linenr) && *final(count) == *old(count),
                Reading::Fatal(e) => r is Err && r.unwrap_err()@ == e && *final(linenr) == *old(
                    linenr,
                ) && *final(count) == *old(count),
                Reading::Rejected { errors, lines_read } => r matches Ok(Err(c)) && models(c@)
                    == errors && errors.len() > 0 && *final(linenr) == *old(linenr) + lines_read
                    && *final(linenr) <= lines@.len() && *final(count) == *old(count) + 1,
                Reading::Record { record, lines_read } => r matches Ok(Ok(b)) && b@ == record
                    && b.wf() && *final(linenr) == *old(linenr) + lines_read && *final(linenr)
                    <= lines@.len() && *final(count) == *old(count) + 1,
            },
    {
        let at: usize = *linenr;
        let total = lines.len();
        let header = read_line(lines, at);
        let fields = split_fields(header);
        assert(fields@.len() == fields_of(header@).len());
        proof {
            if at >= lines@.len() {
                assert(crate::text::pieces(header@).len() == 1);
            }
        }
        if fields.len() != 10 {
            if at >= total || at + 1 >= total {
                return Err(FIRParsingError::EOFError);
            }
            let mut m = String::from_str("Expected 10 fields, found: ");
            m.append(count_to_text(fields.len()).as_str());
            return Err(FIRParsingError::FIRParsing(m));
        }
        proof {
            assert forall|j: int| 0 <= j < 10 implies (#[trigger] fields@[j])@ == fields_of(
                header@,
            )[j] by {
                assert(views(fields@)[j] == fields@[j]@);
            }
        }
        let amount = match parse_count(fields[3].as_str()) {
            Ok(n) => n,
            Err(e) => {
                return Err(FIRParsingError::ParseIntError(e));
            },
        };
        let mut errors = ErrorCollector::new();
        let ring = match read_ring(lines, at + 1, amount, &mut errors) {
            Ok(ring) => ring,
            Err(e) => {
                return Err(e);
            },
        };
        let is_oseanic = match numstr_to_bool(fields[1].as_str()) {
            Ok(b) => b,
            Err(e) => {
                return Err(e);
            },
        };
        let is_extension = match numstr_to_bool(fields[2].as_str()) {
            Ok(b) => b,
            Err(e) => {
                return Err(e);
            },
        };
        let min_lat = match Decimal::parse(fields[4].as_str()) {
            Ok(d) => d,
            Err(e) => {
                return Err(e);
            },
        };
        let min_lon = match Decimal::parse(fields[5].as_str()) {
            Ok(d) => d,
            Err(e) => {
                return Err(e);
            },
        };
        let max_lat = match Decimal::parse(fields[6].as_str()) {
            Ok(d) => d,
            Err(e) => {
                return Err(e);
            },
        };
        let max_lon = match Decimal::parse(fields[7].as_str()) {
            Ok(d) => d,
            Err(e) => {
                return Err(e);
            },
        };
        let lat = match Decimal::parse(fields[8].as_str()) {
            Ok(d) => d,
            Err(e) => {
                return Err(e);
            },
        };
        let lon = match Decimal::parse(fields[9].as_str()) {
            Ok(d) => d,
            Err(e) => {
                return Err(e);
            },
        };
        let lable = Point { lat, lon };
        let ghost rejected = errors@;
        match Point::new(lat, lon) {
            Ok(_) => {},
            Err(e) => {
                let _ = errors.adderror(e);
                assert(models(errors@) =~= models(rejected).push(e@));
            },
        }
        let mut fir = FIRBoundary {
            id: *count,
            icao: fields[0].clone(),
            is_oseanic,
            is_extension,
            min_lat,
            min_lon,
            max_lat,
            max_lon,
            lable,
            boundary_corners: ring,
        };
        let next: usize = at + 1 + amount as usize;
        if errors.len() != 0 {
            *count = *count + 1;
            *linenr = next;
            return Ok(Err(errors));
        }
        match mode {
            Mode::Strict => {
                let found = match fir.validate() {
                    Ok(found) => found,
                    Err(e) => {
                        return Err(e);
                    },
                };
                *count = *count + 1;
                *linenr = next;
                if found.len() != 0 {
                    Ok(Err(found))
                } else {
                    Ok(Ok(fir))
                }
            },
            Mode::Fix => {
                match fir.normalize() {
                    Ok(()) => {},
                    Err(e) => {
                        return Err(e);
                    },
                }
                *count = *count + 1;
                *linenr = next;
                Ok(Ok(fir))
            },
        }
    }
}

} // verus!
