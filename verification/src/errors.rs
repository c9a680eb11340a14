//! Failures of a parse pass, and the collector that keeps the recoverable
//! ones while the pass goes on.

use crate::decimal::Decimal;
use crate::point::Point;
use crate::text::views;
use vstd::prelude::*;
use vstd::string::*;

verus! {

/// A result whose failure is one error.
pub type FIRResult<T> = Result<T, FIRParsingError>;

/// A result whose failure is every recoverable error of a pass.
pub type ColResult<T> = Result<T, ErrorCollector>;

/// Everything that can go wrong while reading or converting boundaries.
#[derive(Debug, PartialEq)]
pub enum FIRParsingError {
    /// The structure of the file is broken: a wrong number of fields, a flag
    /// that is neither `0` nor `1`, a line that is missing.
    FIRParsing(String),
    /// A coordinate is outside the earth.
    PointOutOfRange(Point),
    /// A ring holds the points listed more than once.
    DuplicatePointError { points: Vec<Point>, owner: String },
    /// A ring is drawn clockwise.
    AirspaceDrawDirection(String),
    /// Regions with an extension that does not follow them directly.
    ExtentionNotAfterFir(Vec<String>),
    /// Regions defined more than once, with the number of definitions.
    MultipleFirs(Vec<(String, usize)>),
    /// Declared bounds that differ from the computed ones: the declared
    /// value, the computed value and the name of the bound, for each
    /// difference, then the region.
    WrongMinMax(Vec<(Decimal, Decimal, &'static str)>, String),
    /// A field is no decimal number.
    ParseDecimalError(rust_decimal::Error),
    /// A field is no count.
    ParseIntError(std::num::ParseIntError),
    /// The input has ended.
    EOFError,
    /// A ring has no area, hence no direction.
    DegenerateRing,
    /// The arithmetic on a ring's coordinates overflowed.
    DecimalOverflow,
    /// An extension belongs to no region.
    OrphanExtension(String),
}

/// An error with its texts and lists as mathematical sequences. The errors
/// of the number parsers are opaque, so their model carries nothing.
pub enum ErrorModel {
    FIRParsing(Seq<char>),
    PointOutOfRange(Point),
    DuplicatePointError { points: Seq<Point>, owner: Seq<char> },
    AirspaceDrawDirection(Seq<char>),
    ExtentionNotAfterFir(Seq<Seq<char>>),
    MultipleFirs(Seq<(Seq<char>, usize)>),
    WrongMinMax(Seq<(Decimal, Decimal, Seq<char>)>, Seq<char>),
    ParseDecimalError,
    ParseIntError,
    EOFError,
    DegenerateRing,
    DecimalOverflow,
    OrphanExtension(Seq<char>),
}

impl View for FIRParsingError {
    type V = ErrorModel;

    open spec fn view(&self) -> ErrorModel {
        match *self {
            FIRParsingError::FIRParsing(m) => ErrorModel::FIRParsing(m@),
            FIRParsingError::PointOutOfRange(p) => ErrorModel::PointOutOfRange(p),
            FIRParsingError::DuplicatePointError { points, owner } => {
                ErrorModel::DuplicatePointError { points: points@, owner: owner@ }
            },
            FIRParsingError::AirspaceDrawDirection(o) => ErrorModel::AirspaceDrawDirection(o@),
            FIRParsingError::ExtentionNotAfterFir(l) => ErrorModel::ExtentionNotAfterFir(
                l@.map_values(|s: String| s@),
            ),
            FIRParsingError::MultipleFirs(l) => ErrorModel::MultipleFirs(
                l@.map_values(|e: (String, usize)| (e.0@, e.1)),
            ),
            FIRParsingError::WrongMinMax(l, o) => ErrorModel::WrongMinMax(
                l@.map_values(|e: (Decimal, Decimal, &'static str)| (e.0, e.1, e.2@)),
                o@,
            ),
            FIRParsingError::ParseDecimalError(_) => ErrorModel::ParseDecimalError,
            FIRParsingError::ParseIntError(_) => ErrorModel::ParseIntError,
            FIRParsingError::EOFError => ErrorModel::EOFError,
            FIRParsingError::DegenerateRing => ErrorModel::DegenerateRing,
            FIRParsingError::DecimalOverflow => ErrorModel::DecimalOverflow,
            FIRParsingError::OrphanExtension(o) => ErrorModel::OrphanExtension(o@),
        }
    }
}

/// The models of a list of errors.
pub open spec fn models(errors: Seq<FIRParsingError>) -> Seq<ErrorModel> {
    errors.map_values(|e: FIRParsingError| e@)
}

impl FIRParsingError {
    /// Whether a parse pass may go on after this error and report it at the
    /// end with the others.
    pub open spec fn is_recoverable(self) -> bool {
        match self {
            FIRParsingError::PointOutOfRange(_) => true,
            FIRParsingError::DuplicatePointError { .. } => true,
            FIRParsingError::AirspaceDrawDirection(_) => true,
            FIRParsingError::ExtentionNotAfterFir(_) => true,
            FIRParsingError::WrongMinMax(_, _) => true,
            _ => false,
        }
    }

    /// Sorts the error: `Ok` if the pass may go on, `Err` if it must stop.
    pub fn recoverable(self) -> (r: Result<FIRParsingError, FIRParsingError>)
        ensures
            self.is_recoverable() ==> r == Ok::<FIRParsingError, FIRParsingError>(self),
            !self.is_recoverable() ==> r == Err::<FIRParsingError, FIRParsingError>(self),
    {
        match self {
            FIRParsingError::PointOutOfRange(e) => Ok(FIRParsingError::PointOutOfRange(e)),
            FIRParsingError::DuplicatePointError { points, owner } => Ok(
                FIRParsingError::DuplicatePointError { points, owner },
            ),
            FIRParsingError::AirspaceDrawDirection(e) => Ok(
                FIRParsingError::AirspaceDrawDirection(e),
            ),
            FIRParsingError::ExtentionNotAfterFir(e) => Ok(
                FIRParsingError::ExtentionNotAfterFir(e),
            ),
            FIRParsingError::WrongMinMax(d, f) => Ok(FIRParsingError::WrongMinMax(d, f)),
            e => Err(e),
        }
    }
}

/// The recoverable errors of a pass, in the order in which they were found.
#[derive(Debug, PartialEq)]
pub struct ErrorCollector {
    errors: Vec<FIRParsingError>,
}

impl View for ErrorCollector {
    type V = Seq<FIRParsingError>;

    closed spec fn view(&self) -> Seq<FIRParsingError> {
        self.errors@
    }
}

impl ErrorCollector {
    /// A collector without errors.
    pub fn new() -> (r: ErrorCollector)
        ensures
            r@ == Seq::<FIRParsingError>::empty(),
    {
        ErrorCollector { errors: Vec::new() }
    }

    /// Keeps a recoverable error and goes on; hands a fatal one back.
    pub fn adderror(&mut self, e: FIRParsingError) -> (r: Result<(), FIRParsingError>)
        ensures
            e.is_recoverable() ==> r == Ok::<(), FIRParsingError>(()) && final(self)@ == old(
                self,
            )@.push(e),
            !e.is_recoverable() ==> r == Err::<(), FIRParsingError>(e) && final(self)@ == old(
                self,
            )@,
    {
        match e.recoverable() {
            Ok(e) => {
                self.errors.push(e);
                Ok(())
            },
            Err(e) => Err(e),
        }
    }

    /// Unwraps a result: the value of a success; `None` after keeping a
    /// recoverable error; a fatal error is handed back.
    pub fn addresult<T>(&mut self, r: Result<T, FIRParsingError>) -> (out: Result<
        Option<T>,
        FIRParsingError,
    >)
        ensures
            match r {
                Ok(v) => out == Ok::<Option<T>, FIRParsingError>(Some(v)) && final(self)@ == old(
                    self,
                )@,
                Err(e) => if e.is_recoverable() {
                    out == Ok::<Option<T>, FIRParsingError>(None) && final(self)@ == old(
                        self,
                    )@.push(e)
                } else {
                    out == Err::<Option<T>, FIRParsingError>(e) && final(self)@ == old(self)@
                },
            },
    {
        match r {
            Ok(v) => Ok(Some(v)),
            Err(e) => match self.adderror(e) {
                Ok(()) => Ok(None),
                Err(e) => Err(e),
            },
        }
    }

    /// Takes over the errors of another collector, after its own.
    pub fn adderrors(&mut self, others: ErrorCollector)
        ensures
            final(self)@ == old(self)@ + others@,
    {
        let mut others = others;
        self.errors.append(&mut others.errors);
    }

    /// The value if nothing was collected, else the collector.
    pub fn to_col_result<T>(self, t: T) -> (r: Result<T, ErrorCollector>)
        ensures
            self@.len() == 0 ==> r == Ok::<T, ErrorCollector>(t),
            self@.len() != 0 ==> r == Err::<T, ErrorCollector>(self),
    {
        if self.errors.len() == 0 {
            Ok(t)
        } else {
            Err(self)
        }
    }

    /// The number of errors collected.
    pub fn len(&self) -> (r: usize)
        ensures
            r == self@.len(),
    {
        self.errors.len()
    }

    /// Hands out the errors collected, in order.
    pub fn into_errors(self) -> (r: Vec<FIRParsingError>)
        ensures
            r@ == self@,
    {
        self.errors
    }

    /// The errors collected, in order.
    pub fn errors(&self) -> (r: &Vec<FIRParsingError>)
        ensures
            r@ == self@,
    {
        &self.errors
    }
}

/// The texts one after the other, with a line break between each two.
pub open spec fn on_lines(messages: Seq<Seq<char>>) -> Seq<char>
    decreases messages.len(),
{
    if messages.len() == 0 {
        Seq::empty()
    } else if messages.len() == 1 {
        messages[0]
    } else {
        on_lines(messages.drop_last()) + seq!['\n'] + messages.last()
    }
}

/// Renders the messages of a failed pass: each on a line of its own.
pub fn render_lines(messages: &Vec<String>) -> (r: String)
    ensures
        r@ == on_lines(views(messages@)),
{
    let mut out = String::new();
    let mut i: usize = 0;
    let ghost m = views(messages@);
    proof {
        reveal_strlit("\n");
        assert("\n"@ =~= seq!['\n']);
        assert(m.take(0).len() == 0);
    }
    while i < messages.len()
        invariant
            i <= messages@.len(),
            m == views(messages@),
            "\n"@ == seq!['\n'],
            out@ == on_lines(m.take(i as int)),
        decreases messages.len() - i,
    {
        assert(m.take(i as int + 1).drop_last() == m.take(i as int));
        assert(m.take(i as int + 1).last() == messages@[i as int]@);
        if i > 0 {
            out.append("\n");
        } else {
            assert(out@ + messages@[i as int]@ =~= messages@[i as int]@);
        }
        out.append(messages[i].as_str());
        i = i + 1;
    }
    assert(m.take(i as int) == m);
    out
}

} // verus!
