//! A whole pass over the lines of a file: the records in turn, then the
//! checks on the collection and its order, regions first and each followed
//! by its extensions.

use crate::boundary::{BoundaryModel, FIRBoundary, Mode};
use crate::errors::{models, ErrorCollector, ErrorModel, FIRParsingError};
use crate::parser::{record_reading, ring_reading, Reading, RingReading};
use crate::point::Point;
use crate::text::views;
use indexmap::IndexSet;
use vstd::prelude::*;

verus! {

/// The models of a list of records.
pub open spec fn record_models(records: Seq<FIRBoundary>) -> Seq<BoundaryModel> {
    records.map_values(|b: FIRBoundary| b@)
}

/// Every record of the list is well formed.
pub open spec fn records_wf(records: Seq<FIRBoundary>) -> bool {
    forall|i: int| 0 <= i < records.len() ==> (#[trigger] records[i]).wf()
}

/// Whether `b` is a region, not an extension, with this code and flag.
pub open spec fn is_base(b: BoundaryModel, icao: Seq<char>, oceanic: bool) -> bool {
    !b.is_extension && b.icao == icao && b.is_oseanic == oceanic
}

/// How often the region with this code and flag is defined in `s`.
pub open spec fn definitions(s: Seq<BoundaryModel>, icao: Seq<char>, oceanic: bool) -> nat
    decreases s.len(),
{
    if s.len() == 0 {
        0
    } else {
        definitions(s.drop_last(), icao, oceanic) + if is_base(s.last(), icao, oceanic) {
            1nat
        } else {
            0nat
        }
    }
}

/// The regions of `s` in order, of each code and flag the first definition.
pub open spec fn first_bases(s: Seq<BoundaryModel>) -> Seq<BoundaryModel>
    decreases s.len(),
{
    if s.len() == 0 {
        s
    } else if !s.last().is_extension && definitions(
        s.drop_last(),
        s.last().icao,
        s.last().is_oseanic,
    ) == 0 {
        first_bases(s.drop_last()).push(s.last())
    } else {
        first_bases(s.drop_last())
    }
}

/// The regions defined more than once, each once, in the order of their
/// second definitions.
pub open spec fn repeated_bases(s: Seq<BoundaryModel>) -> Seq<(Seq<char>, bool)>
    decreases s.len(),
{
    if s.len() == 0 {
        Seq::empty()
    } else if !s.last().is_extension && definitions(
        s.drop_last(),
        s.last().icao,
        s.last().is_oseanic,
    ) == 1 {
        repeated_bases(s.drop_last()).push((s.last().icao, s.last().is_oseanic))
    } else {
        repeated_bases(s.drop_last())
    }
}

/// The codes of the regions defined more than once, with the number of
/// their definitions.
pub open spec fn multiple_firs(s: Seq<BoundaryModel>) -> Seq<(Seq<char>, usize)> {
    repeated_bases(s).map_values(
        |k: (Seq<char>, bool)| (k.0, definitions(s, k.0, k.1) as usize),
    )
}

/// The extensions of `s` with this code, in order.
pub open spec fn extensions_of(s: Seq<BoundaryModel>, icao: Seq<char>) -> Seq<BoundaryModel>
    decreases s.len(),
{
    if s.len() == 0 {
        s
    } else if s.last().is_extension && s.last().icao == icao {
        extensions_of(s.drop_last(), icao).push(s.last())
    } else {
        extensions_of(s.drop_last(), icao)
    }
}

/// Whether a record of `s` has this code.
pub open spec fn has_code(s: Seq<BoundaryModel>, icao: Seq<char>) -> bool
    decreases s.len(),
{
    s.len() > 0 && (s.last().icao == icao || has_code(s.drop_last(), icao))
}

/// The regions `bases` in order, each followed by the extensions of `s`
/// with its code. Where two regions share a code the first has them.
pub open spec fn with_extensions(bases: Seq<BoundaryModel>, s: Seq<BoundaryModel>) -> Seq<
    BoundaryModel,
>
    decreases bases.len(),
{
    if bases.len() == 0 {
        bases
    } else {
        let before = with_extensions(bases.drop_last(), s).push(bases.last());
        if has_code(bases.drop_last(), bases.last().icao) {
            before
        } else {
            before + extensions_of(s, bases.last().icao)
        }
    }
}

/// The records of a pass in the order of the output: the regions in the
/// order of their first definitions, each followed by its extensions. An
/// extension of no region is left out.
pub open spec fn ordered(s: Seq<BoundaryModel>) -> Seq<BoundaryModel> {
    with_extensions(first_bases(s), s)
}

/// The codes of the extensions that do not stand where their number says,
/// each code once, in order.
pub open spec fn misplaced(all: Seq<BoundaryModel>) -> Seq<Seq<char>>
    decreases all.len(),
{
    if all.len() == 0 {
        Seq::empty()
    } else {
        let before = misplaced(all.drop_last());
        if all.last().is_extension && all.last().id != all.len() - 1 && !before.contains(
            all.last().icao,
        ) {
            before.push(all.last().icao)
        } else {
            before
        }
    }
}

/// The report on the order, which only strict mode makes.
pub open spec fn order_finding(all: Seq<BoundaryModel>, mode: Mode) -> Seq<ErrorModel> {
    if mode == Mode::Strict && misplaced(all).len() != 0 {
        seq![ErrorModel::ExtentionNotAfterFir(misplaced(all))]
    } else {
        Seq::empty()
    }
}

/// How a pass ends.
pub enum PassModel {
    /// With a fatal error, which is all that is reported.
    Fatal(ErrorModel),
    /// With recoverable errors, all of them reported.
    Failed(Seq<ErrorModel>),
    /// With the records in the order of the output.
    Records(Seq<BoundaryModel>),
}

/// The end of a pass that read `records` and collected `errors`. A region
/// defined more than once is fatal. Else the records are put in order, and
/// the pass fails if any error was collected or, in strict mode, an
/// extension is misplaced.
pub open spec fn assembled(records: Seq<BoundaryModel>, errors: Seq<ErrorModel>, mode: Mode) -> PassModel {
    if repeated_bases(records).len() != 0 {
        PassModel::Fatal(ErrorModel::MultipleFirs(multiple_firs(records)))
    } else {
        let all = ordered(records);
        let found = errors + order_finding(all, mode);
        if found.len() != 0 {
            PassModel::Failed(found)
        } else {
            PassModel::Records(all)
        }
    }
}

/// Whether the result of a pass is what the model says.
pub open spec fn pass_is(
    r: Result<Result<Vec<FIRBoundary>, ErrorCollector>, FIRParsingError>,
    m: PassModel,
) -> bool {
    match m {
        PassModel::Fatal(e) => r is Err && r.unwrap_err()@ == e,
        PassModel::Failed(found) => r matches Ok(Err(c)) && models(c@) == found,
        PassModel::Records(all) => r matches Ok(Ok(v)) && record_models(v@) == all && records_wf(
            v@,
        ),
    }
}

/// A copy of a ring.
fn copy_ring(ring: &Vec<Point>) -> (r: Vec<Point>)
    ensures
        r@ == ring@,
{
    let mut out: Vec<Point> = Vec::new();
    let mut i: usize = 0;
    while i < ring.len()
        invariant
            i <= ring@.len(),
            out@ == ring@.take(i as int),
        decreases ring.len() - i,
    {
        out.push(ring[i]);
        assert(out@ == ring@.take(i as int + 1));
        i = i + 1;
    }
    assert(ring@.take(i as int) == ring@);
    out
}

/// A copy of a record.
fn copy_record(b: &FIRBoundary) -> (r: FIRBoundary)
    ensures
        r@ == b@,
        b.wf() ==> r.wf(),
{
    FIRBoundary {
        id: b.id,
        icao: b.icao.clone(),
        is_oseanic: b.is_oseanic,
        is_extension: b.is_extension,
        min_lat: b.min_lat,
        min_lon: b.min_lon,
        max_lat: b.max_lat,
        max_lon: b.max_lon,
        lable: b.lable,
        boundary_corners: copy_ring(&b.boundary_corners),
    }
}

/// Counts the definitions of a region among the first `n` records.
fn count_definitions(records: &Vec<FIRBoundary>, n: usize, icao: &String, oceanic: bool) -> (r:
    usize)
    requires
        n <= records@.len(),
    ensures
        r == definitions(record_models(records@).take(n as int), icao@, oceanic),
        r <= n,
{
    let mut found: usize = 0;
    let mut i: usize = 0;
    let ghost s = record_models(records@);
    assert(s.take(0).len() == 0);
    while i < n
        invariant
            i <= n <= records@.len(),
            s == record_models(records@),
            found <= i,
            found == definitions(s.take(i as int), icao@, oceanic),
        decreases n - i,
    {
        assert(s.take(i as int + 1).drop_last() == s.take(i as int));
        assert(s.take(i as int + 1).last() == records@[i as int]@);
        let b = &records[i];
        if !b.is_extension && b.icao == *icao && b.is_oseanic == oceanic {
            found = found + 1;
        }
        i = i + 1;
    }
    found
}

/// What identifies a region: its code and its oceanic flag.
pub type Identity = (String, bool);

/// The identities that a set holds, in the order of their insertion, each
/// with its code as a sequence of characters.
pub uninterp spec fn set_identities(s: IndexSet<Identity>) -> Seq<(Seq<char>, bool)>;

/// Calls `IndexSet::new`, which makes an empty set.
#[verifier::external_body]
fn new_identities() -> (r: IndexSet<Identity>)
    ensures
        set_identities(r) == Seq::<(Seq<char>, bool)>::empty(),
{
    IndexSet::new()
}

/// Calls `IndexSet::insert`. An identity that the set holds already leaves
/// the set as it is and gives `false`; any other goes to the end and gives
/// `true`. Strings are equal where their characters are.
#[verifier::external_body]
fn insert_identity(s: &mut IndexSet<Identity>, icao: String, oceanic: bool) -> (r: bool)
    ensures
        r == !set_identities(*old(s)).contains((icao@, oceanic)),
        set_identities(*final(s)) == if r {
            set_identities(*old(s)).push((icao@, oceanic))
        } else {
            set_identities(*old(s))
        },
{
    s.insert((icao, oceanic))
}

/// The set holds exactly the regions that `s` defines at least `n` times.
spec fn holds_defined(keys: Seq<(Seq<char>, bool)>, s: Seq<BoundaryModel>, n: nat) -> bool {
    forall|icao: Seq<char>, oceanic: bool|
        keys.contains((icao, oceanic)) == (#[trigger] definitions(s, icao, oceanic) >= n)
}

/// What a sequence holds after one more member.
pub proof fn lemma_push_contains(keys: Seq<(Seq<char>, bool)>, k: (Seq<char>, bool), q: (Seq<char>, bool))
    ensures
        keys.push(k).contains(q) == (keys.contains(q) || k == q),
{
    let next = keys.push(k);
    if keys.contains(q) {
        let j = choose|j: int| 0 <= j < keys.len() && keys[j] == q;
        assert(next[j] == q);
    }
    if k == q {
        assert(next[keys.len() as int] == q);
    }
    if next.contains(q) {
        let j = choose|j: int| 0 <= j < next.len() && next[j] == q;
        if j < keys.len() {
            assert(keys[j] == q);
        }
    }
}

/// The set after a record that is no new definition for it.
proof fn lemma_holds_defined_keeps(
    keys: Seq<(Seq<char>, bool)>,
    s: Seq<BoundaryModel>,
    n: nat,
)
    requires
        s.len() > 0,
        holds_defined(keys, s.drop_last(), n),
        s.last().is_extension || definitions(s.drop_last(), s.last().icao, s.last().is_oseanic)
            >= n || definitions(s.drop_last(), s.last().icao, s.last().is_oseanic) + 1 < n,
    ensures
        holds_defined(keys, s, n),
{
    assert forall|icao: Seq<char>, oceanic: bool|
        keys.contains((icao, oceanic)) == (#[trigger] definitions(s, icao, oceanic) >= n) by {
        assert(keys.contains((icao, oceanic)) == (definitions(s.drop_last(), icao, oceanic) >= n));
    }
}

/// The set after the record that defines a region for the `n`th time.
proof fn lemma_holds_defined_adds(
    keys: Seq<(Seq<char>, bool)>,
    s: Seq<BoundaryModel>,
    n: nat,
)
    requires
        s.len() > 0,
        holds_defined(keys, s.drop_last(), n),
        !s.last().is_extension,
        definitions(s.drop_last(), s.last().icao, s.last().is_oseanic) + 1 == n,
    ensures
        holds_defined(keys.push((s.last().icao, s.last().is_oseanic)), s, n),
{
    let k = (s.last().icao, s.last().is_oseanic);
    assert forall|icao: Seq<char>, oceanic: bool|
        keys.push(k).contains((icao, oceanic)) == (#[trigger] definitions(s, icao, oceanic)
            >= n) by {
        lemma_push_contains(keys, k, (icao, oceanic));
        assert(keys.contains((icao, oceanic)) == (definitions(s.drop_last(), icao, oceanic) >= n));
    }
}

/// The models of a list of codes with counts.
pub open spec fn count_models(l: Seq<(String, usize)>) -> Seq<(Seq<char>, usize)> {
    l.map_values(|e: (String, usize)| (e.0@, e.1))
}

/// Lists the regions defined more than once with their counts.
fn find_repeated(records: &Vec<FIRBoundary>) -> (r: Vec<(String, usize)>)
    ensures
        count_models(r@) == multiple_firs(record_models(records@)),
        r@.len() == repeated_bases(record_models(records@)).len(),
{
    let mut out: Vec<(String, usize)> = Vec::new();
    let mut once = new_identities();
    let mut twice = new_identities();
    let n = records.len();
    let mut i: usize = 0;
    let ghost s = record_models(records@);
    assert(s.take(0).len() == 0);
    assert(s.take(n as int) == s);
    while i < n
        invariant
            i <= n,
            n == records@.len(),
            s == record_models(records@),
            s.take(n as int) == s,
            holds_defined(set_identities(once), s.take(i as int), 1),
            holds_defined(set_identities(twice), s.take(i as int), 2),
            count_models(out@) == repeated_bases(s.take(i as int)).map_values(
                |k: (Seq<char>, bool)| (k.0, definitions(s, k.0, k.1) as usize),
            ),
        decreases n - i,
    {
        let ghost next = s.take(i as int + 1);
        assert(next.drop_last() == s.take(i as int));
        assert(next.last() == records@[i as int]@);
        let b = &records[i];
        let ghost defined = definitions(s.take(i as int), b.icao@, b.is_oseanic);
        if b.is_extension {
            proof {
                lemma_holds_defined_keeps(set_identities(once), next, 1);
                lemma_holds_defined_keeps(set_identities(twice), next, 2);
            }
        } else {
            let ghost had_once = set_identities(once);
            let ghost had_twice = set_identities(twice);
            assert(had_once.contains((b.icao@, b.is_oseanic)) == (defined >= 1));
            assert(had_twice.contains((b.icao@, b.is_oseanic)) == (defined >= 2));
            let first = insert_identity(&mut once, b.icao.clone(), b.is_oseanic);
            if first {
                proof {
                    lemma_holds_defined_adds(had_once, next, 1);
                    lemma_holds_defined_keeps(had_twice, next, 2);
                }
            } else {
                let second = insert_identity(&mut twice, b.icao.clone(), b.is_oseanic);
                proof {
                    lemma_holds_defined_keeps(had_once, next, 1);
                    if second {
                        lemma_holds_defined_adds(had_twice, next, 2);
                    } else {
                        lemma_holds_defined_keeps(had_twice, next, 2);
                    }
                }
                if second {
                    let total = count_definitions(records, n, &b.icao, b.is_oseanic);
                    let ghost before = out@;
                    out.push((b.icao.clone(), total));
                    assert(count_models(out@) =~= count_models(before).push((b.icao@, total)));
                    assert(count_models(out@) =~= repeated_bases(next).map_values(
                        |k: (Seq<char>, bool)| (k.0, definitions(s, k.0, k.1) as usize),
                    ));
                }
            }
        }
        i = i + 1;
    }
    out
}

/// The first definition of each region, in order.
fn collect_bases(records: &Vec<FIRBoundary>) -> (r: Vec<FIRBoundary>)
    requires
        records_wf(records@),
    ensures
        record_models(r@) == first_bases(record_models(records@)),
        records_wf(r@),
{
    let mut out: Vec<FIRBoundary> = Vec::new();
    let mut once = new_identities();
    let n = records.len();
    let mut i: usize = 0;
    let ghost s = record_models(records@);
    assert(s.take(0).len() == 0);
    assert(record_models(out@) =~= first_bases(s.take(0)));
    while i < n
        invariant
            i <= n,
            n == records@.len(),
            s == record_models(records@),
            records_wf(records@),
            records_wf(out@),
            holds_defined(set_identities(once), s.take(i as int), 1),
            record_models(out@) == first_bases(s.take(i as int)),
        decreases n - i,
    {
        let ghost next = s.take(i as int + 1);
        assert(next.drop_last() == s.take(i as int));
        assert(next.last() == records@[i as int]@);
        let b = &records[i];
        let ghost defined = definitions(s.take(i as int), b.icao@, b.is_oseanic);
        if b.is_extension {
            proof {
                lemma_holds_defined_keeps(set_identities(once), next, 1);
            }
        } else {
            let ghost had = set_identities(once);
            assert(had.contains((b.icao@, b.is_oseanic)) == (defined >= 1));
            let first = insert_identity(&mut once, b.icao.clone(), b.is_oseanic);
            if first {
                proof {
                    lemma_holds_defined_adds(had, next, 1);
                }
                let ghost before = out@;
                let c = copy_record(b);
                out.push(c);
                assert(record_models(out@) =~= record_models(before).push(c@));
            } else {
                proof {
                    lemma_holds_defined_keeps(had, next, 1);
                }
            }
        }
        i = i + 1;
    }
    assert(s.take(n as int) == s);
    out
}

/// Appends to `all` the extensions with this code.
fn push_extensions(all: &mut Vec<FIRBoundary>, records: &Vec<FIRBoundary>, icao: &String)
    requires
        records_wf(records@),
        records_wf(old(all)@),
    ensures
        record_models(final(all)@) == record_models(old(all)@) + extensions_of(
            record_models(records@),
            icao@,
        ),
        records_wf(final(all)@),
{
    let n = records.len();
    let mut i: usize = 0;
    let ghost s = record_models(records@);
    let ghost start = record_models(all@);
    assert(s.take(0).len() == 0);
    assert(record_models(all@) =~= start + extensions_of(s.take(0), icao@));
    while i < n
        invariant
            i <= n,
            n == records@.len(),
            s == record_models(records@),
            records_wf(records@),
            records_wf(all@),
            record_models(all@) == start + extensions_of(s.take(i as int), icao@),
        decreases n - i,
    {
        assert(s.take(i as int + 1).drop_last() == s.take(i as int));
        assert(s.take(i as int + 1).last() == records@[i as int]@);
        let b = &records[i];
        if b.is_extension && b.icao == *icao {
            let ghost before = all@;
            let c = copy_record(b);
            all.push(c);
            assert(record_models(all@) =~= record_models(before).push(c@));
            assert(record_models(all@) =~= start + extensions_of(s.take(i as int + 1), icao@));
        }
        i = i + 1;
    }
    assert(s.take(n as int) == s);
}

/// Whether one of the first `n` records has this code.
fn code_among(records: &Vec<FIRBoundary>, n: usize, icao: &String) -> (r: bool)
    requires
        n <= records@.len(),
    ensures
        r == has_code(record_models(records@).take(n as int), icao@),
{
    let mut i: usize = 0;
    let ghost s = record_models(records@);
    assert(s.take(0).len() == 0);
    while i < n
        invariant
            i <= n <= records@.len(),
            s == record_models(records@),
            !has_code(s.take(i as int), icao@),
        decreases n - i,
    {
        assert(s.take(i as int + 1).drop_last() == s.take(i as int));
        assert(s.take(i as int + 1).last() == records@[i as int]@);
        if records[i].icao == *icao {
            proof {
                lemma_has_code_grows(s, i as int + 1, n as int, icao@);
            }
            return true;
        }
        i = i + 1;
    }
    false
}

proof fn lemma_has_code_grows(s: Seq<BoundaryModel>, i: int, n: int, icao: Seq<char>)
    requires
        0 <= i <= n <= s.len(),
        has_code(s.take(i), icao),
    ensures
        has_code(s.take(n), icao),
    decreases n - i,
{
    if i < n {
        assert(s.take(n).drop_last() == s.take(n - 1));
        lemma_has_code_grows(s, i, n - 1, icao);
    }
}

/// Puts the records in the order of the output.
pub fn order_records(records: &Vec<FIRBoundary>) -> (r: Vec<FIRBoundary>)
    requires
        records_wf(records@),
    ensures
        record_models(r@) == ordered(record_models(records@)),
        records_wf(r@),
{
    let bases = collect_bases(records);
    let mut all: Vec<FIRBoundary> = Vec::new();
    let n = bases.len();
    let mut j: usize = 0;
    let ghost s = record_models(records@);
    let ghost b = record_models(bases@);
    assert(b.take(0).len() == 0);
    assert(record_models(all@) =~= with_extensions(b.take(0), s));
    while j < n
        invariant
            j <= n,
            n == bases@.len(),
            s == record_models(records@),
            b == record_models(bases@),
            records_wf(records@),
            records_wf(bases@),
            records_wf(all@),
            record_models(all@) == with_extensions(b.take(j as int), s),
        decreases n - j,
    {
        assert(b.take(j as int + 1).drop_last() == b.take(j as int));
        assert(b.take(j as int + 1).last() == bases@[j as int]@);
        let ghost before = all@;
        let c = copy_record(&bases[j]);
        all.push(c);
        assert(record_models(all@) =~= record_models(before).push(c@));
        if !code_among(&bases, j, &bases[j].icao) {
            push_extensions(&mut all, records, &bases[j].icao);
        }
        j = j + 1;
    }
    assert(b.take(n as int) == b);
    all
}

/// Whether a list of codes holds this one.
fn holds_code(codes: &Vec<String>, icao: &String) -> (r: bool)
    ensures
        r == views(codes@).contains(icao@),
{
    let mut i: usize = 0;
    while i < codes.len()
        invariant
            i <= codes@.len(),
            forall|j: int| 0 <= j < i ==> views(codes@)[j] != icao@,
        decreases codes.len() - i,
    {
        if codes[i] == *icao {
            assert(views(codes@)[i as int] == icao@);
            return true;
        }
        i = i + 1;
    }
    false
}

/// Lists the codes of the extensions that do not stand where their number
/// says.
pub fn misplaced_codes(all: &Vec<FIRBoundary>) -> (r: Vec<String>)
    ensures
        views(r@) == misplaced(record_models(all@)),
{
    let mut out: Vec<String> = Vec::new();
    let n = all.len();
    let mut i: usize = 0;
    let ghost s = record_models(all@);
    assert(s.take(0).len() == 0);
    assert(views(out@) =~= misplaced(s.take(0)));
    while i < n
        invariant
            i <= n,
            n == all@.len(),
            s == record_models(all@),
            views(out@) == misplaced(s.take(i as int)),
        decreases n - i,
    {
        assert(s.take(i as int + 1).drop_last() == s.take(i as int));
        assert(s.take(i as int + 1).last() == all@[i as int]@);
        let b = &all[i];
        if b.is_extension && b.id != i && !holds_code(&out, &b.icao) {
            let ghost before = out@;
            let code = b.icao.clone();
            out.push(code);
            assert(views(out@) =~= views(before).push(code@));
        }
        i = i + 1;
    }
    assert(s.take(n as int) == s);
    out
}

/// Ends a pass: checks that no region is defined twice, puts the records
/// in order and, in strict mode, checks the places of the extensions.
pub fn assemble(records: &Vec<FIRBoundary>, errors: ErrorCollector, mode: Mode) -> (r: Result<
    Result<Vec<FIRBoundary>, ErrorCollector>,
    FIRParsingError,
>)
    requires
        records_wf(records@),
    ensures
        pass_is(r, assembled(record_models(records@), models(errors@), mode)),
{
    let ghost collected = models(errors@);
    let mut errors = errors;
    let repeated = find_repeated(records);
    if repeated.len() != 0 {
        return Err(FIRParsingError::MultipleFirs(repeated));
    }
    let all = order_records(records);
    if mode == Mode::Strict {
        let wrong = misplaced_codes(&all);
        if wrong.len() != 0 {
            let ghost before = errors@;
            let e = FIRParsingError::ExtentionNotAfterFir(wrong);
            let _ = errors.adderror(e);
            assert(models(errors@) =~= models(before).push(e@));
        }
    }
    assert(models(errors@) =~= collected + order_finding(record_models(all@), mode));
    assert(errors@.len() == models(errors@).len());
    Ok(errors.to_col_result(all))
}

/// What reading the records of a file comes to.
pub enum LinesModel {
    /// A fatal error stopped the pass.
    Fatal(ErrorModel),
    /// The end of the input was reached: the records accepted, and the
    /// errors of the records rejected, both in the order of the input.
    Read { records: Seq<BoundaryModel>, errors: Seq<ErrorModel> },
}

/// The outcome `rest` of the remaining lines, after these records and
/// errors.
pub open spec fn after(records: Seq<BoundaryModel>, errors: Seq<ErrorModel>, rest: LinesModel) -> LinesModel {
    match rest {
        LinesModel::Fatal(e) => LinesModel::Fatal(e),
        LinesModel::Read { records: more, errors: later } => LinesModel::Read {
            records: records + more,
            errors: errors + later,
        },
    }
}

/// The reading of the records from line `at` on, the first of them being
/// the record number `count`. A record ends within the input; the next
/// starts at the line after it.
pub open spec fn lines_reading(lines: Seq<Seq<char>>, at: int, count: nat, mode: Mode) -> LinesModel
    decreases lines.len() - at,
{
    match record_reading(lines, at, count as usize, mode) {
        Reading::EndOfInput => LinesModel::Read { records: Seq::empty(), errors: Seq::empty() },
        Reading::Fatal(e) => LinesModel::Fatal(e),
        Reading::Rejected { errors, lines_read } => if at < at + lines_read <= lines.len() {
            after(Seq::empty(), errors, lines_reading(lines, at + lines_read, count + 1, mode))
        } else {
            LinesModel::Read { records: Seq::empty(), errors }
        },
        Reading::Record { record, lines_read } => if at < at + lines_read <= lines.len() {
            after(
                seq![record],
                Seq::empty(),
                lines_reading(lines, at + lines_read, count + 1, mode),
            )
        } else {
            LinesModel::Read { records: seq![record], errors: Seq::empty() }
        },
    }
}

/// Reads every record of a file, given as its lines, and ends the pass. A
/// fatal error is reported alone; else every recoverable error of the pass
/// is reported; else the records come back in the order of the output.
pub fn read_file(lines: &Vec<String>, mode: Mode) -> (r: Result<
    Result<Vec<FIRBoundary>, ErrorCollector>,
    FIRParsingError,
>)
    ensures
        match lines_reading(views(lines@), 0, 0, mode) {
            LinesModel::Fatal(e) => r is Err && r.unwrap_err()@ == e,
            LinesModel::Read { records, errors } => pass_is(r, assembled(records, errors, mode)),
        },
{
    let mut records: Vec<FIRBoundary> = Vec::new();
    let mut errors = ErrorCollector::new();
    let mut at: usize = 0;
    let mut count: usize = 0;
    let total = lines.len();
    let ghost l = views(lines@);
    assert(record_models(records@) =~= Seq::<BoundaryModel>::empty());
    assert(models(errors@) =~= Seq::<ErrorModel>::empty());
    assert(after(Seq::empty(), Seq::empty(), lines_reading(l, 0, 0, mode)) == lines_reading(
        l,
        0,
        0,
        mode,
    )) by {
        lemma_after_nothing(lines_reading(l, 0, 0, mode));
    }
    loop
        invariant
            total == lines@.len(),
            l == views(lines@),
            count <= at <= total,
            records_wf(records@),
            lines_reading(l, 0, 0, mode) == after(
                record_models(records@),
                models(errors@),
                lines_reading(l, at as int, count as nat, mode),
            ),
        ensures
            lines_reading(l, 0, 0, mode) == (LinesModel::Read {
                records: record_models(records@),
                errors: models(errors@),
            }),
            records_wf(records@),
        decreases total - at,
    {
        if at == total {
            assert(crate::text::pieces(crate::parser::line_at(l, at as int)).len() == 1);
            assert(record_reading(l, at as int, count, mode) is EndOfInput);
            assert(record_models(records@) + Seq::<BoundaryModel>::empty() =~= record_models(
                records@,
            ));
            assert(models(errors@) + Seq::<ErrorModel>::empty() =~= models(errors@));
            break;
        }
        let ghost start = at as int;
        let ghost number = count as nat;
        let ghost had = record_models(records@);
        let ghost found = models(errors@);
        match FIRBoundary::parse_fields(lines, &mut count, mode, &mut at) {
            Err(FIRParsingError::EOFError) => {
                proof {
                    lemma_fatal_is_no_end(l, start, number as usize, mode);
                }
                assert(record_reading(l, start, number as usize, mode) is EndOfInput);
                assert(had + Seq::<BoundaryModel>::empty() =~= had);
                assert(found + Seq::<ErrorModel>::empty() =~= found);
                break;
            },
            Err(e) => {
                return Err(e);
            },
            Ok(Err(rejected)) => {
                let ghost these = models(rejected@);
                errors.adderrors(rejected);
                proof {
                    assert(models(errors@) =~= found + these);
                    lemma_after_after(
                        had,
                        found,
                        Seq::empty(),
                        these,
                        lines_reading(l, at as int, count as nat, mode),
                    );
                    assert(had + Seq::<BoundaryModel>::empty() =~= had);
                }
            },
            Ok(Ok(b)) => {
                let ghost m = b@;
                records.push(b);
                proof {
                    assert(record_models(records@) =~= had + seq![m]);
                    lemma_after_after(
                        had,
                        found,
                        seq![m],
                        Seq::empty(),
                        lines_reading(l, at as int, count as nat, mode),
                    );
                    assert(found + Seq::<ErrorModel>::empty() =~= found);
                }
            },
        }
    }
    assemble(&records, errors, mode)
}

/// The fatal error of a ring is never the end of the input.
proof fn lemma_ring_fatal_is_no_end(lines: Seq<Seq<char>>, from: int, n: nat)
    ensures
        ring_reading(lines, from, n) matches RingReading::Fatal(e) ==> e != ErrorModel::EOFError,
    decreases n,
{
    if n > 0 {
        lemma_ring_fatal_is_no_end(lines, from, (n - 1) as nat);
    }
}

/// The fatal error of a record is never the end of the input.
proof fn lemma_fatal_is_no_end(lines: Seq<Seq<char>>, at: int, count: usize, mode: Mode)
    ensures
        record_reading(lines, at, count, mode) matches Reading::Fatal(e) ==> e
            != ErrorModel::EOFError,
{
    let fields = crate::text::fields_of(crate::parser::line_at(lines, at));
    if fields.len() == 10 {
        match crate::text::count_from_text(fields[3]) {
            None => {},
            Some(amount) => {
                lemma_ring_fatal_is_no_end(lines, at + 1, amount as nat);
            },
        }
    }
}

proof fn lemma_after_nothing(rest: LinesModel)
    ensures
        after(Seq::empty(), Seq::empty(), rest) == rest,
{
    match rest {
        LinesModel::Fatal(e) => {},
        LinesModel::Read { records, errors } => {
            assert(Seq::<BoundaryModel>::empty() + records =~= records);
            assert(Seq::<ErrorModel>::empty() + errors =~= errors);
        },
    }
}

proof fn lemma_after_after(
    r1: Seq<BoundaryModel>,
    e1: Seq<ErrorModel>,
    r2: Seq<BoundaryModel>,
    e2: Seq<ErrorModel>,
    rest: LinesModel,
)
    ensures
        after(r1, e1, after(r2, e2, rest)) == after(r1 + r2, e1 + e2, rest),
{
    match rest {
        LinesModel::Fatal(e) => {},
        LinesModel::Read { records, errors } => {
            assert(r1 + (r2 + records) =~= (r1 + r2) + records);
            assert(e1 + (e2 + errors) =~= (e1 + e2) + errors);
        },
    }
}

} // verus!
