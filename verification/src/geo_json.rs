//! The GeoJSON side: a feature for each region, with one ring for the
//! region itself and one for each of its extensions.

use crate::boundary::{BoundaryModel, FIRBoundary};
use crate::collection::{record_models, records_wf};
use crate::errors::{ErrorModel, FIRParsingError};
use crate::fill::{fill_of, polygon_or_hole, ring_wf, Fill};
use crate::point::Point;
use crate::ring::{bounding_box, bounds_of};
use vstd::prelude::*;
use vstd::string::*;

verus! {

/// The coordinate reference system of a document.
#[derive(Debug, Clone, PartialEq, Eq)]
pub struct Crs {
    pub typ: String,
    /// The properties as pairs of a name and a value.
    pub properties: Vec<(String, String)>,
}

/// What a feature says of its region.
#[derive(Debug, Clone, PartialEq, Eq)]
pub struct Properties {
    pub icao: String,
    pub is_oceanic: bool,
    pub lable: Point,
}

/// The rings of a feature, each closed: its first point stands at its end
/// again.
#[derive(Debug, Clone, PartialEq, Eq)]
pub struct Geometry {
    pub typ: String,
    pub array: Vec<Vec<Point>>,
}

/// One region with its extensions.
#[derive(Debug, Clone, PartialEq, Eq)]
pub struct Feature {
    pub typ: String,
    pub properties: Properties,
    pub geometry: Geometry,
}

/// A whole document.
#[derive(Debug, Clone, PartialEq, Eq)]
pub struct GeoJson {
    pub typ: String,
    pub name: String,
    pub crs: Crs,
    pub features: Vec<Feature>,
}

/// A feature as mathematical values: the region's code, flag and label, and
/// its rings.
pub struct FeatureModel {
    pub icao: Seq<char>,
    pub is_oceanic: bool,
    pub lable: Point,
    pub rings: Seq<Seq<Point>>,
}

/// The rings of a geometry as sequences.
pub open spec fn ring_models(array: Seq<Vec<Point>>) -> Seq<Seq<Point>> {
    array.map_values(|r: Vec<Point>| r@)
}

impl View for Feature {
    type V = FeatureModel;

    open spec fn view(&self) -> FeatureModel {
        FeatureModel {
            icao: self.properties.icao@,
            is_oceanic: self.properties.is_oceanic,
            lable: self.properties.lable,
            rings: ring_models(self.geometry.array@),
        }
    }
}

/// The models of a list of features.
pub open spec fn feature_models(features: Seq<Feature>) -> Seq<FeatureModel> {
    features.map_values(|f: Feature| f@)
}

/// The label and every ring of the feature have well-formed points.
pub open spec fn feature_wf(f: FeatureModel) -> bool {
    &&& f.lable.wf()
    &&& forall|j: int| 0 <= j < f.rings.len() ==> ring_wf(#[trigger] f.rings[j])
}

/// Every feature is well formed.
pub open spec fn features_wf(features: Seq<FeatureModel>) -> bool {
    forall|i: int| 0 <= i < features.len() ==> feature_wf(#[trigger] features[i])
}

/// A ring closed for GeoJSON: its first point is repeated at its end,
/// unless the ring ends at the place of its first point already.
pub open spec fn closed(ring: Seq<Point>) -> Seq<Point>
    recommends
        ring.len() > 0,
{
    if ring[0].same_place(ring.last()) {
        ring
    } else {
        ring.push(ring[0])
    }
}

/// A ring as records hold it: without the closing point, if it has one.
pub open spec fn opened(ring: Seq<Point>) -> Seq<Point> {
    if ring.len() >= 2 && ring[0].same_place(ring.last()) {
        ring.drop_last()
    } else {
        ring
    }
}

/// The feature of a region, with the region's ring alone.
pub open spec fn feature_of(b: BoundaryModel) -> FeatureModel {
    FeatureModel {
        icao: b.icao,
        is_oceanic: b.is_oseanic,
        lable: b.lable,
        rings: seq![closed(b.boundary_corners)],
    }
}

/// The features of the regions of `s`, in order, without the extensions.
pub open spec fn base_features(s: Seq<BoundaryModel>) -> Seq<FeatureModel>
    decreases s.len(),
{
    if s.len() == 0 {
        Seq::empty()
    } else if s.last().is_extension {
        base_features(s.drop_last())
    } else {
        base_features(s.drop_last()).push(feature_of(s.last()))
    }
}

/// The position of the first feature with this code, or the number of
/// features if there is none.
pub open spec fn owner_index(features: Seq<FeatureModel>, icao: Seq<char>) -> int
    decreases features.len(),
{
    if features.len() == 0 {
        0
    } else {
        let k = owner_index(features.drop_last(), icao);
        if k < features.len() - 1 {
            k
        } else if features.last().icao == icao {
            features.len() - 1
        } else {
            features.len() as int
        }
    }
}

/// The features after the extension `e` gave its ring to the first
/// feature with its code; the error of an extension without such a feature.
pub open spec fn attach(features: Seq<FeatureModel>, e: BoundaryModel) -> Result<
    Seq<FeatureModel>,
    ErrorModel,
> {
    let k = owner_index(features, e.icao);
    if k < features.len() {
        Ok(
            features.update(
                k,
                FeatureModel { rings: features[k].rings.push(closed(e.boundary_corners)), ..features[k] },
            ),
        )
    } else {
        Err(ErrorModel::OrphanExtension(e.icao))
    }
}

/// The features after every extension of `s`, in order, gave its ring.
pub open spec fn attach_all(features: Seq<FeatureModel>, s: Seq<BoundaryModel>) -> Result<
    Seq<FeatureModel>,
    ErrorModel,
>
    decreases s.len(),
{
    if s.len() == 0 {
        Ok(features)
    } else {
        match attach_all(features, s.drop_last()) {
            Err(e) => Err(e),
            Ok(f) => if s.last().is_extension {
                attach(f, s.last())
            } else {
                Ok(f)
            },
        }
    }
}

/// The features of a list of records: one for each region, and in it one
/// more ring for each extension with the region's code.
pub open spec fn features_of(s: Seq<BoundaryModel>) -> Result<Seq<FeatureModel>, ErrorModel> {
    attach_all(base_features(s), s)
}

/// The feature and its geometry say what they are.
pub open spec fn is_tagged(f: Feature) -> bool {
    f.typ@ == "Feature"@ && f.geometry.typ@ == "MultiPolygon"@
}

/// Every feature of the list is tagged.
pub open spec fn all_tagged(features: Seq<Feature>) -> bool {
    forall|k: int| 0 <= k < features.len() ==> is_tagged(#[trigger] features[k])
}

/// Every record has a point in its ring.
pub open spec fn rings_nonempty(s: Seq<BoundaryModel>) -> bool {
    forall|i: int| 0 <= i < s.len() ==> (#[trigger] s[i]).boundary_corners.len() > 0
}

/// The reference system is the one of every document, CRS84, given by its
/// name.
pub open spec fn is_crs84(c: Crs) -> bool {
    &&& c.typ@ == "name"@
    &&& c.properties@.len() == 1
    &&& c.properties@[0].0@ == "name"@
    &&& c.properties@[0].1@ == "urn:ogc:def:crs:OGC:1.3:CRS84"@
}

impl Default for Crs {
    /// The reference system of every document: CRS84.
    fn default() -> (r: Crs)
        ensures
            is_crs84(r),
    {
        let mut properties: Vec<(String, String)> = Vec::new();
        properties.push(
            (String::from_str("name"), String::from_str("urn:ogc:def:crs:OGC:1.3:CRS84")),
        );
        Crs { typ: String::from_str("name"), properties }
    }
}

/// Closes a ring.
fn close_ring(ring: &Vec<Point>) -> (r: Vec<Point>)
    requires
        ring@.len() > 0,
    ensures
        r@ == closed(ring@),
{
    let mut out: Vec<Point> = Vec::new();
    let mut i: usize = 0;
    while i < ring.len()
        invariant
            i <= ring@.len(),
            out@ == ring@.take(i as int),
        decreases ring.len() - i,
    {
        out.push(ring[i]);
        assert(out@ == ring@.take(i as int + 1));
        i = i + 1;
    }
    assert(ring@.take(i as int) == ring@);
    if !ring[0].same_as(&ring[ring.len() - 1]) {
        out.push(ring[0]);
    }
    out
}

impl Geometry {
    /// The geometry of one ring, which it closes.
    pub fn from_ring(ring: &Vec<Point>) -> (r: Geometry)
        requires
            ring@.len() > 0,
        ensures
            r.typ@ == "MultiPolygon"@,
            ring_models(r.array@) == seq![closed(ring@)],
    {
        let mut array: Vec<Vec<Point>> = Vec::new();
        let c = close_ring(ring);
        array.push(c);
        assert(ring_models(array@) =~= seq![closed(ring@)]);
        Geometry { typ: String::from_str("MultiPolygon"), array }
    }
}

impl Geometry {
    /// The direction of each ring of the geometry.
    pub fn polygon_or_hole(&self) -> (r: Vec<Result<Fill, FIRParsingError>>)
        requires
            forall|j: int|
                0 <= j < self.array@.len() ==> ring_wf(#[trigger] ring_models(self.array@)[j]),
        ensures
            r@.len() == self.array@.len(),
            forall|j: int|
                0 <= j < self.array@.len() ==> (#[trigger] r@[j]) == fill_of(self.array@[j]@),
    {
        let mut out: Vec<Result<Fill, FIRParsingError>> = Vec::new();
        let mut i: usize = 0;
        while i < self.array.len()
            invariant
                i <= self.array@.len(),
                out@.len() == i,
                forall|j: int|
                    0 <= j < self.array@.len() ==> ring_wf(
                        #[trigger] ring_models(self.array@)[j],
                    ),
                forall|j: int| 0 <= j < i ==> (#[trigger] out@[j]) == fill_of(self.array@[j]@),
            decreases self.array.len() - i,
        {
            assert(ring_models(self.array@)[i as int] == self.array@[i as int]@);
            out.push(polygon_or_hole(&self.array[i]));
            i = i + 1;
        }
        out
    }
}

impl Properties {
    /// What a feature says of this record's region.
    pub fn from_boundary(fir: &FIRBoundary) -> (r: Properties)
        ensures
            r.icao@ == fir@.icao,
            r.is_oceanic == fir@.is_oseanic,
            r.lable == fir@.lable,
    {
        Properties { icao: fir.icao.clone(), is_oceanic: fir.is_oseanic, lable: fir.lable }
    }
}

impl Feature {
    /// The feature of a record, with the record's ring alone.
    pub fn from_boundary(fir: &FIRBoundary) -> (r: Feature)
        requires
            fir@.boundary_corners.len() > 0,
        ensures
            r@ == feature_of(fir@),
            r.typ@ == "Feature"@,
            r.geometry.typ@ == "MultiPolygon"@,
    {
        Feature {
            typ: String::from_str("Feature"),
            properties: Properties::from_boundary(fir),
            geometry: Geometry::from_ring(&fir.boundary_corners),
        }
    }
}

/// The position of the first feature with this code.
fn find_owner(features: &Vec<Feature>, icao: &String) -> (r: usize)
    ensures
        r == owner_index(feature_models(features@), icao@),
        r <= features@.len(),
{
    let n = features.len();
    let mut i: usize = 0;
    let ghost f = feature_models(features@);
    assert(f.take(0).len() == 0);
    while i < n
        invariant
            i <= n,
            n == features@.len(),
            f == feature_models(features@),
            owner_index(f.take(i as int), icao@) == i,
        decreases n - i,
    {
        assert(f.take(i as int + 1).drop_last() == f.take(i as int));
        assert(f.take(i as int + 1).last() == features@[i as int]@);
        if features[i].properties.icao == *icao {
            proof {
                lemma_owner_stays(f, i as int + 1, n as int, icao@);
                assert(f.take(n as int) == f);
            }
            return i;
        }
        i = i + 1;
    }
    assert(f.take(n as int) == f);
    n
}

proof fn lemma_owner_stays(f: Seq<FeatureModel>, i: int, n: int, icao: Seq<char>)
    requires
        0 <= i <= n <= f.len(),
        owner_index(f.take(i), icao) < i,
    ensures
        owner_index(f.take(n), icao) == owner_index(f.take(i), icao),
    decreases n - i,
{
    if i < n {
        assert(f.take(n).drop_last() == f.take(n - 1));
        lemma_owner_stays(f, i, n - 1, icao);
    }
}

/// Makes the features of a list of records.
pub fn generate_features(data: &Vec<FIRBoundary>) -> (r: Result<Vec<Feature>, FIRParsingError>)
    requires
        rings_nonempty(record_models(data@)),
    ensures
        match features_of(record_models(data@)) {
            Ok(f) => r is Ok && feature_models(r.unwrap()@) == f && all_tagged(r.unwrap()@),
            Err(e) => r is Err && r.unwrap_err()@ == e,
        },
{
    let mut features: Vec<Feature> = Vec::new();
    let n = data.len();
    let ghost s = record_models(data@);
    let mut i: usize = 0;
    assert(s.take(0).len() == 0);
    assert(feature_models(features@) =~= base_features(s.take(0)));
    while i < n
        invariant
            i <= n,
            n == data@.len(),
            s == record_models(data@),
            rings_nonempty(s),
            all_tagged(features@),
            feature_models(features@) == base_features(s.take(i as int)),
        decreases n - i,
    {
        assert(s.take(i as int + 1).drop_last() == s.take(i as int));
        assert(s.take(i as int + 1).last() == data@[i as int]@);
        assert(s[i as int].boundary_corners.len() > 0);
        if !data[i].is_extension {
            let ghost before = features@;
            let f = Feature::from_boundary(&data[i]);
            features.push(f);
            assert(feature_models(features@) =~= feature_models(before).push(f@));
        }
        i = i + 1;
    }
    assert(s.take(n as int) == s);
    let mut j: usize = 0;
    while j < n
        invariant
            j <= n,
            n == data@.len(),
            s == record_models(data@),
            rings_nonempty(s),
            all_tagged(features@),
            attach_all(base_features(s), s.take(j as int)) == Ok::<
                Seq<FeatureModel>,
                ErrorModel,
            >(feature_models(features@)),
        decreases n - j,
    {
        assert(s.take(j as int + 1).drop_last() == s.take(j as int));
        assert(s.take(j as int + 1).last() == data@[j as int]@);
        assert(s[j as int].boundary_corners.len() > 0);
        if data[j].is_extension {
            let k = find_owner(&features, &data[j].icao);
            if k >= features.len() {
                proof {
                    lemma_orphan_stays(base_features(s), s, j as int + 1);
                }
                return Err(FIRParsingError::OrphanExtension(data[j].icao.clone()));
            }
            let ghost before = features@;
            let ring = close_ring(&data[j].boundary_corners);
            let mut f = features.remove(k);
            let ghost old_f = f;
            f.geometry.array.push(ring);
            assert(ring_models(f.geometry.array@) =~= ring_models(old_f.geometry.array@).push(
                ring@,
            ));
            features.insert(k, f);
            assert(feature_models(features@) =~= feature_models(before).update(k as int, f@));
            assert forall|m: int| 0 <= m < features@.len() implies is_tagged(
                #[trigger] features@[m],
            ) by {
                if m != k {
                    assert(features@[m] == before[m]);
                }
            }
        }
        j = j + 1;
    }
    assert(s.take(n as int) == s);
    Ok(features)
}

/// Once an extension has found no feature, the whole list has no features.
proof fn lemma_orphan_stays(features: Seq<FeatureModel>, s: Seq<BoundaryModel>, n: int)
    requires
        0 <= n <= s.len(),
        attach_all(features, s.take(n)) is Err,
    ensures
        attach_all(features, s) == attach_all(features, s.take(n)),
    decreases s.len() - n,
{
    if n < s.len() {
        assert(s.take(n + 1).drop_last() == s.take(n));
        lemma_orphan_stays(features, s, n + 1);
    } else {
        assert(s.take(n) == s);
    }
}

/// A whole document from a list of records.
pub fn to_geojson(data: &Vec<FIRBoundary>) -> (r: Result<GeoJson, FIRParsingError>)
    requires
        rings_nonempty(record_models(data@)),
    ensures
        match features_of(record_models(data@)) {
            Ok(f) => r is Ok && feature_models(r.unwrap().features@) == f && all_tagged(
                r.unwrap().features@,
            ) && r.unwrap().typ@ == "FeatureCollection"@ && r.unwrap().name@.len() == 0
                && is_crs84(r.unwrap().crs),
            Err(e) => r is Err && r.unwrap_err()@ == e,
        },
{
    match generate_features(data) {
        Ok(features) => Ok(
            GeoJson {
                typ: String::from_str("FeatureCollection"),
                name: String::new(),
                crs: Crs::default(),
                features,
            },
        ),
        Err(e) => Err(e),
    }
}

/// The record of the ring number `n` of a feature, as the record number
/// `id`: the first ring is the region, every other an extension. The ring
/// loses its closing point and the bounds are computed from it. A ring
/// without points is an error.
pub open spec fn ring_record(f: FeatureModel, n: int, id: usize) -> Result<BoundaryModel, ErrorModel> {
    let ring = opened(f.rings[n]);
    if ring.len() == 0 {
        Err(ErrorModel::DegenerateRing)
    } else {
        match bounds_of(ring) {
            None => Err(ErrorModel::DecimalOverflow),
            Some(bounds) => Ok(
                BoundaryModel {
                    id,
                    icao: f.icao,
                    is_oseanic: f.is_oceanic,
                    is_extension: n != 0,
                    bounds,
                    lable: f.lable,
                    boundary_corners: ring,
                },
            ),
        }
    }
}

/// The records `acc`, then those of the first `n` rings of a feature,
/// numbered by their places in the list.
pub open spec fn add_rings(acc: Seq<BoundaryModel>, f: FeatureModel, n: nat) -> Result<
    Seq<BoundaryModel>,
    ErrorModel,
>
    decreases n,
{
    if n == 0 {
        Ok(acc)
    } else {
        match add_rings(acc, f, (n - 1) as nat) {
            Err(e) => Err(e),
            Ok(s) => match ring_record(f, n - 1, s.len() as usize) {
                Err(e) => Err(e),
                Ok(b) => Ok(s.push(b)),
            },
        }
    }
}

/// The records of a list of features: feature after feature, the region
/// first and then its extensions, numbered from 0.
pub open spec fn records_of(features: Seq<FeatureModel>) -> Result<Seq<BoundaryModel>, ErrorModel>
    decreases features.len(),
{
    if features.len() == 0 {
        Ok(Seq::empty())
    } else {
        match records_of(features.drop_last()) {
            Err(e) => Err(e),
            Ok(s) => add_rings(s, features.last(), features.last().rings.len()),
        }
    }
}

/// Opens a ring: drops the closing point, if there is one.
fn open_ring(ring: &Vec<Point>) -> (r: Vec<Point>)
    ensures
        r@ == opened(ring@),
{
    let mut n = ring.len();
    if n >= 2 && ring[0].same_as(&ring[n - 1]) {
        n = n - 1;
    }
    let mut out: Vec<Point> = Vec::new();
    let mut i: usize = 0;
    while i < n
        invariant
            i <= n <= ring@.len(),
            out@ == ring@.take(i as int),
        decreases n - i,
    {
        out.push(ring[i]);
        assert(out@ == ring@.take(i as int + 1));
        i = i + 1;
    }
    assert(ring@.take(ring@.len() as int) == ring@);
    assert(ring@.take(ring@.len() - 1) == ring@.drop_last());
    out
}

proof fn lemma_rings_error_stays(acc: Seq<BoundaryModel>, f: FeatureModel, k: nat, n: nat)
    requires
        k <= n,
        add_rings(acc, f, k) is Err,
    ensures
        add_rings(acc, f, n) == add_rings(acc, f, k),
    decreases n - k,
{
    if k < n {
        lemma_rings_error_stays(acc, f, k, (n - 1) as nat);
    }
}

proof fn lemma_records_error_stays(features: Seq<FeatureModel>, k: int)
    requires
        0 <= k <= features.len(),
        records_of(features.take(k)) is Err,
    ensures
        records_of(features) == records_of(features.take(k)),
    decreases features.len() - k,
{
    if k < features.len() {
        assert(features.take(k + 1).drop_last() == features.take(k));
        lemma_records_error_stays(features, k + 1);
    } else {
        assert(features.take(k) == features);
    }
}

/// Makes the records of a document: of each feature the first ring is the
/// region and every other ring an extension of it.
pub fn convert_from_geojson(gj: &GeoJson) -> (r: Result<Vec<FIRBoundary>, FIRParsingError>)
    requires
        features_wf(feature_models(gj.features@)),
    ensures
        match records_of(feature_models(gj.features@)) {
            Ok(s) => r is Ok && record_models(r.unwrap()@) == s && records_wf(r.unwrap()@),
            Err(e) => r is Err && r.unwrap_err()@ == e,
        },
{
    let mut out: Vec<FIRBoundary> = Vec::new();
    let n = gj.features.len();
    let ghost fs = feature_models(gj.features@);
    let mut i: usize = 0;
    assert(fs.take(0).len() == 0);
    assert(record_models(out@) =~= Seq::<BoundaryModel>::empty());
    while i < n
        invariant
            i <= n,
            n == gj.features@.len(),
            fs == feature_models(gj.features@),
            features_wf(fs),
            records_wf(out@),
            records_of(fs.take(i as int)) == Ok::<Seq<BoundaryModel>, ErrorModel>(
                record_models(out@),
            ),
        decreases n - i,
    {
        let feature = &gj.features[i];
        let ghost f = feature@;
        let ghost start = record_models(out@);
        assert(fs.take(i as int + 1).drop_last() == fs.take(i as int));
        assert(fs.take(i as int + 1).last() == f);
        assert(feature_wf(fs[i as int]));
        let rings = feature.geometry.array.len();
        let mut k: usize = 0;
        while k < rings
            invariant
                k <= rings,
                rings == feature.geometry.array@.len(),
                f == feature@,
                i < n,
                n == fs.len(),
                fs == feature_models(gj.features@),
                f.rings.len() == rings,
                fs.take(i as int + 1).drop_last() == fs.take(i as int),
                fs.take(i as int + 1).last() == f,
                records_of(fs.take(i as int)) == Ok::<Seq<BoundaryModel>, ErrorModel>(start),
                feature_wf(f),
                records_wf(out@),
                add_rings(start, f, k as nat) == Ok::<Seq<BoundaryModel>, ErrorModel>(
                    record_models(out@),
                ),
            decreases rings - k,
        {
            assert(f.rings[k as int] == feature.geometry.array@[k as int]@);
            assert(ring_wf(f.rings[k as int]));
            let ring = open_ring(&feature.geometry.array[k]);
            assert(ring_wf(ring@));
            if ring.len() == 0 {
                proof {
                    assert(add_rings(start, f, (k + 1) as nat) is Err);
                    lemma_rings_error_stays(start, f, (k + 1) as nat, rings as nat);
                    assert(records_of(fs.take(i as int + 1)) == add_rings(start, f, rings as nat));
                    lemma_records_error_stays(fs, i as int + 1);
                }
                return Err(FIRParsingError::DegenerateRing);
            }
            let bounds = match bounding_box(&ring) {
                Ok(b) => b,
                Err(e) => {
                    proof {
                        assert(add_rings(start, f, (k + 1) as nat) is Err);
                        lemma_rings_error_stays(start, f, (k + 1) as nat, rings as nat);
                        assert(records_of(fs.take(i as int + 1)) == add_rings(
                            start,
                            f,
                            rings as nat,
                        ));
                        lemma_records_error_stays(fs, i as int + 1);
                    }
                    return Err(e);
                },
            };
            let ghost before = out@;
            let b = FIRBoundary {
                id: out.len(),
                icao: feature.properties.icao.clone(),
                is_oseanic: feature.properties.is_oceanic,
                is_extension: k != 0,
                min_lat: bounds.min_lat,
                min_lon: bounds.min_lon,
                max_lat: bounds.max_lat,
                max_lon: bounds.max_lon,
                lable: feature.properties.lable,
                boundary_corners: ring,
            };
            out.push(b);
            assert(record_models(out@) =~= record_models(before).push(b@));
            k = k + 1;
        }
        i = i + 1;
    }
    assert(fs.take(n as int) == fs);
    Ok(out)
}

} // verus!
