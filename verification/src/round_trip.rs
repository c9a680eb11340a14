//! The way from records to features and back.

use crate::boundary::{all_lines, fixed, BoundaryModel, FIRBoundary};
use crate::laws::lemma_fixed_ring_is_clean;
use crate::collection::record_models;
use crate::errors::ErrorModel;
use crate::geo_json::{
    add_rings, attach_all, base_features, closed, feature_of, features_of, opened, owner_index,
    records_of, ring_record, FeatureModel,
};
use crate::point::Point;
use crate::ring::bounds_of;
use vstd::prelude::*;

verus! {

/// A ring as records hold it: it has a point, and its last point is not at
/// the place of its first, unless it is the only one.
pub open spec fn ring_open(ring: Seq<Point>) -> bool {
    ring.len() > 0 && !(ring.len() >= 2 && ring[0].same_place(ring.last()))
}

/// The record at position `i` can make the way to a feature and back: its
/// number is its position, its ring is open and its bounds are those of its
/// ring. An extension follows its region, or another extension of it, and
/// has the region's code, flag and label. A region has a code that no
/// record before it has.
pub open spec fn record_in_place(s: Seq<BoundaryModel>, i: int) -> bool {
    &&& s[i].id == i
    &&& ring_open(s[i].boundary_corners)
    &&& bounds_of(s[i].boundary_corners) == Some(s[i].bounds)
    &&& if s[i].is_extension {
        &&& i > 0
        &&& s[i].icao == s[i - 1].icao
        &&& s[i].is_oseanic == s[i - 1].is_oseanic
        &&& s[i].lable == s[i - 1].lable
    } else {
        forall|j: int| 0 <= j < i ==> (#[trigger] s[j]).icao != s[i].icao
    }
}

/// Every record of the list is in place.
pub open spec fn in_place(s: Seq<BoundaryModel>) -> bool {
    forall|i: int| 0 <= i < s.len() ==> record_in_place(s, i)
}

/// The feature with one more ring.
pub open spec fn with_ring(f: FeatureModel, ring: Seq<Point>) -> FeatureModel {
    FeatureModel { rings: f.rings.push(ring), ..f }
}

/// The features of a list in which every extension follows its region,
/// made in one pass: a region starts a feature, an extension adds its ring
/// to the last one.
pub open spec fn grouped(s: Seq<BoundaryModel>) -> Seq<FeatureModel>
    decreases s.len(),
{
    if s.len() == 0 {
        Seq::empty()
    } else {
        let g = grouped(s.drop_last());
        if !s.last().is_extension {
            g.push(feature_of(s.last()))
        } else if g.len() > 0 {
            g.update(g.len() - 1, with_ring(g.last(), closed(s.last().boundary_corners)))
        } else {
            g
        }
    }
}

/// Opening a closed ring gives back the open ring.
pub proof fn lemma_open_closed(ring: Seq<Point>)
    requires
        ring_open(ring),
    ensures
        opened(closed(ring)) == ring,
{
    if ring.len() >= 2 {
        assert(ring.push(ring[0]).drop_last() == ring);
    }
}

proof fn lemma_in_place_prefix(s: Seq<BoundaryModel>)
    requires
        in_place(s),
        s.len() > 0,
    ensures
        in_place(s.drop_last()),
{
    let t = s.drop_last();
    assert forall|i: int| 0 <= i < t.len() implies record_in_place(t, i) by {
        assert(record_in_place(s, i));
        assert(t[i] == s[i]);
        if i > 0 {
            assert(t[i - 1] == s[i - 1]);
        }
        assert forall|j: int| 0 <= j < i implies (#[trigger] t[j]).icao == s[j].icao by {
        }
    }
}

/// What holds of the one-pass features of a list in place: a non-empty
/// list has features, the last of which has the code, flag and label of
/// the last record; every feature has a ring; the code of the last feature
/// is that of no other; and every code of a feature is a code of a record.
proof fn lemma_grouped_shape(s: Seq<BoundaryModel>)
    requires
        in_place(s),
    ensures
        s.len() > 0 ==> grouped(s).len() > 0 && grouped(s).last().icao == s.last().icao && grouped(
            s,
        ).last().is_oceanic == s.last().is_oseanic && grouped(s).last().lable == s.last().lable,
        forall|k: int| 0 <= k < grouped(s).len() ==> (#[trigger] grouped(s)[k]).rings.len() > 0,
        forall|k: int|
            0 <= k < grouped(s).len() - 1 ==> (#[trigger] grouped(s)[k]).icao != grouped(
                s,
            ).last().icao,
        forall|k: int|
            0 <= k < grouped(s).len() ==> exists|j: int|
                0 <= j < s.len() && (#[trigger] s[j]).icao == (#[trigger] grouped(s)[k]).icao,
    decreases s.len(),
{
    if s.len() > 0 {
        let t = s.drop_last();
        let e = s.last();
        let i = s.len() - 1;
        lemma_in_place_prefix(s);
        lemma_grouped_shape(t);
        assert(record_in_place(s, i));
        let g = grouped(t);
        let n = grouped(s);
        if !e.is_extension {
            assert forall|k: int| 0 <= k < n.len() - 1 implies (#[trigger] n[k]).icao
                != n.last().icao by {
                assert(n[k] == g[k]);
                let j = choose|j: int|
                    0 <= j < t.len() && (#[trigger] t[j]).icao == (#[trigger] g[k]).icao;
                assert(s[j] == t[j]);
            }
            assert forall|k: int| 0 <= k < n.len() implies exists|j: int|
                0 <= j < s.len() && (#[trigger] s[j]).icao == (#[trigger] n[k]).icao by {
                if k < g.len() {
                    assert(n[k] == g[k]);
                    let j = choose|j: int|
                        0 <= j < t.len() && (#[trigger] t[j]).icao == (#[trigger] g[k]).icao;
                    assert(s[j] == t[j]);
                    assert(s[j].icao == n[k].icao);
                } else {
                    assert(s[i].icao == n[k].icao);
                }
            }
        } else {
            assert(t.len() > 0);
            assert(t.last() == s[i - 1]);
            assert forall|k: int| 0 <= k < n.len() implies exists|j: int|
                0 <= j < s.len() && (#[trigger] s[j]).icao == (#[trigger] n[k]).icao by {
                assert(n[k].icao == g[k].icao);
                let j = choose|j: int|
                    0 <= j < t.len() && (#[trigger] t[j]).icao == (#[trigger] g[k]).icao;
                assert(s[j] == t[j]);
                assert(s[j].icao == n[k].icao);
            }
            assert forall|k: int| 0 <= k < n.len() - 1 implies (#[trigger] n[k]).icao
                != n.last().icao by {
                assert(n[k] == g[k]);
            }
        }
    }
}

/// The search for a code ends at a feature or behind the last.
proof fn lemma_owner_range(f: Seq<FeatureModel>, icao: Seq<char>)
    ensures
        0 <= owner_index(f, icao) <= f.len(),
    decreases f.len(),
{
    if f.len() > 0 {
        lemma_owner_range(f.drop_last(), icao);
    }
}

/// No feature has the code: the search ends behind the last feature.
proof fn lemma_owner_absent(f: Seq<FeatureModel>, icao: Seq<char>)
    requires
        forall|k: int| 0 <= k < f.len() ==> (#[trigger] f[k]).icao != icao,
    ensures
        owner_index(f, icao) == f.len(),
    decreases f.len(),
{
    if f.len() > 0 {
        let d = f.drop_last();
        assert forall|k: int| 0 <= k < d.len() implies (#[trigger] d[k]).icao != icao by {
            assert(d[k] == f[k]);
        }
        lemma_owner_absent(d, icao);
    }
}

/// Only the last feature has the code: the search finds the last feature.
proof fn lemma_owner_last(f: Seq<FeatureModel>, icao: Seq<char>)
    requires
        f.len() > 0,
        f.last().icao == icao,
        forall|k: int| 0 <= k < f.len() - 1 ==> (#[trigger] f[k]).icao != icao,
    ensures
        owner_index(f, icao) == f.len() - 1,
{
    let d = f.drop_last();
    assert forall|k: int| 0 <= k < d.len() implies (#[trigger] d[k]).icao != icao by {
        assert(d[k] == f[k]);
    }
    lemma_owner_absent(d, icao);
}

/// A feature behind the others does not change where extensions go, as
/// long as each finds its region among the others.
proof fn lemma_attach_all_push(b: Seq<FeatureModel>, f: FeatureModel, t: Seq<BoundaryModel>)
    ensures
        attach_all(b, t) matches Ok(a) ==> attach_all(b.push(f), t) == Ok::<
            Seq<FeatureModel>,
            ErrorModel,
        >(a.push(f)),
    decreases t.len(),
{
    if t.len() > 0 {
        lemma_attach_all_push(b, f, t.drop_last());
        match attach_all(b, t.drop_last()) {
            Ok(a) => {
                let e = t.last();
                if e.is_extension {
                    let k = owner_index(a, e.icao);
                    lemma_owner_range(a, e.icao);
                    if k < a.len() {
                        assert(a.push(f).drop_last() == a);
                        assert(owner_index(a.push(f), e.icao) == k);
                        assert(a.push(f)[k] == a[k]);
                        assert(a.push(f).update(k, with_ring(a[k], closed(e.boundary_corners)))
                            =~= a.update(k, with_ring(a[k], closed(e.boundary_corners))).push(f));
                    }
                }
            },
            Err(_) => {},
        }
    }
}

/// The features of a list in place are those made in one pass.
pub proof fn lemma_features_are_grouped(s: Seq<BoundaryModel>)
    requires
        in_place(s),
    ensures
        features_of(s) == Ok::<Seq<FeatureModel>, ErrorModel>(grouped(s)),
    decreases s.len(),
{
    if s.len() > 0 {
        let t = s.drop_last();
        let e = s.last();
        lemma_in_place_prefix(s);
        lemma_features_are_grouped(t);
        lemma_grouped_shape(t);
        assert(record_in_place(s, s.len() - 1));
        if !e.is_extension {
            lemma_attach_all_push(base_features(t), feature_of(e), t);
        } else {
            assert(t.last() == s[s.len() - 2]);
            lemma_owner_last(grouped(t), e.icao);
        }
    }
}

/// The first rings of a feature alone decide the records they make.
proof fn lemma_add_rings_prefix(acc: Seq<BoundaryModel>, f: FeatureModel, ring: Seq<Point>, n: nat)
    requires
        n <= f.rings.len(),
    ensures
        add_rings(acc, with_ring(f, ring), n) == add_rings(acc, f, n),
    decreases n,
{
    if n > 0 {
        lemma_add_rings_prefix(acc, f, ring, (n - 1) as nat);
        assert(with_ring(f, ring).rings[n - 1] == f.rings[n - 1]);
        match add_rings(acc, f, (n - 1) as nat) {
            Ok(r) => {
                assert(ring_record(with_ring(f, ring), n - 1, r.len() as usize) == ring_record(
                    f,
                    n - 1,
                    r.len() as usize,
                ));
            },
            Err(_) => {},
        }
    }
}

/// The features made in one pass from a list in place give the list back.
pub proof fn lemma_grouped_gives_back(s: Seq<BoundaryModel>)
    requires
        in_place(s),
    ensures
        records_of(grouped(s)) == Ok::<Seq<BoundaryModel>, ErrorModel>(s),
    decreases s.len(),
{
    if s.len() > 0 {
        let t = s.drop_last();
        let e = s.last();
        let i = s.len() - 1;
        lemma_in_place_prefix(s);
        lemma_grouped_gives_back(t);
        lemma_grouped_shape(t);
        assert(record_in_place(s, i));
        lemma_open_closed(e.boundary_corners);
        let g = grouped(t);
        if !e.is_extension {
            let f = feature_of(e);
            assert(g.push(f).drop_last() == g);
            assert(add_rings(t, f, 0) == Ok::<Seq<BoundaryModel>, ErrorModel>(t));
            assert(ring_record(f, 0, t.len() as usize) == Ok::<BoundaryModel, ErrorModel>(e));
            assert(t.push(e) == s);
        } else {
            assert(t.last() == s[i - 1]);
            let f = g.last();
            let ring = closed(e.boundary_corners);
            let n = f.rings.len();
            let h = g.update(g.len() - 1, with_ring(f, ring));
            assert(h.drop_last() == g.drop_last());
            assert(h.last() == with_ring(f, ring));
            match records_of(g.drop_last()) {
                Ok(r) => {
                    lemma_add_rings_prefix(r, f, ring, n);
                    assert(add_rings(r, f, n) == Ok::<Seq<BoundaryModel>, ErrorModel>(t));
                    assert(with_ring(f, ring).rings[n as int] == ring);
                    assert(ring_record(with_ring(f, ring), n as int, t.len() as usize) == Ok::<
                        BoundaryModel,
                        ErrorModel,
                    >(e));
                    assert(t.push(e) == s);
                },
                Err(_) => {},
            }
        }
    } else {
        assert(s =~= Seq::<BoundaryModel>::empty());
    }
}

/// From records to features and back: a list of records in which every
/// record is in place comes back as it was.
pub proof fn lemma_round_trip(s: Seq<BoundaryModel>)
    requires
        in_place(s),
    ensures
        features_of(s) matches Ok(f) && records_of(f) == Ok::<Seq<BoundaryModel>, ErrorModel>(s),
{
    lemma_features_are_grouped(s);
    lemma_grouped_gives_back(s);
}

/// A record that fix mode has repaired has an open ring and the bounds of
/// its ring.
pub proof fn lemma_fixed_record_ring(b: BoundaryModel)
    ensures
        fixed(b) matches Ok(f) ==> ring_open(f.boundary_corners) && bounds_of(f.boundary_corners)
            == Some(f.bounds),
{
    lemma_fixed_ring_is_clean(b.boundary_corners);
    match fixed(b) {
        Ok(f) => {
            let r = f.boundary_corners;
            if r.len() >= 2 {
                assert(!r[0].same_place(r[r.len() - 1]));
            }
        },
        Err(_) => {},
    }
}

/// Lists of records with the same models are written as the same lines.
pub proof fn lemma_same_records_same_lines(a: Seq<FIRBoundary>, b: Seq<FIRBoundary>)
    requires
        record_models(a) == record_models(b),
    ensures
        all_lines(a) == all_lines(b),
    decreases a.len(),
{
    assert(a.len() == record_models(a).len());
    assert(b.len() == record_models(b).len());
    if a.len() > 0 {
        assert(a.last()@ == record_models(a).last());
        assert(b.last()@ == record_models(b).last());
        assert(record_models(a.drop_last()) =~= record_models(a).drop_last());
        assert(record_models(b.drop_last()) =~= record_models(b).drop_last());
        lemma_same_records_same_lines(a.drop_last(), b.drop_last());
    }
}

} // verus!
