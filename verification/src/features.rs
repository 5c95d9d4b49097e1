//! From GeoJSON features to reports.
use crate::api::{refused, ApiError};
use crate::collection::ingest::{report_time, tellings, well_placed, Report, Told};
use crate::collection::{maybe, Collection, NEVER};
use crate::geojson::{told, CatVal};
use crate::geometry::in_world;
use crate::positions::{cells_all, cells_of, file_all, filed_all, lemma_filed_len, lists, maps_of,
    same_values, DimVal};
use crate::schema::Schema;
use crate::text::{copy_texts, number, push_number, texts};
use vstd::hash_map::StringHashMap;
use vstd::prelude::*;
use vstd::string::StringExecFns;

verus! {

/// Where a Feature's category is looked for in its properties, in order of preference. Both
/// spellings are here because the compact form calls it `cat` and other libraries default to
/// `category`, and a file exported from one should load into the other.
pub fn cat_properties() -> (keys: [&'static str; 2])
    ensures
        keys@[0]@ == "cat"@,
        keys@[1]@ == "category"@,
{
    ["cat", "category"]
}

/// A point on the map.
#[derive(Debug, Clone)]
pub struct Place {
    /// Nothing if a coordinate is not a finite number.
    pub at: Option<(i32, i32)>,
    /// Whether the latitude is one at all, and how it is written.
    pub upright: bool,
    pub lat: String,
}

/// One Feature, read but not adopted: the wrapper is dropped and only these values go on.
#[derive(Debug, Clone)]
pub struct GeoFeature {
    pub id: Option<String>,
    /// Nothing when the Feature carried a null geometry.
    pub place: Option<Place>,
    pub props: Option<String>,
    pub updated_at_ms: Option<u64>,
}

/// What was found in the properties of a Feature.
#[derive(Debug, Clone)]
pub struct Peeked {
    pub id: Option<String>,
    pub cat: Option<CatVal>,
    /// Per dimension.
    pub dims: Vec<Option<DimVal>>,
}

/// What has to come out of the properties of a Feature.
#[derive(Debug, Clone, Copy, PartialEq, Eq, Structural)]
pub struct Peek {
    pub id: bool,
    pub cat: bool,
    pub dims: bool,
}

/// What has to come out of the properties of a Feature: an id that it did not carry itself, or
/// that a named property has to give; and values that the collection can filter by. With
/// `categories` those are under one of the category keys, with `dimensions` under one key each.
pub fn what_to_peek(c: &Collection, f: &GeoFeature, named: bool) -> (p: Peek)
    ensures
        p == (Peek {
            id: named || f.id is None,
            cat: c.config.categories.len() > 0,
            dims: c.config.categories.len() == 0 && c.schema.dims.len() > 0,
        }),
{
    Peek {
        id: named || f.id.is_none(),
        cat: c.config.categories.len() > 0,
        dims: c.config.categories.len() == 0 && c.schema.dims.len() > 0,
    }
}

/// The values of the first `k` dimensions, by name.
pub open spec fn found_map(s: Schema, d: Seq<Option<DimVal>>, k: int) -> Map<
    Seq<char>,
    Seq<Seq<char>>,
>
    decreases k,
{
    if k <= 0 {
        Map::empty()
    } else {
        let m = found_map(s, d, k - 1);
        match d[k - 1] {
            Some(v) => m.insert(s.dims[k - 1].name@, texts(v.0@)),
            None => m,
        }
    }
}

/// Some of the first `k` are there.
pub open spec fn any_found(d: Seq<Option<DimVal>>, k: int) -> bool {
    exists|i: int| 0 <= i < k && #[trigger] d[i] is Some
}

/// The filter values a Feature names, if it names any.
pub open spec fn feature_values_meant(c: Collection, p: Peeked) -> Option<
    Map<Seq<char>, Seq<Seq<char>>>,
> {
    if c.schema.dims.len() == 0 {
        None
    } else if c.config.categories.len() > 0 {
        match p.cat {
            Some(v) => Some(Map::empty().insert(c.schema.dims[0].name@, seq![v.shown()])),
            None => None,
        }
    } else if any_found(p.dims@, p.dims.len() as int) {
        Some(found_map(c.schema, p.dims@, p.dims.len() as int))
    } else {
        None
    }
}

/// The filter values of a Feature.
pub fn feature_values(c: &Collection, p: &Peeked) -> (r: Option<StringHashMap<Vec<String>>>)
    requires
        p.dims.len() <= c.schema.dims.len(),
    ensures
        same_values(r, feature_values_meant(*c, *p)),
{
    if !c.schema.enabled() {
        return None;
    }
    let mut vals: StringHashMap<Vec<String>> = StringHashMap::new();
    if c.config.categories.len() > 0 {
        match &p.cat {
            Some(v) => {
                let mut one: Vec<String> = Vec::new();
                one.push(v.label());
                proof {
                    assert(texts(one@) =~= seq![v.shown()]);
                }
                vals.insert(c.schema.dims[0].name.clone(), one);
                proof {
                    assert(lists(vals@) =~= Map::empty().insert(
                        c.schema.dims[0].name@,
                        seq![v.shown()],
                    ));
                }
                return Some(vals);
            },
            None => {
                return None;
            },
        }
    }
    let mut any = false;
    let mut i: usize = 0;
    proof {
        assert(lists(vals@) =~= found_map(c.schema, p.dims@, 0));
    }
    while i < p.dims.len()
        invariant
            i <= p.dims.len() <= c.schema.dims.len(),
            lists(vals@) == found_map(c.schema, p.dims@, i as int),
            any == any_found(p.dims@, i as int),
        decreases p.dims.len() - i,
    {
        let ghost was = vals@;
        match &p.dims[i] {
            Some(v) => {
                vals.insert(c.schema.dims[i].name.clone(), copy_texts(&v.0));
                proof {
                    assert(lists(vals@) =~= lists(was).insert(
                        c.schema.dims[i as int].name@,
                        texts(v.0@),
                    ));
                    assert(p.dims@[i as int] is Some);
                }
                any = true;
            },
            None => {
                proof {
                    if any_found(p.dims@, i + 1) {
                        let j = choose|j: int| 0 <= j < i + 1 && #[trigger] p.dims@[j] is Some;
                        assert(any_found(p.dims@, i as int));
                    }
                    if any_found(p.dims@, i as int) {
                        let j = choose|j: int| 0 <= j < i && #[trigger] p.dims@[j] is Some;
                        assert(any_found(p.dims@, i + 1));
                    }
                }
            },
        }
        i = i + 1;
    }
    if any {
        Some(vals)
    } else {
        None
    }
}

/// The front of a message about the `i`-th Feature.
pub open spec fn feature_named(i: int) -> Seq<char> {
    "features["@ + number(i) + "]"@
}

fn about(i: usize) -> (s: String)
    ensures
        s@ == feature_named(i as int),
{
    let mut s = String::from_str("features[");
    push_number(&mut s, i as u64);
    s.append("]");
    s
}

/// Why a Feature has no position to cluster, if it has none.
///
/// Coordinates are positional, so the pair can be, and often is, written the wrong way round. The
/// projection clamps latitude, so without this the point silently lands at a pole instead of
/// failing.
pub open spec fn place_fault(i: int, f: GeoFeature) -> Option<Seq<char>> {
    match f.place {
        None => Some(
            feature_named(i) + " has a null geometry, so it has no position to cluster"@,
        ),
        Some(p) => if p.upright {
            None
        } else {
            Some(
                feature_named(i) + " has latitude "@ + p.lat@
                    + ", outside [-90, 90]. GeoJSON coordinates are [longitude, latitude] -- are yours the other way round?"@,
            )
        },
    }
}

/// The id of a Feature. An explicitly named property wins outright: silently falling back to the
/// Feature's own id would key half the fleet one way and half the other.
pub open spec fn id_meant(
    i: int,
    named: Option<Seq<char>>,
    found: Option<Seq<char>>,
    own: Option<Seq<char>>,
) -> Result<Seq<char>, Seq<char>> {
    match named {
        Some(k) => match found {
            Some(v) => Ok(v),
            None => Err(
                feature_named(i) + " has no properties."@ + k
                    + ", which id_property named as the id"@,
            ),
        },
        None => match own {
            Some(v) => Ok(v),
            None => match found {
                Some(v) => Ok(v),
                None => Err(
                    feature_named(i)
                        + " has no id. Put it on the feature (\"id\": \"vehicle-7\", where GeoJSON says it goes) or in properties.id, or name the property with ?id_property="@,
                ),
            },
        },
    }
}

/// What a Feature reports, or why it is refused.
pub open spec fn feature_meant(
    i: int,
    named: Option<Seq<char>>,
    f: GeoFeature,
    p: Peeked,
    cells: Option<Seq<u32>>,
) -> Result<Told, Seq<char>> {
    match place_fault(i, f) {
        Some(e) => Err(e),
        None => match id_meant(i, named, maybe(p.id), maybe(f.id)) {
            Err(e) => Err(e),
            Ok(id) => Ok(
                Told {
                    id,
                    at: f.place->0.at,
                    props: maybe(f.props),
                    cells,
                    version: f.updated_at_ms,
                },
            ),
        },
    }
}

/// What the first `k` Features report, or why the first that is refused is.
pub open spec fn features_meant(
    named: Option<Seq<char>>,
    v: Seq<GeoFeature>,
    p: Seq<Peeked>,
    cells: Seq<Option<Seq<u32>>>,
    k: int,
) -> Result<Seq<Told>, Seq<char>>
    decreases k,
{
    if k <= 0 {
        Ok(seq![])
    } else {
        match features_meant(named, v, p, cells, k - 1) {
            Err(e) => Err(e),
            Ok(q) => match feature_meant(k - 1, named, v[k - 1], p[k - 1], cells[k - 1]) {
                Err(e) => Err(e),
                Ok(t) => Ok(q.push(t)),
            },
        }
    }
}

proof fn lemma_features(
    named: Option<Seq<char>>,
    v: Seq<GeoFeature>,
    p: Seq<Peeked>,
    cells: Seq<Option<Seq<u32>>>,
    j: int,
    k: int,
)
    requires
        0 <= j <= k,
        features_meant(named, v, p, cells, j) is Err,
    ensures
        features_meant(named, v, p, cells, k) == features_meant(named, v, p, cells, j),
    decreases k,
{
    if j < k {
        lemma_features(named, v, p, cells, j, k - 1);
    }
}

fn feature_report<'a>(
    i: usize,
    named: Option<&str>,
    f: &'a GeoFeature,
    p: &'a Peeked,
    cells: &'a Option<Vec<u32>>,
) -> (r: Result<Report<'a>, String>)
    ensures
        match r {
            Ok(t) => feature_meant(i as int, told(named), *f, *p, cells_of(*cells)) == Ok::<
                Told,
                Seq<char>,
            >(t.told()) && (f.place matches Some(q) && t.at == q.at) && t.told().cells == cells_of(
                *cells,
            ),
            Err(e) => feature_meant(i as int, told(named), *f, *p, cells_of(*cells)) == Err::<
                Told,
                Seq<char>,
            >(e@),
        },
{
    let at: Option<(i32, i32)> = match &f.place {
        None => {
            let mut t = about(i);
            t.append(" has a null geometry, so it has no position to cluster");
            return Err(t);
        },
        Some(p) => {
            if !p.upright {
                let mut t = about(i);
                t.append(" has latitude ");
                t.append(p.lat.as_str());
                t.append(
                    ", outside [-90, 90]. GeoJSON coordinates are [longitude, latitude] -- are yours the other way round?",
                );
                return Err(t);
            }
            p.at
        },
    };
    let id: &'a str = match (named, &f.id) {
        (Some(k), _) => match &p.id {
            Some(v) => v.as_str(),
            None => {
                let mut t = about(i);
                t.append(" has no properties.");
                t.append(k);
                t.append(", which id_property named as the id");
                return Err(t);
            },
        },
        (None, Some(v)) => v.as_str(),
        (None, None) => match &p.id {
            Some(v) => v.as_str(),
            None => {
                let mut t = about(i);
                t.append(
                    " has no id. Put it on the feature (\"id\": \"vehicle-7\", where GeoJSON says it goes) or in properties.id, or name the property with ?id_property=",
                );
                return Err(t);
            },
        },
    };
    Ok(
        Report {
            id,
            at,
            props: match &f.props {
                Some(p) => Some(p.as_str()),
                None => None,
            },
            cells: match cells {
                Some(q) => Some(q.as_slice()),
                None => None,
            },
            updated_at_ms: f.updated_at_ms,
        },
    )
}

/// Features whose positions lie in the world.
pub open spec fn features_placed(v: Seq<GeoFeature>) -> bool {
    forall|i: int|
        0 <= i < v.len() ==> ((#[trigger] v[i]).place matches Some(p) && p.at matches Some((x, y))
            ==> in_world(x as int) && in_world(y as int))
}

fn feature_reports<'a>(
    named: Option<&str>,
    feats: &'a Vec<GeoFeature>,
    peeked: &'a Vec<Peeked>,
    store: &'a Vec<Option<Vec<u32>>>,
) -> (r: Result<Vec<Report<'a>>, String>)
    requires
        peeked@.len() == feats@.len(),
        store@.len() == feats@.len(),
        features_placed(feats@),
        forall|i: int|
            0 <= i < store@.len() ==> (cells_of(#[trigger] store@[i]) matches Some(q)
                ==> q.no_duplicates()),
    ensures
        ({
            let a = features_meant(
                told(named),
                feats@,
                peeked@,
                cells_all(store@),
                feats@.len() as int,
            );
            match r {
                Ok(v) => {
                    &&& a == Ok::<Seq<Told>, Seq<char>>(tellings(v@))
                    &&& v@.len() == feats@.len()
                    &&& forall|i: int|
                        0 <= i < v@.len() ==> well_placed((#[trigger] v@[i]).at, v@[i].told().cells)
                },
                Err(e) => a == Err::<Seq<Told>, Seq<char>>(e@),
            }
        }),
{
    let ghost cells = cells_all(store@);
    let mut out: Vec<Report<'a>> = Vec::new();
    let mut i: usize = 0;
    proof {
        assert(tellings(out@) =~= seq![]);
    }
    while i < feats.len()
        invariant
            i <= feats@.len(),
            peeked@.len() == feats@.len(),
            store@.len() == feats@.len(),
            cells == cells_all(store@),
            features_placed(feats@),
            forall|i: int|
                0 <= i < store@.len() ==> (cells_of(#[trigger] store@[i]) matches Some(q)
                    ==> q.no_duplicates()),
            features_meant(told(named), feats@, peeked@, cells, i as int) == Ok::<
                Seq<Told>,
                Seq<char>,
            >(tellings(out@)),
            out@.len() == i,
            forall|i: int|
                0 <= i < out@.len() ==> well_placed((#[trigger] out@[i]).at, out@[i].told().cells),
        decreases feats@.len() - i,
    {
        let ghost was = out@;
        proof {
            assert(cells[i as int] == cells_of(store@[i as int]));
        }
        match feature_report(i, named, &feats[i], &peeked[i], &store[i]) {
            Ok(t) => {
                let ghost q = t.told();
                proof {
                    assert(cells_of(store@[i as int]) matches Some(q) ==> q.no_duplicates());
                    let p = feats@[i as int];
                    assert(well_placed(t.at, t.told().cells));
                }
                out.push(t);
                proof {
                    assert(tellings(out@) =~= tellings(was).push(q));
                }
            },
            Err(e) => {
                proof {
                    lemma_features(
                        told(named),
                        feats@,
                        peeked@,
                        cells,
                        i + 1,
                        feats@.len() as int,
                    );
                }
                return Err(e);
            },
        }
        i = i + 1;
    }
    Ok(out)
}

/// Maps that say what the Features name.
pub open spec fn features_valued(
    c: Collection,
    p: Seq<Peeked>,
    ms: Seq<Option<Map<Seq<char>, Vec<String>>>>,
) -> bool {
    &&& ms.len() == p.len()
    &&& forall|i: int|
        0 <= i < p.len() ==> (match (#[trigger] ms[i], feature_values_meant(c, p[i])) {
            (Some(a), Some(b)) => lists(a) == b,
            (None, None) => true,
            _ => false,
        })
}

/// The same count, or the reason as a bad request.
pub open spec fn relays(r: Result<usize, ApiError>, w: Result<usize, String>) -> bool {
    match (r, w) {
        (Ok(a), Ok(b)) => a == b,
        (Err(f), Err(e)) => f.refusal() == refused(e@, "bad_request"@),
        _ => false,
    }
}

/// The fate of a batch of Features whose values are in `ms`: refused for a value, or else for a
/// Feature, or else reported.
pub open spec fn features_fate(
    o: Collection,
    n: Collection,
    named: Option<Seq<char>>,
    v: Seq<GeoFeature>,
    p: Seq<Peeked>,
    ms: Seq<Option<Map<Seq<char>, Vec<String>>>>,
    now: u64,
    r: Result<usize, ApiError>,
) -> bool {
    let a = filed_all(o.schema, o.interner@, ms, v.len() as int);
    let resolved = n == (Collection { interner: n.interner, ..o }) && n.interner@ == a.1;
    match a.0 {
        Err((i, e)) => resolved && (r matches Err(f) && f.refusal() == refused(
            feature_named(i) + ": "@ + e,
            "bad_geojson"@,
        )),
        Ok(cells) => match features_meant(named, v, p, cells, v.len() as int) {
            Err(e) => resolved && (r matches Err(f) && f.refusal() == refused(e, "bad_geojson"@)),
            Ok(q) => exists|mid: Collection, w: Result<usize, String>|
                {
                    &&& mid.interner@ == a.1
                    &&& mid == (Collection { interner: mid.interner, ..o })
                    &&& #[trigger] mid.takes(n, q, now, w)
                    &&& relays(r, w)
                },
        },
    }
}

fn all_values(c: &Collection, peeked: &Vec<Peeked>) -> (vals: Vec<
    Option<StringHashMap<Vec<String>>>,
>)
    requires
        forall|i: int|
            0 <= i < peeked@.len() ==> (#[trigger] peeked@[i]).dims.len() <= c.schema.dims.len(),
    ensures
        vals@.len() == peeked@.len(),
        features_valued(*c, peeked@, maps_of(vals@)),
{
    let mut vals: Vec<Option<StringHashMap<Vec<String>>>> = Vec::new();
    let mut i: usize = 0;
    while i < peeked.len()
        invariant
            i <= peeked@.len(),
            vals@.len() == i,
            forall|i: int|
                0 <= i < peeked@.len() ==> (#[trigger] peeked@[i]).dims.len()
                    <= c.schema.dims.len(),
            forall|j: int|
                0 <= j < i ==> same_values(
                    #[trigger] vals@[j],
                    feature_values_meant(*c, peeked@[j]),
                ),
        decreases peeked@.len() - i,
    {
        vals.push(feature_values(c, &peeked[i]));
        i = i + 1;
    }
    proof {
        let ms = maps_of(vals@);
        assert forall|i: int| 0 <= i < peeked@.len() implies (match (
            #[trigger] ms[i],
            feature_values_meant(*c, peeked@[i]),
        ) {
            (Some(a), Some(b)) => lists(a) == b,
            (None, None) => true,
            _ => false,
        }) by {
            assert(same_values(vals@[i], feature_values_meant(*c, peeked@[i])));
        }
    }
    vals
}

/// Take a batch of Features that arrives at a time, with what was found in their properties. A
/// property that the caller named as the id is in `named`. All or nothing, but that values which
/// a refused batch had interned stay interned.
pub fn take_features_at(
    c: &mut Collection,
    feats: &Vec<GeoFeature>,
    peeked: &Vec<Peeked>,
    named: Option<&str>,
    now: u64,
) -> (r: Result<usize, ApiError>)
    requires
        old(c).sound(),
        old(c).room_for(feats@.len() as int),
        now != NEVER,
        features_placed(feats@),
        peeked@.len() == feats@.len(),
        forall|i: int|
            0 <= i < peeked@.len() ==> (#[trigger] peeked@[i]).dims.len() <= old(
                c,
            ).schema.dims.len(),
    ensures
        exists|ms: Seq<Option<Map<Seq<char>, Vec<String>>>>|
            features_valued(*old(c), peeked@, ms) && #[trigger] features_fate(
                *old(c),
                *final(c),
                told(named),
                feats@,
                peeked@,
                ms,
                now,
                r,
            ),
{
    let ghost o = *c;
    let vals = all_values(c, peeked);
    let ghost ms = maps_of(vals@);
    let store = match file_all(c, &vals) {
        Ok(v) => v,
        Err((i, e)) => {
            let mut t = about(i);
            t.append(": ");
            t.append(e.as_str());
            let r = Err(ApiError::bad(t).code("bad_geojson"));
            proof {
                assert(features_fate(o, *c, told(named), feats@, peeked@, ms, now, r));
            }
            return r;
        },
    };
    let ghost mid = *c;
    proof {
        lemma_filed_len(o.schema, o.interner@, ms, feats@.len() as int);
        assert(cells_all(store@).len() == store@.len());
    }
    let reports = match feature_reports(named, feats, peeked, &store) {
        Ok(v) => v,
        Err(e) => {
            let r = Err(ApiError::bad(e).code("bad_geojson"));
            proof {
                assert(features_fate(o, *c, told(named), feats@, peeked@, ms, now, r));
            }
            return r;
        },
    };
    let done = c.upsert_at(reports.as_slice(), now);
    let ghost was = done;
    let r = match done {
        Ok(n) => Ok(n),
        Err(e) => Err(ApiError::bad(e)),
    };
    proof {
        assert(mid.takes(*c, tellings(reports@), now, was));
        assert(relays(r, was));
        let a = filed_all(o.schema, o.interner@, ms, feats@.len() as int);
        assert(a.0 == Ok::<Seq<Option<Seq<u32>>>, (int, Seq<char>)>(cells_all(store@)));
        let q = features_meant(
            told(named),
            feats@,
            peeked@,
            cells_all(store@),
            feats@.len() as int,
        )->Ok_0;
        assert(mid.interner@ == a.1);
        assert(mid == (Collection { interner: mid.interner, ..o }));
        assert(mid.takes(*c, q, now, was));
        assert(features_fate(o, *c, told(named), feats@, peeked@, ms, now, r));
    }
    r
}

/// Take a batch of Features that arrives now; see [`take_features_at`].
pub fn take_features(
    c: &mut Collection,
    feats: &Vec<GeoFeature>,
    peeked: &Vec<Peeked>,
    named: Option<&str>,
) -> (r: Result<usize, ApiError>)
    requires
        old(c).sound(),
        old(c).room_for(feats@.len() as int),
        features_placed(feats@),
        peeked@.len() == feats@.len(),
        forall|i: int|
            0 <= i < peeked@.len() ==> (#[trigger] peeked@[i]).dims.len() <= old(
                c,
            ).schema.dims.len(),
    ensures
        exists|ms: Seq<Option<Map<Seq<char>, Vec<String>>>>, now: u64|
            now != NEVER && features_valued(*old(c), peeked@, ms) && #[trigger] features_fate(
                *old(c),
                *final(c),
                told(named),
                feats@,
                peeked@,
                ms,
                now,
                r,
            ),
{
    take_features_at(c, feats, peeked, named, report_time())
}

} // verus!
