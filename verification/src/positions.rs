//! From the bodies that carry positions to reports and patches.
use crate::api::{refused, ApiError, Refusal};
use crate::collection::batch::Applied;
use crate::collection::ingest::{report_time, tellings, well_placed, Report, Told};
use crate::collection::upkeep::{patches_of, Patch};
use crate::collection::{maybe, Collection, NEVER};
use crate::encoding::resolved_all;
use crate::geojson::CatVal;
use crate::geometry::in_world;
use crate::schema::{Schema, Tables};
use crate::text::{copy_texts, quote, quoted, texts};
use vstd::hash_map::StringHashMap;
use vstd::prelude::*;
use vstd::string::StringExecFns;

verus! {

/// The values of a device for one dimension.
#[derive(Debug, Clone)]
pub struct DimVal(pub Vec<String>);

/// Where an item of the compact form says a device is.
#[derive(Debug, Clone, Copy)]
pub enum Whereabouts {
    /// Both coordinates were sent; nothing if one is not a finite number.
    Here(Option<(i32, i32)>),
    /// None was sent: only what is known of the device changes.
    Unsaid,
    /// One alone is always a bug, and either guess (dropping the half that was sent, or moving
    /// the device to a made-up coordinate) is worse than refusing.
    Half,
}

/// One item of the compact form.
#[derive(Debug, Clone)]
pub struct Item {
    pub id: String,
    pub place: Whereabouts,
    pub cat: Option<CatVal>,
    pub dims: Vec<(String, DimVal)>,
    pub props: Option<String>,
    pub updated_at_ms: Option<u64>,
}

/// Values by name.
pub open spec fn lists(m: Map<Seq<char>, Vec<String>>) -> Map<Seq<char>, Seq<Seq<char>>> {
    Map::new(|k: Seq<char>| m.contains_key(k), |k: Seq<char>| texts(m[k]@))
}

/// The first `k` of some values, by name.
pub open spec fn dims_map(d: Seq<(String, DimVal)>, k: int) -> Map<Seq<char>, Seq<Seq<char>>>
    decreases k,
{
    if k <= 0 {
        Map::empty()
    } else {
        dims_map(d, k - 1).insert(d[k - 1].0@, texts(d[k - 1].1.0@))
    }
}

/// The filter values an item of the compact form names, if it names any. `cat` is the older
/// spelling of the first dimension; where that is named too, it does not count.
pub open spec fn values_meant(s: Schema, item: Item) -> Option<Map<Seq<char>, Seq<Seq<char>>>> {
    if s.dims.len() == 0 {
        None
    } else {
        let m = dims_map(item.dims@, item.dims.len() as int);
        let first = s.dims[0].name@;
        match item.cat {
            Some(c) => Some(
                if m.contains_key(first) {
                    m
                } else {
                    m.insert(first, seq![c.shown()])
                },
            ),
            None => if item.dims.len() > 0 {
                Some(m)
            } else {
                None
            },
        }
    }
}

/// The map says the same.
pub open spec fn same_values(
    v: Option<StringHashMap<Vec<String>>>,
    m: Option<Map<Seq<char>, Seq<Seq<char>>>>,
) -> bool {
    match (v, m) {
        (Some(v), Some(m)) => lists(v@) == m,
        (None, None) => true,
        _ => false,
    }
}

/// The filter values of an item.
///
/// Nothing means it named none, which leaves the device's existing ones alone: positions arrive
/// many times a second, and a bare one must not re-file a vehicle into whatever value happens to
/// sit at index 0.
pub fn item_values(c: &Collection, item: &Item) -> (r: Option<StringHashMap<Vec<String>>>)
    ensures
        same_values(r, values_meant(c.schema, *item)),
{
    if !c.schema.enabled() {
        return None;
    }
    let mut vals: StringHashMap<Vec<String>> = StringHashMap::new();
    let mut i: usize = 0;
    proof {
        assert(lists(vals@) =~= dims_map(item.dims@, 0));
    }
    while i < item.dims.len()
        invariant
            i <= item.dims.len(),
            lists(vals@) == dims_map(item.dims@, i as int),
        decreases item.dims.len() - i,
    {
        let ghost was = vals@;
        let v = copy_texts(&item.dims[i].1.0);
        vals.insert(item.dims[i].0.clone(), v);
        proof {
            let k = item.dims@[i as int].0@;
            assert(lists(vals@) =~= lists(was).insert(k, texts(item.dims@[i as int].1.0@)));
        }
        i = i + 1;
    }
    let first = c.schema.dims[0].name.as_str();
    match &item.cat {
        Some(cat) => {
            let ghost was = vals@;
            if !vals.contains_key(first) {
                let mut one: Vec<String> = Vec::new();
                one.push(cat.label());
                proof {
                    assert(texts(one@) =~= seq![cat.shown()]);
                }
                vals.insert(String::from_str(first), one);
                proof {
                    assert(lists(vals@) =~= lists(was).insert(first@, seq![cat.shown()]));
                }
            }
            Some(vals)
        },
        None => {
            if item.dims.len() > 0 {
                Some(vals)
            } else {
                None
            }
        },
    }
}

/// What stands behind some values.
pub open spec fn maps_of(v: Seq<Option<StringHashMap<Vec<String>>>>) -> Seq<
    Option<Map<Seq<char>, Vec<String>>>,
> {
    Seq::new(
        v.len(),
        |i: int|
            match v[i] {
                Some(m) => Some(m@),
                None => None,
            },
    )
}

pub open spec fn cells_of(v: Option<Vec<u32>>) -> Option<Seq<u32>> {
    match v {
        Some(q) => Some(q@),
        None => None,
    }
}

pub open spec fn cells_all(v: Seq<Option<Vec<u32>>>) -> Seq<Option<Seq<u32>>> {
    Seq::new(v.len(), |i: int| cells_of(v[i]))
}

/// The cells of the first `k` of a batch, or whose values are refused and why; and what is
/// interned then.
pub open spec fn filed_all(
    s: Schema,
    t: Tables,
    v: Seq<Option<Map<Seq<char>, Vec<String>>>>,
    k: int,
) -> (Result<Seq<Option<Seq<u32>>>, (int, Seq<char>)>, Tables)
    decreases k,
{
    if k <= 0 {
        (Ok(seq![]), t)
    } else {
        let before = filed_all(s, t, v, k - 1);
        match before.0 {
            Err(e) => before,
            Ok(q) => match v[k - 1] {
                None => (Ok(q.push(None)), before.1),
                Some(m) => {
                    let after = resolved_all(s.dims@, before.1, true, m, s.dims.len() as int).1;
                    match s.filed(before.1, true, m) {
                        Ok(c) => (Ok(q.push(Some(c))), after),
                        Err(e) => (Err((k - 1, e)), after),
                    }
                },
            },
        }
    }
}

/// The first refusal stays.
proof fn lemma_filed(
    s: Schema,
    t: Tables,
    v: Seq<Option<Map<Seq<char>, Vec<String>>>>,
    j: int,
    k: int,
)
    requires
        0 <= j <= k,
        filed_all(s, t, v, j).0 is Err,
    ensures
        filed_all(s, t, v, k) == filed_all(s, t, v, j),
    decreases k,
{
    if j < k {
        lemma_filed(s, t, v, j, k - 1);
    }
}

/// Resolve the values of a batch to cells, interning any that are new. Stops at the first that is
/// refused.
pub fn file_all(c: &mut Collection, vals: &Vec<Option<StringHashMap<Vec<String>>>>) -> (r: Result<
    Vec<Option<Vec<u32>>>,
    (usize, String),
>)
    requires
        old(c).sound(),
    ensures
        final(c).sound(),
        old(c).agrees() ==> final(c).agrees(),
        *final(c) == (Collection { interner: final(c).interner, ..*old(c) }),
        ({
            let a = filed_all(old(c).schema, old(c).interner@, maps_of(vals@), vals@.len() as int);
            &&& final(c).interner@ == a.1
            &&& match r {
                Ok(v) => a.0 == Ok::<Seq<Option<Seq<u32>>>, (int, Seq<char>)>(cells_all(v@))
                    && forall|i: int|
                    0 <= i < v@.len() ==> (cells_of(#[trigger] v@[i]) matches Some(q)
                        ==> q.no_duplicates()),
                Err((i, e)) => a.0 == Err::<Seq<Option<Seq<u32>>>, (int, Seq<char>)>(
                    (i as int, e@),
                ) && i < vals@.len(),
            }
        }),
{
    let ghost o = *c;
    let ghost ms = maps_of(vals@);
    let ghost t0 = c.interner@;
    let mut out: Vec<Option<Vec<u32>>> = Vec::new();
    let mut i: usize = 0;
    proof {
        assert(cells_all(out@) =~= seq![]);
    }
    while i < vals.len()
        invariant
            i <= vals@.len(),
            ms == maps_of(vals@),
            o == *old(c),
            c.sound(),
            o.agrees() ==> c.agrees(),
            *c == (Collection { interner: c.interner, ..o }),
            t0 == o.interner@,
            filed_all(o.schema, t0, ms, i as int) == (
                Ok::<Seq<Option<Seq<u32>>>, (int, Seq<char>)>(cells_all(out@)),
                c.interner@,
            ),
            forall|j: int|
                0 <= j < out@.len() ==> (cells_of(#[trigger] out@[j]) matches Some(q)
                    ==> q.no_duplicates()),
        decreases vals@.len() - i,
    {
        let ghost was = out@;
        match &vals[i] {
            None => {
                proof {
                    assert(ms[i as int] is None);
                }
                out.push(None);
                proof {
                    assert(cells_all(out@) =~= cells_all(was).push(None));
                }
            },
            Some(m) => {
                proof {
                    assert(ms[i as int] == Some(m@));
                }
                let mut cells: Vec<u32> = Vec::new();
                match c.cells_for_report(m, &mut cells) {
                    Ok(_) => {
                        let ghost q = cells@;
                        out.push(Some(cells));
                        proof {
                            assert(cells_all(out@) =~= cells_all(was).push(Some(q)));
                        }
                    },
                    Err(e) => {
                        proof {
                            lemma_filed(o.schema, t0, ms, i + 1, vals@.len() as int);
                        }
                        return Err((i, e));
                    },
                }
            },
        }
        i = i + 1;
    }
    Ok(out)
}

/// What an item reports, or how it patches.
pub open spec fn item_told(item: Item, cells: Option<Seq<u32>>) -> Told {
    Told {
        id: item.id@,
        at: match item.place {
            Whereabouts::Here(at) => at,
            _ => None,
        },
        props: maybe(item.props),
        cells,
        version: item.updated_at_ms,
    }
}

/// Reports and patches among the first `k` items, each in order.
pub open spec fn sorted_out(v: Seq<Item>, cells: Seq<Option<Seq<u32>>>, k: int) -> (
    Seq<Told>,
    Seq<Told>,
)
    decreases k,
{
    if k <= 0 {
        (seq![], seq![])
    } else {
        let (r, p) = sorted_out(v, cells, k - 1);
        let t = item_told(v[k - 1], cells[k - 1]);
        match v[k - 1].place {
            Whereabouts::Here(_) => (r.push(t), p),
            _ => (r, p.push(t)),
        }
    }
}

/// The first item from `i` on that sent half a coordinate.
pub open spec fn half_at(v: Seq<Item>, i: int) -> int
    decreases v.len() - i,
{
    if i >= v.len() || v[i].place is Half {
        i
    } else {
        half_at(v, i + 1)
    }
}

/// Find an item that sent half a coordinate.
fn find_half(v: &Vec<Item>) -> (r: usize)
    ensures
        r == half_at(v@, 0),
        r <= v@.len(),
        forall|j: int| 0 <= j < r ==> !((#[trigger] v@[j]).place is Half),
{
    let mut i: usize = 0;
    while i < v.len()
        invariant
            i <= v@.len(),
            half_at(v@, 0) == half_at(v@, i as int),
            forall|j: int| 0 <= j < i ==> !((#[trigger] v@[j]).place is Half),
        decreases v@.len() - i,
    {
        if let Whereabouts::Half = v[i].place {
            return i;
        }
        i = i + 1;
    }
    i
}

/// Items whose positions lie in the world.
pub open spec fn items_placed(v: Seq<Item>) -> bool {
    forall|i: int|
        0 <= i < v.len() ==> ((#[trigger] v[i]).place matches Whereabouts::Here(Some((x, y)))
            ==> in_world(x as int) && in_world(y as int))
}

/// Maps that say what the items name.
pub open spec fn valued(s: Schema, v: Seq<Item>, ms: Seq<Option<Map<Seq<char>, Vec<String>>>>) -> bool {
    &&& ms.len() == v.len()
    &&& forall|i: int|
        0 <= i < v.len() ==> (match (#[trigger] ms[i], values_meant(s, v[i])) {
            (Some(a), Some(b)) => lists(a) == b,
            (None, None) => true,
            _ => false,
        })
}

/// The same outcome, or the reason as a bad request.
pub open spec fn relays(r: Result<Applied, ApiError>, w: Result<Applied, String>) -> bool {
    match (r, w) {
        (Ok(a), Ok(b)) => a == b,
        (Err(f), Err(e)) => f.refusal() == refused(e@, "bad_request"@),
        _ => false,
    }
}

/// The fate of a batch of items whose values are in `ms`: refused for a value, or else applied.
pub open spec fn items_fate(
    o: Collection,
    n: Collection,
    v: Seq<Item>,
    ms: Seq<Option<Map<Seq<char>, Vec<String>>>>,
    now: u64,
    r: Result<Applied, ApiError>,
) -> bool {
    let a = filed_all(o.schema, o.interner@, ms, v.len() as int);
    match a.0 {
        Err((i, e)) => n == (Collection { interner: n.interner, ..o }) && n.interner@ == a.1 && (
        r matches Err(f) && f.refusal() == refused(
            "device "@ + quoted(v[i].id@) + ": "@ + e,
            "bad_request"@,
        )),
        Ok(cells) => {
            let (rs, ps) = sorted_out(v, cells, v.len() as int);
            exists|mid: Collection, w: Result<Applied, String>|
                {
                    &&& mid.interner@ == a.1
                    &&& mid == (Collection { interner: mid.interner, ..o })
                    &&& #[trigger] mid.applies(n, rs, ps, now, w)
                    &&& relays(r, w)
                }
        },
    }
}

/// Why an item that sent half a coordinate is refused.
pub open spec fn half_refusal(item: Item) -> Refusal {
    refused(
        "device "@ + quoted(item.id@)
            + " sent half a coordinate; send both lng and lat, or neither"@,
        "half_position"@,
    )
}

/// Take a batch of items that arrives at a time: those with a position are reports, the others
/// patches. All or nothing, but that values which a refused batch had interned stay interned.
pub fn take_items_at(c: &mut Collection, items: &Vec<Item>, now: u64) -> (r: Result<
    Applied,
    ApiError,
>)
    requires
        old(c).sound(),
        old(c).room_for(items@.len() as int),
        now != NEVER,
        items_placed(items@),
    ensures
        half_at(items@, 0) < items@.len() ==> *final(c) == *old(c) && (r matches Err(f)
            && f.refusal() == half_refusal(items@[half_at(items@, 0)])),
        half_at(items@, 0) >= items@.len() ==> exists|
            ms: Seq<Option<Map<Seq<char>, Vec<String>>>>,
        |
            valued(old(c).schema, items@, ms) && #[trigger] items_fate(
                *old(c),
                *final(c),
                items@,
                ms,
                now,
                r,
            ),
{
    let ghost o = *c;
    let h = find_half(items);
    if h < items.len() {
        let mut t = String::from_str("device ");
        t.append(quote(items[h].id.as_str()).as_str());
        t.append(" sent half a coordinate; send both lng and lat, or neither");
        return Err(ApiError::bad(t).code("half_position"));
    }
    let vals = all_values(c, items);
    let ghost ms = maps_of(vals@);
    let store = match file_all(c, &vals) {
        Ok(v) => v,
        Err((i, e)) => {
            let mut t = String::from_str("device ");
            t.append(quote(items[i].id.as_str()).as_str());
            t.append(": ");
            t.append(e.as_str());
            let r = Err(ApiError::bad(t));
            proof {
                assert(valued(o.schema, items@, ms) && items_fate(o, *c, items@, ms, now, r));
            }
            return r;
        },
    };
    let ghost cells = cells_all(store@);
    let ghost mid = *c;
    proof {
        lemma_filed_len(o.schema, o.interner@, ms, items@.len() as int);
        assert(cells.len() == store@.len());
    }
    let (reports, patches) = sort_items(items, &store);
    let done = c.apply_at(reports.as_slice(), patches.as_slice(), now);
    let ghost was = done;
    let r = match done {
        Ok(a) => Ok(a),
        Err(e) => Err(ApiError::bad(e)),
    };
    proof {
        let (rs, ps) = sorted_out(items@, cells, items@.len() as int);
        assert(tellings(reports@) =~= rs);
        assert(patches_of(patches@) =~= ps);
        assert(mid.applies(*c, rs, ps, now, was));
        assert(relays(r, was));
        assert(valued(o.schema, items@, ms) && items_fate(o, *c, items@, ms, now, r));
    }
    r
}

/// Take a batch of items that arrives now; see [`take_items_at`].
pub fn take_items(c: &mut Collection, items: &Vec<Item>) -> (r: Result<Applied, ApiError>)
    requires
        old(c).sound(),
        old(c).room_for(items@.len() as int),
        items_placed(items@),
    ensures
        half_at(items@, 0) < items@.len() ==> *final(c) == *old(c) && (r matches Err(f)
            && f.refusal() == half_refusal(items@[half_at(items@, 0)])),
        half_at(items@, 0) >= items@.len() ==> exists|
            ms: Seq<Option<Map<Seq<char>, Vec<String>>>>,
            now: u64,
        |
            now != NEVER && valued(old(c).schema, items@, ms) && #[trigger] items_fate(
                *old(c),
                *final(c),
                items@,
                ms,
                now,
                r,
            ),
{
    take_items_at(c, items, report_time())
}

pub proof fn lemma_filed_len(
    s: Schema,
    t: Tables,
    v: Seq<Option<Map<Seq<char>, Vec<String>>>>,
    k: int,
)
    requires
        0 <= k,
    ensures
        filed_all(s, t, v, k).0 matches Ok(q) ==> q.len() == k,
    decreases k,
{
    if k > 0 {
        lemma_filed_len(s, t, v, k - 1);
    }
}

fn all_values(c: &Collection, items: &Vec<Item>) -> (vals: Vec<Option<StringHashMap<Vec<String>>>>)
    ensures
        vals@.len() == items@.len(),
        valued(c.schema, items@, maps_of(vals@)),
{
    let mut vals: Vec<Option<StringHashMap<Vec<String>>>> = Vec::new();
    let mut i: usize = 0;
    while i < items.len()
        invariant
            i <= items@.len(),
            vals@.len() == i,
            forall|j: int|
                0 <= j < i ==> same_values(#[trigger] vals@[j], values_meant(c.schema, items@[j])),
        decreases items@.len() - i,
    {
        vals.push(item_values(c, &items[i]));
        i = i + 1;
    }
    proof {
        let ms = maps_of(vals@);
        assert forall|i: int| 0 <= i < items@.len() implies (match (
            #[trigger] ms[i],
            values_meant(c.schema, items@[i]),
        ) {
            (Some(a), Some(b)) => lists(a) == b,
            (None, None) => true,
            _ => false,
        }) by {
            assert(same_values(vals@[i], values_meant(c.schema, items@[i])));
        }
    }
    vals
}

/// Sort items into reports and patches.
fn sort_items<'a>(items: &'a Vec<Item>, store: &'a Vec<Option<Vec<u32>>>) -> (r: (
    Vec<Report<'a>>,
    Vec<Patch<'a>>,
))
    requires
        store@.len() == items@.len(),
        forall|j: int| 0 <= j < items@.len() ==> !((#[trigger] items@[j]).place is Half),
        items_placed(items@),
        forall|i: int|
            0 <= i < store@.len() ==> (cells_of(#[trigger] store@[i]) matches Some(q)
                ==> q.no_duplicates()),
    ensures
        (tellings(r.0@), patches_of(r.1@)) == sorted_out(
            items@,
            cells_all(store@),
            items@.len() as int,
        ),
        r.0@.len() + r.1@.len() == items@.len(),
        forall|i: int|
            0 <= i < r.0@.len() ==> well_placed((#[trigger] r.0@[i]).at, r.0@[i].told().cells),
        forall|i: int|
            0 <= i < r.1@.len() ==> well_placed(None, (#[trigger] r.1@[i]).told().cells),
{
    let ghost cells = cells_all(store@);
    let mut reports: Vec<Report<'a>> = Vec::new();
    let mut patches: Vec<Patch<'a>> = Vec::new();
    let mut i: usize = 0;
    proof {
        assert(tellings(reports@) =~= seq![]);
        assert(patches_of(patches@) =~= seq![]);
    }
    while i < items.len()
        invariant
            i <= items@.len(),
            store@.len() == items@.len(),
            cells == cells_all(store@),
            forall|j: int| 0 <= j < items@.len() ==> !((#[trigger] items@[j]).place is Half),
            items_placed(items@),
            forall|i: int|
                0 <= i < store@.len() ==> (cells_of(#[trigger] store@[i]) matches Some(q)
                    ==> q.no_duplicates()),
            (tellings(reports@), patches_of(patches@)) == sorted_out(items@, cells, i as int),
            reports@.len() + patches@.len() == i,
            forall|i: int|
                0 <= i < reports@.len() ==> well_placed(
                    (#[trigger] reports@[i]).at,
                    reports@[i].told().cells,
                ),
            forall|i: int|
                0 <= i < patches@.len() ==> well_placed(
                    None,
                    (#[trigger] patches@[i]).told().cells,
                ),
        decreases items@.len() - i,
    {
        let item = &items[i];
        let ghost rs = reports@;
        let ghost ps = patches@;
        let props: Option<&'a str> = match &item.props {
            Some(p) => Some(p.as_str()),
            None => None,
        };
        let own: Option<&'a [u32]> = match &store[i] {
            Some(q) => Some(q.as_slice()),
            None => None,
        };
        proof {
            assert(cells[i as int] == cells_of(store@[i as int]));
            assert(!(items@[i as int].place is Half));
        }
        match item.place {
            Whereabouts::Here(at) => {
                let r = Report {
                    id: item.id.as_str(),
                    at,
                    props,
                    cells: own,
                    updated_at_ms: item.updated_at_ms,
                };
                let ghost t = r.told();
                reports.push(r);
                proof {
                    assert(t == item_told(*item, cells[i as int]));
                    assert(tellings(reports@) =~= tellings(rs).push(t));
                }
            },
            Whereabouts::Unsaid => {
                let p = Patch {
                    id: item.id.as_str(),
                    cells: own,
                    props,
                    updated_at_ms: item.updated_at_ms,
                };
                let ghost t = p.told();
                patches.push(p);
                proof {
                    assert(t == item_told(*item, cells[i as int]));
                    assert(patches_of(patches@) =~= patches_of(ps).push(t));
                }
            },
            Whereabouts::Half => {},
        }
        i = i + 1;
    }
    (reports, patches)
}

} // verus!
