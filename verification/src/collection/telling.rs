//! What a caller is told, by what the devices are: one device, its marker, the markers of a tile,
//! and the figures.
use super::figures::{field_weight, mirrored, props_weight, text_weight, CollectionStats};
use super::lookup::{category_of, selects, DeviceInfo};
use super::query::{laid_all, pictured, tilings, OutFeature, OutTileFeature};
use super::{good_record, lemma_number, maybe, number_of, wanted, Collection, Device,
    NEVER};
use crate::clusters::Window;
use crate::encoding::sel_names;
use crate::feature::{Feature, TileFeature};
use crate::filtering::{filter_fits, law_answered_queries, value_known};
use crate::geometry::PREC_I;
use crate::index::promises::{accounts, law_levels_shown};
use crate::index::tile::tile_shows;
use crate::json::maybes;
use crate::schema::names;
use vstd::prelude::*;
use vstd::utf8::encode_utf8;

verus! {

/// **Who is found**: a device that has reported and has not been dropped since.
pub proof fn law_found(c: Collection, id: Seq<char>)
    requires
        c.sound(),
    ensures
        c.has_device(id) <==> exists|n: int|
            0 <= n < c.devices.len() && (#[trigger] c.devices[n]).id@ == id && c.devices[n].last_seen
                != NEVER,
{
    c.lemma_numbered(id);
    lemma_number(c.recs(), id, 0);
    let k = number_of(c.recs(), id);
    if k < c.devices.len() {
        assert(c.recs()[k] == c.devices[k].record());
        assert(c.devices[k].id@ == id);
    }
    if exists|n: int|
        0 <= n < c.devices.len() && (#[trigger] c.devices[n]).id@ == id && c.devices[n].last_seen
            != NEVER {
        let n = choose|n: int|
            0 <= n < c.devices.len() && (#[trigger] c.devices[n]).id@ == id && c.devices[n].last_seen
                != NEVER;
        assert(c.numbers@[c.devices[n].id@] == n);
        assert(k == n);
    }
}

/// **What is told of a device**: where it is, when it was heard of and how long ago that is, the
/// version and the properties it has, and the first of its cells with the category of that number.
pub proof fn law_device_info(c: Collection, id: Seq<char>, d: DeviceInfo, now: u64, n: int)
    requires
        c.wf(),
        c.has_device(id),
        d.tells(c.recs()[number_of(c.recs(), id)], c.config.categories@, now),
        0 <= n < c.devices.len(),
        c.devices[n].id@ == id,
    ensures
        d.id@ == id,
        c.devices[n].position == Some((d.x, d.y)),
        d.last_seen_ms == c.devices[n].last_seen,
        c.devices[n].last_seen <= now ==> d.age_ms + c.devices[n].last_seen == now,
        c.devices[n].last_seen > now ==> d.age_ms == 0,
        d.updated_at_ms == c.devices[n].last_update,
        maybe(d.props) == maybe(c.devices[n].props),
        c.devices[n].cells.len() > 0 ==> d.cat_index == c.devices[n].cells[0],
        c.devices[n].cells.len() == 0 ==> d.cat_index == 0,
        d.cat is Some <==> d.cat_index < c.config.categories.len(),
        d.cat matches Some(t) ==> t@ == c.config.categories[d.cat_index as int]@,
{
    c.lemma_numbered(id);
    assert(c.numbers@[c.devices[n].id@] == n);
    assert(c.recs()[n] == c.devices[n].record());
}

/// A point that is shown is a live device, at its position.
proof fn lemma_shown(c: Collection, f: Feature, category: int, s: int, z: int)
    requires
        c.wf(),
        c.index.net().shows(f, c.index.slots(), category, s, z),
    ensures
        f matches Feature::Point { id, x, y } ==> {
            &&& id < c.devices.len()
            &&& c.recs()[id as int] == c.devices[id as int].record()
            &&& c.devices[id as int].last_seen != NEVER
            &&& c.devices[id as int].position == Some((x, y))
        },
{
    let net = c.index.net();
    c.index.law_invariants();
    if f is Point {
        let m = choose|m: int| #[trigger]
            net.member(m, s, z, category) && f == (Feature::Point {
                id: net.pts[m].id,
                x: net.pts[m].x as i32,
                y: net.pts[m].y as i32,
            });
        assert(net.has(m) && net.sound_point(m));
        let id = net.pts[m].id;
        assert(net.named(m, id));
        crate::register::lemma_register(net, m, id);
        assert(wanted(c.recs()).contains_key(id));
        assert(c.recs()[id as int] == c.devices[id as int].record());
        assert(good_record(c.devices[id as int].record(), c.opts(), c.fields()));
    }
}

/// **The marker of a device**: the one of the map of the world at that zoom that counts it; told by
/// the device's own name, position and properties if it stands alone, else by the number of those
/// it stands for, the sums of their coordinates and a handle.
pub proof fn law_device_cluster(
    c: Collection,
    id: Seq<char>,
    zoom: int,
    out: OutFeature,
    f: Feature,
    all: Seq<Feature>,
    n: int,
)
    requires
        c.wf(),
        0 <= n < c.devices.len(),
        c.devices[n].id@ == id,
        c.has_device(id),
        c.index.net().shows(
            f,
            c.index.slots(),
            -1,
            c.index.net().rep(
                c.index.net().holder(number_of(c.recs(), id) as u64),
                c.index.zoom_of(zoom),
            ),
            c.index.zoom_of(zoom),
        ),
        out.drawn() == pictured(c.recs(), f),
        c.index.sees(all, -1, zoom, Window::of(0, 0, PREC_I as int, PREC_I as int)),
    ensures
        exists|g: spec_fn(int) -> int, p: int|
            #![trigger accounts(c.index.net(), c.index.slots(), -1, all, g), c.index.net().named(
                p,
                n as u64,
            )]
            {
                &&& accounts(c.index.net(), c.index.slots(), -1, all, g)
                &&& c.index.net().named(p, n as u64)
                &&& 0 <= g(p) < all.len()
                &&& all[g(p)] == f
            },
        match f {
            Feature::Point { id: m, x, y } => {
                &&& m < c.devices.len()
                &&& maybe(out.device) == Some(c.devices[m as int].id@)
                &&& c.devices[m as int].position == Some((x, y))
                &&& out.sx == x && out.sy == y && out.per == 1 && out.count == 1
                &&& maybe(out.props) == maybe(c.devices[m as int].props)
                &&& out.cluster_id is None
            },
            Feature::Cluster { cluster_id, count, sx, sy } => {
                &&& out.sx == sx && out.sy == sy && out.per == count && out.count == count
                &&& out.cluster_id == Some(cluster_id)
                &&& out.device is None && out.props is None
            },
        },
{
    let net = c.index.net();
    c.lemma_numbered(id);
    assert(c.numbers@[c.devices[n].id@] == n);
    assert(c.recs()[n] == c.devices[n].record());
    assert(wanted(c.recs()).contains_key(n as u64));
    assert(net.register().contains_key(n as u64));
    let p = net.holder(n as u64);
    assert(net.named(p, n as u64));
    crate::index::promises::law_marker(
        c.index,
        all,
        f,
        p,
        n as u64,
        zoom,
        0,
        0,
        PREC_I as int,
        PREC_I as int,
    );
    lemma_shown(c, f, -1, net.rep(p, c.index.zoom_of(zoom)), c.index.zoom_of(zoom));
}

/// **The markers of a tile**: each as the index lays it out, with the name and the properties of
/// the device if it stands for one alone, and with neither if it stands for several.
pub proof fn law_tile_markers(
    c: Collection,
    out: Seq<OutTileFeature>,
    ts: Seq<TileFeature>,
    fs: Seq<Feature>,
    z: int,
    tx: int,
    ty: int,
    category: int,
    i: int,
)
    requires
        c.wf(),
        0 <= z <= 30,
        tile_shows(&c.index, ts, fs, z, tx, ty, category),
        tilings(out) == laid_all(c.recs(), ts),
        0 <= i < out.len(),
    ensures
        out.len() == fs.len() == ts.len(),
        out[i].x == ts[i].x && out[i].y == ts[i].y,
        match fs[i] {
            Feature::Point { id, x, y } => {
                &&& id < c.devices.len()
                &&& out[i].id == id && out[i].count == 1
                &&& c.devices[id as int].last_seen != NEVER
                &&& c.devices[id as int].position == Some((x, y))
                &&& maybe(out[i].device) == Some(c.devices[id as int].id@)
                &&& maybe(out[i].props) == maybe(c.devices[id as int].props)
            },
            Feature::Cluster { cluster_id, count, sx, sy } => {
                &&& out[i].id == cluster_id && out[i].count == count
                &&& out[i].device is None && out[i].props is None
            },
        },
{
    assert(tilings(out).len() == out.len());
    assert(tilings(out)[i] == out[i].tiled());
    assert(ts[i] == crate::index::tile::on_tile(c.index.opts(), z, tx, ty, fs[i]));
    let nc = c.index;
    let (net, n, k, zz) = (nc.net(), nc.slots(), nc.effective(category), nc.zoom_of(z));
    let w = crate::index::tile::tile_box(nc.opts(), z, tx, ty);
    let q = crate::order::sight(nc.lists(), net, n, k, zz, w);
    assert(net.shows(fs[i], n, k, q[i], zz));
    lemma_shown(c, fs[i], k, q[i], zz);
}

/// **What is checked of a device**: that the index has a live one where it is and in the cells it is
/// in.
pub proof fn law_mirrored(c: Collection, n: int)
    requires
        c.sound(),
        0 <= n < c.devices.len(),
    ensures
        mirrored(c, n) <==> (c.devices[n].last_seen != NEVER ==> {
            let m = c.index.net().register();
            &&& m.contains_key(n as u64)
            &&& c.devices[n].position matches Some((x, y)) && m[n as u64] == (
                x as int,
                y as int,
                c.devices[n].cells@,
            )
        }),
{
    assert(c.recs()[n] == c.devices[n].record());
    assert(good_record(c.devices[n].record(), c.opts(), c.fields()));
}

/// **What a named category means**: the cell of that value of the first dimension; where no device
/// can have the value, no cell, and never every device.
pub proof fn law_category(c: Collection, sel: Seq<char>, one: Seq<(String, String)>, i: int)
    requires
        c.sound(),
        c.schema.dims.len() > 0 ==> selects(one, c.schema.dims[0].name@, sel),
    ensures
        c.schema.dims.len() == 0 ==> category_of(c, sel, one) is Err,
        c.schema.dims.len() > 0 && !value_known(c.schema.dims@, c.interner@, 0, sel)
            && category_of(c, sel, one) is Ok ==> category_of(c, sel, one) == Ok::<i32, Seq<char>>(
            -2i32,
        ),
        c.schema.dims.len() > 0 && value_known(c.schema.dims@, c.interner@, 0, sel) && 0 <= i
            < c.schema.shapes.len() && filter_fits(c.schema, i, one) ==> {
            &&& category_of(c, sel, one) matches Ok(cell)
            &&& c.schema.queried(c.interner@, false, one).0 == Ok::<Option<i32>, Seq<char>>(
                Some(category_of(c, sel, one)->Ok_0),
            )
        },
{
    let s = c.schema;
    if s.dims.len() > 0 {
        assert(sel_names(one).no_duplicates());
        law_answered_queries(s, c.interner@, one);
        assert(names(s.dims@)[0] == s.dims[0].name@);
        assert(one[0].0@ == s.dims[0].name@);
        assert forall|d: int| 0 <= d < s.dims.len() && s.dims[d].name@ == one[0].0@ implies d
            == 0 by {
            assert(names(s.dims@)[d] == s.dims[d].name@);
        }
    }
}

/// The bytes of the properties of the first `k` devices.
pub open spec fn props_bytes(v: Seq<Device>, k: int) -> int
    decreases k,
{
    if k <= 0 {
        0
    } else {
        props_bytes(v, k - 1) + match v[k - 1].props {
            Some(s) => encode_utf8(s@).len() as int,
            None => 0,
        }
    }
}

proof fn lemma_props_bytes(c: Collection, k: int)
    requires
        0 <= k <= c.devices.len(),
    ensures
        props_weight(c.recs(), k) == props_bytes(c.devices@, k),
        props_bytes(c.devices@, k) >= 0,
    decreases k,
{
    if k > 0 {
        lemma_props_bytes(c, k - 1);
        assert(c.recs()[k - 1] == c.devices[k - 1].record());
    }
}

/// The bytes of the searchable fields, with sixteen more for each that there is.
pub open spec fn fields_bytes(v: Seq<Option<String>>, k: int) -> int
    decreases k,
{
    if k <= 0 {
        0
    } else {
        fields_bytes(v, k - 1) + match v[k - 1] {
            Some(s) => encode_utf8(s@).len() + 16,
            None => 0,
        }
    }
}

/// The bytes of the searchable fields of the first `k` devices.
pub open spec fn texts_bytes(v: Seq<Device>, k: int) -> int
    decreases k,
{
    if k <= 0 {
        0
    } else {
        texts_bytes(v, k - 1) + fields_bytes(v[k - 1].text@, v[k - 1].text.len() as int)
    }
}

proof fn lemma_fields_bytes(v: Seq<Option<String>>, k: int)
    requires
        0 <= k <= v.len(),
    ensures
        field_weight(maybes(v), k) == fields_bytes(v, k),
        fields_bytes(v, k) >= 0,
    decreases k,
{
    if k > 0 {
        lemma_fields_bytes(v, k - 1);
    }
}

proof fn lemma_texts_bytes(c: Collection, k: int)
    requires
        0 <= k <= c.devices.len(),
    ensures
        text_weight(c.recs(), k) == texts_bytes(c.devices@, k),
        texts_bytes(c.devices@, k) >= 0,
    decreases k,
{
    if k > 0 {
        lemma_texts_bytes(c, k - 1);
        assert(c.recs()[k - 1] == c.devices[k - 1].record());
        lemma_fields_bytes(c.devices[k - 1].text@, c.devices[k - 1].text.len() as int);
    }
}

/// **The figures**: how many devices are live, what is configured and in force, how long the
/// collection has stood, what was counted, and the bytes that the properties take.
pub proof fn law_figures(c: Collection, s: CollectionStats, queries: u64, now: u64)
    requires
        c.wf(),
        s.figures(c, queries, now),
    ensures
        s.devices == Set::new(
            |n: u64| n < c.devices.len() && c.devices[n as int].last_seen != NEVER,
        ).len(),
        s.max_zoom == c.config.max_zoom && s.radius == c.config.radius,
        s.ttl_seconds == c.ttl && s.max_props_bytes == c.props_limit,
        c.created_ms <= now ==> s.uptime_ms + c.created_ms == now,
        c.created_ms > now ==> s.uptime_ms == 0,
        s.queries == queries,
        s.ingested == c.ingested && s.expired == c.expired && s.stale_reports == c.stale_reports,
        s.patched == c.patched && s.repairs == c.repairs && s.restored == c.restored,
        s.last_snapshot_ms == c.last_snapshot_ms && s.last_snapshot_bytes == c.last_snapshot_bytes,
        s.snapshot_failures == c.snapshot_failures,
        props_bytes(c.devices@, c.devices.len() as int) <= usize::MAX ==> s.props_bytes
            == props_bytes(c.devices@, c.devices.len() as int),
        texts_bytes(c.devices@, c.devices.len() as int) <= usize::MAX ==> s.text_bytes
            == texts_bytes(c.devices@, c.devices.len() as int),
        s.centers_per_level.len() == c.config.max_zoom + 1,
{
    lemma_texts_bytes(c, c.devices.len() as int);
    lemma_props_bytes(c, c.devices.len() as int);
    c.lemma_population();
    let a = Set::new(|n: u64| n < c.devices.len() && c.devices[n as int].last_seen != NEVER);
    assert forall|n: u64| a.contains(n) == wanted(c.recs()).dom().contains(n) by {
        if n < c.devices.len() {
            assert(c.recs()[n as int] == c.devices[n as int].record());
        }
    }
    assert(a =~= wanted(c.recs()).dom());
}

/// **The centers of a level in the figures** are as many as the markers of the map of the world at
/// that zoom.
pub proof fn law_level_figures(
    c: Collection,
    s: CollectionStats,
    queries: u64,
    now: u64,
    fs: Seq<Feature>,
    z: int,
)
    requires
        c.wf(),
        s.figures(c, queries, now),
        0 <= z <= c.config.max_zoom,
        c.index.sees(fs, -1, z, Window::of(0, 0, PREC_I as int, PREC_I as int)),
        fs.len() <= u32::MAX,
    ensures
        s.centers_per_level[z] == fs.len(),
{
    law_levels_shown(c.index, fs, z, 0, 0, PREC_I as int, PREC_I as int);
}

} // verus!
