//! What a caller can rely on of a body of reports, told by its items and the devices afterwards.
use crate::collection::batch::Applied;
use crate::collection::ingest::{batch_fault, Told};
use crate::collection::promises::{in_order, law_batch_refused, law_last_report_stands,
    law_newest_patch_stands, law_newest_report_stands, lemma_own_place};
use crate::collection::upkeep::{patched, patched_all};
use crate::collection::{lemma_number, maybe, number_of, Collection, Record, NEVER};
use crate::features::{any_found, feature_meant, feature_values_meant, features_meant, found_map,
    GeoFeature, Peeked};
use crate::positions::{dims_map, filed_all, half_at, item_told, items_fate, sorted_out, valued,
    values_meant, DimVal, Item};
use crate::schema::{Schema, Tables};
use crate::text::texts;
use vstd::prelude::*;

verus! {

/// Where an item with a position stands among the reports of its body.
proof fn lemma_report_of(v: Seq<Item>, cells: Seq<Option<Seq<u32>>>, k: int, i: int) -> (j: int)
    requires
        0 <= i < k <= v.len(),
        v[i].place is Here,
    ensures
        0 <= j < sorted_out(v, cells, k).0.len(),
        sorted_out(v, cells, k).0[j] == item_told(v[i], cells[i]),
    decreases k,
{
    if i == k - 1 {
        sorted_out(v, cells, k - 1).0.len() as int
    } else {
        lemma_report_of(v, cells, k - 1, i)
    }
}

/// Where an item without a position stands among the patches of its body.
proof fn lemma_patch_of(v: Seq<Item>, cells: Seq<Option<Seq<u32>>>, k: int, i: int) -> (j: int)
    requires
        0 <= i < k <= v.len(),
        !(v[i].place is Here),
    ensures
        0 <= j < sorted_out(v, cells, k).1.len(),
        sorted_out(v, cells, k).1[j] == item_told(v[i], cells[i]),
    decreases k,
{
    if i == k - 1 {
        sorted_out(v, cells, k - 1).1.len() as int
    } else {
        lemma_patch_of(v, cells, k - 1, i)
    }
}

/// The item that a report comes from.
proof fn lemma_report_from(v: Seq<Item>, cells: Seq<Option<Seq<u32>>>, k: int, j: int) -> (i: int)
    requires
        0 <= k <= v.len(),
        0 <= j < sorted_out(v, cells, k).0.len(),
    ensures
        0 <= i < k,
        v[i].place is Here,
        sorted_out(v, cells, k).0[j] == item_told(v[i], cells[i]),
    decreases k,
{
    if j < sorted_out(v, cells, k - 1).0.len() {
        lemma_report_from(v, cells, k - 1, j)
    } else {
        k - 1
    }
}

/// The item that a patch comes from.
proof fn lemma_patch_from(v: Seq<Item>, cells: Seq<Option<Seq<u32>>>, k: int, j: int) -> (i: int)
    requires
        0 <= k <= v.len(),
        0 <= j < sorted_out(v, cells, k).1.len(),
    ensures
        0 <= i < k,
        !(v[i].place is Here),
        sorted_out(v, cells, k).1[j] == item_told(v[i], cells[i]),
    decreases k,
{
    if j < sorted_out(v, cells, k - 1).1.len() {
        lemma_patch_from(v, cells, k - 1, j)
    } else {
        k - 1
    }
}

/// Patches leave alone whom they do not name.
proof fn lemma_unpatched(recs: Seq<Record>, q: Seq<Told>, names: Seq<Seq<char>>, n: int, k: int)
    requires
        0 <= n < recs.len(),
        0 <= k <= q.len(),
        forall|j: int| 0 <= j < q.len() ==> (#[trigger] q[j]).id != recs[n].id,
    ensures
        patched_all(recs, q, names, k).len() == recs.len(),
        patched_all(recs, q, names, k)[n] == recs[n],
    decreases k,
{
    if k > 0 {
        lemma_unpatched(recs, q, names, n, k - 1);
        let b = patched_all(recs, q, names, k - 1);
        lemma_number(b, q[k - 1].id, 0);
        assert(q[k - 1].id != recs[n].id);
    }
}

proof fn lemma_filed_len(
    s: Schema,
    t: Tables,
    v: Seq<Option<Map<Seq<char>, Vec<String>>>>,
    k: int,
)
    requires
        0 <= k <= v.len(),
    ensures
        filed_all(s, t, v, k).0 matches Ok(q) ==> {
            &&& q.len() == k
            &&& forall|i: int| 0 <= i < k && v[i] is None ==> #[trigger] q[i] is None
            &&& forall|i: int|
                0 <= i < k && v[i] is Some ==> (#[trigger] q[i]) is Some && exists|u: Tables| #[trigger]
                    s.filed(u, true, v[i]->0) == Ok::<Seq<u32>, Seq<char>>(q[i]->0)
        },
    decreases k,
{
    if k > 0 {
        lemma_filed_len(s, t, v, k - 1);
    }
}

/// **An item with a position puts its device there**: the only item of its id in a body that is
/// taken, newer than what is known of the device, leaves the device at its position, with its
/// version, the time of the body, its properties, and in the cells of the values that it names.
pub proof fn law_item_moves(
    o: Collection,
    n: Collection,
    v: Seq<Item>,
    ms: Seq<Option<Map<Seq<char>, Vec<String>>>>,
    now: u64,
    a: Applied,
    i: int,
    d: int,
)
    requires
        now != NEVER,
        valued(o.schema, v, ms),
        items_fate(o, n, v, ms, now, Ok(a)),
        0 <= i < v.len(),
        v[i].place is Here,
        forall|j: int| 0 <= j < v.len() && j != i ==> (#[trigger] v[j]).id@ != v[i].id@,
        forall|m: int|
            0 <= m < o.devices.len() && (#[trigger] o.devices[m]).id@ == v[i].id@ ==> (
            o.devices[m].last_update matches Some(w) ==> v[i].updated_at_ms is Some && w
                < v[i].updated_at_ms->0),
    ensures
        exists|m: int| 0 <= m < n.devices.len() && (#[trigger] n.devices[m]).id@ == v[i].id@,
        0 <= d < n.devices.len() && n.devices[d].id@ == v[i].id@ ==> {
            &&& n.devices[d].position == v[i].place->Here_0
            &&& n.devices[d].last_seen == now
            &&& n.devices[d].last_update == v[i].updated_at_ms
            &&& v[i].props is Some ==> maybe(n.devices[d].props) == maybe(v[i].props)
            &&& ms[i] matches Some(m) ==> exists|t: Tables| #[trigger]
                o.schema.filed(t, true, m) == Ok::<Seq<u32>, Seq<char>>(n.devices[d].cells@)
        },
{
    let k = v.len() as int;
    let f = filed_all(o.schema, o.interner@, ms, k);
    lemma_filed_len(o.schema, o.interner@, ms, k);
    let cells = f.0->Ok_0;
    let (rs, ps) = sorted_out(v, cells, k);
    let (mid, w) = choose|mid: Collection, w: Result<Applied, String>|
        {
            &&& mid.interner@ == f.1
            &&& mid == (Collection { interner: mid.interner, ..o })
            &&& #[trigger] mid.applies(n, rs, ps, now, w)
            &&& crate::positions::relays(Ok(a), w)
        };
    let mid2 = choose|m: Collection| #[trigger]
        mid.takes(m, rs, now, Ok(a.accepted)) && m.retouches(n, ps, Ok(a.patched));
    let j = lemma_report_of(v, cells, k, i);
    let id = v[i].id@;
    assert forall|e: int| 0 <= e < ps.len() implies (#[trigger] ps[e]).id != id by {
        let h = lemma_patch_from(v, cells, k, e);
        assert(h != i);
    }
    lemma_told_once(v, cells, k, i);
    assert forall|e: int| 0 <= e < rs.len() && e != j implies (#[trigger] rs[e]).id != id by {}
    assert forall|m: int|
        0 <= m < mid.devices.len() && (#[trigger] mid.devices[m]).id@ == rs[j].id implies (
    mid.devices[m].last_update matches Some(w) ==> rs[j].version is Some && w < rs[j].version->0) by {
        assert(mid.devices[m] == o.devices[m]);
    }
    lemma_moved(mid, mid2, n, rs, ps, now, a, j, d);
    if ms[i] is Some {
        assert(cells[i] is Some);
        assert(rs[j].cells == cells[i]);
    }
}

/// The only report of a device, followed by patches of others.
proof fn lemma_moved(
    o: Collection,
    m: Collection,
    n: Collection,
    rs: Seq<Told>,
    ps: Seq<Told>,
    now: u64,
    a: Applied,
    j: int,
    d: int,
)
    requires
        now != NEVER,
        o.takes(m, rs, now, Ok(a.accepted)),
        m.retouches(n, ps, Ok(a.patched)),
        0 <= j < rs.len(),
        forall|e: int| 0 <= e < rs.len() && e != j ==> (#[trigger] rs[e]).id != rs[j].id,
        forall|e: int| 0 <= e < ps.len() ==> (#[trigger] ps[e]).id != rs[j].id,
        forall|c: int|
            0 <= c < o.devices.len() && (#[trigger] o.devices[c]).id@ == rs[j].id ==> (
            o.devices[c].last_update matches Some(w) ==> rs[j].version is Some && w
                < rs[j].version->0),
    ensures
        exists|c: int| 0 <= c < n.devices.len() && (#[trigger] n.devices[c]).id@ == rs[j].id,
        0 <= d < n.devices.len() && n.devices[d].id@ == rs[j].id ==> {
            &&& n.devices[d].position == rs[j].at
            &&& n.devices[d].last_seen == now
            &&& n.devices[d].last_update == rs[j].version
            &&& rs[j].cells matches Some(q) ==> n.devices[d].cells@ == q
            &&& rs[j].props is Some ==> maybe(n.devices[d].props) == rs[j].props
        },
{
    let id = rs[j].id;
    let b = m.recs();
    m.lemma_numbered(id);
    lemma_number(b, id, 0);
    let c = number_of(b, id);
    if rs[j].version is Some {
        law_newest_report_stands(o, m, rs, now, a.accepted, j, c);
    } else {
        law_last_report_stands(o, m, rs, now, a.accepted, j, c);
    }
    let h = choose|h: int| 0 <= h < m.devices.len() && (#[trigger] m.devices[h]).id@ == id;
    assert(b[h] == m.devices[h].record());
    lemma_own_place(b, h);
    assert(c == h);
    lemma_unpatched(b, ps, texts(m.config.text@), c, ps.len() as int);
    assert(n.recs()[c] == n.devices[c].record());
    assert(b[c] == m.devices[c].record());
    assert(n.devices[c].id@ == id);
    if 0 <= d < n.devices.len() && n.devices[d].id@ == id {
        n.lemma_numbered(id);
        assert(n.recs()[d] == n.devices[d].record());
        lemma_own_place(n.recs(), d);
        lemma_own_place(n.recs(), c);
    }
}

/// The only item of its id is told once.
proof fn lemma_told_once(v: Seq<Item>, cells: Seq<Option<Seq<u32>>>, k: int, i: int)
    requires
        0 <= k <= v.len(),
        cells.len() == v.len(),
        0 <= i < v.len(),
        forall|j: int| 0 <= j < v.len() && j != i ==> (#[trigger] v[j]).id@ != v[i].id@,
    ensures
        ({
            let (r, p) = sorted_out(v, cells, k);
            &&& k <= i ==> forall|e: int| 0 <= e < r.len() ==> (#[trigger] r[e]).id != v[i].id@
            &&& k <= i ==> forall|e: int| 0 <= e < p.len() ==> (#[trigger] p[e]).id != v[i].id@
            &&& forall|e: int, h: int|
                0 <= e < r.len() && 0 <= h < r.len() && (#[trigger] r[e]).id == v[i].id@ && (
                #[trigger] r[h]).id == v[i].id@ ==> e == h
            &&& forall|e: int, h: int|
                0 <= e < p.len() && 0 <= h < p.len() && (#[trigger] p[e]).id == v[i].id@ && (
                #[trigger] p[h]).id == v[i].id@ ==> e == h
        }),
    decreases k,
{
    if k > 0 {
        lemma_told_once(v, cells, k - 1, i);
        let (r, p) = sorted_out(v, cells, k - 1);
        if k - 1 == i {
            assert forall|e: int| 0 <= e < r.len() implies (#[trigger] r[e]).id != v[i].id@ by {}
        } else {
            assert(v[k - 1].id@ != v[i].id@);
        }
    }
}

/// **An item without a position is a patch**: the only item of its id in a body that is taken,
/// newer than what is known of a live device, leaves the device where it is and when it was seen,
/// with the properties that it names.
pub proof fn law_item_patches(
    o: Collection,
    n: Collection,
    v: Seq<Item>,
    ms: Seq<Option<Map<Seq<char>, Vec<String>>>>,
    now: u64,
    a: Applied,
    i: int,
    d: int,
)
    requires
        o.sound(),
        valued(o.schema, v, ms),
        items_fate(o, n, v, ms, now, Ok(a)),
        0 <= i < v.len(),
        v[i].place is Unsaid,
        forall|j: int| 0 <= j < v.len() && j != i ==> (#[trigger] v[j]).id@ != v[i].id@,
        0 <= d < o.devices.len(),
        o.devices[d].id@ == v[i].id@,
        o.devices[d].last_seen != NEVER,
        v[i].updated_at_ms is Some,
        o.devices[d].last_update matches Some(w) ==> w < v[i].updated_at_ms->0,
    ensures
        d < n.devices.len(),
        n.devices[d].id@ == v[i].id@,
        n.devices[d].position == o.devices[d].position,
        n.devices[d].last_seen == o.devices[d].last_seen,
        n.devices[d].last_update == v[i].updated_at_ms,
        v[i].props is Some ==> maybe(n.devices[d].props) == maybe(v[i].props),
{
    let k = v.len() as int;
    let f = filed_all(o.schema, o.interner@, ms, k);
    lemma_filed_len(o.schema, o.interner@, ms, k);
    let cells = f.0->Ok_0;
    let (rs, ps) = sorted_out(v, cells, k);
    let (mid, w) = choose|mid: Collection, w: Result<Applied, String>|
        {
            &&& mid.interner@ == f.1
            &&& mid == (Collection { interner: mid.interner, ..o })
            &&& #[trigger] mid.applies(n, rs, ps, now, w)
            &&& crate::positions::relays(Ok(a), w)
        };
    let mid2 = choose|m: Collection| #[trigger]
        mid.takes(m, rs, now, Ok(a.accepted)) && m.retouches(n, ps, Ok(a.patched));
    let j = lemma_patch_of(v, cells, k, i);
    let id = v[i].id@;
    assert forall|e: int| 0 <= e < rs.len() implies (#[trigger] rs[e]).id != id by {
        let h = lemma_report_from(v, cells, k, e);
        assert(h != i);
    }
    lemma_told_once(v, cells, k, i);
    assert forall|e: int| 0 <= e < ps.len() && e != j implies (#[trigger] ps[e]).id != id by {}
    assert(mid.devices[d] == o.devices[d]);
    assert(mid.recs()[d] == o.devices[d].record());
    crate::collection::laws::law_reports_frame(mid.recs(), rs, mid.rules(now), rs.len() as int, d);
    assert(mid2.recs()[d] == mid2.devices[d].record());
    law_newest_patch_stands(mid2, n, ps, a.patched, j, d);
}

/// **A body is refused for half a position**, whoever else is in it.
pub proof fn law_half_position(v: Seq<Item>)
    ensures
        half_at(v, 0) < v.len() <==> exists|i: int| 0 <= i < v.len() && (#[trigger] v[i]).place is Half,
        half_at(v, 0) < v.len() ==> 0 <= half_at(v, 0) && v[half_at(v, 0)].place is Half,
{
    lemma_half(v, 0);
}

proof fn lemma_half(v: Seq<Item>, k: int)
    requires
        0 <= k <= v.len(),
    ensures
        half_at(v, k) < v.len() <==> exists|i: int| k <= i < v.len() && (#[trigger] v[i]).place is Half,
        half_at(v, k) < v.len() ==> k <= half_at(v, k) && v[half_at(v, k)].place is Half,
    decreases v.len() - k,
{
    if k < v.len() && !(v[k].place is Half) {
        lemma_half(v, k + 1);
        if exists|i: int| k <= i < v.len() && (#[trigger] v[i]).place is Half {
            let i = choose|i: int| k <= i < v.len() && (#[trigger] v[i]).place is Half;
            assert(k + 1 <= i < v.len() && v[i].place is Half);
        }
    }
}

/// **What an item says of a dimension**: the last list that it names for it; its category for the
/// first dimension, unless it names a list for that. An item that names neither says nothing, and
/// nothing can be said where nothing is declared.
pub proof fn law_item_values(s: Schema, item: Item, name: Seq<char>, i: int)
    ensures
        s.dims.len() == 0 || (item.dims.len() == 0 && item.cat is None) ==> values_meant(s, item) is None,
        s.dims.len() > 0 && (item.dims.len() > 0 || item.cat is Some) ==> values_meant(s, item) is Some,
        values_meant(s, item) matches Some(m) ==> {
            &&& 0 <= i < item.dims.len() && item.dims[i].0@ == name && (forall|j: int|
                i < j < item.dims.len() ==> (#[trigger] item.dims[j]).0@ != name) ==> m.contains_key(name)
                && m[name] == texts(item.dims[i].1.0@)
            &&& (forall|j: int| 0 <= j < item.dims.len() ==> (#[trigger] item.dims[j]).0@ != name) ==> {
                if item.cat is Some && name == s.dims[0].name@ {
                    m.contains_key(name) && m[name] == seq![item.cat->0.shown()]
                } else {
                    !m.contains_key(name)
                }
            }
        },
{
    lemma_dims_map(item.dims@, item.dims.len() as int, name, i);
}

proof fn lemma_dims_map(d: Seq<(String, DimVal)>, k: int, name: Seq<char>, i: int)
    requires
        0 <= k <= d.len(),
    ensures
        0 <= i < k && d[i].0@ == name && (forall|j: int| i < j < k ==> (#[trigger] d[j]).0@ != name)
            ==> dims_map(d, k).contains_key(name) && dims_map(d, k)[name] == texts(d[i].1.0@),
        (forall|j: int| 0 <= j < k ==> (#[trigger] d[j]).0@ != name) ==> !dims_map(d, k).contains_key(
            name,
        ),
    decreases k,
{
    if k > 0 {
        lemma_dims_map(d, k - 1, name, i);
        if forall|j: int| 0 <= j < k ==> (#[trigger] d[j]).0@ != name {
            assert(d[k - 1].0@ != name);
        }
        if 0 <= i < k - 1 && (forall|j: int| i < j < k ==> (#[trigger] d[j]).0@ != name) {
            assert(d[k - 1].0@ != name);
        }
    }
}

/// **A body of reports and patches is taken whole or not at all**: exactly if every part of it is
/// in order.
pub proof fn law_apply_refused(
    c: Collection,
    n: Collection,
    reports: Seq<Told>,
    patches: Seq<Told>,
    now: u64,
    r: Result<Applied, String>,
)
    requires
        c.applies(n, reports, patches, now, r),
    ensures
        r is Err ==> n == c,
        r is Err ==> !((forall|i: int|
            0 <= i < reports.len() ==> (#[trigger] reports[i]).at is Some && in_order(
                c,
                reports[i].cells,
                reports[i].props,
            )) && (forall|i: int|
            0 <= i < patches.len() ==> in_order(c, (#[trigger] patches[i]).cells, patches[i].props))),
        r is Ok ==> forall|i: int|
            0 <= i < reports.len() ==> (#[trigger] reports[i]).at is Some && in_order(
                c,
                reports[i].cells,
                reports[i].props,
            ),
        r matches Ok(a) ==> a.accepted + a.late == reports.len(),
{
    let names = texts(c.config.text@);
    match r {
        Ok(a) => {
            let mid = choose|m: Collection| #[trigger]
                c.takes(m, reports, now, Ok(a.accepted)) && m.retouches(n, patches, Ok(a.patched));
            law_batch_refused(c, mid, reports, now, Ok(a.accepted));
        },
        Err(e) => {
            if batch_fault(c.schema, c.props_limit, names, reports) is Some {
                let f = batch_fault(c.schema, c.props_limit, names, reports)->0;
                crate::collection::promises::lemma_batch_fault(c, reports);
            }
            crate::collection::promises::lemma_patch_fault(c, patches);
        },
    }
}

/// **Who a feature is about**: by the property that was named for it, and by nothing else then; or
/// by its own id, or else by the property `id`. A feature is refused that has no such id, no
/// position, or a latitude that is none.
pub proof fn law_feature(
    i: int,
    named: Option<Seq<char>>,
    f: GeoFeature,
    p: Peeked,
    cells: Option<Seq<u32>>,
)
    ensures
        ({
            let id = if named is Some || f.id is None {
                maybe(p.id)
            } else {
                maybe(f.id)
            };
            let r = feature_meant(i, named, f, p, cells);
            &&& r is Ok <==> id is Some && f.place is Some && f.place->0.upright
            &&& r matches Ok(t) ==> t.id == id->0 && t.at == f.place->0.at && t.props == maybe(f.props)
                && t.cells == cells && t.version == f.updated_at_ms
        }),
{
}

/// **Every feature of a collection becomes a report, in order**, or none does.
pub proof fn law_features(
    named: Option<Seq<char>>,
    v: Seq<GeoFeature>,
    p: Seq<Peeked>,
    cells: Seq<Option<Seq<u32>>>,
    k: int,
)
    requires
        0 <= k <= v.len(),
    ensures
        features_meant(named, v, p, cells, k) is Ok <==> forall|i: int|
            0 <= i < k ==> feature_meant(i, named, #[trigger] v[i], p[i], cells[i]) is Ok,
        features_meant(named, v, p, cells, k) matches Ok(q) ==> q.len() == k && forall|i: int|
            0 <= i < k ==> feature_meant(i, named, v[i], p[i], cells[i]) == Ok::<Told, Seq<char>>(
                #[trigger] q[i],
            ),
    decreases k,
{
    if k > 0 {
        law_features(named, v, p, cells, k - 1);
        if features_meant(named, v, p, cells, k) is Ok {
            assert(feature_meant(k - 1, named, v[k - 1], p[k - 1], cells[k - 1]) is Ok);
        } else if forall|i: int|
            0 <= i < k ==> feature_meant(i, named, #[trigger] v[i], p[i], cells[i]) is Ok {
            assert(feature_meant(k - 1, named, v[k - 1], p[k - 1], cells[k - 1]) is Ok);
        }
    }
}

/// **What a feature says of a dimension**: with categories declared, its category, of the one
/// dimension there is; else what its properties hold under the names of the dimensions.
pub proof fn law_feature_values(c: Collection, p: Peeked, i: int)
    requires
        c.schema.wf(),
        p.dims.len() <= c.schema.dims.len(),
        0 <= i < p.dims.len(),
    ensures
        c.schema.dims.len() == 0 ==> feature_values_meant(c, p) is None,
        c.schema.dims.len() > 0 && c.config.categories.len() > 0 ==> (feature_values_meant(c, p) is Some
            <==> p.cat is Some) && (p.cat is Some ==> feature_values_meant(c, p)->0[
            c.schema.dims[0].name@
        ] == seq![p.cat->0.shown()]),
        c.schema.dims.len() > 0 && c.config.categories.len() == 0 && p.dims[i] is Some ==> {
            &&& feature_values_meant(c, p) is Some
            &&& feature_values_meant(c, p)->0.contains_key(c.schema.dims[i].name@)
            &&& feature_values_meant(c, p)->0[c.schema.dims[i].name@] == texts((p.dims[i]->0).0@)
        },
        c.config.categories.len() == 0 && p.dims[i] is None && feature_values_meant(c, p) is Some
            ==> !feature_values_meant(c, p)->0.contains_key(c.schema.dims[i].name@),
{
    lemma_found_map(c.schema, p.dims@, p.dims.len() as int, i);
    if p.dims[i] is Some {
        assert(p.dims@[i] is Some);
        assert(any_found(p.dims@, p.dims.len() as int));
    }
}

proof fn lemma_found_map(s: Schema, d: Seq<Option<DimVal>>, k: int, i: int)
    requires
        s.wf(),
        0 <= k <= d.len() <= s.dims.len(),
        0 <= i < d.len(),
    ensures
        i < k && d[i] is Some ==> found_map(s, d, k).contains_key(s.dims[i].name@) && found_map(s, d, k)[
            s.dims[i].name@
        ] == texts((d[i]->0).0@),
        i >= k || d[i] is None ==> !found_map(s, d, k).contains_key(s.dims[i].name@),
    decreases k,
{
    if k > 0 {
        lemma_found_map(s, d, k - 1, i);
        if i != k - 1 {
            let q = crate::schema::names(s.dims@);
            assert(q[i] != q[k - 1]);
        }
    }
}

} // verus!
