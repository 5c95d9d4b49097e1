//! What a caller can rely on of the handle of a cluster: when it parts, into what, and who is in it.
use super::handles::law_expansion;
use super::leaves::{first, law_inside, rest};
use super::promises::{accounts, in_group, is_asked, lemma_groups};
use super::NetCluster;
use crate::clusters::{lemma_rep, lemma_tally, Window};
use crate::feature::Feature;
use crate::geometry::PREC_I;
use crate::laws::{lemma_sizes, lemma_tally_bound, lemma_world_mean, sizes};
use crate::net::Net;
use crate::order::sight;
use crate::sums::{lemma_total_as_sum, lemma_total_ext, sum_over};
use vstd::prelude::*;

verus! {

/// The whole world.
pub open spec fn world() -> Window {
    Window::of(0, 0, PREC_I as int, PREC_I as int)
}

/// The handle of a cluster leads to its center and its zoom.
proof fn lemma_handle(nc: NetCluster, out: Seq<Feature>, z: int, i: int)
    requires
        nc.wf(),
        nc.opts().min_zoom <= z <= nc.opts().max_zoom,
        nc.sees(out, -1, z, world()),
        0 <= i < out.len(),
        out[i] is Cluster,
    ensures
        ({
            let id = out[i]->cluster_id;
            let (net, n) = (nc.net(), nc.slots());
            let s = id as int / 32;
            &&& s == sight(nc.lists(), net, n, -1, z, world())[i]
            &&& id as int % 32 == z
            &&& net.live_handle(id)
            &&& net.center(s, z)
            &&& net.tally(n, 0, -1, s, z) == out[i]->count
            &&& net.tally(n, 1, -1, s, z) == out[i]->sx
            &&& net.tally(n, 2, -1, s, z) == out[i]->sy
            &&& out[i]->count >= 2
        }),
{
    let (net, n) = (nc.net(), nc.slots());
    nc.law_invariants();
    let q = sight(nc.lists(), net, n, -1, z, world());
    let s = q[i];
    assert(net.shows(out[i], n, -1, s, z));
    assert(q.contains(s));
    assert(net.drawn(n, -1, s, z, world()));
    lemma_tally_bound(net, n, -1, s, z);
    lemma_world_mean(net, n, -1, s, z);
    assert(net.has(s));
    let id = out[i]->cluster_id;
    assert(id == s * 32 + z);
    assert((s * 32 + z) / 32 == s && (s * 32 + z) % 32 == z);
}

/// Between a center and whom it stands for there is a child of it.
proof fn lemma_child_between(net: Net, s: int, t: int, z: int) -> (c: int)
    requires
        net.ok(),
        net.has(t),
        0 <= z,
        net.rep(t, z) == s,
        t != s,
    ensures
        net.child(c, s),
        z < net.pts[c].level <= net.pts[t].level,
    decreases net.pts[t].level,
{
    assert(net.sound_point(t) && net.covering(t));
    let q = net.pts[t].parent->0;
    assert(net.has(q) && net.sound_point(q));
    if q == s {
        t
    } else {
        lemma_child_between(net, s, q, z)
    }
}

/// Until a cluster parts, nobody leaves it.
proof fn lemma_stays(net: Net, s: int, z: int, y: int, nz: int, p: int)
    requires
        net.ok(),
        net.has(p),
        0 <= z <= y < nz,
        net.splits_at(s, z, nz),
        net.center(s, z),
    ensures
        net.rep(p, y) == s <==> net.rep(p, z) == s,
{
    super::promises::lemma_rep_nests(net, p, z, y);
    let t = net.rep(p, y);
    lemma_rep(net, p, y);
    if net.rep(p, z) == s && t != s {
        let c = lemma_child_between(net, s, t, z);
        assert(net.child(c, s) && net.pts[c].level > z);
    }
}

/// **A cluster stays whole until its expansion zoom**: at every zoom before it the map shows a
/// cluster of the same size in the same place.
pub proof fn law_whole_before_expansion(
    nc: NetCluster,
    out: Seq<Feature>,
    z: int,
    i: int,
    nz: int,
    v: Seq<Feature>,
    y: int,
) -> (j: int)
    requires
        nc.wf(),
        nc.opts().min_zoom <= z <= nc.opts().max_zoom,
        nc.sees(out, -1, z, world()),
        0 <= i < out.len(),
        out[i] is Cluster,
        nc.net().splits_at(out[i]->cluster_id as int / 32, out[i]->cluster_id as int % 32, nz),
        z <= y < nz,
        y <= nc.opts().max_zoom,
        nc.sees(v, -1, y, world()),
    ensures
        0 <= j < v.len(),
        v[j] is Cluster,
        v[j]->count == out[i]->count,
        v[j]->sx == out[i]->sx,
        v[j]->sy == out[i]->sy,
{
    lemma_handle(nc, out, z, i);
    let (net, n) = (nc.net(), nc.slots());
    let s = out[i]->cluster_id as int / 32;
    nc.law_invariants();
    assert forall|a: int| 0 <= a <= 2 implies net.tally(n, a, -1, s, y) == #[trigger] net.tally(
        n,
        a,
        -1,
        s,
        z,
    ) by {
        let (f, g) = (net.tally_at(a, -1, s, z), net.tally_at(a, -1, s, y));
        assert forall|p: int| 0 <= p < n implies #[trigger] f(p) == g(p) by {
            if net.has(p) {
                lemma_stays(net, s, z, y, nz, p);
            }
        }
        lemma_total_ext(n, f, g);
    }
    assert(net.tally(n, 0, -1, s, y) == net.tally(n, 0, -1, s, z));
    assert(net.tally(n, 1, -1, s, y) == net.tally(n, 1, -1, s, z));
    assert(net.tally(n, 2, -1, s, y) == net.tally(n, 2, -1, s, z));
    let w = world();
    crate::laws::law_world(net, n, -1, s, y, w);
    let q = sight(nc.lists(), net, n, -1, y, w);
    assert(q.contains(s));
    let j = q.index_of(s);
    assert(net.shows(v[j], n, -1, q[j], y));
    lemma_world_mean(net, n, -1, s, y);
    lemma_tally_bound(net, n, -1, s, y);
    j
}

/// **A cluster parts at its expansion zoom**: there the map counts two of its points in different
/// features. The zoom is beyond the cluster's own, and beyond the finest only where no finer one
/// parts it.
pub proof fn law_parts_at_expansion(
    nc: NetCluster,
    out: Seq<Feature>,
    z: int,
    i: int,
    nz: int,
    v: Seq<Feature>,
)
    requires
        nc.wf(),
        nc.opts().min_zoom <= z <= nc.opts().max_zoom,
        nc.sees(out, -1, z, world()),
        0 <= i < out.len(),
        out[i] is Cluster,
        nc.net().splits_at(out[i]->cluster_id as int / 32, out[i]->cluster_id as int % 32, nz),
        nz <= nc.opts().max_zoom ==> nc.sees(v, -1, nz, world()),
    ensures
        z < nz <= nc.opts().max_zoom + 1,
        nz <= nc.opts().max_zoom ==> exists|f: spec_fn(int) -> int, g: spec_fn(int) -> int, p: int, r: int|
            #![trigger accounts(nc.net(), nc.slots(), -1, out, f), accounts(
                nc.net(),
                nc.slots(),
                -1,
                v,
                g,
            ), nc.net().has(p), nc.net().has(r)]
            accounts(nc.net(), nc.slots(), -1, out, f) && accounts(nc.net(), nc.slots(), -1, v, g)
                && nc.net().has(p) && nc.net().has(r) && f(p) == i && f(r) == i && g(p) != g(r),
{
    lemma_handle(nc, out, z, i);
    let (net, n) = (nc.net(), nc.slots());
    let s = out[i]->cluster_id as int / 32;
    nc.law_invariants();
    assert(net.sound_point(s));
    if exists|c: int| #[trigger] net.child(c, s) && net.pts[c].level > z {
        let c = choose|c: int| #[trigger] net.child(c, s) && net.pts[c].level == nz;
        assert(net.has(c) && net.sound_point(c));
        if nz <= net.top() {
            let f = lemma_groups(nc, out, -1, z, world());
            let g = lemma_groups(nc, v, -1, nz, world());
            assert(net.rep(c, nz) == c && net.rep(s, nz) == s);
            assert(net.rep(s, z) == s);
            assert(net.rep(c, z) == s);
            assert(c != s);
            assert(g(c) != g(s)) by {
                assert(net.has(c) && is_asked(nc.opts(), net.pts[c], -1));
                assert(net.has(s) && is_asked(nc.opts(), net.pts[s], -1));
            }
            let q = sight(nc.lists(), net, n, -1, z, world());
            assert(is_asked(nc.opts(), net.pts[s], -1) && is_asked(nc.opts(), net.pts[c], -1));
            assert(q[f(s)] == s && q[f(c)] == s && q[i] == s);
            assert(f(s) == i && f(c) == i);
            assert(accounts(net, n, -1, out, f) && accounts(net, n, -1, v, g) && net.has(c)
                && net.has(s));
        }
    }
}

/// **The children of a cluster are what it parts into**: two features or more that together count
/// as many points; those of the map at the zoom where it parts, or, where no zoom parts it, its
/// points one by one.
pub proof fn law_children(
    nc: NetCluster,
    out: Seq<Feature>,
    z: int,
    i: int,
    kids: Seq<Feature>,
) -> (nz: int)
    requires
        nc.wf(),
        nc.opts().min_zoom <= z <= nc.opts().max_zoom,
        nc.sees(out, -1, z, world()),
        0 <= i < out.len(),
        out[i] is Cluster,
        nc.breaks_into(out[i]->cluster_id, kids),
    ensures
        sizes(kids) == out[i]->count,
        kids.len() >= 2,
        z < nz <= nc.opts().max_zoom + 1,
        nc.net().splits_at(out[i]->cluster_id as int / 32, out[i]->cluster_id as int % 32, nz),
        nz > nc.opts().max_zoom ==> forall|j: int|
            0 <= j < kids.len() ==> (#[trigger] kids[j]) is Point,
        nz <= nc.opts().max_zoom ==> forall|v: Seq<Feature>, j: int|
            #![trigger nc.sees(v, -1, nz, world()), kids[j]]
            nc.sees(v, -1, nz, world()) && 0 <= j < kids.len() ==> v.contains(kids[j]),
{
    lemma_handle(nc, out, z, i);
    let (net, n) = (nc.net(), nc.slots());
    let s = out[i]->cluster_id as int / 32;
    nc.law_invariants();
    let (nz, q) = choose|nz: int, q: Seq<int>|
        {
            &&& #[trigger] net.splits_at(s, z, nz)
            &&& #[trigger] net.fragments(s, z, nz, q)
            &&& q == seq![s] + crate::order::parting(
                (nc.lists().kids)(s),
                net.pts,
                z,
                nz,
                (nc.lists().kids)(s).len() as int,
            )
            &&& if nz > net.top() {
                net.are_leaves(kids, q)
            } else {
                net.pictures(kids, q, n, -1, nz)
            }
        };
    assert(net.sound_point(s));
    law_expansion(net, n, -1, s, z, nz, q);
    assert(nz <= net.top() + 1) by {
        if exists|c: int| #[trigger] net.child(c, s) && net.pts[c].level > z {
            let c = choose|c: int| #[trigger] net.child(c, s) && net.pts[c].level == nz;
            assert(net.has(c) && net.sound_point(c));
        }
    }
    let f = |t: int| net.tally(n, 0, -1, t, nz);
    assert forall|j: int| 0 <= j < q.len() implies net.has(#[trigger] q[j]) && (nz <= net.top()
        ==> 0 <= net.pts[q[j]].level <= nz) by {
        assert(q.contains(q[j]));
        assert(net.has(q[j]));
        assert(net.sound_point(q[j]));
    }
    if nz > net.top() {
        assert forall|j: int| 0 <= j < kids.len() implies (#[trigger] kids[j]) is Point by {
            assert(net.is_leaf(kids[j], q[j]));
        }
        lemma_all_ones(net, n, nz, q, kids);
    } else {
        assert forall|j: int| 0 <= j < q.len() implies net.tally(n, 0, -1, #[trigger] q[j], nz) >= 1
            && net.tally(n, 0, -1, q[j], nz) <= u32::MAX by {
            lemma_tally(net, n, -1, q[j], nz);
            assert(net.member(q[j], q[j], nz, -1));
            lemma_tally_bound(net, n, -1, q[j], nz);
        }
        lemma_sizes(net, kids, q, n, -1, nz);
        crate::sums::lemma_sum_ext(q, f, |t: int| net.tally(n, 0, -1, t, nz));
        assert forall|v: Seq<Feature>, j: int|
            #![trigger nc.sees(v, -1, nz, world()), kids[j]]
            nc.sees(v, -1, nz, world()) && 0 <= j < kids.len() implies v.contains(kids[j]) by {
            let w = world();
            crate::laws::law_world(net, n, -1, q[j], nz, w);
            let t = sight(nc.lists(), net, n, -1, nz, w);
            assert(net.has(q[j]));
            assert(t.contains(q[j]));
            let k = t.index_of(q[j]);
            assert(net.shows(v[k], n, -1, t[k], nz));
            assert(net.shows(kids[j], n, -1, q[j], nz));
            super::facts::law_one_picture(net, kids[j], v[k], n, -1, q[j], nz);
        }
    }
    nz
}

/// Leaves count one each.
proof fn lemma_all_ones(net: Net, n: int, nz: int, q: Seq<int>, kids: Seq<Feature>)
    requires
        net.are_leaves(kids, q),
        forall|t: int| q.contains(t) ==> #[trigger] net.tally(n, 0, -1, t, nz) == 1,
    ensures
        sizes(kids) == sum_over(q, |t: int| net.tally(n, 0, -1, t, nz)),
    decreases q.len(),
{
    let f = |t: int| net.tally(n, 0, -1, t, nz);
    if q.len() > 0 {
        let (p, l) = (q.drop_last(), kids.drop_last());
        assert forall|t: int| p.contains(t) implies #[trigger] net.tally(n, 0, -1, t, nz) == 1 by {
            let j = p.index_of(t);
            assert(q[j] == t);
            assert(q.contains(t));
        }
        assert forall|j: int| 0 <= j < p.len() implies net.is_leaf(#[trigger] l[j], p[j]) by {
            assert(net.is_leaf(kids[j], q[j]));
        }
        lemma_all_ones(net, n, nz, p, l);
        assert(q.contains(q.last()));
        assert(net.is_leaf(kids[q.len() - 1], q[q.len() - 1]));
        assert(f(q.last()) == 1);
    }
}

/// **The leaves of a cluster are its points, each once, page by page**: listed in one order, a page
/// is as many of them as asked for, from where it is asked to begin; all together they are those
/// that the map counts in the cluster.
pub proof fn law_leaf_pages(
    nc: NetCluster,
    out: Seq<Feature>,
    z: int,
    i: int,
    limit: int,
    offset: int,
    page: Seq<Feature>,
)
    requires
        nc.wf(),
        nc.opts().min_zoom <= z <= nc.opts().max_zoom,
        nc.sees(out, -1, z, world()),
        0 <= i < out.len(),
        out[i] is Cluster,
        0 <= limit,
        0 <= offset,
        nc.leaf_page(out[i]->cluster_id, limit, offset, page),
    ensures
        exists|f: spec_fn(int) -> int, q: Seq<int>|
            #![trigger accounts(nc.net(), nc.slots(), -1, out, f), q.no_duplicates()]
            {
                &&& accounts(nc.net(), nc.slots(), -1, out, f)
                &&& q.no_duplicates()
                &&& q.len() == out[i]->count
                &&& forall|p: int| #[trigger] q.contains(p) <==> in_group(nc.net(), -1, f, i, p)
                &&& page.len() == (if offset >= q.len() {
                    0
                } else if limit < q.len() - offset {
                    limit
                } else {
                    q.len() - offset
                })
                &&& forall|k: int|
                    0 <= k < page.len() ==> (#[trigger] page[k]) is Point && page[k]->id
                        == nc.net().pts[q[offset + k]].id && page[k]->x == nc.net().pts[q[offset
                        + k]].x && page[k]->y == nc.net().pts[q[offset + k]].y
            },
{
    lemma_handle(nc, out, z, i);
    let (net, n) = (nc.net(), nc.slots());
    let s = out[i]->cluster_id as int / 32;
    nc.law_invariants();
    let f = lemma_groups(nc, out, -1, z, world());
    nc.law_leaves(s, z);
    let q = nc.leaf_order(s, z);
    let t = sight(nc.lists(), net, n, -1, z, world());
    assert forall|p: int| #[trigger] q.contains(p) <==> in_group(net, -1, f, i, p) by {
        if net.has(p) {
            law_inside(net, s, z, p);
            assert(is_asked(nc.opts(), net.pts[p], -1));
            assert(t[f(p)] == net.rep(p, z));
            assert(t[i] == s);
        }
    }
    let g = net.tally_at(0, -1, s, z);
    assert forall|k: int| 0 <= k < q.len() implies 0 <= #[trigger] q[k] < n && g(q[k]) == 1 by {
        assert(q.contains(q[k]));
        assert(net.has(q[k]));
        law_inside(net, s, z, q[k]);
    }
    assert forall|p: int| 0 <= p < n && !q.contains(p) implies #[trigger] g(p) == 0 by {
        if net.has(p) {
            law_inside(net, s, z, p);
        }
    }
    lemma_total_as_sum(n, q, g);
    lemma_sum_ones(q, g);
    assert forall|k: int| 0 <= k < page.len() implies (#[trigger] page[k]) is Point && page[k]->id
        == net.pts[q[offset + k]].id && page[k]->x == net.pts[q[offset + k]].x && page[k]->y
        == net.pts[q[offset + k]].y by {
        let r = first(rest(q, offset), limit);
        assert(net.is_leaf(page[k], r[k]));
        assert(r[k] == q[offset + k]);
        assert(q.contains(q[offset + k]));
        assert(net.sound_point(q[offset + k]));
    }
    assert(accounts(net, n, -1, out, f) && q.no_duplicates());
}

proof fn lemma_sum_ones(q: Seq<int>, g: spec_fn(int) -> int)
    requires
        forall|k: int| 0 <= k < q.len() ==> g(#[trigger] q[k]) == 1,
    ensures
        sum_over(q, g) == q.len(),
    decreases q.len(),
{
    if q.len() > 0 {
        let p = q.drop_last();
        assert forall|k: int| 0 <= k < p.len() implies g(#[trigger] p[k]) == 1 by {
            assert(p[k] == q[k]);
        }
        lemma_sum_ones(p, g);
        assert(g(q[q.len() - 1]) == 1);
    }
}

} // verus!
