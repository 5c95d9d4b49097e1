//! What a caller can rely on of an answer, told by the points that are there and the features that
//! come back.
use super::NetCluster;
use crate::clusters::{lemma_rep, lemma_single, lemma_tally, Window};
use crate::feature::Feature;
use crate::geometry::{dist2, sq, two, Options, PREC_I};
use crate::laws::{law_cluster_radius, law_viewport, law_world, lemma_tally_bound, lemma_world_mean};
use crate::net::{Net, Point};
use crate::sums::{lemma_total_ext, total};
use vstd::prelude::*;

verus! {

/// A query asks for this point: for all, or for those of one filter cell.
pub open spec fn is_asked(o: Options, p: Point, category: int) -> bool {
    category < 0 || o.cells_in_force() == 0 || exists|j: int|
        0 <= j < p.cells.len() && #[trigger] p.cells[j] == category
}

/// Point `p` is asked for and stands in group `i`.
pub open spec fn in_group(net: Net, category: int, f: spec_fn(int) -> int, i: int, p: int) -> bool {
    net.has(p) && is_asked(net.opts, net.pts[p], category) && f(p) == i
}

/// How many points stand in a group.
pub open spec fn group_size(net: Net, n: int, category: int, f: spec_fn(int) -> int, i: int) -> int {
    total(
        n,
        |p: int|
            if in_group(net, category, f, i, p) {
                1int
            } else {
                0
            },
    )
}

pub open spec fn group_x(net: Net, n: int, category: int, f: spec_fn(int) -> int, i: int) -> int {
    total(
        n,
        |p: int|
            if in_group(net, category, f, i, p) {
                net.pts[p].x
            } else {
                0
            },
    )
}

pub open spec fn group_y(net: Net, n: int, category: int, f: spec_fn(int) -> int, i: int) -> int {
    total(
        n,
        |p: int|
            if in_group(net, category, f, i, p) {
                net.pts[p].y
            } else {
                0
            },
    )
}

/// A feature stands for a group: a point for the only one in it, a cluster for two or more, with
/// their number and the sums of their coordinates.
pub open spec fn stands_for(
    net: Net,
    n: int,
    category: int,
    f: spec_fn(int) -> int,
    i: int,
    feature: Feature,
) -> bool {
    let k = group_size(net, n, category, f, i);
    match feature {
        Feature::Point { id, x, y } => k == 1 && exists|p: int| #[trigger]
            in_group(net, category, f, i, p) && net.pts[p].id == id && net.pts[p].x == x
                && net.pts[p].y == y,
        Feature::Cluster { cluster_id, count, sx, sy } => k >= 2 && count == k && sx == group_x(
            net,
            n,
            category,
            f,
            i,
        ) && sy == group_y(net, n, category, f, i),
    }
}

/// `f` tells of every point in which feature of an answer it is counted; in none if it is out of
/// range.
pub open spec fn accounts(
    net: Net,
    n: int,
    category: int,
    out: Seq<Feature>,
    f: spec_fn(int) -> int,
) -> bool {
    forall|i: int| 0 <= i < out.len() ==> stands_for(net, n, category, f, i, #[trigger] out[i])
}

/// The place of a feature lies in a box, edges included, on both axes.
pub open spec fn in_box(f: Feature, x0: int, y0: int, x1: int, y1: int) -> bool {
    match f {
        Feature::Point { id, x, y } => x0 <= x <= x1 && y0 <= y <= y1,
        Feature::Cluster { cluster_id, count, sx, sy } => x0 * count <= sx <= x1 * count && y0
            * count <= sy <= y1 * count,
    }
}

/// Which of the centers `q` a point is drawn with.
spec fn grouping(net: Net, q: Seq<int>, z: int) -> spec_fn(int) -> int {
    |p: int|
        if q.contains(net.rep(p, z)) {
            q.index_of(net.rep(p, z))
        } else {
            -1
        }
}

proof fn lemma_asked(nc: NetCluster, p: int, category: int)
    requires
        nc.wf(),
    ensures
        is_asked(nc.net().opts, nc.net().pts[p], category) == nc.net().in_cell(
            p,
            nc.effective(category),
        ),
{
    nc.law_invariants();
    let q = nc.net().pts[p].cells;
    if nc.net().opts.cells_in_force() > 0 && category >= 0 {
        if crate::cells::holds(q, category) {
            let j = choose|j: int| 0 <= j < q.len() && #[trigger] q[j] == category;
            assert(q[j] == category);
        }
    }
}

/// A feature shows the cluster of a center, by its size and sums.
proof fn lemma_numbers(nc: NetCluster, out: Seq<Feature>, q: Seq<int>, category: int, z: int, i: int)
    requires
        nc.wf(),
        0 <= z <= nc.opts().max_zoom,
        nc.net().pictures(out, q, nc.slots(), nc.effective(category), z),
        0 <= i < q.len(),
    ensures
        ({
            let (net, n, f) = (nc.net(), nc.slots(), grouping(nc.net(), q, z));
            let c = nc.effective(category);
            &&& group_size(net, n, category, f, i) == net.tally(n, 0, c, q[i], z)
            &&& group_x(net, n, category, f, i) == net.tally(n, 1, c, q[i], z)
            &&& group_y(net, n, category, f, i) == net.tally(n, 2, c, q[i], z)
            &&& forall|p: int| #[trigger]
                in_group(net, category, f, i, p) == net.member(p, q[i], z, c)
        }),
{
    let (net, n, f) = (nc.net(), nc.slots(), grouping(nc.net(), q, z));
    let c = nc.effective(category);
    nc.law_invariants();
    assert forall|p: int| #[trigger] in_group(net, category, f, i, p) == net.member(p, q[i], z, c) by {
        lemma_asked(nc, p, category);
        if net.rep(p, z) == q[i] {
            assert(q.contains(q[i]));
            assert(q[q.index_of(q[i])] == q[i]);
        }
    }
    let g0 = |p: int|
        if in_group(net, category, f, i, p) {
            1int
        } else {
            0
        };
    let g1 = |p: int|
        if in_group(net, category, f, i, p) {
            net.pts[p].x
        } else {
            0
        };
    let g2 = |p: int|
        if in_group(net, category, f, i, p) {
            net.pts[p].y
        } else {
            0
        };
    let (t0, t1, t2) = (
        net.tally_at(0, c, q[i], z),
        net.tally_at(1, c, q[i], z),
        net.tally_at(2, c, q[i], z),
    );
    assert forall|p: int| 0 <= p < n implies #[trigger] g0(p) == t0(p) by {
        assert(in_group(net, category, f, i, p) == net.member(p, q[i], z, c));
    }
    assert forall|p: int| 0 <= p < n implies #[trigger] g1(p) == t1(p) by {
        assert(in_group(net, category, f, i, p) == net.member(p, q[i], z, c));
    }
    assert forall|p: int| 0 <= p < n implies #[trigger] g2(p) == t2(p) by {
        assert(in_group(net, category, f, i, p) == net.member(p, q[i], z, c));
    }
    lemma_total_ext(n, g0, t0);
    lemma_total_ext(n, g1, t1);
    lemma_total_ext(n, g2, t2);
}

proof fn lemma_accounts(
    nc: NetCluster,
    out: Seq<Feature>,
    q: Seq<int>,
    category: int,
    z: int,
    b: Window,
)
    requires
        nc.wf(),
        0 <= z <= nc.opts().max_zoom,
        nc.net().picture(out, q, nc.slots(), nc.effective(category), z, b),
    ensures
        accounts(nc.net(), nc.slots(), category, out, grouping(nc.net(), q, z)),
{
    let (net, n, f) = (nc.net(), nc.slots(), grouping(nc.net(), q, z));
    let c = nc.effective(category);
    nc.law_invariants();
    assert forall|i: int| 0 <= i < out.len() implies stands_for(
        net,
        n,
        category,
        f,
        i,
        #[trigger] out[i],
    ) by {
        lemma_numbers(nc, out, q, category, z, i);
        assert(net.shows(out[i], n, c, q[i], z));
        assert(q.contains(q[i]));
        assert(net.drawn(n, c, q[i], z, b));
        lemma_tally_bound(net, n, c, q[i], z);
        lemma_world_mean(net, n, c, q[i], z);
        if net.tally(n, 0, c, q[i], z) == 1 {
            let m = choose|m: int| #[trigger]
                net.member(m, q[i], z, c) && out[i] == (Feature::Point {
                    id: net.pts[m].id,
                    x: net.pts[m].x as i32,
                    y: net.pts[m].y as i32,
                });
            assert(in_group(net, category, f, i, m));
            assert(net.has(m) && net.sound_point(m));
        }
    }
}

/// The centers of an answer and the groups around them, at zoom `z`: any two centers are more than
/// a radius apart, and nobody is further from the center of its group than twice the radius,
/// stretched by the slack.
pub open spec fn well_grouped(
    net: Net,
    category: int,
    q: Seq<int>,
    f: spec_fn(int) -> int,
    z: int,
) -> bool {
    let o = net.opts;
    &&& forall|i: int| 0 <= i < q.len() ==> net.has(#[trigger] q[i])
    &&& forall|i: int, j: int|
        0 <= i < j < q.len() ==> dist2(
            net.pts[#[trigger] q[i]].x,
            net.pts[q[i]].y,
            net.pts[#[trigger] q[j]].x,
            net.pts[q[j]].y,
        ) * sq(o.extent * two(z)) > sq(PREC_I * o.radius)
    &&& forall|p: int| #[trigger]
        net.has(p) && is_asked(o, net.pts[p], category) ==> {
            &&& 0 <= f(p) < q.len()
            &&& dist2(net.pts[q[f(p)]].x, net.pts[q[f(p)]].y, net.pts[p].x, net.pts[p].y) * sq(
                o.extent * 1000 * two(z),
            ) <= sq(2 * (PREC_I * o.radius * (1000 + o.hysteresis)))
        }
}

/// **Exact counts and centroids**: a query of the world at a zoom that the index covers counts
/// every point that is asked for in exactly one feature, by its number and its coordinates; the
/// features are those of that very zoom, neither closer to each other than its radius nor wider.
pub proof fn law_world_view(
    nc: NetCluster,
    out: Seq<Feature>,
    category: int,
    zoom: int,
    x0: int,
    y0: int,
    x1: int,
    y1: int,
)
    requires
        nc.wf(),
        x0 <= 0 && y0 <= 0 && x1 >= PREC_I && y1 >= PREC_I,
        nc.opts().min_zoom <= zoom <= nc.opts().max_zoom,
        nc.sees(out, category, zoom, Window::of(x0, y0, x1, y1)),
    ensures
        exists|q: Seq<int>, f: spec_fn(int) -> int|
            q.len() == out.len() && #[trigger] accounts(nc.net(), nc.slots(), category, out, f)
                && #[trigger] well_grouped(nc.net(), category, q, f, zoom),
{
    let b = Window::of(x0, y0, x1, y1);
    let z = nc.zoom_of(zoom);
    let (net, n, c) = (nc.net(), nc.slots(), nc.effective(category));
    let q = crate::order::sight(nc.lists(), net, n, c, z, b);
    nc.law_invariants();
    lemma_accounts(nc, out, q, category, z, b);
    let f = grouping(net, q, z);
    assert forall|i: int| 0 <= i < q.len() implies net.has(#[trigger] q[i]) && net.center(q[i], z) by {
        assert(q.contains(q[i]));
        assert(net.drawn(n, c, q[i], z, b));
    }
    assert forall|i: int, j: int| 0 <= i < j < q.len() implies dist2(
        net.pts[#[trigger] q[i]].x,
        net.pts[q[i]].y,
        net.pts[#[trigger] q[j]].x,
        net.pts[q[j]].y,
    ) * sq(net.opts.extent * two(z)) > sq(PREC_I * net.opts.radius) by {
        assert(net.has(q[i]) && net.has(q[j]));
        assert(q[i] != q[j]);
        assert(net.separated(q[i], q[j]));
        assert(!net.opts.near(z, net.far(q[i], net.pts[q[j]].x, net.pts[q[j]].y)));
    }
    assert forall|p: int| #[trigger]
        net.has(p) && is_asked(net.opts, net.pts[p], category) implies 0 <= f(p) < q.len() && dist2(
        net.pts[q[f(p)]].x,
        net.pts[q[f(p)]].y,
        net.pts[p].x,
        net.pts[p].y,
    ) * sq(net.opts.extent * 1000 * two(z)) <= sq(
        2 * (PREC_I * net.opts.radius * (1000 + net.opts.hysteresis)),
    ) by {
        lemma_at_home(nc, p, category, z, b);
        law_cluster_radius(net, p, z);
        assert(q.contains(net.rep(p, z)));
        assert(q[q.index_of(net.rep(p, z))] == net.rep(p, z));
    }
    assert(accounts(net, n, category, out, f) && well_grouped(net, category, q, f, zoom));
}

/// In a query of the world every point that is asked for is drawn with its center.
proof fn lemma_at_home(nc: NetCluster, p: int, category: int, z: int, b: Window)
    requires
        nc.wf(),
        0 <= z <= nc.opts().max_zoom,
        b.is_world(),
        nc.net().has(p),
        is_asked(nc.net().opts, nc.net().pts[p], category),
    ensures
        nc.net().drawn(nc.slots(), nc.effective(category), nc.net().rep(p, z), z, b),
{
    let (net, n, c) = (nc.net(), nc.slots(), nc.effective(category));
    nc.law_invariants();
    lemma_asked(nc, p, category);
    lemma_rep(net, p, z);
    lemma_tally(net, n, c, net.rep(p, z), z);
    assert(net.member(p, net.rep(p, z), z, c));
    law_world(net, n, c, net.rep(p, z), z, b);
}

/// What a feature shows is one thing.
proof fn lemma_one_face(nc: NetCluster, f: Feature, g: Feature, c: int, s: int, z: int)
    requires
        nc.wf(),
        nc.net().shows(f, nc.slots(), c, s, z),
        nc.net().shows(g, nc.slots(), c, s, z),
    ensures
        f == g,
{
    nc.law_invariants();
    super::facts::law_one_picture(nc.net(), f, g, nc.slots(), c, s, z);
}

/// The place of a feature by its numbers.
pub proof fn lemma_mean(nc: NetCluster, f: Feature, c: int, s: int, z: int, x0: int, y0: int, x1: int, y1: int)
    requires
        nc.wf(),
        x0 <= x1 && y0 <= y1,
        nc.net().shows(f, nc.slots(), c, s, z),
    ensures
        in_box(f, x0, y0, x1, y1) == Window::of(x0, y0, x1, y1).holds_mean(
            nc.net().tally(nc.slots(), 0, c, s, z),
            nc.net().tally(nc.slots(), 1, c, s, z),
            nc.net().tally(nc.slots(), 2, c, s, z),
        ),
{
    let (net, n) = (nc.net(), nc.slots());
    nc.law_invariants();
    lemma_tally_bound(net, n, c, s, z);
    lemma_world_mean(net, n, c, s, z);
    if net.tally(n, 0, c, s, z) == 1 {
        let m = choose|m: int| #[trigger]
            net.member(m, s, z, c) && f == (Feature::Point {
                id: net.pts[m].id,
                x: net.pts[m].x as i32,
                y: net.pts[m].y as i32,
            });
        lemma_single(net, n, c, s, z, m);
        assert(net.has(m) && net.sound_point(m));
    }
}

/// **A query of a box is the query of the world, cut to the box**: what it shows is what the world
/// shows at that zoom, as far as its place lies in the box, on both axes; nothing else, and
/// nothing is left out. The corners may be given in any order.
pub proof fn law_box_view(
    nc: NetCluster,
    out: Seq<Feature>,
    all: Seq<Feature>,
    category: int,
    zoom: int,
    x0: int,
    y0: int,
    x1: int,
    y1: int,
    f: Feature,
)
    requires
        nc.wf(),
        x0 <= x1 && y0 <= y1,
        nc.sees(all, category, zoom, Window::of(0, 0, PREC_I as int, PREC_I as int)),
        nc.sees(out, category, zoom, Window::of(x0, y0, x1, y1)) || nc.sees(
            out,
            category,
            zoom,
            Window::of(x1, y0, x0, y1),
        ) || nc.sees(out, category, zoom, Window::of(x0, y1, x1, y0)) || nc.sees(
            out,
            category,
            zoom,
            Window::of(x1, y1, x0, y0),
        ),
    ensures
        out.contains(f) <==> all.contains(f) && in_box(f, x0, y0, x1, y1),
{
    let (b, w) = (Window::of(x0, y0, x1, y1), Window::of(0, 0, PREC_I as int, PREC_I as int));
    let (net, n, c, z) = (nc.net(), nc.slots(), nc.effective(category), nc.zoom_of(zoom));
    let q = crate::order::sight(nc.lists(), net, n, c, z, b);
    let p = crate::order::sight(nc.lists(), net, n, c, z, w);
    nc.law_invariants();
    assert(Window::of(x1, y0, x0, y1) == b && Window::of(x0, y1, x1, y0) == b && Window::of(
        x1,
        y1,
        x0,
        y0,
    ) == b);
    if out.contains(f) {
        let i = out.index_of(f);
        assert(net.shows(out[i], n, c, q[i], z));
        assert(q.contains(q[i]));
        law_viewport(net, n, c, q[i], z, b, w);
        lemma_mean(nc, f, c, q[i], z, x0, y0, x1, y1);
        let j = p.index_of(q[i]);
        assert(p.contains(q[i]));
        assert(net.shows(all[j], n, c, p[j], z));
        lemma_one_face(nc, f, all[j], c, q[i], z);
    }
    if all.contains(f) && in_box(f, x0, y0, x1, y1) {
        let j = all.index_of(f);
        assert(net.shows(all[j], n, c, p[j], z));
        assert(p.contains(p[j]));
        law_viewport(net, n, c, p[j], z, b, w);
        lemma_mean(nc, f, c, p[j], z, x0, y0, x1, y1);
        let i = q.index_of(p[j]);
        assert(q.contains(p[j]));
        assert(net.shows(out[i], n, c, q[i], z));
        lemma_one_face(nc, f, out[i], c, p[j], z);
    }
}

/// **Beyond what the index covers nothing changes**: a query at any zoom past the finest shows
/// exactly what one at the finest shows, and one before the coarsest what one at the coarsest
/// shows.
pub proof fn law_beyond_the_zooms(
    nc: NetCluster,
    out: Seq<Feature>,
    also: Seq<Feature>,
    category: int,
    a: int,
    b: int,
    w: Window,
)
    requires
        nc.wf(),
        nc.sees(out, category, a, w),
        nc.sees(also, category, b, w),
        (a >= nc.opts().max_zoom && b >= nc.opts().max_zoom) || (a <= nc.opts().min_zoom && b
            <= nc.opts().min_zoom),
    ensures
        out == also,
{
    let (net, n, c, z) = (nc.net(), nc.slots(), nc.effective(category), nc.zoom_of(a));
    nc.law_invariants();
    let q = crate::order::sight(nc.lists(), net, n, c, z, w);
    assert forall|i: int| 0 <= i < q.len() implies #[trigger] out[i] == also[i] by {
        assert(net.shows(out[i], n, c, q[i], z));
        assert(net.shows(also[i], n, c, q[i], z));
        lemma_one_face(nc, out[i], also[i], c, q[i], z);
    }
    assert(out =~= also);
}

/// Whom a center stands for at a finer level is with it at a coarser one.
pub proof fn lemma_rep_nests(net: Net, p: int, y: int, z: int)
    requires
        net.ok(),
        net.has(p),
        0 <= y <= z,
    ensures
        net.rep(net.rep(p, z), y) == net.rep(p, y),
    decreases net.pts[p].level,
{
    assert(net.sound_point(p) && net.covering(p));
    if net.pts[p].level > z {
        let q = net.pts[p].parent->0;
        assert(net.has(q) && net.sound_point(q));
        lemma_rep_nests(net, q, y, z);
    }
}

/// **Zooming in only takes clusters apart**: whoever is counted in one feature at a zoom is counted
/// in one feature at every coarser zoom.
pub proof fn law_zooming_in(
    nc: NetCluster,
    coarse: Seq<Feature>,
    fine: Seq<Feature>,
    category: int,
    a: int,
    b: int,
    x0: int,
    y0: int,
    x1: int,
    y1: int,
)
    requires
        nc.wf(),
        a <= b,
        x0 <= 0 && y0 <= 0 && x1 >= PREC_I && y1 >= PREC_I,
        nc.sees(coarse, category, a, Window::of(x0, y0, x1, y1)),
        nc.sees(fine, category, b, Window::of(x0, y0, x1, y1)),
    ensures
        exists|f: spec_fn(int) -> int, g: spec_fn(int) -> int|
            #![trigger accounts(nc.net(), nc.slots(), category, coarse, f), accounts(
                nc.net(),
                nc.slots(),
                category,
                fine,
                g,
            )]
            {
                &&& accounts(nc.net(), nc.slots(), category, coarse, f)
                &&& accounts(nc.net(), nc.slots(), category, fine, g)
                &&& forall|p: int| #[trigger]
                    nc.net().has(p) && is_asked(nc.opts(), nc.net().pts[p], category) ==> 0 <= f(p)
                        < coarse.len() && 0 <= g(p) < fine.len()
                &&& forall|p: int, r: int|
                    #![trigger nc.net().has(p), nc.net().has(r)]
                    nc.net().has(p) && nc.net().has(r) && is_asked(
                        nc.opts(),
                        nc.net().pts[p],
                        category,
                    ) && is_asked(nc.opts(), nc.net().pts[r], category) && g(p) == g(r) ==> f(p) == f(
                        r,
                    )
            },
{
    let w = Window::of(x0, y0, x1, y1);
    let (net, n, c) = (nc.net(), nc.slots(), nc.effective(category));
    let (y, z) = (nc.zoom_of(a), nc.zoom_of(b));
    let q = crate::order::sight(nc.lists(), net, n, c, y, w);
    let t = crate::order::sight(nc.lists(), net, n, c, z, w);
    nc.law_invariants();
    lemma_accounts(nc, coarse, q, category, y, w);
    lemma_accounts(nc, fine, t, category, z, w);
    let (f, g) = (grouping(net, q, y), grouping(net, t, z));
    assert forall|p: int| #[trigger] net.has(p) && is_asked(nc.opts(), net.pts[p], category) implies 0
        <= f(p) < coarse.len() && 0 <= g(p) < fine.len() && q[f(p)] == net.rep(p, y) && t[g(p)]
        == net.rep(p, z) by {
        lemma_at_home(nc, p, category, y, w);
        lemma_at_home(nc, p, category, z, w);
        assert(q.contains(net.rep(p, y)));
        assert(t.contains(net.rep(p, z)));
    }
    assert forall|p: int, r: int|
        #![trigger net.has(p), net.has(r)]
        net.has(p) && net.has(r) && is_asked(nc.opts(), net.pts[p], category) && is_asked(
            nc.opts(),
            net.pts[r],
            category,
        ) && g(p) == g(r) implies f(p) == f(r) by {
        lemma_rep_nests(net, p, y, z);
        lemma_rep_nests(net, r, y, z);
        assert(t[g(p)] == net.rep(p, z));
        assert(t[g(r)] == net.rep(r, z));
    }
    assert(accounts(net, n, category, coarse, f));
    assert(accounts(net, n, category, fine, g));
}

/// The groups of a query of the world: points are together that have one center.
pub proof fn lemma_groups(
    nc: NetCluster,
    out: Seq<Feature>,
    category: int,
    zoom: int,
    b: Window,
) -> (f: spec_fn(int) -> int)
    requires
        nc.wf(),
        b.is_world(),
        nc.sees(out, category, zoom, b),
    ensures
        accounts(nc.net(), nc.slots(), category, out, f),
        ({
            let (n, c, z) = (nc.slots(), nc.effective(category), nc.zoom_of(zoom));
            let q = crate::order::sight(nc.lists(), nc.net(), n, c, z, b);
            &&& q.len() == out.len()
            &&& q.no_duplicates()
            &&& forall|p: int| #[trigger]
                nc.net().has(p) && is_asked(nc.opts(), nc.net().pts[p], category) ==> 0 <= f(p)
                    < out.len() && q[f(p)] == nc.net().rep(p, z)
        }),
        forall|p: int, r: int|
            #![trigger f(p), f(r)]
            nc.net().has(p) && nc.net().has(r) && is_asked(nc.opts(), nc.net().pts[p], category)
                && is_asked(nc.opts(), nc.net().pts[r], category) ==> (f(p) == f(r) <==> nc.net().rep(
                p,
                nc.zoom_of(zoom),
            ) == nc.net().rep(r, nc.zoom_of(zoom))),
{
    let (net, n, c, z) = (nc.net(), nc.slots(), nc.effective(category), nc.zoom_of(zoom));
    let q = crate::order::sight(nc.lists(), net, n, c, z, b);
    nc.law_invariants();
    lemma_accounts(nc, out, q, category, z, b);
    let f = grouping(net, q, z);
    assert forall|p: int| #[trigger] net.has(p) && is_asked(nc.opts(), net.pts[p], category) implies 0
        <= f(p) < out.len() && q[f(p)] == net.rep(p, z) by {
        lemma_at_home(nc, p, category, z, b);
        assert(q.contains(net.rep(p, z)));
    }
    assert forall|p: int, r: int|
        #![trigger f(p), f(r)]
        net.has(p) && net.has(r) && is_asked(nc.opts(), net.pts[p], category) && is_asked(
            nc.opts(),
            net.pts[r],
            category,
        ) implies (f(p) == f(r) <==> net.rep(p, z) == net.rep(r, z)) by {
        lemma_at_home(nc, p, category, z, b);
        lemma_at_home(nc, r, category, z, b);
        assert(q.contains(net.rep(p, z)));
        assert(q.contains(net.rep(r, z)));
        assert(q[f(p)] == net.rep(p, z) && q[f(r)] == net.rep(r, z));
    }
    f
}

/// **The marker of a point is the one that counts it**: asked at a zoom for the feature that a
/// point is drawn with, an index gives the feature of the query of the world at that zoom that
/// counts the point.
pub proof fn law_marker(
    nc: NetCluster,
    out: Seq<Feature>,
    f: Feature,
    p: int,
    id: u64,
    zoom: int,
    x0: int,
    y0: int,
    x1: int,
    y1: int,
)
    requires
        nc.wf(),
        x0 <= 0 && y0 <= 0 && x1 >= PREC_I && y1 >= PREC_I,
        nc.net().named(p, id),
        nc.net().shows(
            f,
            nc.slots(),
            -1,
            nc.net().rep(p, nc.zoom_of(zoom)),
            nc.zoom_of(zoom),
        ),
        nc.sees(out, -1, zoom, Window::of(x0, y0, x1, y1)),
    ensures
        exists|g: spec_fn(int) -> int|
            #![trigger accounts(nc.net(), nc.slots(), -1, out, g)]
            accounts(nc.net(), nc.slots(), -1, out, g) && 0 <= g(p) < out.len() && out[g(p)] == f,
{
    let w = Window::of(x0, y0, x1, y1);
    let (net, n, z) = (nc.net(), nc.slots(), nc.zoom_of(zoom));
    let q = crate::order::sight(nc.lists(), net, n, -1, z, w);
    nc.law_invariants();
    lemma_accounts(nc, out, q, -1, z, w);
    let g = grouping(net, q, z);
    lemma_at_home(nc, p, -1, z, w);
    assert(q.contains(net.rep(p, z)));
    let i = g(p);
    assert(q[i] == net.rep(p, z));
    assert(net.shows(out[i], n, -1, q[i], z));
    lemma_one_face(nc, f, out[i], -1, q[i], z);
    assert(accounts(net, n, -1, out, g));
}

/// As many numbers below `n` are in a list as it has entries.
proof fn lemma_entries(q: Seq<int>, n: int)
    requires
        q.no_duplicates(),
        forall|i: int| 0 <= i < q.len() ==> 0 <= #[trigger] q[i] < n,
    ensures
        total(
            n,
            |s: int|
                if q.contains(s) {
                    1int
                } else {
                    0
                },
        ) == q.len(),
    decreases q.len(),
{
    let f = |s: int|
        if q.contains(s) {
            1int
        } else {
            0
        };
    if q.len() == 0 {
        crate::sums::lemma_total_zero(n, f);
    } else {
        let r = q.drop_last();
        let x = q.last();
        assert(q[q.len() - 1] == x);
        assert forall|i: int| 0 <= i < r.len() implies 0 <= #[trigger] r[i] < n by {
            assert(r[i] == q[i]);
        }
        lemma_entries(r, n);
        let g = |s: int|
            if r.contains(s) {
                1int
            } else {
                0
            };
        assert(!r.contains(x)) by {
            if r.contains(x) {
                let j = choose|j: int| 0 <= j < r.len() && r[j] == x;
                assert(q[j] == q[q.len() - 1]);
            }
        }
        assert forall|s: int| 0 <= s < n && s != x implies #[trigger] g(s) == f(s) by {
            if q.contains(s) {
                let j = choose|j: int| 0 <= j < q.len() && q[j] == s;
                assert(r[j] == s);
            }
            if r.contains(s) {
                let j = choose|j: int| 0 <= j < r.len() && r[j] == s;
                assert(q[j] == s);
            }
        }
        crate::sums::lemma_total_change(n, g, f, x);
    }
}

/// **The centers of a level are what the world shows at that zoom**: one feature each.
pub proof fn law_levels_shown(nc: NetCluster, out: Seq<Feature>, z: int, x0: int, y0: int, x1: int, y1: int)
    requires
        nc.wf(),
        nc.opts().min_zoom <= z <= nc.opts().max_zoom,
        x0 <= 0 && y0 <= 0 && x1 >= PREC_I && y1 >= PREC_I,
        nc.sees(out, -1, z, Window::of(x0, y0, x1, y1)),
    ensures
        out.len() == nc.net().centers_at(nc.slots(), z),
{
    let w = Window::of(x0, y0, x1, y1);
    let (net, n) = (nc.net(), nc.slots());
    let q = crate::order::sight(nc.lists(), net, n, nc.effective(-1), z, w);
    nc.law_invariants();
    assert(nc.effective(-1) < 0);
    let f = |s: int|
        if q.contains(s) {
            1int
        } else {
            0
        };
    let g = |s: int|
        if net.center(s, z) {
            1int
        } else {
            0
        };
    assert forall|s: int| #[trigger] q.contains(s) implies net.center(s, z) by {
        assert(net.drawn(n, nc.effective(-1), s, z, w));
    }
    assert forall|s: int| 0 <= s < n implies #[trigger] f(s) == g(s) by {
        if net.center(s, z) {
            assert(net.rep(s, z) == s);
            lemma_at_home(nc, s, -1, z, w);
            assert(q.contains(s));
        }
    }
    lemma_total_ext(n, f, g);
    assert forall|i: int| 0 <= i < q.len() implies 0 <= #[trigger] q[i] < n by {
        assert(q.contains(q[i]));
        assert(net.has(q[i]));
    }
    lemma_entries(q, n);
}

} // verus!
