//! What a caller can rely on of a tile, told by where features lie in the world.
use super::promises::{in_box, law_box_view};
use super::tile::{nearest_quotient, on_tile, tile_edge, tile_shows, tile_unit, world_unit};
use super::NetCluster;
use crate::clusters::Window;
use crate::feature::{Feature, TileFeature};
use crate::geometry::{two, Options, MILLI, PREC_I};
use vstd::prelude::*;

verus! {

/// `e` is as near to `a / b` as a whole number can be.
pub open spec fn is_nearest(e: int, a: int, b: int) -> bool {
    -b <= 2 * (e * b - a) <= b
}

proof fn lemma_nearest(a: int, b: int)
    requires
        b > 0,
    ensures
        is_nearest(nearest_quotient(a, b), a, b),
        a >= 0 ==> nearest_quotient(a, b) >= 0,
{
    let v = if a >= 0 {
        a
    } else {
        -a
    };
    let n = 2 * v + b;
    let q = n / (2 * b);
    vstd::arithmetic::div_mod::lemma_fundamental_div_mod(n, 2 * b);
    let r = n % (2 * b);
    assert(0 <= r < 2 * b) by {
        vstd::arithmetic::div_mod::lemma_mod_bound(n, 2 * b);
    }
    assert(2 * b * q == 2 * (q * b)) by (nonlinear_arith);
    assert(2 * (q * b - v) == b - r);
    if a < 0 {
        assert(-2 * a + b == n);
        assert((-q) * b == -(q * b)) by (nonlinear_arith);
    }
    vstd::arithmetic::div_mod::lemma_div_pos_is_pos(n, 2 * b);
}

/// The edge of a tile in the world, padded by the radius: the whole number nearest to
/// `v / extent`, cut off at the edges of the world.
pub open spec fn is_edge(o: Options, v: int, e: int) -> bool {
    if v < 0 {
        e == 0
    } else if v > PREC_I * o.extent {
        e == PREC_I
    } else {
        is_nearest(e, v, o.extent as int)
    }
}

proof fn lemma_edge(o: Options, z: int, num: int)
    requires
        o.extent > 0,
    ensures
        is_edge(o, num * two(30 - z), tile_edge(o, z, num)),
        tile_edge(o, z, num) >= 0,
{
    lemma_nearest(num * two(30 - z), o.extent as int);
}

proof fn lemma_edges_in_order(o: Options, z: int, a: int, b: int)
    requires
        o.extent > 0,
        a <= b,
        0 <= z <= 30,
    ensures
        tile_edge(o, z, a) <= tile_edge(o, z, b),
{
    let (t, e) = (two(30 - z), o.extent as int);
    crate::geometry::two_bounds(30 - z);
    let (v, w) = (a * t, b * t);
    assert(v <= w) by (nonlinear_arith)
        requires
            a <= b,
            t > 0,
            v == a * t,
            w == b * t,
    ;
    if 0 <= v && w <= PREC_I * e {
        vstd::arithmetic::div_mod::lemma_div_is_ordered(2 * v + e, 2 * w + e, 2 * e);
    } else if 0 <= v <= PREC_I * e {
        let q = tile_edge(o, z, a);
        lemma_edge(o, z, a);
        assert(q <= PREC_I) by (nonlinear_arith)
            requires
                e > 0,
                2 * (q * e - v) <= e,
                v <= PREC_I * e,
        ;
    } else {
        lemma_edge(o, z, b);
    }
}

/// **A tile shows what lies in it**: what the world shows at that zoom, as far as its place lies in
/// the tile or within a radius of it, on both axes; nothing else, and nothing is left out.
pub proof fn law_tile_view(
    nc: NetCluster,
    out: Seq<TileFeature>,
    feats: Seq<Feature>,
    all: Seq<Feature>,
    z: int,
    tx: int,
    ty: int,
    category: int,
    f: Feature,
) -> (b: (int, int, int, int))
    requires
        nc.wf(),
        0 <= z <= 30,
        tile_shows(&nc, out, feats, z, tx, ty, category),
        nc.sees(all, category, z, Window::of(0, 0, PREC_I as int, PREC_I as int)),
    ensures
        ({
            let o = nc.opts();
            let side = two(30 - z);
            &&& is_edge(o, (tx * o.extent - o.radius) * side, b.0)
            &&& is_edge(o, (ty * o.extent - o.radius) * side, b.1)
            &&& is_edge(o, ((tx + 1) * o.extent + o.radius) * side, b.2)
            &&& is_edge(o, ((ty + 1) * o.extent + o.radius) * side, b.3)
            &&& feats.contains(f) <==> all.contains(f) && in_box(f, b.0, b.1, b.2, b.3)
        }),
{
    nc.law_invariants();
    let o = nc.opts();
    let (a, b, c, d) = (
        tx * o.extent - o.radius,
        ty * o.extent - o.radius,
        (tx + 1) * o.extent + o.radius,
        (ty + 1) * o.extent + o.radius,
    );
    assert((tx + 1) * o.extent == tx * o.extent + o.extent) by (nonlinear_arith);
    assert((ty + 1) * o.extent == ty * o.extent + o.extent) by (nonlinear_arith);
    lemma_edge(o, z, a);
    lemma_edge(o, z, b);
    lemma_edge(o, z, c);
    lemma_edge(o, z, d);
    lemma_edges_in_order(o, z, a, c);
    lemma_edges_in_order(o, z, b, d);
    let (x0, y0, x1, y1) = (
        tile_edge(o, z, a),
        tile_edge(o, z, b),
        tile_edge(o, z, c),
        tile_edge(o, z, d),
    );
    law_box_view(nc, feats, all, category, z, x0, y0, x1, y1, f);
    (x0, y0, x1, y1)
}

/// The place of a feature on one axis: a sum of coordinates, to be divided by a count.
pub open spec fn place_x(f: Feature) -> (int, int) {
    match f {
        Feature::Point { id, x, y } => (x as int, 1),
        Feature::Cluster { cluster_id, count, sx, sy } => (sx as int, count as int),
    }
}

pub open spec fn place_y(f: Feature) -> (int, int) {
    match f {
        Feature::Point { id, x, y } => (y as int, 1),
        Feature::Cluster { cluster_id, count, sx, sy } => (sy as int, count as int),
    }
}

/// `w` is the unit of the world nearest to `sum / count`; just short of the edge for what lies on
/// it.
pub open spec fn is_unit(w: int, sum: int, count: int) -> bool {
    if sum >= PREC_I * count {
        w < PREC_I && PREC_I - w < 108
    } else {
        is_nearest(w, sum, count)
    }
}

/// `p` is the pixel of tile `t` at zoom `z` nearest to unit `w` of the world, unless it is further
/// off than a pixel can say. The extent is in thousandths of a pixel.
pub open spec fn is_pixel(o: Options, z: int, t: int, w: int, p: int) -> bool {
    i32::MIN < p < i32::MAX ==> is_nearest(p, (w * two(z) - t * PREC_I) * o.extent, 1000 * PREC_I)
}

proof fn lemma_unit(sum: int, count: int)
    requires
        count > 0,
    ensures
        is_unit(world_unit(sum, count), sum, count),
{
    lemma_nearest(sum, count);
}

proof fn lemma_pixel(o: Options, z: int, t: int, w: int)
    ensures
        i32::MIN <= tile_unit(o, z, t, w) <= i32::MAX,
        is_pixel(o, z, t, w, tile_unit(o, z, t, w)),
{
    lemma_nearest((w * two(z) - t * PREC_I) * o.extent, MILLI * PREC_I);
}

/// **Features of a tile stand at their place in it**, along each axis: the pixel nearest to where
/// the feature lies in the world, counted from the corner of the tile; and each keeps its id and
/// its count.
pub proof fn law_tile_places(
    nc: NetCluster,
    out: Seq<TileFeature>,
    feats: Seq<Feature>,
    z: int,
    tx: int,
    ty: int,
    category: int,
    i: int,
) -> (w: (int, int))
    requires
        nc.wf(),
        0 <= z <= 30,
        tile_shows(&nc, out, feats, z, tx, ty, category),
        0 <= i < out.len(),
        feats[i] matches Feature::Cluster { count, .. } ==> count > 0,
    ensures
        out.len() == feats.len(),
        is_unit(w.0, place_x(feats[i]).0, place_x(feats[i]).1),
        is_unit(w.1, place_y(feats[i]).0, place_y(feats[i]).1),
        is_pixel(nc.opts(), z, tx, w.0, out[i].x as int),
        is_pixel(nc.opts(), z, ty, w.1, out[i].y as int),
        match feats[i] {
            Feature::Point { id, x, y } => out[i].id == id && out[i].count == 1
                && !out[i].is_cluster,
            Feature::Cluster { cluster_id, count, sx, sy } => out[i].id == cluster_id && out[i].count
                == count && out[i].is_cluster,
        },
{
    let (a, n) = place_x(feats[i]);
    let (b, m) = place_y(feats[i]);
    lemma_unit(a, n);
    lemma_unit(b, m);
    let (u, v) = (world_unit(a, n), world_unit(b, m));
    lemma_pixel(nc.opts(), z, tx, u);
    lemma_pixel(nc.opts(), z, ty, v);
    assert(out[i] == on_tile(nc.opts(), z, tx, ty, feats[i]));
    (u, v)
}

} // verus!
