//! Vector tiles.
use super::NetCluster;
use crate::clusters::Window;
use crate::feature::{Feature, TileFeature};
use crate::geometry::{pow_two, two, two_bounds, Options, MILLI, PREC_I};
use crate::laws::law_viewport;
use crate::net::Net;
use vstd::arithmetic::power2::{lemma2_to64, lemma_pow2_adds};
use vstd::prelude::*;

verus! {

/// A world coordinate of 1 or more counts as this one: `0.9999999` of the world.
pub const SEAM: i128 = 1_073_741_717;

/// `a / b` rounded to the nearest integer, halves away from zero.
pub open spec fn nearest_quotient(a: int, b: int) -> int {
    if a >= 0 {
        (2 * a + b) / (2 * b)
    } else {
        -((-2 * a + b) / (2 * b))
    }
}

/// An edge of a tile at zoom `z`: `num / extent` tiles from the edge of the world, cut off there.
pub open spec fn tile_edge(o: Options, z: int, num: int) -> int {
    let v = num * two(30 - z);
    if v < 0 {
        0
    } else if v > PREC_I * o.extent {
        PREC_I as int
    } else {
        nearest_quotient(v, o.extent as int)
    }
}

/// The box of a tile, widened by the cluster radius on every side.
pub open spec fn tile_box(o: Options, z: int, tx: int, ty: int) -> Window {
    Window::of(
        tile_edge(o, z, tx * o.extent - o.radius),
        tile_edge(o, z, ty * o.extent - o.radius),
        tile_edge(o, z, (tx + 1) * o.extent + o.radius),
        tile_edge(o, z, (ty + 1) * o.extent + o.radius),
    )
}

/// The world coordinate of a centroid, in whole units.
pub open spec fn world_unit(sum: int, count: int) -> int {
    if sum >= PREC_I * count {
        SEAM as int
    } else {
        nearest_quotient(sum, count)
    }
}

/// A number cut off to what an `i32` holds.
pub open spec fn narrow(v: int) -> int {
    if v < i32::MIN {
        i32::MIN as int
    } else if v > i32::MAX {
        i32::MAX as int
    } else {
        v
    }
}

/// A world coordinate in the units of tile number `t` at zoom `z`, in whole pixels.
pub open spec fn tile_unit(o: Options, z: int, t: int, w: int) -> int {
    narrow(nearest_quotient((w * two(z) - t * PREC_I) * o.extent, MILLI * PREC_I))
}

/// A feature as a tile shows it.
pub open spec fn on_tile(o: Options, z: int, tx: int, ty: int, f: Feature) -> TileFeature {
    match f {
        Feature::Point { id, x, y } => TileFeature {
            x: tile_unit(o, z, tx, world_unit(x as int, 1)) as i32,
            y: tile_unit(o, z, ty, world_unit(y as int, 1)) as i32,
            count: 1,
            id,
            is_cluster: false,
        },
        Feature::Cluster { cluster_id, count, sx, sy } => TileFeature {
            x: tile_unit(o, z, tx, world_unit(sx as int, count as int)) as i32,
            y: tile_unit(o, z, ty, world_unit(sy as int, count as int)) as i32,
            count,
            id: cluster_id,
            is_cluster: true,
        },
    }
}

/// `out` shows, feature for feature, what is drawn in the box of the tile.
pub open spec fn tile_shows(
    nc: &NetCluster,
    out: Seq<TileFeature>,
    feats: Seq<Feature>,
    z: int,
    tx: int,
    ty: int,
    category: int,
) -> bool {
    &&& nc.sees(feats, category, z, tile_box(nc.opts(), z, tx, ty))
    &&& out.len() == feats.len()
    &&& forall|i: int|
        0 <= i < out.len() ==> #[trigger] out[i] == on_tile(nc.opts(), z, tx, ty, feats[i])
}

/// The box of a tile reaches over its own edges.
proof fn lemma_edges(o: Options, z: int, t: int)
    requires
        o.extent > 0,
        o.radius >= 0,
        0 <= z <= 30,
        0 <= t,
        (t + 1) * two(30 - z) <= PREC_I,
    ensures
        tile_edge(o, z, t * o.extent - o.radius) <= t * two(30 - z),
        (t + 1) * two(30 - z) <= tile_edge(o, z, (t + 1) * o.extent + o.radius),
        t * two(30 - z) <= (t + 1) * two(30 - z),
{
    two_bounds(30 - z);
    let (e, r, w) = (o.extent as int, o.radius as int, two(30 - z));
    let (a, b) = (t * w, (t + 1) * w);
    assert(0 <= a <= b) by (nonlinear_arith)
        requires
            a == t * w,
            b == (t + 1) * w,
            t >= 0,
            w >= 1,
    ;
    let low = (t * e - r) * w;
    assert(low <= a * e) by (nonlinear_arith)
        requires
            low == (t * e - r) * w,
            a == t * w,
            r >= 0,
            w >= 1,
    ;
    let high = ((t + 1) * e + r) * w;
    assert(high >= b * e && b * e >= 0) by (nonlinear_arith)
        requires
            high == ((t + 1) * e + r) * w,
            b == (t + 1) * w,
            r >= 0,
            w >= 1,
            e >= 1,
            b >= 0,
    ;
    if low > PREC_I * e {
        assert(PREC_I <= a) by (nonlinear_arith)
            requires
                PREC_I * e < low,
                low <= a * e,
                e >= 1,
        ;
    } else if low >= 0 {
        assert((2 * low + e) / (2 * e) <= a) by (nonlinear_arith)
            requires
                low <= a * e,
                e >= 1,
        ;
    }
    if high <= PREC_I * e {
        assert((2 * high + e) / (2 * e) >= b) by (nonlinear_arith)
            requires
                high >= b * e,
                e >= 1,
        ;
    }
}

/// **Seams**: a tile shows every cluster of the map whose centroid lies in it, its edges
/// included. So a marker on the seam of two tiles is shown by both rather than clipped.
pub proof fn law_seams(
    net: Net,
    n: int,
    c: int,
    s: int,
    level: int,
    z: int,
    tx: int,
    ty: int,
    w: Window,
)
    requires
        net.ok(),
        net.within_slots(n),
        0 <= n,
        0 <= level <= net.top(),
        w.is_world(),
        net.drawn(n, c, s, level, w),
        0 <= z <= 30,
        0 <= tx < two(z),
        0 <= ty < two(z),
        (Window {
            x0: tx * two(30 - z),
            y0: ty * two(30 - z),
            x1: (tx + 1) * two(30 - z),
            y1: (ty + 1) * two(30 - z),
        }).holds_mean(
            net.tally(n, 0, c, s, level),
            net.tally(n, 1, c, s, level),
            net.tally(n, 2, c, s, level),
        ),
    ensures
        net.drawn(n, c, s, level, tile_box(net.opts, z, tx, ty)),
{
    let b = tile_box(net.opts, z, tx, ty);
    let t = two(30 - z);
    two_bounds(30 - z);
    lemma_pow2_adds(z as nat, (30 - z) as nat);
    lemma2_to64();
    assert((tx + 1) * t <= PREC_I && (ty + 1) * t <= PREC_I) by (nonlinear_arith)
        requires
            two(z) * t == PREC_I,
            tx + 1 <= two(z),
            ty + 1 <= two(z),
            t >= 1,
    ;
    lemma_edges(net.opts, z, tx);
    lemma_edges(net.opts, z, ty);
    let k = net.tally(n, 0, c, s, level);
    let (sx, sy) = (net.tally(n, 1, c, s, level), net.tally(n, 2, c, s, level));
    assert(b.x0 * k <= tx * t * k && b.y0 * k <= ty * t * k && (tx + 1) * t * k <= b.x1 * k && (ty
        + 1) * t * k <= b.y1 * k) by (nonlinear_arith)
        requires
            b.x0 <= tx * t,
            b.y0 <= ty * t,
            (tx + 1) * t <= b.x1,
            (ty + 1) * t <= b.y1,
            k >= 0,
    ;
    law_viewport(net, n, c, s, level, b, w);
}

/// The largest tile number or sum that the arithmetic here is done on.
const WIDE: i128 = 0x3000_0000_0000_0000_0000_0000_0000_0000;

fn round_quotient(a: i128, b: i128) -> (r: i128)
    requires
        0 < b <= 0x1_0000_0000_0000,
        -WIDE <= a <= WIDE,
    ensures
        r == nearest_quotient(a as int, b as int),
{
    if a >= 0 {
        (2 * a + b) / (2 * b)
    } else {
        let m: i128 = 2 * (-a) + b;
        let q: i128 = m / (2 * b);
        proof {
            assert(q >= 0) by (nonlinear_arith)
                requires
                    q == m as int / (2 * b as int),
                    m >= 0,
                    b > 0,
            ;
            assert(q <= m) by (nonlinear_arith)
                requires
                    q == m as int / (2 * b as int),
                    m >= 0,
                    b > 0,
            ;
        }
        -q
    }
}

impl NetCluster {
    fn edge(&self, z: u8, num: i128) -> (e: i32)
        requires
            self.wf(),
            z <= 30,
            -0x1_0000_0000_0000_0000_0000_0000 <= num <= 0x1_0000_0000_0000_0000_0000_0000,
        ensures
            e == tile_edge(self.opts(), z as int, num as int),
            0 <= e <= PREC_I,
    {
        let o = self.geo.opts();
        let side = pow_two(30 - z) as i128;
        proof {
            two_bounds(30 - z);
            assert(-0x1_0000_0000_0000_0000_0000_0000 * 0x4000_0000 <= num * side
                <= 0x1_0000_0000_0000_0000_0000_0000 * 0x4000_0000) by (nonlinear_arith)
                requires
                    -0x1_0000_0000_0000_0000_0000_0000 <= num
                        <= 0x1_0000_0000_0000_0000_0000_0000,
                    1 <= side <= 0x4000_0000,
            ;
        }
        let v: i128 = num * side;
        if v < 0 {
            0
        } else if v > 0x4000_0000 * (o.extent as i128) {
            PREC_I as i32
        } else {
            let e = o.extent as i128;
            let r = round_quotient(v, e);
            proof {
                assert(0 <= r <= PREC_I) by (nonlinear_arith)
                    requires
                        r == (2 * v + e) / (2 * e),
                        0 <= v <= PREC_I * e,
                        e > 0,
                ;
            }
            r as i32
        }
    }

    /// A centroid's coordinate in the units of a tile.
    fn tile_coordinate(&self, z: u8, t: i64, sum: i64, count: i64) -> (p: i32)
        requires
            self.wf(),
            z <= 30,
            0 <= sum <= 0x0200_0000_0000_0000,
            0 < count <= 0x1_0000_0000,
        ensures
            p == tile_unit(self.opts(), z as int, t as int, world_unit(sum as int, count as int)),
    {
        let o = self.geo.opts();
        let w: i128 = if sum as i128 >= (PREC_I as i128) * (count as i128) {
            SEAM
        } else {
            round_quotient(sum as i128, count as i128)
        };
        proof {
            assert(0 <= w <= 0x0400_0000_0000_0000) by {
                if !(sum >= PREC_I * count) {
                    assert(0 <= w <= sum + 1) by (nonlinear_arith)
                        requires
                            w == (2 * sum + count) / (2 * count),
                            sum >= 0,
                            count >= 1,
                    ;
                }
            }
            two_bounds(z as int);
        }
        let side = pow_two(z) as i128;
        proof {
            assert(0 <= w * side <= 0x0400_0000_0000_0000 * 0x4000_0000) by (nonlinear_arith)
                requires
                    0 <= w <= 0x0400_0000_0000_0000,
                    1 <= side <= 0x4000_0000,
            ;
        }
        let d: i128 = w * side - (t as i128) * (PREC_I as i128);
        let e = o.extent as i128;
        proof {
            let m: int = 0x0400_0000_0000_0000int * 0x4000_0000 + 0x8000_0000_0000_0000int * 0x4000_0000;
            assert(-m <= d <= m);
            assert(-(m * 0x1_0000_0000) <= d * e <= m * 0x1_0000_0000) by (nonlinear_arith)
                requires
                    -m <= d <= m,
                    0 <= e <= 0x1_0000_0000,
            ;
        }
        let q = round_quotient(d * e, (MILLI as i128) * (PREC_I as i128));
        if q < i32::MIN as i128 {
            i32::MIN
        } else if q > i32::MAX as i128 {
            i32::MAX
        } else {
            q as i32
        }
    }

    /// Clusters inside vector tile `(z, tx, ty)`, in tile-extent coordinates; none at a zoom that
    /// is not one of 0 to 30.
    ///
    /// The tile is padded by the cluster radius so a marker sitting on the seam is emitted by
    /// both neighbouring tiles rather than clipped.
    pub fn get_tile(&self, z: i32, tx: i64, ty: i64, category: i32) -> (out: Vec<TileFeature>)
        requires
            self.wf(),
        ensures
            !(0 <= z <= 30) ==> out@.len() == 0,
            0 <= z <= 30 ==> exists|feats: Seq<Feature>| #[trigger]
                tile_shows(
                    self,
                    out@,
                    feats,
                    z as int,
                    tx as int,
                    ty as int,
                    category as int,
                ),
    {
        let mut out: Vec<TileFeature> = Vec::new();
        if z < 0 || z > 30 {
            return out;
        }
        let o = self.geo.opts();
        let e = o.extent as i128;
        let r = o.radius as i128;
        let zz = z as u8;
        proof {
            assert(-0x8000_0000_0000_0000 * 0x1_0000_0000 <= tx * e <= 0x8000_0000_0000_0000
                * 0x1_0000_0000 && -0x8000_0000_0000_0000 * 0x1_0000_0000 <= ty * e
                <= 0x8000_0000_0000_0000 * 0x1_0000_0000) by (nonlinear_arith)
                requires
                    -0x8000_0000_0000_0000 <= tx <= 0x7fff_ffff_ffff_ffff,
                    -0x8000_0000_0000_0000 <= ty <= 0x7fff_ffff_ffff_ffff,
                    0 <= e <= 0x1_0000_0000,
            ;
            assert((tx + 1) * e == tx * e + e) by (nonlinear_arith);
            assert((ty + 1) * e == ty * e + e) by (nonlinear_arith);
        }
        let x0 = self.edge(zz, (tx as i128) * e - r);
        let x1 = self.edge(zz, (tx as i128) * e + e + r);
        let y0 = self.edge(zz, (ty as i128) * e - r);
        let y1 = self.edge(zz, (ty as i128) * e + e + r);
        let feats = self.get_clusters_projected(x0, y0, x1, y1, z, category);
        let ghost fs = feats@;
        let ghost opts = self.opts();
        proof {
            self.lemma_pictures(
                fs,
                self.effective(category as int),
                self.zoom_of(z as int),
                Window::of(x0 as int, y0 as int, x1 as int, y1 as int),
            );
        }
        let mut i: usize = 0;
        while i < feats.len()
            invariant
                self.wf(),
                opts == self.opts(),
                fs == feats@,
                zz == z,
                0 <= z <= 30,
                i <= fs.len(),
                out@.len() == i,
                forall|j: int| 0 <= j < fs.len() ==> measured(#[trigger] fs[j]),
                forall|j: int|
                    0 <= j < i ==> #[trigger] out@[j] == on_tile(
                        opts,
                        z as int,
                        tx as int,
                        ty as int,
                        fs[j],
                    ),
            decreases fs.len() - i,
        {
            proof {
                assert(measured(fs[i as int]));
            }
            let t = match feats[i] {
                Feature::Point { id, x, y } => TileFeature {
                    x: self.tile_coordinate(zz, tx, x as i64, 1),
                    y: self.tile_coordinate(zz, ty, y as i64, 1),
                    count: 1,
                    id,
                    is_cluster: false,
                },
                Feature::Cluster { cluster_id, count, sx, sy } => TileFeature {
                    x: self.tile_coordinate(zz, tx, sx, count as i64),
                    y: self.tile_coordinate(zz, ty, sy, count as i64),
                    count,
                    id: cluster_id,
                    is_cluster: true,
                },
            };
            out.push(t);
            i = i + 1;
        }
        proof {
            assert(Window::of(x0 as int, y0 as int, x1 as int, y1 as int) == tile_box(
                opts,
                z as int,
                tx as int,
                ty as int,
            ));
            assert(tile_shows(
                self,
                out@,
                fs,
                z as int,
                tx as int,
                ty as int,
                category as int,
            ));
        }
        out
    }

    /// The numbers of a feature are those of points of the world.
    proof fn lemma_pictures(&self, out: Seq<Feature>, c: int, z: int, b: Window)
        requires
            self.wf(),
            0 <= z <= self.opts().max_zoom,
            exists|q: Seq<int>| #[trigger] self.net().picture(out, q, self.slots(), c, z, b),
        ensures
            forall|i: int| 0 <= i < out.len() ==> measured(#[trigger] out[i]),
    {
        self.law_invariants();
        let net = self.net();
        let n = self.slots();
        let q = choose|q: Seq<int>| #[trigger] net.picture(out, q, n, c, z, b);
        assert forall|i: int| 0 <= i < out.len() implies measured(#[trigger] out[i]) by {
            let s = q[i];
            assert(q.contains(s));
            assert(net.shows(out[i], n, c, s, z));
            crate::laws::lemma_world_mean(net, n, c, s, z);
            crate::laws::lemma_tally_bound(net, n, c, s, z);
            let k = net.tally(n, 0, c, s, z);
            assert(net.drawn(n, c, s, z, b));
            if k == 1 {
                let m = choose|m: int| #[trigger]
                    net.member(m, s, z, c) && out[i] == (Feature::Point {
                        id: net.pts[m].id,
                        x: net.pts[m].x as i32,
                        y: net.pts[m].y as i32,
                    });
                assert(net.has(m));
                assert(net.sound_point(m));
            }
        }
    }
}

/// A feature whose numbers are those of points of the world.
pub open spec fn measured(f: Feature) -> bool {
    match f {
        Feature::Point { id, x, y } => 0 <= x <= PREC_I && 0 <= y <= PREC_I,
        Feature::Cluster { cluster_id, count, sx, sy } => {
            &&& 0 < count
            &&& 0 <= sx <= 0x0200_0000_0000_0000
            &&& 0 <= sy <= 0x0200_0000_0000_0000
        },
    }
}

} // verus!
