//! The guarantees that hold at every level at every moment.
use crate::clusters::{law_partition, lemma_rep, lemma_tally, Window};
use crate::feature::Feature;
use crate::geometry::{dist2, lemma_slack_axis, lemma_sq_le, lemma_sq_mul, sq, two, two_bounds,
    MILLI};
use crate::net::{
    law_remove_keeps_invariants, lemma_dropped, lemma_finest, lemma_heirs_exist, lemma_nearest_exists,
    lemma_rehome_one, Net, Point,
};
use crate::sums::{lemma_total_ext, lemma_total_le, lemma_total_scale, sum_over, total};
use vstd::arithmetic::power2::{lemma_pow2_adds, lemma_pow2_pos};
use vstd::prelude::*;

verus! {

/// The triangle inequality, by squares.
proof fn lemma_triangle(ux: int, uy: int, vx: int, vy: int, a: int, b: int)
    requires
        0 <= a,
        0 <= b,
        sq(ux) + sq(uy) <= sq(a),
        sq(vx) + sq(vy) <= sq(b),
    ensures
        sq(ux + vx) + sq(uy + vy) <= sq(a + b),
{
    let dot = ux * vx + uy * vy;
    let u2 = sq(ux) + sq(uy);
    let v2 = sq(vx) + sq(vy);
    let cross = ux * vy - uy * vx;
    assert(sq(dot) + sq(cross) == u2 * v2) by {
        let (p, q, r, t) = (ux * vx, uy * vy, ux * vy, uy * vx);
        assert(p * q == r * t) by (nonlinear_arith)
            requires
                p == ux * vx,
                q == uy * vy,
                r == ux * vy,
                t == uy * vx,
        ;
        assert((p + q) * (p + q) == p * p + q * q + 2 * (p * q)) by (nonlinear_arith);
        assert((r - t) * (r - t) == r * r + t * t - 2 * (r * t)) by (nonlinear_arith);
        lemma_sq_mul(ux, vx);
        lemma_sq_mul(uy, vy);
        lemma_sq_mul(ux, vy);
        lemma_sq_mul(uy, vx);
        let (a2, b2, c2, d2) = (sq(ux), sq(uy), sq(vx), sq(vy));
        assert((a2 + b2) * (c2 + d2) == a2 * c2 + a2 * d2 + b2 * c2 + b2 * d2) by (nonlinear_arith);
    }
    assert(sq(cross) >= 0) by (nonlinear_arith)
        requires
            sq(cross) == cross * cross,
    ;
    assert(u2 >= 0 && v2 >= 0) by (nonlinear_arith)
        requires
            u2 == ux * ux + uy * uy,
            v2 == vx * vx + vy * vy,
    ;
    assert(u2 * v2 <= sq(a) * sq(b)) by (nonlinear_arith)
        requires
            0 <= u2 <= sq(a),
            0 <= v2 <= sq(b),
    ;
    lemma_sq_mul(a, b);
    assert(a * b >= 0) by (nonlinear_arith)
        requires
            a >= 0,
            b >= 0,
    ;
    assert(dot <= a * b) by {
        if dot > a * b {
            let ab = a * b;
            assert(dot * dot > ab * ab) by (nonlinear_arith)
                requires
                    dot > ab,
                    ab >= 0,
            ;
        }
    }
    assert(sq(ux + vx) + sq(uy + vy) == u2 + v2 + 2 * dot) by (nonlinear_arith)
        requires
            dot == ux * vx + uy * vy,
            u2 == ux * ux + uy * uy,
            v2 == vx * vx + vy * vy,
            sq(ux + vx) == (ux + vx) * (ux + vx),
            sq(uy + vy) == (uy + vy) * (uy + vy),
    ;
    assert(sq(a + b) == sq(a) + sq(b) + 2 * (a * b)) by (nonlinear_arith)
        requires
            sq(a + b) == (a + b) * (a + b),
            sq(a) == a * a,
            sq(b) == b * b,
    ;
}

/// A squared distance scaled by a square.
proof fn lemma_scaled(dx: int, dy: int, k: int)
    ensures
        (sq(dx) + sq(dy)) * sq(k) == sq(dx * k) + sq(dy * k),
{
    assert((dx * dx + dy * dy) * (k * k) == (dx * k) * (dx * k) + (dy * k) * (dy * k))
        by (nonlinear_arith);
}

/// A position given as fractions `cx / k`, `cy / k` is within half a radius of level `z` of point
/// `s`.
pub open spec fn in_half_ball(net: Net, s: int, z: int, k: int, cx: int, cy: int) -> bool {
    dist2(k * net.pts[s].x, k * net.pts[s].y, cx, cy) * sq(2 * (net.opts.extent * two(z))) <= sq(
        net.opts.span() * k,
    )
}

/// **Count**: no ball of half a radius, wherever its middle, holds two centers of a level; so no
/// clustering by balls of half the radius has fewer clusters than a level has centers.
pub proof fn law_one_center_per_ball(
    net: Net,
    s: int,
    t: int,
    z: int,
    k: int,
    cx: int,
    cy: int,
)
    requires
        net.ok(),
        0 <= z <= net.top(),
        net.center(s, z),
        net.center(t, z),
        0 < k,
        in_half_ball(net, s, z, k, cx, cy),
        in_half_ball(net, t, z, k, cx, cy),
    ensures
        s == t,
{
    if s != t {
        let (p, q) = (net.pts[s], net.pts[t]);
        let kk = net.opts.extent * two(z);
        let r = net.opts.span();
        let (ux, uy) = (k * p.x - cx, k * p.y - cy);
        let (vx, vy) = (cx - k * q.x, cy - k * q.y);
        let h = 2 * kk;
        assert(sq(vx) == sq(k * q.x - cx)) by (nonlinear_arith)
            requires
                vx == cx - k * q.x,
                sq(vx) == vx * vx,
                sq(k * q.x - cx) == (k * q.x - cx) * (k * q.x - cx),
        ;
        assert(sq(vy) == sq(k * q.y - cy)) by (nonlinear_arith)
            requires
                vy == cy - k * q.y,
                sq(vy) == vy * vy,
                sq(k * q.y - cy) == (k * q.y - cy) * (k * q.y - cy),
        ;
        lemma_scaled(ux, uy, h);
        lemma_scaled(vx, vy, h);
        assert(r * k >= 0) by (nonlinear_arith)
            requires
                r >= 0,
                k >= 0,
        ;
        lemma_triangle(ux * h, uy * h, vx * h, vy * h, r * k, r * k);
        let (dx, dy) = (p.x - q.x, p.y - q.y);
        assert(ux * h + vx * h == (dx * kk) * (2 * k)) by (nonlinear_arith)
            requires
                ux == k * p.x - cx,
                vx == cx - k * q.x,
                dx == p.x - q.x,
                h == 2 * kk,
        ;
        assert(uy * h + vy * h == (dy * kk) * (2 * k)) by (nonlinear_arith)
            requires
                uy == k * p.y - cy,
                vy == cy - k * q.y,
                dy == p.y - q.y,
                h == 2 * kk,
        ;
        let (ax, ay) = (dx * kk, dy * kk);
        let m = 2 * k;
        assert(r * k + r * k == r * m) by (nonlinear_arith)
            requires
                m == 2 * k,
        ;
        lemma_scaled(ax, ay, m);
        lemma_sq_mul(r, m);
        assert(sq(m) > 0) by (nonlinear_arith)
            requires
                sq(m) == m * m,
                m > 0,
        ;
        assert(sq(ax) + sq(ay) <= sq(r)) by (nonlinear_arith)
            requires
                (sq(ax) + sq(ay)) * sq(m) <= sq(r) * sq(m),
                sq(m) > 0,
        ;
        lemma_scaled(dx, dy, kk);
        assert(net.has(s) && net.has(t));
        assert(net.separated(s, t));
        assert(!net.opts.near(z, net.far(s, q.x, q.y)));
    }
}

/// The length of a path that starts at `p` and ends at its representative of level `z`.
proof fn lemma_path_length(net: Net, p: int, z: int)
    requires
        net.ok(),
        net.has(p),
        0 <= z < net.pts[p].level,
    ensures
        net.far(net.rep(p, z), net.pts[p].x, net.pts[p].y) * sq(
            net.opts.extent * MILLI * two(net.pts[p].level - 1),
        ) <= sq((net.opts.span() * (MILLI + net.opts.hysteresis)) * (two(net.pts[p].level - z) - 1)),
    decreases net.pts[p].level,
{
    assert(net.sound_point(p) && net.covering(p));
    let q = net.pts[p].parent->0;
    assert(net.has(q));
    assert(net.sound_point(q));
    let (lp, lq) = (net.pts[p].level, net.pts[q].level);
    let o = net.opts;
    let e = o.extent * MILLI;
    let r = o.span() * (MILLI + o.hysteresis);
    let c = net.rep(p, z);
    assert(c == net.rep(q, z));
    let (px, py) = (net.pts[p].x, net.pts[p].y);
    let (qx, qy) = (net.pts[q].x, net.pts[q].y);
    let (cx, cy) = (net.pts[c].x, net.pts[c].y);
    let k = e * two(lp - 1);
    assert(r >= 0) by (nonlinear_arith)
        requires
            r == o.span() * (MILLI + o.hysteresis),
            o.span() >= 0,
    ;
    let (ux, uy) = (qx - px, qy - py);
    let (vx, vy) = (cx - qx, cy - qy);
    lemma_scaled(ux, uy, k);
    let steps = two(lp - z) - 1;
    lemma_pow2_pos((lp - z) as nat);
    assert(steps >= 1) by {
        two_bounds(lp - z);
        lemma_two_up(0, lp - z);
    }
    if lq <= z {
        assert(c == q);
        assert(sq(r) <= sq(r * steps)) by {
            assert(r <= r * steps) by (nonlinear_arith)
                requires
                    r >= 0,
                    steps >= 1,
            ;
            lemma_sq_le(r, r * steps);
        }
    } else {
        lemma_path_length(net, q, z);
        let kq = e * two(lq - 1);
        let m = two(lp - lq);
        let sq_steps = two(lq - z) - 1;
        lemma_two_up(lq - 1, lp - lq);
        lemma_two_up(lq - z, lp - lq);
        assert(k == kq * m) by (nonlinear_arith)
            requires
                k == e * two(lp - 1),
                kq == e * two(lq - 1),
                two(lp - 1) == two(lq - 1) * m,
        ;
        lemma_scaled(vx, vy, kq);
        let (wx, wy) = (vx * kq, vy * kq);
        lemma_scaled(wx, wy, m);
        let b = r * sq_steps;
        assert(sq_steps >= 0) by {
            lemma_two_up(0, lq - z);
        }
        assert(b >= 0) by (nonlinear_arith)
            requires
                b == r * sq_steps,
                r >= 0,
                sq_steps >= 0,
        ;
        assert(m >= 2) by {
            lemma_two_up(1, lp - lq - 1);
            lemma_two_up(0, 1);
            lemma_pow2_pos((lp - lq - 1) as nat);
            two_bounds(0);
        }
        lemma_sq_mul(b, m);
        assert((sq(wx) + sq(wy)) * sq(m) <= sq(b) * sq(m)) by (nonlinear_arith)
            requires
                sq(wx) + sq(wy) <= sq(b),
                sq(m) >= 0,
        ;
        assert(wx * m == vx * k) by (nonlinear_arith)
            requires
                wx == vx * kq,
                k == kq * m,
        ;
        assert(wy * m == vy * k) by (nonlinear_arith)
            requires
                wy == vy * kq,
                k == kq * m,
        ;
        assert(b * m >= 0) by (nonlinear_arith)
            requires
                b >= 0,
                m >= 0,
        ;
        lemma_triangle(ux * k, uy * k, vx * k, vy * k, r, b * m);
        assert(r + b * m <= r * steps) by (nonlinear_arith)
            requires
                b == r * sq_steps,
                sq_steps == two(lq - z) - 1,
                two(lp - z) == two(lq - z) * m,
                steps == two(lp - z) - 1,
                m >= 2,
                r >= 0,
        ;
        lemma_sq_le(r + b * m, r * steps);
        assert(ux * k + vx * k == (cx - px) * k) by (nonlinear_arith)
            requires
                ux == qx - px,
                vx == cx - qx,
        ;
        assert(uy * k + vy * k == (cy - py) * k) by (nonlinear_arith)
            requires
                uy == qy - py,
                vy == cy - qy,
        ;
        lemma_scaled(cx - px, cy - py, k);
    }
}

/// Powers of two multiply.
proof fn lemma_two_up(a: int, b: int)
    requires
        0 <= a,
        0 <= b,
    ensures
        two(a + b) == two(a) * two(b),
        two(a) >= 1,
        two(b) >= 1,
        b >= 1 ==> two(b) >= 2,
        two(1) == 2,
{
    lemma_pow2_adds(a as nat, b as nat);
    assert((a as nat + b as nat) as nat == (a + b) as nat);
    lemma_pow2_pos(a as nat);
    lemma_pow2_pos(b as nat);
    vstd::arithmetic::power2::lemma2_to64();
    if b >= 1 {
        vstd::arithmetic::power2::lemma_pow2_unfold(b as nat);
        lemma_pow2_pos((b - 1) as nat);
    }
}

/// **Radius**: a point lies within twice the stretched radius of level `z` of the center that
/// stands for it there; with no slack, within twice the radius.
pub proof fn law_cluster_radius(net: Net, p: int, z: int)
    requires
        net.ok(),
        net.has(p),
        0 <= z <= net.top(),
    ensures
        net.far(net.rep(p, z), net.pts[p].x, net.pts[p].y) * sq(net.opts.extent * MILLI * two(z))
            <= sq(2 * (net.opts.span() * (MILLI + net.opts.hysteresis))),
{
    let o = net.opts;
    let e = o.extent * MILLI;
    let r = o.span() * (MILLI + o.hysteresis);
    let c = net.rep(p, z);
    let l = net.pts[p].level;
    let d2 = net.far(c, net.pts[p].x, net.pts[p].y);
    if l <= z {
        assert(c == p);
        assert(d2 == 0) by (nonlinear_arith)
            requires
                d2 == 0 * 0 + 0 * 0,
        ;
        let kz = sq(e * two(z));
        assert(d2 * kz == 0) by (nonlinear_arith)
            requires
                d2 == 0,
        ;
        assert(sq(2 * r) >= 0) by (nonlinear_arith)
            requires
                sq(2 * r) == (2 * r) * (2 * r),
        ;
    } else {
        lemma_path_length(net, p, z);
        let m = two(l - 1 - z);
        lemma_two_up(z, l - 1 - z);
        lemma_two_up(1, l - 1 - z);
        let k = e * two(z);
        assert(e * two(l - 1) == k * m) by (nonlinear_arith)
            requires
                k == e * two(z),
                two(l - 1) == two(z) * m,
        ;
        let steps = two(l - z) - 1;
        assert(two(l - z) == 2 * m);
        assert(r >= 0) by (nonlinear_arith)
            requires
                r == o.span() * (MILLI + o.hysteresis),
                o.span() >= 0,
        ;
        assert(0 <= r * steps <= (2 * r) * m) by (nonlinear_arith)
            requires
                r >= 0,
                steps == 2 * m - 1,
                m >= 1,
        ;
        lemma_sq_le(r * steps, (2 * r) * m);
        lemma_sq_mul(k, m);
        lemma_sq_mul(2 * r, m);
        let (k2, m2, rr2) = (sq(k), sq(m), sq(2 * r));
        assert(d2 * (k2 * m2) <= rr2 * m2);
        assert(m2 >= 1) by (nonlinear_arith)
            requires
                m2 == m * m,
                m >= 1,
        ;
        assert(d2 * k2 <= rr2) by (nonlinear_arith)
            requires
                d2 * (k2 * m2) <= rr2 * m2,
                m2 >= 1,
        ;
    }
}

/// Every point lies within the plain radius of its parent: no assignment lives off the slack.
pub open spec fn tight(net: Net) -> bool {
    forall|s: int| #[trigger] net.has(s) ==> tight_at(net, s)
}

pub open spec fn tight_at(net: Net, s: int) -> bool {
    match net.pts[s].parent {
        Some(q) => net.opts.near(net.pts[s].level - 1, net.far(q, net.pts[s].x, net.pts[s].y)),
        None => true,
    }
}

/// Without slack, every net is tight.
pub proof fn law_tight_without_slack(net: Net)
    requires
        net.ok(),
        net.opts.hysteresis == 0,
    ensures
        tight(net),
{
    assert forall|s: int| #[trigger] net.has(s) implies tight_at(net, s) by {
        assert(net.covering(s));
        if let Some(q) = net.pts[s].parent {
            let z = net.pts[s].level - 1;
            let d2 = net.far(q, net.pts[s].x, net.pts[s].y);
            let k = net.opts.extent * two(z);
            let r = net.opts.span();
            assert(net.opts.extent * MILLI * two(z) == k * 1000) by (nonlinear_arith)
                requires
                    k == net.opts.extent * two(z),
                    MILLI == 1000,
            ;
            lemma_sq_mul(k, 1000);
            lemma_sq_mul(r, 1000);
            let (k2, r2) = (sq(k), sq(r));
            assert(sq(1000) == 1_000_000);
            assert(d2 * (k2 * 1_000_000) <= r2 * 1_000_000);
            assert(d2 * k2 <= r2) by (nonlinear_arith)
                requires
                    d2 * (k2 * 1_000_000) <= r2 * 1_000_000,
            ;
        }
    }
}

/// Inserting keeps a net tight.
pub proof fn law_insert_keeps_tight(net: Net, s: int, p: Point)
    requires
        net.ok(),
        net.pts.dom().finite(),
        tight(net),
        !net.has(s),
    ensures
        tight(net.place(s, p)),
{
    assert forall|t: int| #[trigger] net.has(t) implies net.pts[t].parent != Some(s) by {
        assert(net.covering(t));
    }
    lemma_place_tight(net, s, p);
}

/// Putting a point where it belongs puts it within the plain radius of its parent.
proof fn lemma_place_tight(net: Net, s: int, p: Point)
    requires
        net.ids_differ(),
        net.pts.dom().finite(),
        !net.has(s),
        forall|t: int| #[trigger]
            net.has(t) ==> tight_at(net, t) || net.pts[t].parent == Some(s),
        forall|t: int| #[trigger]
            net.has(t) && net.pts[t].parent == Some(s) ==> net.opts.near(
                net.pts[t].level - 1,
                dist2(p.x, p.y, net.pts[t].x, net.pts[t].y),
            ),
    ensures
        tight(net.place(s, p)),
{
    let m = net.place(s, p);
    let z = net.finest(net.top(), p.x, p.y);
    lemma_finest(net, net.top(), p.x, p.y);
    assert forall|t: int| #[trigger] m.has(t) implies tight_at(m, t) by {
        if t == s {
            if z >= 0 {
                lemma_nearest_exists(net, z, p.x, p.y);
                assert(net.covers(net.nearest(z, p.x, p.y), z, p.x, p.y));
            }
        } else {
            assert(net.has(t));
        }
    }
}

/// Points that do not hang from `gone` are within the plain radius of their parents, and so are
/// those that do, of where it was.
spec fn tight_but(net: Net, gone: int, x: int, y: int) -> bool {
    forall|t: int| #[trigger]
        net.has(t) ==> if net.pts[t].parent == Some(gone) {
            net.opts.near(net.pts[t].level - 1, dist2(x, y, net.pts[t].x, net.pts[t].y))
        } else {
            tight_at(net, t)
        }
}

proof fn lemma_rehome_tight(net: Net, q: Seq<int>, gone: int, x: int, y: int)
    requires
        net.ok_but(gone),
        net.pts.dom().finite(),
        !net.has(gone),
        q.no_duplicates(),
        forall|i: int| 0 <= i < q.len() ==> net.has(#[trigger] q[i]),
        tight_but(net, gone, x, y),
    ensures
        tight_but(net.rehome(q), gone, x, y),
        net.rehome(q).ok_but(gone),
        net.rehome(q).pts.dom() == net.pts.dom(),
    decreases q.len(),
{
    if q.len() > 0 {
        let r = q.drop_last();
        let c = q.last();
        assert forall|i: int| 0 <= i < r.len() implies net.has(#[trigger] r[i]) by {
            assert(r[i] == q[i]);
        }
        lemma_rehome_tight(net, r, gone, x, y);
        let b = net.rehome(r);
        assert(net.has(q[q.len() - 1]));
        assert(b.pts.dom().contains(c));
        assert(!b.pts.dom().contains(gone));
        lemma_rehome_one(b, c, gone);
        let less = b.drop_point(c);
        let p = b.pts[c];
        let m = less.place(c, p);
        let z = less.finest(less.top(), p.x, p.y);
        lemma_finest(less, less.top(), p.x, p.y);
        assert(less.ids_differ()) by {
            assert forall|s: int, t: int|
                #![trigger less.pts[s].id, less.pts[t].id]
                less.has(s) && less.has(t) && less.pts[s].id == less.pts[t].id implies s == t by {
                assert(b.pts[s].id == b.pts[t].id);
            }
        }
        assert forall|t: int| #[trigger] m.has(t) implies if m.pts[t].parent == Some(gone) {
            m.opts.near(m.pts[t].level - 1, dist2(x, y, m.pts[t].x, m.pts[t].y))
        } else {
            tight_at(m, t)
        } by {
            if t == c {
                if z >= 0 {
                    lemma_nearest_exists(less, z, p.x, p.y);
                    let w = less.nearest(z, p.x, p.y);
                    assert(less.covers(w, z, p.x, p.y));
                    assert(m.pts[w] == less.pts[w]);
                }
            } else {
                assert(b.has(t));
                assert(m.pts[t] == b.pts[t]);
                if let Some(w) = b.pts[t].parent {
                    if w != gone {
                        assert(b.covering(t));
                        assert(b.has(w));
                        if w == c {
                            assert(m.pts[c].x == b.pts[c].x && m.pts[c].y == b.pts[c].y);
                        } else {
                            assert(m.pts[w] == b.pts[w]);
                        }
                    }
                }
            }
        }
    }
}

/// Removing keeps a net tight.
pub proof fn law_remove_keeps_tight(net: Net, s: int)
    requires
        net.ok(),
        net.pts.dom().finite(),
        net.has(s),
        tight(net),
    ensures
        tight(net.unlinked(s)),
{
    let base = net.drop_point(s);
    let q = net.heirs_of(s);
    let (x, y) = (net.pts[s].x, net.pts[s].y);
    lemma_dropped(net, s);
    lemma_heirs_exist(net, s);
    assert forall|i: int| 0 <= i < q.len() implies base.has(#[trigger] q[i]) by {
        assert(q.contains(q[i]));
        assert(net.child(q[i], s));
        assert(net.covering(q[i]));
    }
    assert forall|t: int| #[trigger] base.has(t) implies if base.pts[t].parent == Some(s) {
        base.opts.near(base.pts[t].level - 1, dist2(x, y, base.pts[t].x, base.pts[t].y))
    } else {
        tight_at(base, t)
    } by {
        assert(net.has(t));
        assert(tight_at(net, t));
        assert(net.covering(t));
    }
    lemma_rehome_tight(base, q, s, x, y);
    law_remove_keeps_invariants(net, s);
    let m = net.unlinked(s);
    assert forall|t: int| #[trigger] m.has(t) implies tight_at(m, t) by {
        assert(m.covering(t));
        assert(!m.pts.dom().contains(s));
    }
}

/// A move that rebuilds keeps a net tight.
pub proof fn law_rebuilding_move_keeps_tight(net: Net, s: int, x: int, y: int)
    requires
        net.ok(),
        net.pts.dom().finite(),
        net.has(s),
        tight(net),
        !net.may_slide(s, x, y),
    ensures
        tight(net.moved(s, x, y)),
{
    if !(net.pts[s].x == x && net.pts[s].y == y) {
        let base = net.unlinked(s);
        law_remove_keeps_tight(net, s);
        law_remove_keeps_invariants(net, s);
        assert(base.pts.dom() =~= net.pts.dom().remove(s));
        law_insert_keeps_tight(base, s, (Point { x, y, ..net.pts[s] }));
    }
}

/// Along an axis, a point is within the sum of the stretched radii between it and an ancestor.
proof fn lemma_axis_path(net: Net, c: int, p: int)
    requires
        net.ok(),
        net.has(p),
        net.under(c, p),
        c != p,
    ensures
        net.has(c),
        net.pts[c].level < net.pts[p].level,
        ({
            let k = net.opts.extent * MILLI * two(net.pts[p].level - 1);
            let b = net.opts.slack_span() * (two(net.pts[p].level - net.pts[c].level) - 1);
            &&& -b <= (net.pts[p].x - net.pts[c].x) * k <= b
            &&& -b <= (net.pts[p].y - net.pts[c].y) * k <= b
        }),
    decreases net.pts[p].level,
{
    assert(net.sound_point(p) && net.covering(p));
    let q = net.pts[p].parent->0;
    assert(net.has(q));
    assert(net.sound_point(q));
    let o = net.opts;
    let (lp, lq, lc) = (net.pts[p].level, net.pts[q].level, net.pts[c].level);
    let r = o.slack_span();
    lemma_slack_span(o);
    let e = o.extent * MILLI;
    let k = e * two(lp - 1);
    let (dx, dy) = (net.pts[q].x - net.pts[p].x, net.pts[q].y - net.pts[p].y);
    lemma_slack_axis(o, lp - 1, dx, dy);
    if q == c {
        lemma_two_up(lp - 1 - lc, 1);
        let n = two(lp - lc) - 1;
        assert(n >= 1) by {
            lemma_two_up(0, lp - lc);
        }
        assert(r <= r * n) by (nonlinear_arith)
            requires
                r >= 0,
                n >= 1,
        ;
        assert((net.pts[p].x - net.pts[c].x) * k == -(dx * k)) by (nonlinear_arith)
            requires
                net.pts[p].x - net.pts[c].x == -dx,
        ;
        assert((net.pts[p].y - net.pts[c].y) * k == -(dy * k)) by (nonlinear_arith)
            requires
                net.pts[p].y - net.pts[c].y == -dy,
        ;
    } else {
        lemma_axis_path(net, c, q);
        let kq = e * two(lq - 1);
        let m = two(lp - lq);
        lemma_two_up(lq - 1, lp - lq);
        lemma_two_up(lq - lc, lp - lq);
        let b = r * (two(lq - lc) - 1);
        assert(k == kq * m) by (nonlinear_arith)
            requires
                k == e * two(lp - 1),
                kq == e * two(lq - 1),
                two(lp - 1) == two(lq - 1) * m,
        ;
        let goal = r * (two(lp - lc) - 1);
        assert(r + b * m <= goal) by (nonlinear_arith)
            requires
                b == r * (two(lq - lc) - 1),
                two(lp - lc) == two(lq - lc) * m,
                goal == r * (two(lp - lc) - 1),
                m >= 2,
                r >= 0,
        ;
        let vx = net.pts[q].x - net.pts[c].x;
        let vy = net.pts[q].y - net.pts[c].y;
        lemma_step(net.pts[p].x - net.pts[c].x, dx, vx, k, kq, m, r, b, goal);
        lemma_step(net.pts[p].y - net.pts[c].y, dy, vy, k, kq, m, r, b, goal);
    }
}

proof fn lemma_step(e: int, d: int, v: int, k: int, kq: int, m: int, r: int, b: int, goal: int)
    requires
        e == v - d,
        k == kq * m,
        m >= 0,
        -r <= d * k <= r,
        -b <= v * kq <= b,
        r + b * m <= goal,
    ensures
        -goal <= e * k <= goal,
{
    assert(v * k == (v * kq) * m) by (nonlinear_arith)
        requires
            k == kq * m,
    ;
    let w = v * kq;
    assert(-(b * m) <= w * m <= b * m) by (nonlinear_arith)
        requires
            -b <= w <= b,
            m >= 0,
    ;
    assert(e * k == v * k - d * k) by (nonlinear_arith)
        requires
            e == v - d,
    ;
}

proof fn lemma_slack_span(o: crate::geometry::Options)
    ensures
        o.slack_span() >= 0,
{
    assert(o.slack_span() >= 0) by (nonlinear_arith)
        requires
            o.slack_span() == o.span() * (MILLI + o.hysteresis),
            o.span() == crate::geometry::PREC_I * o.radius,
            o.radius >= 0,
            o.hysteresis >= 0,
            MILLI == 1000,
            crate::geometry::PREC_I == 0x4000_0000,
    ;
}

/// Below a center, along an axis, everything is within two stretched radii of its level.
proof fn lemma_two_radii(net: Net, c: int, p: int)
    requires
        net.ok(),
        net.has(p),
        net.under(c, p),
    ensures
        net.has(c),
        ({
            let k = net.opts.extent * MILLI * two(net.pts[c].level);
            let b = 2 * net.opts.slack_span();
            &&& -b <= (net.pts[p].x - net.pts[c].x) * k <= b
            &&& -b <= (net.pts[p].y - net.pts[c].y) * k <= b
        }),
{
    let r = net.opts.slack_span();
    lemma_slack_span(net.opts);
    if c == p {
        let k = net.opts.extent * MILLI * two(net.pts[c].level);
        assert(0 * k == 0);
    } else {
        lemma_axis_path(net, c, p);
        assert(net.sound_point(c));
        let (lp, lc) = (net.pts[p].level, net.pts[c].level);
        let m = two(lp - 1 - lc);
        lemma_two_up(lc, lp - 1 - lc);
        lemma_two_up(1, lp - 1 - lc);
        let e = net.opts.extent * MILLI;
        let k = e * two(lc);
        let kp = e * two(lp - 1);
        assert(kp == k * m) by (nonlinear_arith)
            requires
                k == e * two(lc),
                kp == e * two(lp - 1),
                two(lp - 1) == two(lc) * m,
        ;
        let b = r * (two(lp - lc) - 1);
        assert(b <= 2 * r * m) by (nonlinear_arith)
            requires
                b == r * (2 * m - 1),
                r >= 0,
        ;
        lemma_unscale(net.pts[p].x - net.pts[c].x, k, kp, m, b, 2 * r);
        lemma_unscale(net.pts[p].y - net.pts[c].y, k, kp, m, b, 2 * r);
    }
}

proof fn lemma_unscale(d: int, k: int, kp: int, m: int, b: int, r: int)
    requires
        kp == k * m,
        m >= 1,
        -b <= d * kp <= b,
        b <= r * m,
    ensures
        -r <= d * k <= r,
{
    let w = d * k;
    assert(d * kp == w * m) by (nonlinear_arith)
        requires
            kp == k * m,
            w == d * k,
    ;
    assert(w <= r) by (nonlinear_arith)
        requires
            w * m <= r * m,
            m >= 1,
    ;
    assert(-r <= w) by (nonlinear_arith)
        requires
            -(r * m) <= w * m,
            m >= 1,
    ;
}

pub proof fn lemma_under_trans(net: Net, a: int, b: int, c: int)
    requires
        net.under(a, b),
        net.under(b, c),
    ensures
        net.under(a, c),
    decreases net.pts[c].level,
{
    if b != c {
        let q = net.pts[c].parent->0;
        lemma_under_trans(net, a, b, q);
    }
}

/// The mean of values that lie within a reach of `x` reaches `x`.
proof fn lemma_mean(n: int, f: spec_fn(int) -> int, g: spec_fn(int) -> int, x: int, k: int, r: int, lo: int, hi: int)
    requires
        0 <= n,
        total(n, f) > 0,
        forall|p: int|
            0 <= p < n ==> (#[trigger] f(p) == 0 && g(p) == 0) || (f(p) == 1 && -r <= (g(p) - x) * k
                <= r),
        lo * total(n, f) <= total(n, g) <= hi * total(n, f),
        k >= 0,
    ensures
        (lo - x) * k <= r,
        (x - hi) * k <= r,
{
    let up = r + x * k;
    let dn = x * k - r;
    let gk = |p: int| k * g(p);
    let fu = |p: int| up * f(p);
    let fd = |p: int| dn * f(p);
    assert forall|p: int| 0 <= p < n implies #[trigger] gk(p) <= fu(p) && fd(p) <= gk(p) by {
        let v = g(p);
        if f(p) == 1 {
            assert((v - x) * k == k * v - x * k) by (nonlinear_arith);
            assert(up * 1 == up && dn * 1 == dn);
        } else {
            assert(f(p) == 0);
            assert(k * 0 == 0 && up * 0 == 0 && dn * 0 == 0);
        }
    }
    assert forall|p: int| 0 <= p < n implies #[trigger] fd(p) <= gk(p) by {
        assert(gk(p) <= fu(p));
    }
    lemma_total_le(n, gk, fu);
    lemma_total_le(n, fd, gk);
    lemma_total_scale(n, k, g, gk);
    lemma_total_scale(n, up, f, fu);
    lemma_total_scale(n, dn, f, fd);
    let (c, s) = (total(n, f), total(n, g));
    assert(lo * k <= up) by (nonlinear_arith)
        requires
            k * s <= up * c,
            lo * c <= s,
            k >= 0,
            c > 0,
    ;
    assert(dn <= hi * k) by (nonlinear_arith)
        requires
            dn * c <= k * s,
            s <= hi * c,
            k >= 0,
            c > 0,
    ;
    assert((lo - x) * k == lo * k - x * k) by (nonlinear_arith);
    assert((x - hi) * k == x * k - hi * k) by (nonlinear_arith);
}

/// Every ancestor of a cluster whose centroid lies in the box reaches the box.
pub proof fn lemma_viewport(net: Net, n: int, c: int, s: int, z: int, b: Window, a: int)
    requires
        net.ok(),
        net.within_slots(n),
        0 <= n,
        0 <= z <= net.top(),
        net.center(s, z),
        net.tally(n, 0, c, s, z) > 0,
        b.holds_mean(
            net.tally(n, 0, c, s, z),
            net.tally(n, 1, c, s, z),
            net.tally(n, 2, c, s, z),
        ),
        net.under(a, s),
        net.has(a),
    ensures
        net.meets(a, b),
{
    assert(net.sound_point(a) && net.covering(a));
    let o = net.opts;
    let e = o.extent * MILLI;
    let k = e * two(net.pts[a].level);
    let r = 2 * o.slack_span();
    assert(k >= 0) by (nonlinear_arith)
        requires
            k == e * two(net.pts[a].level),
            e >= 0,
            two(net.pts[a].level) >= 0,
    ;
    let f = net.tally_at(0, c, s, z);
    let gx = net.tally_at(1, c, s, z);
    let gy = net.tally_at(2, c, s, z);
    assert forall|p: int| 0 <= p < n implies ((#[trigger] f(p) == 0 && gx(p) == 0 && gy(p) == 0) || (
    f(p) == 1 && -r <= (gx(p) - net.pts[a].x) * k <= r && -r <= (gy(p) - net.pts[a].y) * k
        <= r)) by {
        if net.member(p, s, z, c) {
            lemma_rep(net, p, z);
            lemma_under_trans(net, a, s, p);
            lemma_two_radii(net, a, p);
        }
    }
    lemma_mean(n, f, gx, net.pts[a].x, k, r, b.x0, b.x1);
    lemma_mean(n, f, gy, net.pts[a].y, k, r, b.y0, b.y1);
}

/// **Viewport**: a box query draws every cluster whose centroid lies in the box. It is what a
/// query of the world draws, restricted to the box.
pub proof fn law_viewport(net: Net, n: int, c: int, s: int, z: int, b: Window, w: Window)
    requires
        net.ok(),
        net.within_slots(n),
        0 <= n,
        0 <= z <= net.top(),
        w.is_world(),
    ensures
        net.drawn(n, c, s, z, b) == (net.drawn(n, c, s, z, w) && b.holds_mean(
            net.tally(n, 0, c, s, z),
            net.tally(n, 1, c, s, z),
            net.tally(n, 2, c, s, z),
        )),
{
    if net.center(s, z) && net.tally(n, 0, c, s, z) > 0 {
        law_world(net, n, c, s, z, w);
    }
}

/// **World**: a query of the whole world draws every cluster that is not empty.
pub proof fn law_world(net: Net, n: int, c: int, s: int, z: int, w: Window)
    requires
        net.ok(),
        net.within_slots(n),
        0 <= n,
        0 <= z <= net.top(),
        w.is_world(),
    ensures
        net.drawn(n, c, s, z, w) == (net.center(s, z) && net.tally(n, 0, c, s, z) > 0),
{
    if net.center(s, z) && net.tally(n, 0, c, s, z) > 0 {
        lemma_world_mean(net, n, c, s, z);
        let k = net.tally(n, 0, c, s, z);
        let (sx, sy) = (net.tally(n, 1, c, s, z), net.tally(n, 2, c, s, z));
        assert(w.x0 * k <= 0 && w.y0 * k <= 0 && w.x1 * k >= 0x4000_0000 * k && w.y1 * k
            >= 0x4000_0000 * k) by (nonlinear_arith)
            requires
                w.x0 <= 0,
                w.y0 <= 0,
                w.x1 >= 0x4000_0000,
                w.y1 >= 0x4000_0000,
                k >= 0,
        ;
    }
}

pub proof fn lemma_world_mean(net: Net, n: int, c: int, s: int, z: int)
    requires
        net.ok(),
        net.within_slots(n),
    ensures
        0 <= net.tally(n, 1, c, s, z) <= 0x4000_0000 * net.tally(n, 0, c, s, z),
        0 <= net.tally(n, 2, c, s, z) <= 0x4000_0000 * net.tally(n, 0, c, s, z),
{
    let f = net.tally_at(0, c, s, z);
    let fk = |p: int| 0x4000_0000 * f(p);
    lemma_total_scale(n, 0x4000_0000, f, fk);
    assert forall|a: int| 1 <= a <= 2 implies 0 <= #[trigger] net.tally(n, a, c, s, z) <= 0x4000_0000
        * net.tally(n, 0, c, s, z) by {
        let g = net.tally_at(a, c, s, z);
        assert forall|p: int| 0 <= p < n implies 0 <= #[trigger] g(p) <= fk(p) by {
            if net.has(p) {
                assert(net.sound_point(p));
            }
        }
        lemma_total_le(n, g, fk);
        crate::sums::lemma_total_nonneg(n, g);
    }
}

/// How many points the features stand for.
pub open spec fn sizes(out: Seq<Feature>) -> int
    decreases out.len(),
{
    if out.len() == 0 {
        0
    } else {
        sizes(out.drop_last()) + out.last().size()
    }
}

pub proof fn lemma_sizes(net: Net, out: Seq<Feature>, q: Seq<int>, n: int, c: int, z: int)
    requires
        net.pictures(out, q, n, c, z),
        forall|i: int| 0 <= i < q.len() ==> 0 < net.tally(n, 0, c, #[trigger] q[i], z) <= u32::MAX,
    ensures
        sizes(out) == sum_over(q, |s: int| net.tally(n, 0, c, s, z)),
    decreases out.len(),
{
    if out.len() > 0 {
        let (o2, q2) = (out.drop_last(), q.drop_last());
        assert forall|i: int| 0 <= i < q2.len() implies net.shows(#[trigger] o2[i], n, c, q2[i], z) by {
            assert(o2[i] == out[i] && q2[i] == q[i]);
        }
        assert forall|i: int| 0 <= i < q2.len() implies 0 < net.tally(n, 0, c, #[trigger] q2[i], z)
            <= u32::MAX by {
            assert(q2[i] == q[i]);
        }
        lemma_sizes(net, o2, q2, n, c, z);
        let l = out.len() - 1;
        assert(net.shows(out[l], n, c, q[l], z));
        assert(0 < net.tally(n, 0, c, q[l], z));
    }
}

/// **Nothing lost**: at every zoom, what a query of the world returns accounts for every point of
/// the filter cell exactly once.
pub proof fn law_nothing_lost(
    net: Net,
    out: Seq<Feature>,
    q: Seq<int>,
    n: int,
    c: int,
    z: int,
    w: Window,
)
    requires
        net.ok(),
        net.within_slots(n),
        0 <= n <= u32::MAX,
        0 <= z <= net.top(),
        w.is_world(),
        net.picture(out, q, n, c, z, w),
    ensures
        sizes(out) == net.population(n, c),
{
    let f = |s: int|
        if net.center(s, z) {
            net.tally(n, 0, c, s, z)
        } else {
            0
        };
    let g = |s: int| net.tally(n, 0, c, s, z);
    assert forall|s: int| #[trigger] net.has(s) implies 0 <= g(s) <= n by {
        lemma_tally_bound(net, n, c, s, z);
    }
    assert forall|i: int| 0 <= i < q.len() implies 0 <= #[trigger] q[i] < n && f(q[i]) == g(q[i])
        && 0 < net.tally(n, 0, c, q[i], z) <= u32::MAX by {
        assert(q.contains(q[i]));
        assert(net.drawn(n, c, q[i], z, w));
        assert(net.has(q[i]));
        assert(0 <= g(q[i]) <= n);
    }
    assert forall|x: int| 0 <= x < n && !q.contains(x) implies #[trigger] f(x) == 0 by {
        law_world(net, n, c, x, z, w);
        if net.center(x, z) {
            lemma_tally(net, n, c, x, z);
        }
    }
    crate::sums::lemma_total_as_sum(n, q, f);
    crate::sums::lemma_sum_ext(q, f, g);
    lemma_sizes(net, out, q, n, c, z);
    law_partition(net, n, c, z);
}

/// A cluster has no more members than there are slots.
pub proof fn lemma_tally_bound(net: Net, n: int, c: int, s: int, z: int)
    requires
        net.within_slots(n),
        0 <= n,
    ensures
        0 <= net.tally(n, 0, c, s, z) <= n,
{
    lemma_tally(net, n, c, s, z);
    let one = |p: int| 1int;
    lemma_total_le(n, net.tally_at(0, c, s, z), one);
    lemma_total_ones(n);
}

proof fn lemma_total_ones(n: int)
    ensures
        total(n, |p: int| 1int) == (if n <= 0 {
            0
        } else {
            n
        }),
    decreases n,
{
    if n > 0 {
        lemma_total_ones(n - 1);
    }
}

/// **Filters add up**: where every point is in exactly one of `k` filter cells, the cells'
/// populations add up to that of the whole.
pub proof fn law_cells_add_up(net: Net, n: int, k: int)
    requires
        0 <= k,
        net.opts.cells_in_force() > 0,
        forall|p: int| #[trigger]
            net.has(p) ==> exists|c: int|
                0 <= c < k && net.in_cell(p, c) && forall|d: int|
                    0 <= d < k && #[trigger] net.in_cell(p, d) ==> d == c,
    ensures
        total(k, |c: int| net.population(n, c)) == net.population(n, -1),
{
    let g = |c: int, p: int|
        if net.has(p) && net.in_cell(p, c) {
            1int
        } else {
            0
        };
    let rows = |c: int| total(n, |p: int| g(c, p));
    assert forall|c: int| 0 <= c < k implies #[trigger] rows(c) == net.population(n, c) by {
        lemma_total_ext(
            n,
            |p: int| g(c, p),
            |p: int|
                if net.has(p) && net.in_cell(p, c) {
                    1int
                } else {
                    0
                },
        );
    }
    lemma_total_ext(k, rows, |c: int| net.population(n, c));
    crate::sums::lemma_total_swap(k, n, g);
    let cols = |p: int| total(k, |c: int| g(c, p));
    let ones = |p: int|
        if net.has(p) && net.in_cell(p, -1) {
            1int
        } else {
            0
        };
    assert forall|p: int| 0 <= p < n implies #[trigger] cols(p) == ones(p) by {
        let h = |c: int| g(c, p);
        if net.has(p) {
            let c = choose|c: int|
                0 <= c < k && net.in_cell(p, c) && forall|d: int|
                    0 <= d < k && #[trigger] net.in_cell(p, d) ==> d == c;
            let zero = |d: int| 0int;
            crate::sums::lemma_total_zero(k, zero);
            crate::sums::lemma_total_change(k, zero, h, c);
        } else {
            crate::sums::lemma_total_zero(k, h);
        }
    }
    lemma_total_ext(n, cols, ones);
}

} // verus!
