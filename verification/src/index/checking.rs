//! What it means that a copy of an index passes its check, told by the nodes of the copy.
use super::verify::{Dump, Verification};
use crate::geometry::{dist2, root_tenths, rounded, sq, two, Options, PREC_I};
use crate::grid::{key_level, NONE};
use crate::sums::{lemma_total_ext, total};
use vstd::prelude::*;

verus! {

/// Two places are within the radius of a zoom, stretched by `slack` thousandths.
pub open spec fn close(o: Options, z: int, slack: int, ax: int, ay: int, bx: int, by: int) -> bool {
    ((ax - bx) * (ax - bx) + (ay - by) * (ay - by)) * sq(o.extent * 1000 * two(z)) <= sq(
        PREC_I * o.radius * (1000 + slack),
    )
}

/// **A copy that passes hangs together**: every node lies in the world; a node has no parent exactly
/// if it is a center from zoom 0 on; any other has one that is a center of the zoom before, within
/// the radius of that zoom stretched by the hysteresis.
pub proof fn law_checked_node(d: Dump, s: int)
    requires
        d.sound(),
        d.has(s),
    ensures
        0 <= s < d.nodes.len(),
        0 <= d.nodes[s].qx <= PREC_I && 0 <= d.nodes[s].qy <= PREC_I,
        0 <= d.nodes[s].tz <= d.opts.max_zoom + 1,
        d.nodes[s].tz == 0 <==> d.nodes[s].par == NONE,
        d.nodes[s].tz > 0 ==> {
            let p = d.nodes[s].par as int;
            &&& d.has(p)
            &&& d.nodes[p].tz < d.nodes[s].tz
            &&& close(
                d.opts,
                d.nodes[s].tz - 1,
                d.opts.hysteresis as int,
                d.nodes[s].qx as int,
                d.nodes[s].qy as int,
                d.nodes[p].qx as int,
                d.nodes[p].qy as int,
            )
        },
{
    let i = choose|i: int| d.leads(i, s);
    assert(d.ids[i].1 < d.n());
    d.lemma_placed(s);
    if d.nodes[s].tz > 0 {
        let p = d.nodes[s].par as int;
        let (ax, ay, bx, by) = (
            d.nodes[s].qx as int,
            d.nodes[s].qy as int,
            d.nodes[p].qx as int,
            d.nodes[p].qy as int,
        );
        assert((ax - bx) * (ax - bx) + (ay - by) * (ay - by) == (bx - ax) * (bx - ax) + (by - ay) * (by
            - ay)) by (nonlinear_arith);
    }
}

/// **Centers of one zoom are apart**: no two nodes that are both centers of a zoom, one of them from
/// there on, are within its radius of each other.
pub proof fn law_checked_apart(d: Dump, a: int, b: int)
    requires
        d.sound(),
        d.has(a),
        d.has(b),
        a != b,
        d.nodes[a].tz <= d.nodes[b].tz <= d.opts.max_zoom,
    ensures
        dist2(
            d.nodes[a].qx as int,
            d.nodes[a].qy as int,
            d.nodes[b].qx as int,
            d.nodes[b].qy as int,
        ) * sq(d.opts.extent * two(d.nodes[b].tz as int)) > sq(PREC_I * d.opts.radius),
{
    assert(d.apart(a, b));
}

/// Nobody hangs under a node that has no child.
proof fn lemma_alone(d: Dump, s: int, p: int)
    requires
        d.sound(),
        d.has(p),
        forall|c: int| #[trigger] d.has(c) ==> d.nodes[c].par != s,
        s != NONE,
    ensures
        d.under(s, p) <==> p == s,
    decreases d.nodes[p].tz,
{
    d.lemma_placed(p);
    if p != s && d.nodes[p].tz > 0 {
        d.lemma_placed(d.nodes[p].par as int);
        lemma_alone(d, s, d.nodes[p].par as int);
    }
}

/// **A node that nobody hangs under counts itself**: one, at its own place.
pub proof fn law_checked_leaf(d: Dump, s: int)
    requires
        d.sound(),
        d.has(s),
        forall|c: int| #[trigger] d.has(c) ==> d.nodes[c].par != s,
    ensures
        d.nodes[s].cnt == 1,
        d.nodes[s].sx == d.nodes[s].qx,
        d.nodes[s].sy == d.nodes[s].qy,
{
    law_checked_node(d, s);
    assert(d.weighed(s));
    lemma_only(d, s, 0);
    lemma_only(d, s, 1);
    lemma_only(d, s, 2);
}

proof fn lemma_only(d: Dump, s: int, a: int)
    requires
        d.sound(),
        d.has(s),
        0 <= s < d.n(),
        s != NONE,
        forall|c: int| #[trigger] d.has(c) ==> d.nodes[c].par != s,
    ensures
        d.mass(a, -1, s) == d.own(a, -1, s),
{
    let f = d.own_under(a, -1, s);
    let v = d.own(a, -1, s);
    let g = |p: int|
        if p == s {
            v
        } else {
            0
        };
    assert forall|p: int| 0 <= p < d.n() implies #[trigger] f(p) == g(p) by {
        if d.has(p) {
            lemma_alone(d, s, p);
        }
    }
    lemma_total_ext(d.n(), f, g);
    lemma_one(d.n(), s, v);
}

proof fn lemma_one(n: int, s: int, v: int)
    requires
        0 <= s,
    ensures
        total(
            n,
            |p: int|
                if p == s {
                    v
                } else {
                    0
                },
        ) == (if s < n {
            v
        } else {
            0
        }),
    decreases n,
{
    if n > 0 {
        lemma_one(n - 1, s, v);
    }
}

/// **The grids list every center**: on each zoom from its own to the finest, in some cell.
pub proof fn law_checked_listing(d: Dump, s: int, z: int)
    requires
        d.sound(),
        d.has(s),
        d.nodes[s].tz <= z <= d.opts.max_zoom,
    ensures
        exists|i: int, j: int|
            #![trigger d.listings[i].1[j]]
            0 <= i < d.listings.len() && 0 <= j < d.listings[i].1.len() && d.listings[i].1[j] == s
                && key_level(d.listings[i].0) == z,
{
    assert(d.expects(s, z));
    assert(d.gives(s, z));
    let (i, j) = choose|i: int, j: int| d.lists_at(i, j, s, z);
    assert(d.listings[i].1[j] == s);
}

/// **What a check that passes says**: how many points there are, how many of them are centers of
/// some zoom and how many of none, and how deep the tree is: a root is at depth 0, anybody else one
/// below its parent, nobody deeper than is said.
pub proof fn law_checked_figures(d: Dump, v: Verification, s: int)
    requires
        d.sound(),
        d.summed_up(v),
        d.has(s),
    ensures
        v.points == d.ids.len(),
        v.centers == total(
            d.nodes.len() as int,
            |p: int|
                if d.has(p) && d.nodes[p].tz <= d.opts.max_zoom {
                    1
                } else {
                    0
                },
        ),
        v.leaves == total(
            d.nodes.len() as int,
            |p: int|
                if d.has(p) && d.nodes[p].tz > d.opts.max_zoom {
                    1
                } else {
                    0
                },
        ),
        d.nodes[s].tz == 0 ==> d.depth(s) == 0,
        d.nodes[s].tz > 0 ==> d.depth(s) == d.depth(d.nodes[s].par as int) + 1,
        d.depth(s) <= v.max_depth,
{
    law_checked_node(d, s);
    if d.nodes[s].tz > 0 {
        law_checked_node(d, d.nodes[s].par as int);
    }
    let n = d.n();
    let top = d.top();
    assert forall|p: int| d.has(p) implies 0 <= #[trigger] d.nodes[p].tz <= top + 1 by {
        d.lemma_placed(p);
    }
    let f = |p: int|
        if d.has(p) && 0 <= d.nodes[p].tz <= top {
            1int
        } else {
            0
        };
    let g = |p: int|
        if d.has(p) && d.nodes[p].tz <= d.opts.max_zoom {
            1int
        } else {
            0
        };
    assert forall|p: int| 0 <= p < n implies #[trigger] f(p) == g(p) by {
        if d.has(p) {
            d.lemma_placed(p);
        }
    }
    lemma_total_ext(n, f, g);
    let k = |p: int|
        if d.has(p) && top + 1 <= d.nodes[p].tz <= top + 1 {
            1int
        } else {
            0
        };
    let l = |p: int|
        if d.has(p) && d.nodes[p].tz > d.opts.max_zoom {
            1int
        } else {
            0
        };
    assert forall|p: int| 0 <= p < n implies #[trigger] k(p) == l(p) by {
        if d.has(p) {
            d.lemma_placed(p);
        }
    }
    lemma_total_ext(n, k, l);
}

/// **Tenths in messages**: of a quotient the nearest whole number, of two as near the even one; of
/// a distance the nearest number of tenths.
pub proof fn law_tenths(n: int, d: int, d2: int, k: int)
    requires
        0 <= n,
        0 < d,
        0 <= d2,
    ensures
        2 * n - d <= 2 * d * rounded(n, d) <= 2 * n + d,
        2 * d * rounded(n, d) == 2 * n - d || 2 * d * rounded(n, d) == 2 * n + d ==> rounded(n, d) % 2
            == 0,
        root_tenths(d2, k) && k > 0 ==> (2 * k - 1) * (2 * k - 1) <= 400 * d2,
        root_tenths(d2, k) ==> 400 * d2 < (2 * k + 1) * (2 * k + 1),
{
    let (q, r) = (n / d, n % d);
    vstd::arithmetic::div_mod::lemma_fundamental_div_mod(n, d);
    assert(n == d * q + r && 0 <= r < d);
    assert(2 * d * q == 2 * n - 2 * r) by (nonlinear_arith)
        requires
            n == d * q + r,
    ;
    assert(2 * d * (q + 1) == 2 * n - 2 * r + 2 * d) by (nonlinear_arith)
        requires
            n == d * q + r,
    ;
}

/// **The radius in messages**: that of a zoom, in tenths of a unit, stretched by the hysteresis where
/// that counts.
pub proof fn law_radius_tenths(o: Options, z: int)
    requires
        o.extent > 0,
        0 <= z,
    ensures
        ({
            let (w, k) = (o.extent * two(z), o.radius_tenths(z));
            2 * (10 * PREC_I * o.radius) - w <= 2 * w * k <= 2 * (10 * PREC_I * o.radius) + w
        }),
        ({
            let (w, k) = (o.extent * 1000 * two(z), o.slack_tenths(z));
            let n = 10 * (PREC_I * o.radius * (1000 + o.hysteresis));
            2 * n - w <= 2 * w * k <= 2 * n + w
        }),
{
    vstd::arithmetic::power2::lemma_pow2_pos(z as nat);
    let t = two(z);
    assert(o.extent * t > 0 && o.extent * 1000 * t > 0) by (nonlinear_arith)
        requires
            o.extent > 0,
            t > 0,
    ;
    assert(PREC_I * o.radius * (1000 + o.hysteresis) >= 0) by (nonlinear_arith);
    law_tenths(10 * o.span(), o.extent * t, 0, 0);
    law_tenths(10 * o.slack_span(), o.extent * 1000 * t, 0, 0);
}

} // verus!
