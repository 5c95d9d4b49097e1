//! Cluster radius and tile extent are one knob in two parts: what matters is the ratio.
use crate::clusters::Window;
use crate::feature::Feature;
use crate::geometry::{lemma_sq_mul, sq, two, two_bounds, Options, CELL_SPAN, MILLI, PREC_I};
use crate::net::{lemma_heirs_exist, lemma_heirs_unique, lemma_nearest_exists, lemma_nearest_unique,
    Net, Point};
use crate::order::{floor_key, Lists};
use crate::sums::lemma_total_ext;
use vstd::arithmetic::power2::lemma_pow2_pos;
use vstd::prelude::*;

verus! {

/// Options that differ in nothing that clustering depends on: radius and extent have the same
/// ratio, and slack, levels and filter cells are the same.
pub open spec fn alike(a: Options, b: Options) -> bool {
    &&& a.radius * b.extent == b.radius * a.extent
    &&& a.hysteresis == b.hysteresis
    &&& a.max_zoom == b.max_zoom
    &&& a.cells_in_force() == b.cells_in_force()
}

/// The same points under other options.
pub open spec fn with_options(net: Net, o: Options) -> Net {
    Net { opts: o, ..net }
}

/// Comparing squares depends on the ratio alone.
proof fn lemma_squares(d: int, k1: int, m1: int, k2: int, m2: int)
    requires
        k1 > 0,
        k2 > 0,
        k1 * m2 == k2 * m1,
        d * sq(k1) <= sq(m1),
    ensures
        d * sq(k2) <= sq(m2),
{
    lemma_sq_mul(k1, m2);
    lemma_sq_mul(k2, m1);
    let (a, b, e, f) = (sq(k1), sq(m1), sq(k2), sq(m2));
    assert(a >= 1 && e >= 1) by (nonlinear_arith)
        requires
            a == k1 * k1,
            e == k2 * k2,
            k1 > 0,
            k2 > 0,
    ;
    assert(a * f == e * b);
    assert(a * (d * e) <= a * f) by (nonlinear_arith)
        requires
            d * a <= b,
            a * f == e * b,
            e >= 1,
    ;
    assert(d * e <= f) by (nonlinear_arith)
        requires
            a * (d * e) <= a * f,
            a >= 1,
    ;
}

proof fn lemma_near(a: Options, b: Options, z: int, d: int)
    requires
        a.extent > 0,
        b.extent > 0,
        alike(a, b),
        a.near(z, d),
    ensures
        b.near(z, d),
{
    lemma_pow2_pos(z as nat);
    let t = two(z);
    let (k1, k2) = (a.extent * t, b.extent * t);
    assert(k1 > 0 && k2 > 0 && k1 * b.span() == k2 * a.span()) by (nonlinear_arith)
        requires
            k1 == a.extent * t,
            k2 == b.extent * t,
            a.span() == PREC_I * a.radius,
            b.span() == PREC_I * b.radius,
            a.radius * b.extent == b.radius * a.extent,
            a.extent > 0,
            b.extent > 0,
            t > 0,
    ;
    lemma_squares(d, k1, a.span(), k2, b.span());
}

proof fn lemma_near_with_slack(a: Options, b: Options, z: int, d: int)
    requires
        a.extent > 0,
        b.extent > 0,
        alike(a, b),
        a.near_with_slack(z, d),
    ensures
        b.near_with_slack(z, d),
{
    lemma_pow2_pos(z as nat);
    let t = two(z);
    let h = MILLI + a.hysteresis;
    let (k1, k2) = (a.extent * MILLI * t, b.extent * MILLI * t);
    let (m1, m2) = (a.span() * h, b.span() * h);
    assert(k1 > 0 && k2 > 0) by (nonlinear_arith)
        requires
            k1 == a.extent * MILLI * t,
            k2 == b.extent * MILLI * t,
            a.extent > 0,
            b.extent > 0,
            t > 0,
    ;
    let (ea, eb, ra, rb) = (
        a.extent as int,
        b.extent as int,
        a.radius as int,
        b.radius as int,
    );
    let w = MILLI * t;
    let v = PREC_I * h;
    assert(k1 == ea * w && k2 == eb * w && m1 == ra * v && m2 == rb * v) by (nonlinear_arith)
        requires
            k1 == ea * MILLI * t,
            k2 == eb * MILLI * t,
            m1 == PREC_I * ra * h,
            m2 == PREC_I * rb * h,
            w == MILLI * t,
            v == PREC_I * h,
    ;
    assert(k1 * m2 == k2 * m1) by (nonlinear_arith)
        requires
            k1 == ea * w,
            k2 == eb * w,
            m1 == ra * v,
            m2 == rb * v,
            ra * eb == rb * ea,
    ;
    lemma_squares(d, k1, m1, k2, m2);
}

/// What is asked of a net and other options here.
pub open spec fn comparable(net: Net, o: Options) -> bool {
    &&& net.opts.extent > 0
    &&& o.extent > 0
    &&& alike(net.opts, o)
    &&& net.pts.dom().finite()
    &&& net.ids_differ()
}

/// The same centers cover a position.
proof fn lemma_covers(net: Net, o: Options, s: int, z: int, x: int, y: int)
    requires
        comparable(net, o),
    ensures
        with_options(net, o).covers(s, z, x, y) == net.covers(s, z, x, y),
{
    let d = net.far(s, x, y);
    let other = with_options(net, o);
    assert(other.far(s, x, y) == d);
    if net.opts.near(z, d) {
        lemma_near(net.opts, o, z, d);
    }
    if o.near(z, d) {
        lemma_near(o, net.opts, z, d);
    }
}

proof fn lemma_covered(net: Net, o: Options, z: int, x: int, y: int)
    requires
        comparable(net, o),
    ensures
        with_options(net, o).covered(z, x, y) == net.covered(z, x, y),
        net.covered(z, x, y) ==> with_options(net, o).nearest(z, x, y) == net.nearest(z, x, y),
{
    let other = with_options(net, o);
    assert forall|s: int| #[trigger] other.covers(s, z, x, y) == net.covers(s, z, x, y) by {
        lemma_covers(net, o, s, z, x, y);
    }
    if net.covered(z, x, y) {
        let s = choose|s: int| net.covers(s, z, x, y);
        assert(other.covers(s, z, x, y));
        lemma_nearest_exists(net, z, x, y);
        let m = net.nearest(z, x, y);
        assert(other.covers(m, z, x, y));
        assert forall|t: int| #[trigger] other.covers(t, z, x, y) && t != m implies other.nearer(
            m,
            t,
            x,
            y,
        ) by {
            assert(net.covers(t, z, x, y));
            assert(net.nearer(m, t, x, y));
        }
        lemma_nearest_unique(other, z, x, y, m);
    }
    if other.covered(z, x, y) {
        let s = choose|s: int| other.covers(s, z, x, y);
        assert(net.covers(s, z, x, y));
    }
}

proof fn lemma_finest_alike(net: Net, o: Options, z: int, x: int, y: int)
    requires
        comparable(net, o),
        z >= -1,
    ensures
        with_options(net, o).finest(z, x, y) == net.finest(z, x, y),
    decreases z + 1,
{
    if z >= 0 {
        lemma_covered(net, o, z, x, y);
        lemma_finest_alike(net, o, z - 1, x, y);
    }
}

proof fn lemma_place_alike(net: Net, o: Options, s: int, p: Point)
    requires
        comparable(net, o),
    ensures
        with_options(net, o).place(s, p) == with_options(net.place(s, p), o),
        net.place(s, p).pts.dom() == net.pts.dom().insert(s),
{
    let other = with_options(net, o);
    lemma_finest_alike(net, o, net.top(), p.x, p.y);
    crate::net::lemma_finest(net, net.top(), p.x, p.y);
    let z = net.finest(net.top(), p.x, p.y);
    if z >= 0 {
        lemma_covered(net, o, z, p.x, p.y);
    }
    assert(other.place(s, p).pts =~= net.place(s, p).pts);
}

/// Re-homing keeps names and handles.
proof fn lemma_rehome_alike(net: Net, o: Options, q: Seq<int>)
    requires
        comparable(net, o),
        forall|i: int| 0 <= i < q.len() ==> net.has(#[trigger] q[i]),
    ensures
        with_options(net, o).rehome(q) == with_options(net.rehome(q), o),
        net.rehome(q).opts == net.opts,
        net.rehome(q).pts.dom() == net.pts.dom(),
        forall|t: int| #[trigger] net.has(t) ==> net.rehome(q).pts[t].id == net.pts[t].id,
        comparable(net.rehome(q), o),
    decreases q.len(),
{
    if q.len() > 0 {
        let rest = q.drop_last();
        assert forall|i: int| 0 <= i < rest.len() implies net.has(#[trigger] rest[i]) by {
            assert(rest[i] == q[i]);
        }
        lemma_rehome_alike(net, o, rest);
        let before = net.rehome(rest);
        let c = q.last();
        assert(q[q.len() - 1] == c);
        assert(net.has(c));
        let gone = before.drop_point(c);
        assert forall|s: int, t: int|
            #![trigger gone.has(s), gone.has(t)]
            gone.has(s) && gone.has(t) && s != t implies gone.pts[s].id != gone.pts[t].id by {
            assert(before.has(s) && before.has(t));
        }
        assert(comparable(gone, o));
        lemma_place_alike(gone, o, c, before.pts[c]);
        let after = net.rehome(q);
        assert(after == gone.place(c, before.pts[c]));
        assert(after.pts.dom() =~= net.pts.dom());
        assert forall|t: int| #[trigger] net.has(t) implies after.pts[t].id == net.pts[t].id by {
            assert(before.pts[t].id == net.pts[t].id);
        }
        assert forall|s: int, t: int|
            #![trigger after.has(s), after.has(t)]
            after.has(s) && after.has(t) && s != t implies after.pts[s].id != after.pts[t].id by {
            assert(net.has(s) && net.has(t));
        }
        assert(with_options(before, o).drop_point(c) == with_options(gone, o));
    }
}

proof fn lemma_unlinked_alike(net: Net, o: Options, s: int)
    requires
        comparable(net, o),
        net.has(s),
        net.pts[s].parent != Some(s),
    ensures
        with_options(net, o).unlinked(s) == with_options(net.unlinked(s), o),
        comparable(net.unlinked(s), o),
        comparable(net.drop_point(s), o),
        with_options(net, o).heirs_of(s) == net.heirs_of(s),
        forall|i: int|
            0 <= i < net.heirs_of(s).len() ==> net.drop_point(s).has(
                #[trigger] net.heirs_of(s)[i],
            ),
{
    let other = with_options(net, o);
    lemma_heirs_exist(net, s);
    let q = net.heirs_of(s);
    assert(other.heirs(s, q)) by {
        assert forall|c: int| q.contains(c) <==> #[trigger] other.child(c, s) by {
            assert(q.contains(c) <==> net.child(c, s));
        }
        assert forall|i: int, j: int| 0 <= i < j < q.len() implies other.earlier(
            #[trigger] q[i],
            #[trigger] q[j],
        ) by {
            assert(net.earlier(q[i], q[j]));
        }
    }
    lemma_heirs_unique(other, s, q);
    let gone = net.drop_point(s);
    assert forall|a: int, b: int|
        #![trigger gone.has(a), gone.has(b)]
        gone.has(a) && gone.has(b) && a != b implies gone.pts[a].id != gone.pts[b].id by {
        assert(net.has(a) && net.has(b));
    }
    assert forall|i: int| 0 <= i < q.len() implies gone.has(#[trigger] q[i]) by {
        assert(q.contains(q[i]));
        assert(net.child(q[i], s));
    }
    lemma_rehome_alike(gone, o, q);
    assert(other.drop_point(s) == with_options(gone, o));
}

/// **Ratio**: what matters of radius and extent is the ratio. Under options that are alike, a
/// point goes to the same place, moves to the same place, and leaves the same net behind.
pub proof fn law_ratio(net: Net, o: Options, s: int, p: Point)
    requires
        net.ok(),
        net.pts.dom().finite(),
        o.valid(),
        alike(net.opts, o),
    ensures
        with_options(net, o).place(s, p) == with_options(net.place(s, p), o),
        net.has(s) ==> with_options(net, o).moved(s, p.x, p.y) == with_options(
            net.moved(s, p.x, p.y),
            o,
        ),
        net.has(s) ==> with_options(net, o).unlinked(s) == with_options(net.unlinked(s), o),
{
    let other = with_options(net, o);
    lemma_place_alike(net, o, s, p);
    if net.has(s) {
        let (x, y) = (p.x, p.y);
        assert(net.covering(s) && net.sound_point(s));
        lemma_unlinked_alike(net, o, s);
        lemma_slides(net, o, s, x, y);
        let moved = Point { x, y, ..net.pts[s] };
        lemma_place_alike(net.unlinked(s), o, s, moved);
        assert(other.slid(s, x, y) == with_options(net.slid(s, x, y), o));
    }
}

/// A point may slide under both options or under neither.
proof fn lemma_slides(net: Net, o: Options, s: int, x: int, y: int)
    requires
        comparable(net, o),
        net.has(s),
    ensures
        with_options(net, o).may_slide(s, x, y) == net.may_slide(s, x, y),
{
    let other = with_options(net, o);
    let gone = net.drop_point(s);
    assert forall|a: int, b: int|
        #![trigger gone.has(a), gone.has(b)]
        gone.has(a) && gone.has(b) && a != b implies gone.pts[a].id != gone.pts[b].id by {
        assert(net.has(a) && net.has(b));
    }
    assert(other.drop_point(s) == with_options(gone, o));
    assert forall|z: int| #[trigger] other.drop_point(s).covered(z, x, y) == gone.covered(
        z,
        x,
        y,
    ) by {
        lemma_covered(gone, o, z, x, y);
    }
    assert forall|t: int, z: int| #[trigger]
        other.opts.near_with_slack(z, other.far(t, x, y)) == net.opts.near_with_slack(
            z,
            net.far(t, x, y),
        ) by {
        let d = net.far(t, x, y);
        if net.opts.near_with_slack(z, d) {
            lemma_near_with_slack(net.opts, o, z, d);
        }
        if o.near_with_slack(z, d) {
            lemma_near_with_slack(o, net.opts, z, d);
        }
    }
    assert forall|c: int| #[trigger] other.child(c, s) == net.child(c, s) by {}
    if net.may_slide(s, x, y) {
        assert forall|z: int|
            other.pts[s].level <= z <= other.top() implies !#[trigger] other.drop_point(s).covered(
            z,
            x,
            y,
        ) by {
            assert(!net.drop_point(s).covered(z, x, y));
        }
        assert forall|c: int| #[trigger] other.child(c, s) implies other.opts.near_with_slack(
            other.pts[c].level - 1,
            other.far(c, x, y),
        ) by {
            assert(net.child(c, s));
        }
    }
    if other.may_slide(s, x, y) {
        assert forall|z: int|
            net.pts[s].level <= z <= net.top() implies !#[trigger] net.drop_point(s).covered(
            z,
            x,
            y,
        ) by {
            assert(!other.drop_point(s).covered(z, x, y));
        }
        assert forall|c: int| #[trigger] net.child(c, s) implies net.opts.near_with_slack(
            net.pts[c].level - 1,
            net.far(c, x, y),
        ) by {
            assert(other.child(c, s));
            assert(other.opts.near_with_slack(other.pts[c].level - 1, other.far(c, x, y)));
        }
    }
}

proof fn lemma_rep_alike(net: Net, o: Options, p: int, z: int)
    ensures
        with_options(net, o).rep(p, z) == net.rep(p, z),
    decreases net.pts[p].level,
{
    if net.pts[p].level > z {
        if let Some(q) = net.pts[p].parent {
            if 0 <= net.pts[q].level < net.pts[p].level {
                lemma_rep_alike(net, o, q, z);
            }
        }
    }
}

/// **The map goes by the ratio too**: under options that are alike the same clusters are drawn in
/// a box, of the same size and at the same place.
pub proof fn law_ratio_on_the_map(net: Net, o: Options, n: int, c: int, s: int, z: int, b: Window)
    requires
        net.opts.valid(),
        o.valid(),
        alike(net.opts, o),
    ensures
        with_options(net, o).drawn(n, c, s, z, b) == net.drawn(n, c, s, z, b),
        forall|a: int| #[trigger]
            with_options(net, o).tally(n, a, c, s, z) == net.tally(n, a, c, s, z),
        forall|m: int| #[trigger] with_options(net, o).member(m, s, z, c) == net.member(m, s, z, c),
        forall|f: Feature| #[trigger]
            with_options(net, o).shows(f, n, c, s, z) == net.shows(f, n, c, s, z),
{
    let other = with_options(net, o);
    assert forall|m: int| #[trigger] other.member(m, s, z, c) == net.member(m, s, z, c) by {
        lemma_rep_alike(net, o, m, z);
    }
    assert forall|a: int| #[trigger] other.tally(n, a, c, s, z) == net.tally(n, a, c, s, z) by {
        let (f, g) = (net.tally_at(a, c, s, z), other.tally_at(a, c, s, z));
        assert forall|p: int| 0 <= p < n implies #[trigger] f(p) == g(p) by {
            lemma_rep_alike(net, o, p, z);
        }
        lemma_total_ext(n, f, g);
    }
    assert forall|f: Feature| #[trigger] other.shows(f, n, c, s, z) == net.shows(f, n, c, s, z) by {
        assert(other.tally(n, 0, c, s, z) == net.tally(n, 0, c, s, z));
        assert(other.tally(n, 1, c, s, z) == net.tally(n, 1, c, s, z));
        assert(other.tally(n, 2, c, s, z) == net.tally(n, 2, c, s, z));
        if net.tally(n, 0, c, s, z) == 1 {
            if net.shows(f, n, c, s, z) {
                let m = choose|m: int| #[trigger]
                    net.member(m, s, z, c) && f == (Feature::Point {
                        id: net.pts[m].id,
                        x: net.pts[m].x as i32,
                        y: net.pts[m].y as i32,
                    });
                assert(other.member(m, s, z, c));
            }
            if other.shows(f, n, c, s, z) {
                let m = choose|m: int| #[trigger]
                    other.member(m, s, z, c) && f == (Feature::Point {
                        id: net.pts[m].id,
                        x: net.pts[m].x as i32,
                        y: net.pts[m].y as i32,
                    });
                assert(net.member(m, s, z, c));
            }
        }
    }
}

/// Quotients of proportional numbers are the same.
proof fn lemma_same_quotient(n: int, d: int, m: int, e: int)
    requires
        d > 0,
        e > 0,
        n * e == m * d,
    ensures
        n / d == m / e,
{
    vstd::arithmetic::div_mod::lemma_fundamental_div_mod(n, d);
    vstd::arithmetic::div_mod::lemma_fundamental_div_mod(m, e);
    let (p, r, q, t) = (n / d, n % d, m / e, m % e);
    if p < q {
        assert(false) by (nonlinear_arith)
            requires
                n == d * p + r,
                m == e * q + t,
                n * e == m * d,
                0 <= r < d,
                0 <= t < e,
                p + 1 <= q,
        ;
    }
    if q < p {
        assert(false) by (nonlinear_arith)
            requires
                n == d * p + r,
                m == e * q + t,
                n * e == m * d,
                0 <= r < d,
                0 <= t < e,
                q + 1 <= p,
        ;
    }
}

proof fn lemma_too_fine(a: Options, b: Options)
    requires
        a.valid(),
        b.valid(),
        alike(a, b),
        a.too_fine(),
    ensures
        b.too_fine(),
{
    two_bounds(a.max_zoom as int);
    let (ra, rb, ea, eb) = (a.radius as int, b.radius as int, a.extent as int, b.extent as int);
    let t = two(a.max_zoom as int);
    let w = 2 * CELL_SPAN;
    assert((eb * t) * ea >= (w * rb) * ea) by (nonlinear_arith)
        requires
            ea * t >= w * ra,
            ra * eb == rb * ea,
            ea > 0,
            eb > 0,
    ;
    let (x, y) = (eb * t, w * rb);
    assert(x >= y) by (nonlinear_arith)
        requires
            x * ea >= y * ea,
            ea > 0,
    ;
}

/// Options that are alike have the same grid cells.
pub proof fn lemma_cells_alike(a: Options, b: Options, x: int, z: int)
    requires
        a.valid(),
        b.valid(),
        alike(a, b),
        0 <= z,
    ensures
        a.cell(x, z) == b.cell(x, z),
{
    if a.too_fine() {
        lemma_too_fine(a, b);
    }
    if b.too_fine() {
        lemma_too_fine(b, a);
    }
    if !a.too_fine() {
        let t = two(z);
        let (ra, rb, ea, eb) = (a.radius as int, b.radius as int, a.extent as int, b.extent as int);
        let (n, d) = (x * (ea * t), 2 * a.span());
        let (m, e) = (x * (eb * t), 2 * b.span());
        assert(d > 0 && e > 0);
        assert(n * e == m * d) by (nonlinear_arith)
            requires
                n == x * (ea * t),
                m == x * (eb * t),
                d == 2 * (PREC_I * ra),
                e == 2 * (PREC_I * rb),
                ra * eb == rb * ea,
        ;
        lemma_same_quotient(n, d, m, e);
    }
}

/// A point takes the same place in the lists, and leaves the same.
proof fn lemma_seats(lists: Lists, net: Net, o: Options, s: int)
    requires
        net.opts.valid(),
        o.valid(),
        alike(net.opts, o),
    ensures
        lists.seated(with_options(net, o), s) == lists.seated(net, s),
        lists.unseated(with_options(net, o), s) == lists.unseated(net, s),
        floor_key(with_options(net, o), s) == floor_key(net, s),
{
    lemma_cells_alike(net.opts, o, net.pts[s].x, 0);
    lemma_cells_alike(net.opts, o, net.pts[s].y, 0);
}

proof fn lemma_rehomed_lists(lists: Lists, net: Net, o: Options, q: Seq<int>)
    requires
        net.opts.valid(),
        o.valid(),
        comparable(net, o),
        forall|i: int| 0 <= i < q.len() ==> net.has(#[trigger] q[i]),
    ensures
        lists.rehomed(with_options(net, o), q) == lists.rehomed(net, q),
    decreases q.len(),
{
    if q.len() > 0 {
        let rest = q.drop_last();
        assert forall|i: int| 0 <= i < rest.len() implies net.has(#[trigger] rest[i]) by {
            assert(rest[i] == q[i]);
        }
        lemma_rehomed_lists(lists, net, o, rest);
        lemma_rehome_alike(net, o, rest);
        lemma_rehome_alike(net, o, q);
        let before = lists.rehomed(net, rest);
        lemma_seats(before, net.rehome(rest), o, q.last());
        let mid = before.unseated(net.rehome(rest), q.last());
        lemma_seats(mid, net.rehome(q), o, q.last());
    }
}

proof fn lemma_unlinked_lists(lists: Lists, net: Net, o: Options, s: int)
    requires
        net.opts.valid(),
        o.valid(),
        comparable(net, o),
        net.has(s),
        net.pts[s].parent != Some(s),
    ensures
        lists.unlinked(with_options(net, o), s) == lists.unlinked(net, s),
{
    lemma_unlinked_alike(net, o, s);
    lemma_seats(lists, net, o, s);
    let gone = net.drop_point(s);
    assert(with_options(net, o).drop_point(s) == with_options(gone, o));
    lemma_rehomed_lists(lists.unseated(net, s), gone, o, net.heirs_of(s));
}

/// **The lists go by the ratio too**: under options that are alike, a point that comes, moves or
/// leaves changes them in the same way.
pub proof fn law_ratio_of_the_lists(lists: Lists, net: Net, o: Options, s: int, p: Point)
    requires
        net.ok(),
        net.pts.dom().finite(),
        o.valid(),
        alike(net.opts, o),
    ensures
        lists.seated(with_options(net, o).place(s, p), s) == lists.seated(net.place(s, p), s),
        net.has(s) ==> lists.moved(with_options(net, o), s, p.x, p.y) == lists.moved(
            net,
            s,
            p.x,
            p.y,
        ),
        net.has(s) ==> lists.unlinked(with_options(net, o), s) == lists.unlinked(net, s),
{
    law_ratio(net, o, s, p);
    lemma_seats(lists, net.place(s, p), o, s);
    if net.has(s) {
        assert(net.covering(s) && net.sound_point(s));
        let (x, y) = (p.x, p.y);
        let next = net.moved(s, x, y);
        lemma_slides(net, o, s, x, y);
        lemma_unlinked_alike(net, o, s);
        lemma_rehome_alike(net.drop_point(s), o, net.heirs_of(s));
        assert(next.opts == net.opts);
        lemma_seats(lists, net, o, s);
        lemma_seats(lists, next, o, s);
        lemma_seats(lists.unseated(net, s), next, o, s);
        lemma_unlinked_lists(lists, net, o, s);
        lemma_seats(lists.unlinked(net, s), next, o, s);
    }
}

} // verus!
