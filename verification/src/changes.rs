//! What a caller can rely on of a change to an index: who is where afterwards, and where a new
//! point is hung.
use crate::calls::{law_calls_keep_order, Call, Holdings};
use crate::decimal::{decimal_before, lemma_decimal_total};
use crate::geometry::{dist2, sq, two, Options, PREC_I};
use crate::index::update::{insert_counted, move_counted, remove_counted};
use crate::index::Stats;
use crate::net::{law_insert_keeps_invariants, law_move_keeps_invariants, lemma_finest,
    lemma_heirs_exist, lemma_heirs_unique, lemma_nearest_exists, Net, Point};
use crate::register::{law_insert_registers, law_move_registers, law_refile_registers,
    law_remove_registers, lemma_register};
use crate::sums::{lemma_total_ext, lemma_total_le, lemma_total_nonneg, total};
use vstd::prelude::*;

verus! {

/// **A call changes whom it names and nobody else**: put somewhere, a point is there afterwards, a
/// known one in the cells it had, a new one in its category, or in the cells that were given;
/// removed, it is not there any more. Everybody else is where they were.
pub proof fn law_call(h: Holdings, call: Call)
    requires
        h.ok(),
        call.placed(),
    ensures
        h.after(call).ok(),
        h.after(call).net.opts == h.net.opts,
        ({
            let (a, b) = (h.net.register(), h.after(call).net.register());
            match call {
                Call::Put { id, x, y, cat } => b == a.insert(
                    id,
                    (
                        x,
                        y,
                        if a.contains_key(id) {
                            a[id].2
                        } else if h.net.opts.cells_in_force() > 0 {
                            seq![cat]
                        } else {
                            seq![]
                        },
                    ),
                ),
                Call::File { id, x, y, cells } => b == a.insert(id, (x, y, cells)),
                Call::Remove { id } => b == a.remove(id),
            }
        }),
{
    law_calls_keep_order(h, call);
    let net = h.net;
    let id = call.id();
    let s = h.handles.next();
    assert(!net.has(s)) by {
        if h.handles.free.len() > 0 {
            assert(h.handles.free.last() == h.handles.free[h.handles.free.len() - 1]);
        }
    }
    if net.knows(id) {
        let t = net.holder(id);
        assert(net.named(t, id));
        lemma_register(net, t, id);
        match call {
            Call::Put { id, x, y, cat } => {
                law_move_keeps_invariants(net, t, x, y);
                law_move_registers(net, t, x, y);
            },
            Call::File { id, x, y, cells } => {
                law_move_keeps_invariants(net, t, x, y);
                law_move_registers(net, t, x, y);
                let m = net.moved(t, x, y);
                law_refile_registers(m, t, cells);
                assert(net.register().insert(id, (x, y, net.pts[t].cells)).insert(
                    id,
                    (x, y, cells),
                ) =~= net.register().insert(id, (x, y, cells)));
            },
            Call::Remove { id } => {
                law_remove_registers(net, t);
            },
        }
    } else {
        assert(!net.register().contains_key(id));
        assert forall|t: int| #[trigger] net.has(t) implies net.pts[t].id != id by {
            if net.pts[t].id == id {
                assert(net.named(t, id));
            }
        }
        match call {
            Call::Put { id, x, y, cat } => {
                let p = Point {
                    id,
                    x,
                    y,
                    cells: crate::index::update::category_cells(net.opts, cat),
                    level: 0,
                    parent: None,
                };
                law_insert_keeps_invariants(net, s, p);
                law_insert_registers(net, s, p);
                assert(p.cells =~= if net.opts.cells_in_force() > 0 {
                    seq![cat]
                } else {
                    seq![]
                });
            },
            Call::File { id, x, y, cells } => {
                let p = Point { id, x, y, cells, level: 0, parent: None };
                law_insert_keeps_invariants(net, s, p);
                law_insert_registers(net, s, p);
            },
            Call::Remove { id } => {
                assert(net.register().remove(id) =~= net.register());
            },
        }
    }
}

/// Point `t` is a center of level `z` and within its radius of a place.
pub open spec fn within_radius(net: Net, t: int, z: int, x: int, y: int) -> bool {
    net.has(t) && net.pts[t].level <= z && dist2(net.pts[t].x, net.pts[t].y, x, y) * sq(
        net.opts.extent * two(z),
    ) <= sq(PREC_I * net.opts.radius)
}

/// **A new point is hung where it belongs**: on the coarsest level from which on no center is
/// within the radius of it, under the nearest center of the level before; of two as near, under
/// the one whose id comes first in decimal.
pub proof fn law_new_point(net: Net, s: int, p: Point, z: int, t: int)
    requires
        net.ok(),
        net.pts.dom().finite(),
        !net.has(s),
    ensures
        ({
            let m = net.place(s, p);
            let e = m.pts[s];
            &&& e.id == p.id && e.x == p.x && e.y == p.y && e.cells == p.cells
            &&& 0 <= e.level <= net.opts.max_zoom + 1
            &&& e.level <= z <= net.opts.max_zoom ==> !within_radius(net, t, z, p.x, p.y)
            &&& e.level == 0 <==> e.parent is None
            &&& e.level > 0 ==> within_radius(net, e.parent->0, e.level - 1, p.x, p.y)
            &&& e.level > 0 && within_radius(net, t, e.level - 1, p.x, p.y) && t != e.parent->0 ==> {
                let q = e.parent->0;
                let (a, b) = (
                    dist2(net.pts[q].x, net.pts[q].y, p.x, p.y),
                    dist2(net.pts[t].x, net.pts[t].y, p.x, p.y),
                );
                a < b || (a == b && decimal_before(net.pts[q].id as int, net.pts[t].id as int))
            }
            &&& forall|r: int| r != s ==> (m.has(r) <==> #[trigger] net.has(r)) && m.pts[r]
                == net.pts[r]
        }),
{
    let (x, y) = (p.x, p.y);
    lemma_finest(net, net.top(), x, y);
    let f = net.finest(net.top(), x, y);
    assert(net.opts.valid());
    if f >= 0 {
        lemma_nearest_exists(net, f, x, y);
        let q = net.nearest(f, x, y);
        assert(net.nearest_is(q, f, x, y));
        assert(net.covers(q, f, x, y));
        if within_radius(net, t, f, x, y) {
            assert(net.covers(t, f, x, y));
        }
    }
    if f < z <= net.top() && within_radius(net, t, z, x, y) {
        assert(net.covers(t, z, x, y));
        assert(net.covered(z, x, y));
    }
}

/// Squared distance `d` is within the radius of level `z`, stretched by the slack.
pub open spec fn within_slack(net: Net, z: int, d: int) -> bool {
    d * sq(net.opts.extent * 1000 * two(z)) <= sq(
        PREC_I * net.opts.radius * (1000 + net.opts.hysteresis),
    )
}

/// **A small move leaves the tree alone**: where a point comes within the radius of no other center
/// of its levels, and stays within the radius, stretched by the slack, of its parent and of its
/// children, nothing changes but its position.
pub proof fn law_small_move(net: Net, s: int, x: int, y: int)
    requires
        net.ok(),
        net.has(s),
        forall|t: int, z: int|
            t != s && net.pts[s].level <= z <= net.opts.max_zoom ==> !#[trigger] within_radius(
                net,
                t,
                z,
                x,
                y,
            ),
        net.pts[s].parent matches Some(q) ==> within_slack(
            net,
            net.pts[s].level - 1,
            dist2(net.pts[q].x, net.pts[q].y, x, y),
        ),
        forall|c: int| #[trigger]
            net.child(c, s) ==> within_slack(
                net,
                net.pts[c].level - 1,
                dist2(net.pts[c].x, net.pts[c].y, x, y),
            ),
    ensures
        net.moved(s, x, y).pts == net.pts.insert(s, Point { x, y, ..net.pts[s] }),
{
    let d = net.drop_point(s);
    assert forall|z: int| net.pts[s].level <= z <= net.top() implies !#[trigger] d.covered(z, x, y) by {
        if d.covered(z, x, y) {
            let t = choose|t: int| d.covers(t, z, x, y);
            assert(within_radius(net, t, z, x, y));
        }
    }
    assert(net.may_slide(s, x, y));
    if net.pts[s].x == x && net.pts[s].y == y {
        assert(net.pts.insert(s, Point { x, y, ..net.pts[s] }) =~= net.pts);
    }
}

/// Another center is within its radius of a place, on a level from the point's own on.
pub open spec fn in_the_way(net: Net, s: int, x: int, y: int, t: int, z: int) -> bool {
    t != s && net.pts[s].level <= z <= net.opts.max_zoom && within_radius(net, t, z, x, y)
}

/// A place is out of the stretched radius of a point's parent.
pub open spec fn too_far_above(net: Net, s: int, x: int, y: int) -> bool {
    net.pts[s].parent matches Some(q) && !within_slack(
        net,
        net.pts[s].level - 1,
        dist2(net.pts[q].x, net.pts[q].y, x, y),
    )
}

/// A child would be out of the stretched radius of its parent.
pub open spec fn too_far_below(net: Net, s: int, x: int, y: int, c: int) -> bool {
    net.child(c, s) && !within_slack(
        net,
        net.pts[c].level - 1,
        dist2(net.pts[c].x, net.pts[c].y, x, y),
    )
}

/// **Any other move is a removal and an insertion**: where the new place is within the radius of a
/// center from the point's own level on, or too far from its parent or from a child, the index is
/// as if the point had been taken out and put in anew.
pub proof fn law_other_move(net: Net, s: int, x: int, y: int, t: int, z: int, c: int)
    requires
        net.ok(),
        net.has(s),
        net.pts[s].x != x || net.pts[s].y != y,
        in_the_way(net, s, x, y, t, z) || too_far_above(net, s, x, y) || too_far_below(
            net,
            s,
            x,
            y,
            c,
        ),
    ensures
        net.moved(s, x, y) == net.unlinked(s).place(s, (Point { x, y, ..net.pts[s] })),
{
    let d = net.drop_point(s);
    assert(net.opts.valid());
    if in_the_way(net, s, x, y, t, z) {
        assert(d.has(t) && d.pts[t] == net.pts[t]);
        assert(d.covers(t, z, x, y));
        assert(d.covered(z, x, y));
    }
    assert(!net.may_slide(s, x, y));
}

/// Rehoming touches those who are rehomed, and each of them once.
proof fn lemma_rehome_frame(net: Net, q: Seq<int>, t: int)
    requires
        q.no_duplicates(),
    ensures
        !q.contains(t) ==> net.rehome(q).pts.contains_key(t) == net.pts.contains_key(t)
            && net.rehome(q).pts[t] == net.pts[t],
        net.rehome(q).opts == net.opts,
        forall|c: int| #[trigger] net.rehome(q).pts.contains_key(c) ==> net.pts.contains_key(c)
            || q.contains(c),
        q.len() > 0 && t == q[0] ==> net.rehome(q).pts[t] == net.drop_point(t).place(
            t,
            net.pts[t],
        ).pts[t],
    decreases q.len(),
{
    if q.len() > 0 {
        let r = q.drop_last();
        assert(r.no_duplicates());
        lemma_rehome_frame(net, r, t);
        let c = q.last();
        assert(q[q.len() - 1] == c);
        assert(!r.contains(c)) by {
            if r.contains(c) {
                let j = choose|j: int| 0 <= j < r.len() && r[j] == c;
                assert(q[j] == q[q.len() - 1]);
            }
        }
        if !q.contains(t) {
            assert(t != c);
            if r.contains(t) {
                let j = choose|j: int| 0 <= j < r.len() && r[j] == t;
                assert(q[j] == t);
            }
        }
        assert forall|e: int| #[trigger] net.rehome(q).pts.contains_key(e) implies net.pts.contains_key(
            e,
        ) || q.contains(e) by {
            if e != c && r.contains(e) {
                let j = choose|j: int| 0 <= j < r.len() && r[j] == e;
                assert(q[j] == e);
            }
        }
        if t == q[0] {
            if q.len() == 1 {
                assert(r =~= Seq::<int>::empty());
                assert(net.rehome(r) == net);
            } else {
                assert(r[0] == q[0]);
                assert(c != t);
            }
        }
    }
}

/// **A removal leaves the others where they hang**: nobody but those who hung under the point
/// changes level or parent.
pub proof fn law_removal_frame(net: Net, s: int, t: int)
    requires
        net.ok(),
        net.pts.dom().finite(),
        t != s,
        net.pts[t].parent != Some(s),
    ensures
        net.unlinked(s).has(t) == net.has(t),
        net.has(t) ==> net.unlinked(s).pts[t] == net.pts[t],
{
    lemma_heirs_exist(net, s);
    let q = net.heirs_of(s);
    assert(q.contains(t) <==> net.child(t, s));
    lemma_rehome_frame(net.drop_point(s), q, t);
}

/// **Who comes first is placed first**: of those who hung under a point that is removed, the one of
/// the coarsest level, of several the one whose id comes first in decimal, is put in anew before
/// the others, while they still hang where they hung.
pub proof fn law_first_heir(net: Net, s: int, c: int)
    requires
        net.ok(),
        net.pts.dom().finite(),
        net.has(s),
        net.child(c, s),
        forall|d: int| #[trigger]
            net.child(d, s) && d != c ==> net.pts[c].level < net.pts[d].level || (net.pts[c].level
                == net.pts[d].level && decimal_before(
                net.pts[c].id as int,
                net.pts[d].id as int,
            )),
    ensures
        net.unlinked(s).pts[c] == net.drop_point(s).drop_point(c).place(c, net.pts[c]).pts[c],
{
    lemma_heirs_exist(net, s);
    let q = net.heirs_of(s);
    assert(q.contains(c) <==> net.child(c, s));
    let j = choose|j: int| 0 <= j < q.len() && q[j] == c;
    if j > 0 {
        assert(q.contains(q[0]));
        assert(net.child(q[0], s));
        assert(net.earlier(q[0], q[j]));
        assert(q[0] != q[j]);
        lemma_decimal_total(net.pts[q[0]].id as int, net.pts[c].id as int);
    }
    assert(c != s) by {
        assert(net.covering(c));
        assert(net.center(s, net.pts[c].level - 1));
    }
    lemma_rehome_frame(net.drop_point(s), q, c);
    assert(net.drop_point(s).pts[c] == net.pts[c]);
}

/// **Distances and zooms**: the square of a distance is the sum of the squares along both axes, and
/// a zoom is twice as fine as the one before.
pub proof fn law_measures(a: int, b: int, x: int, y: int, z: int)
    requires
        0 <= z,
    ensures
        dist2(a, b, x, y) == (a - x) * (a - x) + (b - y) * (b - y),
        two(0) == 1,
        two(z + 1) == 2 * two(z),
{
    reveal(vstd::arithmetic::power2::pow2);
    vstd::arithmetic::power2::lemma2_to64();
    vstd::arithmetic::power2::lemma_pow2_unfold((z + 1) as nat);
}

/// **Changes are counted**: an insertion as one insertion, a removal as one removal, a move as one
/// move, either absorbed or repaired; putting a point where it is counts as nothing.
pub proof fn law_changes_are_counted(a: Stats, b: Stats, net: Net, s: int, x: int, y: int)
    ensures
        insert_counted(a, b) && b.inserts < u64::MAX ==> a.inserts == b.inserts + 1 && a.removes
            == b.removes && a.moves == b.moves,
        remove_counted(a, b, net, s) && b.removes < u64::MAX ==> a.removes == b.removes + 1
            && a.inserts == b.inserts && a.moves == b.moves,
        move_counted(a, b, net, s, x, y) && b.moves < u64::MAX && b.moves_fast < u64::MAX
            && b.moves_rebuilt < u64::MAX ==> {
            let same = net.pts[s].x == x && net.pts[s].y == y;
            &&& a.inserts == b.inserts && a.removes == b.removes
            &&& a.moves == b.moves + (if same {
                0int
            } else {
                1
            })
            &&& a.moves - b.moves == (a.moves_fast - b.moves_fast) + (a.moves_rebuilt
                - b.moves_rebuilt)
            &&& a.moves_fast >= b.moves_fast && a.moves_rebuilt >= b.moves_rebuilt
        },
{
}

/// Nothing is in the way of a move, and nobody is left too far off.
pub open spec fn is_small(net: Net, s: int, x: int, y: int) -> bool {
    &&& forall|t: int, z: int| !#[trigger] in_the_way(net, s, x, y, t, z)
    &&& !too_far_above(net, s, x, y)
    &&& forall|c: int| !#[trigger] too_far_below(net, s, x, y, c)
}

/// **Small moves are counted as such**: a move is absorbed exactly if it is small, and any other is
/// a rebuilding one.
pub proof fn law_moves_are_told_apart(a: Stats, b: Stats, net: Net, s: int, x: int, y: int)
    requires
        net.ok(),
        net.has(s),
        net.pts[s].x != x || net.pts[s].y != y,
        move_counted(a, b, net, s, x, y),
        b.moves < u64::MAX,
        b.moves_fast < u64::MAX,
        b.moves_rebuilt < u64::MAX,
    ensures
        a.moves == b.moves + 1,
        is_small(net, s, x, y) ==> a.moves_fast == b.moves_fast + 1 && a.moves_rebuilt
            == b.moves_rebuilt,
        !is_small(net, s, x, y) ==> a.moves_fast == b.moves_fast && a.moves_rebuilt
            == b.moves_rebuilt + 1,
{
    let d = net.drop_point(s);
    assert(net.opts.valid());
    if is_small(net, s, x, y) {
        assert forall|z: int| net.pts[s].level <= z <= net.top() implies !#[trigger] d.covered(z, x, y) by {
            if d.covered(z, x, y) {
                let t = choose|t: int| d.covers(t, z, x, y);
                assert(in_the_way(net, s, x, y, t, z));
            }
        }
        assert forall|c: int| #[trigger] net.child(c, s) implies net.opts.near_with_slack(
            net.pts[c].level - 1,
            net.far(c, x, y),
        ) by {
            assert(!too_far_below(net, s, x, y, c));
        }
        assert(net.may_slide(s, x, y));
    } else {
        if exists|t: int, z: int| in_the_way(net, s, x, y, t, z) {
            let (t, z) = choose|t: int, z: int| in_the_way(net, s, x, y, t, z);
            assert(d.has(t) && d.pts[t] == net.pts[t]);
            assert(d.covers(t, z, x, y));
            assert(d.covered(z, x, y));
        }
        assert(!net.may_slide(s, x, y));
    }
}

/// **Who is hung elsewhere is counted**: a removal counts one for everybody who hung under the point.
pub proof fn law_reparents_are_counted(a: Stats, b: Stats, net: Net, s: int)
    requires
        net.ok(),
        net.pts.dom().finite(),
        remove_counted(a, b, net, s),
        b.reparents + Set::new(|c: int| net.child(c, s)).len() <= u64::MAX,
    ensures
        a.reparents == b.reparents + Set::new(|c: int| net.child(c, s)).len(),
{
    lemma_heirs_exist(net, s);
    let q = net.heirs_of(s);
    let all = Set::new(|c: int| net.child(c, s));
    assert forall|c: int| q.to_set().contains(c) == all.contains(c) by {
        assert(q.contains(c) <==> net.child(c, s));
    }
    assert(q.to_set() =~= all);
    q.unique_seq_to_set();
}

proof fn lemma_promoted(d: Net, q: Seq<int>)
    requires
        q.no_duplicates(),
    ensures
        d.promoted(q) == total(
            q.len() as int,
            |i: int|
                if d.rehome(q).pts[q[i]].level < d.pts[q[i]].level {
                    1int
                } else {
                    0
                },
        ),
    decreases q.len(),
{
    if q.len() > 0 {
        let r = q.drop_last();
        let c = q.last();
        let n = q.len() - 1;
        assert(q[n] == c);
        assert(r.no_duplicates());
        lemma_promoted(d, r);
        let f = |i: int|
            if d.rehome(r).pts[r[i]].level < d.pts[r[i]].level {
                1int
            } else {
                0
            };
        let g = |i: int|
            if d.rehome(q).pts[q[i]].level < d.pts[q[i]].level {
                1int
            } else {
                0
            };
        assert forall|i: int| 0 <= i < n implies #[trigger] f(i) == g(i) by {
            assert(r[i] == q[i]);
            assert(q[i] != q[n]);
        }
        lemma_total_ext(n, f, g);
        assert(!r.contains(c)) by {
            if r.contains(c) {
                let j = choose|j: int| 0 <= j < r.len() && r[j] == c;
                assert(q[j] == q[n]);
            }
        }
        lemma_rehome_frame(d, r, c);
        assert(total(n + 1, g) == total(n, g) + g(n));
    }
}

/// **Who becomes a coarser center is counted**: a removal counts one for everybody who hung under the
/// point and is a center of coarser zooms afterwards.
pub proof fn law_promotions_are_counted(a: Stats, b: Stats, net: Net, s: int, q: Seq<int>)
    requires
        net.ok(),
        net.has(s),
        net.heirs(s, q),
        remove_counted(a, b, net, s),
        b.promotions + q.len() <= u64::MAX,
    ensures
        a.promotions == b.promotions + total(
            q.len() as int,
            |i: int|
                if net.unlinked(s).pts[q[i]].level < net.pts[q[i]].level {
                    1int
                } else {
                    0
                },
        ),
{
    lemma_heirs_unique(net, s, q);
    let d = net.drop_point(s);
    lemma_promoted(d, q);
    let f = |i: int|
        if d.rehome(q).pts[q[i]].level < d.pts[q[i]].level {
            1int
        } else {
            0
        };
    let g = |i: int|
        if net.unlinked(s).pts[q[i]].level < net.pts[q[i]].level {
            1int
        } else {
            0
        };
    assert forall|i: int| 0 <= i < q.len() implies #[trigger] f(i) == g(i) by {
        assert(q.contains(q[i]));
        assert(net.child(q[i], s));
        assert(net.covering(q[i]));
        assert(net.center(s, net.pts[q[i]].level - 1));
        assert(q[i] != s);
    }
    lemma_total_ext(q.len() as int, f, g);
    let one = |i: int| 1int;
    lemma_total_le(q.len() as int, f, one);
    lemma_ones(q.len() as int);
    lemma_total_nonneg(q.len() as int, f);
}

proof fn lemma_ones(n: int)
    requires
        0 <= n,
    ensures
        total(n, |i: int| 1int) == n,
    decreases n,
{
    if n > 0 {
        lemma_ones(n - 1);
    }
}

/// **What an index can be built from**: zooms in order and up to 20, a radius and an extent, and, with
/// filters, no more cells than there can be and room for one of them at least.
pub proof fn law_valid_options(o: Options)
    ensures
        o.valid() <==> {
            &&& o.min_zoom <= o.max_zoom <= 20
            &&& o.radius > 0 && o.extent > 0
            &&& o.cells_in_force() <= 0x100_0000
            &&& o.cells_in_force() == 0 || o.max_cells_per_device > 0
            &&& o.fits(1024)
        },
{
}

} // verus!
