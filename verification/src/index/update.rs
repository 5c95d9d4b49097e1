//! Inserting, moving, re-filing and removing points.
use super::arena::{Arena, Node, DEAD};
use super::mass::{ints, lemma_masses, lemma_total_bound, mass_range};
use super::place::{counted, rehoming_counted};
use super::{cells_ok, measure, weight, NetCluster, Slot, Stats, NONE};
use crate::calls::{no_handles, Call};
use crate::cells::{can_walk, holds, load_fits, mass_fits, own_load, CellTable};
use crate::forest::{lemma_aggregate_total, lemma_shift};
use crate::geometry::{distance2, in_world, Geometry, Options};
use crate::grid::Grid;
use crate::net::{
    law_insert_keeps_invariants, law_move_keeps_invariants, law_refile_keeps_invariants,
    law_remove_keeps_invariants, Net, Point,
};
use crate::order::{floor_key, fronted, lifted, no_lists, Lists};
use crate::register::lemma_register;
use crate::sums::{lemma_total_change, lemma_total_ext, lemma_total_zero, total};
use std::collections::HashMap;
use vstd::prelude::*;

verus! {

/// A sum of summands up to `k`, one of which is 0.
proof fn lemma_total_bound_but(n: int, k: int, f: spec_fn(int) -> int, s: int)
    requires
        0 <= s < n,
        0 <= k,
        f(s) == 0,
        forall|i: int| 0 <= i < n ==> #[trigger] f(i) <= k,
    ensures
        total(n, f) <= (n - 1) * k,
{
    let g = |i: int|
        if i == s {
            k
        } else {
            f(i)
        };
    lemma_total_change(n, f, g, s);
    lemma_total_bound(n, k, g);
    assert((n - 1) * k == n * k - k) by (nonlinear_arith);
}

/// Counters at zero.
pub open spec fn no_stats() -> Stats {
    Stats {
        inserts: 0,
        removes: 0,
        moves: 0,
        moves_fast: 0,
        moves_rebuilt: 0,
        promotions: 0,
        reparents: 0,
        probes: 0,
    }
}

/// `b` is `a` with a new point, under a handle that was free, where it belongs.
pub open spec fn inserted(
    a: Net,
    b: Net,
    s: int,
    id: u64,
    x: int,
    y: int,
    cells: Seq<u32>,
) -> bool {
    &&& !a.has(s)
    &&& b == a.place(s, (Point { id, x, y, cells, level: 0, parent: None }))
}

/// The cells of a point of category `cat`.
pub open spec fn category_cells(o: Options, cat: u32) -> Seq<u32> {
    if o.cells_in_force() == 0 {
        Seq::empty()
    } else {
        seq![cat]
    }
}

/// The counters after point `s` of `net` moved to a position.
pub open spec fn move_counted(a: Stats, b: Stats, net: Net, s: int, x: int, y: int) -> bool {
    if net.pts[s].x == x && net.pts[s].y == y {
        a == b
    } else if net.may_slide(s, x, y) {
        a == (Stats {
            moves: counted(b.moves, 1),
            moves_fast: counted(b.moves_fast, 1),
            probes: a.probes,
            ..b
        })
    } else {
        rehoming_counted(
            a,
            (Stats {
                moves: counted(b.moves, 1),
                moves_rebuilt: counted(b.moves_rebuilt, 1),
                ..b
            }),
            net.drop_point(s),
            net.heirs_of(s),
        )
    }
}

/// The counters after an insertion.
pub open spec fn insert_counted(a: Stats, b: Stats) -> bool {
    a == (Stats { inserts: counted(b.inserts, 1), probes: a.probes, ..b })
}

/// The counters after point `s` of `net` was removed.
pub open spec fn remove_counted(a: Stats, b: Stats, net: Net, s: int) -> bool {
    rehoming_counted(
        a,
        (Stats { removes: counted(b.removes, 1), ..b }),
        net.drop_point(s),
        net.heirs_of(s),
    )
}

/// A copy of a list of cells.
pub fn copy_cells(v: &[u32]) -> (r: Vec<u32>)
    ensures
        r@ == v@,
{
    let mut r: Vec<u32> = Vec::new();
    let mut i: usize = 0;
    while i < v.len()
        invariant
            i <= v@.len(),
            r@ == v@.take(i as int),
        decreases v@.len() - i,
    {
        r.push(v[i]);
        proof {
            assert(v@.take(i + 1) =~= v@.take(i as int).push(v@[i as int]));
        }
        i = i + 1;
    }
    proof {
        assert(v@.take(v@.len() as int) =~= v@);
    }
    r
}

impl NetCluster {
    /// While a slot is outside the tree there is room for the cells of its point.
    proof fn lemma_room_outside(&self, s: int)
        requires
            self.held(),
            0 <= s < self.slots(),
            !self.live(s),
        ensures
            self.table.load(s) == 0,
            !self.opts().dense() && self.opts().cells_in_force() > 0 ==> load_fits(
                self.table.total_load() + self.opts().max_cells_per_device,
            ),
            self.opts().cells_in_force() == 0 ==> self.table.total_load() == 0,
    {
        self.lemma_held();
        self.lemma_forest();
        let f = self.forest();
        let o = self.opts();
        let k = o.max_cells_per_device as int;
        let w = o.cells_in_force();
        assert(measure(3, -1));
        let (b3, w3) = (self.agg(3, -1), self.weigh(3, -1));
        assert(f.all_balanced(b3, w3));
        let top = o.max_zoom + 1;
        assert forall|t: int| #[trigger] (f.on)(t) implies (f.level)(t) <= top && w3(t) >= 0 by {
            assert(self.live(t));
            assert(self.good_data(t));
        }
        lemma_aggregate_total(f, b3, w3, top);
        assert forall|t: int| 0 <= t < f.n implies #[trigger] f.at_nodes(w3)(t) <= (if w == 0 {
            0
        } else {
            k
        }) by {
            if (f.on)(t) {
                assert(self.live(t));
                assert(self.good_data(t));
            }
        }
        lemma_total_ext(f.n, f.at_nodes(b3), self.live_load());
        let tw = total(f.n, f.at_nodes(w3));
        let n = self.slots();
        if w > 0 {
            lemma_total_bound_but(f.n, k, f.at_nodes(w3), s);
            let c = top + 1;
            assert(c * tw <= c * ((n - 1) * k)) by (nonlinear_arith)
                requires
                    tw <= (n - 1) * k,
                    c >= 0,
            ;
            assert(c * ((n - 1) * k) + k <= c * (n * k)) by (nonlinear_arith)
                requires
                    c >= 1,
                    k >= 0,
            ;
            self.lemma_entry_room();
        } else {
            lemma_total_bound(f.n, 0, f.at_nodes(w3));
            assert(f.n * 0 == 0);
            assert((top + 1) * tw <= 0) by (nonlinear_arith)
                requires
                    tw <= 0,
                    top + 1 >= 0,
            ;
            assert forall|t: int| 0 <= t < n implies #[trigger] self.live_load()(t) >= 0 by {
                if self.live(t) {
                    assert(mass_range(3, self.mass(3, -1, t)));
                }
            }
            crate::sums::lemma_total_nonneg(n, self.live_load());
        }
    }

    /// Write a point into a slot outside the tree.
    fn prepare(&mut self, s: Slot, id: u64, x: i32, y: i32, cells: Vec<u32>)
        requires
            old(self).sound(),
            s < old(self).arena.n,
            !old(self).live(s as int),
            old(self).arena.up(s as int) == -1,
            old(self).arena.kids@[s as int].len() == 0,
            in_world(x as int),
            in_world(y as int),
            cells_ok(old(self).opts(), cells@),
        ensures
            final(self).ready(s as int),
            final(self).gridded(),
            final(self).net() == old(self).net(),
            final(self).point(s as int).id == id,
            final(self).point(s as int).x == x,
            final(self).point(s as int).y == y,
            final(self).point(s as int).cells == cells@,
            final(self).arena.kids@[s as int].len() == 0,
            final(self).geo == old(self).geo,
            final(self).ids == old(self).ids,
            final(self).stats == old(self).stats,
            final(self).arena.n == old(self).arena.n,
            final(self).arena.spare == old(self).arena.spare,
            final(self).lists() == old(self).lists(),
            final(self).arena.cap() == old(self).arena.cap(),
    {
        let ghost o = *self;
        let ghost si = s as int;
        proof {
            o.lemma_room_outside(si);
            if o.opts().cells_in_force() == 0 && cells@.len() > 0 {
                assert(cells@[0] < o.opts().cells_in_force());
            }
        }
        proof {
            cells@.unique_seq_to_set();
        }
        self.table.set_self(s, &cells, x as i64, y as i64);
        let v = self.arena.nodes[s as usize];
        self.arena.nodes[s as usize] = Node {
            qx: x,
            qy: y,
            sx: x as i64,
            sy: y as i64,
            cnt: 1,
            ext: id,
            ..v
        };
        let ghost cs = cells@;
        self.arena.tags[s as usize] = cells;
        proof {
            self.arena.lemma_rewrite(o.arena);
            assert forall|t: int| #[trigger] self.live(t) == o.live(t) by {
                if 0 <= t < o.arena.n {
                    let w = self.arena.nodes[t];
                }
            }
            assert forall|t: int| #[trigger] self.level(t) == o.level(t) by {
                if 0 <= t < o.arena.cap() {
                    let w = self.arena.nodes[t];
                }
            }
            assert forall|t: int| t != si && 0 <= t < o.arena.cap() implies #[trigger] self.point(t)
                == o.point(t) by {
                let w = self.arena.nodes[t];
                assert(self.arena.tags[t] == o.arena.tags[t]);
            }
            assert forall|t: int| #[trigger] self.live(t) implies self.good_data(t) && self.level(t)
                <= self.opts().max_zoom + 1 by {
                assert(o.live(t));
                assert(o.good_data(t));
                assert(self.point(t) == o.point(t));
                assert(self.level(t) == o.level(t));
            }
            assert(self.net().pts =~= o.net().pts) by {
                assert forall|t: int| #[trigger]
                    self.net().pts.contains_key(t) implies self.net().pts[t] == o.net().pts[t] by {
                    assert(self.live(t));
                    assert(self.point(t) == o.point(t));
                }
            }
            assert forall|t: int, z: int| o.list_fn()(t, z) implies #[trigger] self.key_fn()(t, z)
                == o.key_fn()(t, z) by {
                assert(o.live(t));
                let w = self.arena.nodes[t];
            }
            assert forall|t: int, z: int| #[trigger] self.list_fn()(t, z) == o.list_fn()(t, z) by {
                assert(self.live(t) == o.live(t));
                assert(self.level(t) == o.level(t));
            }
            super::grids::lemma_rekey(
                self.grid@,
                o.key_fn(),
                self.key_fn(),
                o.list_fn(),
                self.list_fn(),
            );
            assert forall|t: int| #[trigger] self.listings()(t) == o.listings()(t) by {
                assert(self.live(t) == o.live(t));
                assert(self.level(t) == o.level(t));
            }
            assert(self.listings() =~= o.listings());
            assert forall|a: int, c: int, t: int|
                t != si && 0 <= t < o.arena.cap() implies #[trigger] self.mass(a, c, t) == o.mass(
                a,
                c,
                t,
            ) by {
                let w = self.arena.nodes[t];
                let m = self.table.val(t, c);
                let l = self.table.load(t);
            }
            assert forall|a: int, c: int| #[trigger] measure(a, c) implies self.forest().all_balanced(
                self.agg(a, c),
                self.weigh(a, c),
            ) && self.forest().balanced(self.agg(a, c), self.weigh(a, c), si) by {
                assert(o.forest().all_balanced(o.agg(a, c), o.weigh(a, c)));
                assert forall|t: int| #[trigger] (self.forest().on)(t) implies self.forest().balanced(
                    self.agg(a, c),
                    self.weigh(a, c),
                    t,
                ) by {
                    assert(self.live(t));
                    assert(o.live(t));
                    assert((o.forest().on)(t));
                    assert(o.forest().balanced(o.agg(a, c), o.weigh(a, c), t));
                    let q = o.arena.kids@[t];
                    assert forall|i: int| 0 <= i < q.len() implies o.agg(a, c)(#[trigger] q[i])
                        == self.agg(a, c)(q[i]) by {
                        assert(o.arena.linked(t, i));
                        assert(q[i] != si);
                        assert(self.mass(a, c, q[i]) == o.mass(a, c, q[i]));
                    }
                    crate::sums::lemma_sum_ext(q, o.agg(a, c), self.agg(a, c));
                    assert(self.mass(a, c, t) == o.mass(a, c, t));
                    assert(self.point(t) == o.point(t));
                }
                let m = self.table.val(si, c);
                let l = self.table.load(si);
                assert(self.point(si).cells == cs);
                assert(self.mass(a, c, si) == self.weigh(a, c)(si));
                assert(crate::sums::sum_over(self.arena.kids@[si], self.agg(a, c)) == 0);
            }
            assert forall|t: int|
                0 <= t < self.arena.cap() && !self.live(t) && t
                    != si implies #[trigger] self.table.load(t) == 0 && self.bare(t) by {
                assert(!o.live(t));
                assert(o.table.load(t) == 0);
            }
        }
    }

    /// The masses after `d` has been added along a chain.
    spec fn after(&self, q: Seq<u32>, d: spec_fn(int, int) -> int) -> spec_fn(int, int, int) -> int {
        |a: int, c: int, x: int|
            self.mass(a, c, x) + (if holds(q, x) {
                d(a, c)
            } else {
                0
            })
    }

    /// The points, but for another one in slot `s`.
    spec fn points_with(&self, s: int, p: Point) -> spec_fn(int) -> Point {
        |t: int|
            if t == s {
                p
            } else {
                self.point(t)
            }
    }

    /// What point `p` in slot `s` weighs more than the one that is there is `d`.
    spec fn differs_by(&self, s: int, p: Point, d: spec_fn(int, int) -> int) -> bool {
        forall|a: int, c: int|
            #![trigger d(a, c)]
            measure(a, c) ==> weight(self.opts().cells_in_force(), a, c, p) == self.weigh(a, c)(s)
                + d(a, c)
    }

    /// Replacing the point of a slot keeps every mass in range.
    proof fn lemma_after(&self, q: Seq<u32>, s: int, p: Point, d: spec_fn(int, int) -> int)
        requires
            self.held(),
            self.live(s),
            self.arena.is_chain(q, s),
            in_world(p.x),
            in_world(p.y),
            cells_ok(self.opts(), p.cells),
            self.differs_by(s, p, d),
        ensures
            forall|a: int, c: int, x: int|
                #![trigger self.mass(a, c, x)]
                measure(a, c) && holds(q, x) ==> mass_range(a, self.mass(a, c, x) + d(a, c)),
            forall|c: int, x: int|
                #![trigger self.mass(0, c, x)]
                holds(q, x) && self.mass(0, c, x) + d(0, c) == 0 ==> self.mass(1, c, x) + d(1, c)
                    == 0 && self.mass(2, c, x) + d(2, c) == 0,
            self.opts().cells_in_force() > 0 && !self.opts().dense() ==> load_fits(
                self.table.total_load(),
            ) && load_fits(self.table.total_load() + q.len() * d(3, -1)),
            forall|a: int, c: int| #[trigger]
                measure(a, c) ==> self.forest().all_balanced(
                    |x: int| self.after(q, d)(a, c, x),
                    |x: int|
                        weight(self.opts().cells_in_force(), a, c, self.points_with(s, p)(x)),
                ),
    {
        self.lemma_held();
        self.lemma_forest();
        self.lemma_chain_path(q, s);
        let f = self.forest();
        let o = self.opts();
        let w = o.cells_in_force();
        let pt = self.points_with(s, p);
        let b = self.after(q, d);
        assert forall|t: int| #[trigger] (f.on)(t) implies in_world(pt(t).x) && in_world(pt(t).y)
            && cells_ok(o, pt(t).cells) && (f.level)(t) <= o.max_zoom + 1 by {
            assert(self.live(t));
            assert(self.good_data(t));
        }
        assert forall|a: int, c: int| #[trigger] measure(a, c) implies f.all_balanced(
            |x: int| b(a, c, x),
            |x: int| weight(w, a, c, pt(x)),
        ) by {
            assert(weight(w, a, c, p) == self.weigh(a, c)(s) + d(a, c));
            lemma_shift(
                f,
                self.agg(a, c),
                |x: int| b(a, c, x),
                self.weigh(a, c),
                |x: int| weight(w, a, c, pt(x)),
                ints(q),
                s,
                d(a, c),
            );
        }
        lemma_masses(f, o, pt, b);
        assert forall|a: int, c: int, x: int|
            #![trigger self.mass(a, c, x)]
            measure(a, c) && holds(q, x) implies mass_range(a, self.mass(a, c, x) + d(a, c)) by {
            assert(self.live(x));
            assert((f.on)(x));
            assert(mass_range(a, b(a, c, x)));
        }
        assert forall|c: int, x: int|
            #![trigger self.mass(0, c, x)]
            holds(q, x) && self.mass(0, c, x) + d(0, c) == 0 implies self.mass(1, c, x) + d(1, c)
            == 0 && self.mass(2, c, x) + d(2, c) == 0 by {
            assert(self.live(x));
            assert((f.on)(x));
            assert(b(0, c, x) == 0);
            assert(b(1, c, x) == 0 && b(2, c, x) == 0);
        }
        let m = |x: int|
            if (f.on)(x) {
                b(3, -1, x)
            } else {
                0
            };
        assert forall|x: int| 0 <= x < self.slots() implies #[trigger] m(x) == self.live_load()(x)
            + (if holds(q, x) {
            d(3, -1)
        } else {
            0
        }) by {
            if holds(q, x) {
                assert(self.live(x));
            }
        }
        super::tree::lemma_total_on(self.slots(), q, self.live_load(), m, d(3, -1));
        self.lemma_entry_room();
    }

    /// The aggregates after the point of a slot was replaced and the masses followed.
    proof fn lemma_weighed_with(
        &self,
        o: NetCluster,
        q: Seq<u32>,
        s: int,
        p: Point,
        d: spec_fn(int, int) -> int,
    )
        requires
            o.held(),
            o.live(s),
            o.arena.is_chain(q, s),
            self.arena.wf(),
            self.arena.same_shape(o.arena),
            self.geo == o.geo,
            forall|x: int| #[trigger] self.live(x) == o.live(x),
            forall|a: int, c: int| #[trigger]
                measure(a, c) ==> o.forest().all_balanced(
                    |x: int| o.after(q, d)(a, c, x),
                    |x: int| weight(o.opts().cells_in_force(), a, c, o.points_with(s, p)(x)),
                ),
            forall|a: int, c: int, x: int|
                #![trigger self.mass(a, c, x)]
                measure(a, c) && 0 <= x < o.arena.cap() ==> self.mass(a, c, x) == o.after(q, d)(
                    a,
                    c,
                    x,
                ),
            forall|x: int| o.live(x) && x != s ==> #[trigger] self.point(x) == o.point(x),
            self.point(s).x == p.x,
            self.point(s).y == p.y,
            self.point(s).cells == p.cells,
        ensures
            self.weighed(),
            self.clean_but(-1),
    {
        o.lemma_chain_path(q, s);
        assert forall|a: int, c: int| #[trigger] measure(a, c) implies self.forest().all_balanced(
            self.agg(a, c),
            self.weigh(a, c),
        ) by {
            let b = |x: int| o.after(q, d)(a, c, x);
            let w = |x: int| weight(o.opts().cells_in_force(), a, c, o.points_with(s, p)(x));
            assert(o.forest().all_balanced(b, w));
            assert forall|x: int| #[trigger] (self.forest().on)(x) implies self.forest().balanced(
                self.agg(a, c),
                self.weigh(a, c),
                x,
            ) by {
                assert(self.live(x));
                assert(o.live(x));
                assert((o.forest().on)(x));
                assert(o.forest().balanced(b, w, x));
                let r = self.arena.kids@[x];
                assert forall|i: int| 0 <= i < r.len() implies b(#[trigger] r[i]) == self.agg(a, c)(
                    r[i],
                ) by {
                    assert(self.arena.linked(x, i));
                    assert(self.mass(a, c, r[i]) == b(r[i]));
                }
                crate::sums::lemma_sum_ext(r, b, self.agg(a, c));
                assert(self.mass(a, c, x) == b(x));
                if x != s {
                    assert(self.point(x) == o.point(x));
                }
            }
        }
        assert(measure(3, -1));
        assert forall|x: int|
            0 <= x < self.arena.cap() && !self.live(x) && x
                != -1 implies #[trigger] self.table.load(x) == 0 && self.bare(x) by {
            assert(!o.live(x));
            assert(o.table.load(x) == 0);
            assert(self.mass(3, -1, x) == o.after(q, d)(3, -1, x));
            assert forall|c: int| #[trigger] self.table.val(x, c) == (0int, 0int, 0int) by {
                self.lemma_val(x, c);
                o.lemma_val(x, c);
                if c >= 0 {
                    assert(o.table.val(x, c) == (0int, 0int, 0int));
                    assert(measure(0, c) && measure(1, c) && measure(2, c));
                    assert(self.mass(0, c, x) == o.after(q, d)(0, c, x));
                    assert(self.mass(1, c, x) == o.after(q, d)(1, c, x));
                    assert(self.mass(2, c, x) == o.after(q, d)(2, c, x));
                }
            }
        }
    }

    /// Reposition a point in place: only aggregates and possibly grid cells change.
    fn slide(&mut self, s: Slot, x: i32, y: i32)
        requires
            old(self).sound(),
            old(self).live(s as int),
            in_world(x as int),
            in_world(y as int),
        ensures
            final(self).sound(),
            final(self).net() == old(self).net().slid(s as int, x as int, y as int),
            final(self).geo == old(self).geo,
            final(self).ids == old(self).ids,
            final(self).stats == old(self).stats,
            final(self).arena.n == old(self).arena.n,
            final(self).arena.spare == old(self).arena.spare,
            final(self).lists() == (if old(self).level(s as int) == 0 && floor_key(
                old(self).net(),
                s as int,
            ) != floor_key(final(self).net(), s as int) {
                Lists {
                    floor: fronted(
                        lifted(
                            old(self).lists().floor,
                            floor_key(old(self).net(), s as int),
                            s,
                        ),
                        floor_key(final(self).net(), s as int),
                        s,
                    ),
                    ..old(self).lists()
                }
            } else {
                old(self).lists()
            }),
            final(self).arena.cap() == old(self).arena.cap(),
    {
        let ghost o = *self;
        let ghost si = s as int;
        let chain = self.arena.chain(s);
        let ghost q = chain@;
        let cells = copy_cells(self.arena.tags[s as usize].as_slice());
        let v = self.arena.nodes[s as usize];
        let dx: i64 = (x as i64) - (v.qx as i64);
        let dy: i64 = (y as i64) - (v.qy as i64);
        let ghost w = o.opts().cells_in_force();
        let ghost d = Self::point_delta(w, cells@, 0, dx as int, dy as int);
        let ghost p = Point { x: x as int, y: y as int, ..o.point(si) };
        proof {
            assert(o.good_data(si));
            assert(o.differs_by(si, p, d)) by {
                assert forall|a: int, c: int| measure(a, c) implies weight(w, a, c, p) == o.weigh(
                    a,
                    c,
                )(si) + #[trigger] d(a, c) by {}
            }
            o.lemma_after(q, si, p, d);
            o.lemma_chain_path(q, si);
            assert(d(3, -1) == 0);
            assert(q.len() * 0 == 0);
            assert(0 * cells@.len() == 0);
        }
        self.agg_point(&chain, &cells, 0, dx, dy);
        let ghost m = *self;
        proof {
            self.lemma_same_tree(o);
            assert(m.live(si) == o.live(si));
        }
        self.grid_move(s, x, y);
        proof {
            assert forall|t: int| #[trigger] self.live(t) == o.live(t) by {
                assert(m.live(t) == o.live(t));
                if 0 <= t < o.arena.n {
                    let u = self.arena.nodes[t];
                }
            }
            assert forall|t: int| 0 <= t < o.arena.cap() && t != si implies #[trigger] self.point(t)
                == o.point(t) by {
                let u = self.arena.nodes[t];
                assert(m.point(t) == o.point(t));
            }
            assert(self.point(si) == p) by {
                assert(m.point(si) == o.point(si));
            }
            assert forall|a: int, c: int, t: int|
                #![trigger self.mass(a, c, t)]
                measure(a, c) && 0 <= t < o.arena.cap() implies self.mass(a, c, t) == o.after(q, d)(
                a,
                c,
                t,
            ) by {
                let u = self.arena.nodes[t];
                assert(self.mass(a, c, t) == m.mass(a, c, t));
            }
            self.lemma_weighed_with(o, q, si, p, d);
            let goal = o.net().slid(si, x as int, y as int);
            assert(self.net().pts =~= goal.pts) by {
                assert forall|t: int| #[trigger]
                    self.net().pts.contains_key(t) implies self.net().pts[t] == goal.pts[t] by {
                    assert(self.live(t));
                }
            }
        }
    }

    /// Give a point other filter cells, or none.
    fn file(&mut self, s: Slot, cells: Vec<u32>)
        requires
            old(self).sound(),
            old(self).live(s as int),
            cells_ok(old(self).opts(), cells@),
        ensures
            final(self).sound(),
            final(self).net() == old(self).net().refiled(s as int, cells@),
            final(self).geo == old(self).geo,
            final(self).ids == old(self).ids,
            final(self).stats == old(self).stats,
            final(self).arena.n == old(self).arena.n,
            final(self).arena.spare == old(self).arena.spare,
            final(self).lists() == old(self).lists(),
            final(self).arena.cap() == old(self).arena.cap(),
    {
        let ghost o = *self;
        let was = copy_cells(self.arena.tags[s as usize].as_slice());
        proof {
            assert(o.good_data(s as int));
        }
        self.swap_cells(s, &was, Vec::new(), -1);
        let ghost m = *self;
        let now = copy_cells(cells.as_slice());
        self.swap_cells(s, &now, cells, 1);
        proof {
            let (a, b) = (self.net(), o.net().refiled(s as int, now@));
            assert(a.pts =~= b.pts);
        }
    }

    /// Take all cells off a point (`sign` -1), or give some to a point that has none (`sign` 1).
    fn swap_cells(&mut self, s: Slot, change: &Vec<u32>, then: Vec<u32>, sign: i32)
        requires
            old(self).sound(),
            old(self).live(s as int),
            cells_ok(old(self).opts(), change@),
            sign == 1 || sign == -1,
            sign == -1 ==> old(self).arena.tags[s as int]@ == change@ && then@.len() == 0,
            sign == 1 ==> old(self).arena.tags[s as int]@.len() == 0 && then@ == change@,
        ensures
            final(self).sound(),
            final(self).live(s as int),
            final(self).arena.tags[s as int]@ == then@,
            final(self).net() == old(self).net().refiled(s as int, then@),
            final(self).geo == old(self).geo,
            final(self).ids == old(self).ids,
            final(self).stats == old(self).stats,
            final(self).arena.n == old(self).arena.n,
            final(self).arena.spare == old(self).arena.spare,
            final(self).lists() == old(self).lists(),
            final(self).arena.cap() == old(self).arena.cap(),
    {
        let ghost o = *self;
        let ghost si = s as int;
        let chain = self.arena.chain(s);
        let ghost q = chain@;
        let v = self.arena.nodes[s as usize];
        let ghost w = o.opts().cells_in_force();
        let ghost change_seq = change@;
        let ghost then_seq = then@;
        proof {
            assert(o.good_data(si));
        }
        let (dx, dy) = if sign == 1 {
            (v.qx as i64, v.qy as i64)
        } else {
            (-(v.qx as i64), -(v.qy as i64))
        };
        let ghost d = |a: int, c: int|
            if c < 0 && a != 3 {
                0
            } else {
                Self::point_delta(w, change_seq, sign as int, dx as int, dy as int)(a, c)
            };
        let ghost p = Point { cells: then_seq, ..o.point(si) };
        proof {
            assert(cells_ok(o.opts(), then_seq));
            assert(o.differs_by(si, p, d)) by {
                assert forall|a: int, c: int| measure(a, c) implies weight(w, a, c, p) == o.weigh(
                    a,
                    c,
                )(si) + #[trigger] d(a, c) by {
                    if a == 3 {
                        assert(sign * own_load(w, change_seq) == (if sign == 1 {
                            own_load(w, change_seq)
                        } else {
                            -own_load(w, change_seq)
                        })) by (nonlinear_arith)
                            requires
                                sign == 1 || sign == -1,
                        ;
                    }
                }
            }
            o.lemma_after(q, si, p, d);
            o.lemma_chain_path(q, si);
            if w > 0 {
                assert(d(3, -1) == sign * change_seq.len());
                assert(can_walk(o.table, q, change_seq, sign as int, dx as int, dy as int)) by {
                    assert forall|t: int, c: int|
                        holds(q, t) && holds(change_seq, c) implies mass_fits(
                        (
                            (#[trigger] o.table.val(t, c)).0 + sign,
                            o.table.val(t, c).1 + dx,
                            o.table.val(t, c).2 + dy,
                        ),
                    ) by {
                        o.lemma_val(t, c);
                        assert(measure(0, c) && measure(1, c) && measure(2, c));
                        assert(mass_range(0, o.mass(0, c, t) + d(0, c)));
                        assert(mass_range(1, o.mass(1, c, t) + d(1, c)));
                        assert(mass_range(2, o.mass(2, c, t) + d(2, c)));
                    }
                    assert forall|i: int| 0 <= i < q.len() implies #[trigger] q[i]
                        < o.table.slots() by {}
                }
            }
        }
        self.table.walk_once(&chain, change, sign, dx, dy);
        let ghost m = *self;
        self.arena.tags[s as usize] = then;
        proof {
            self.arena.lemma_rewrite(o.arena);
            self.lemma_same_places(o);
            assert forall|t: int| 0 <= t < o.arena.cap() && t != si implies #[trigger] self.point(t)
                == o.point(t) by {
                assert(self.arena.tags[t] == o.arena.tags[t]);
            }
            assert(self.point(si) == p);
            assert forall|t: int| #[trigger] self.live(t) implies self.good_data(t) && self.level(t)
                <= self.opts().max_zoom + 1 by {
                assert(o.live(t));
                assert(o.good_data(t));
                assert(o.level(t) == self.level(t));
                if t != si {
                    assert(self.point(t) == o.point(t));
                }
            }
            assert forall|a: int, c: int, t: int|
                #![trigger self.mass(a, c, t)]
                measure(a, c) && 0 <= t < o.arena.cap() implies self.mass(a, c, t) == o.after(q, d)(
                a,
                c,
                t,
            ) by {
                if a < 3 && c >= 0 {
                    let u = self.table.val(t, c);
                    if holds(q, t) && holds(change_seq, c) && w > 0 {
                        assert(o.mass(0, c, t) == o.table.val(t, c).0);
                        assert(o.mass(1, c, t) == o.table.val(t, c).1);
                        assert(o.mass(2, c, t) == o.table.val(t, c).2);
                    }
                } else if a == 3 {
                    let l = self.table.load(t);
                    if w == 0 {
                        assert(sign * 0 == 0);
                    }
                }
            }
            self.lemma_weighed_with(o, q, si, p, d);
            let goal = o.net().refiled(si, then_seq);
            assert(self.net().pts =~= goal.pts) by {
                assert forall|t: int| #[trigger]
                    self.net().pts.contains_key(t) implies self.net().pts[t] == goal.pts[t] by {
                    assert(self.live(t));
                }
            }
        }
    }

    /// What reserving a slot changes: nothing that is in the tree.
    proof fn lemma_reserved(&self, o: NetCluster)
        requires
            o.sound(),
            self.geo == o.geo,
            self.grid == o.grid,
            self.arena.wf(),
            self.table.wf(),
            self.table.slots() == self.arena.cap(),
            self.table.width() == o.table.width(),
            self.table.is_dense() == o.table.is_dense(),
            self.opts().fits(self.arena.cap()),
            self.opts().entries_fit(self.slots()),
            o.arena.n <= self.arena.n,
            o.arena.cap() <= self.arena.cap(),
            forall|x: int| #[trigger] self.live(x) == o.live(x),
            forall|x: int|
                #![trigger self.arena.nodes[x]]
                0 <= x < o.arena.cap() && o.live(x) ==> self.arena.nodes[x] == o.arena.nodes[x],
            forall|x: int|
                0 <= x < o.arena.cap() ==> #[trigger] self.arena.tags[x] == o.arena.tags[x],
            forall|x: int|
                0 <= x < o.arena.cap() ==> #[trigger] self.arena.kids@[x] == o.arena.kids@[x],
            forall|x: int| o.live(x) ==> #[trigger] self.arena.up(x) == o.arena.up(x),
            forall|s: int, c: int|
                0 <= s < o.table.slots() ==> #[trigger] self.table.val(s, c) == o.table.val(s, c),
            forall|s: int|
                0 <= s < o.table.slots() ==> #[trigger] self.table.load(s) == o.table.load(s),
            forall|s: int|
                o.table.slots() <= s < self.table.slots() ==> #[trigger] self.table.load(s) == 0,
            forall|s: int, c: int|
                o.table.slots() <= s ==> #[trigger] self.table.val(s, c) == (0int, 0int, 0int),
        ensures
            self.sound(),
            self.net() == o.net(),
    {
        assert forall|x: int| o.live(x) implies #[trigger] self.point(x) == o.point(x) by {
            let v = self.arena.nodes[x];
            assert(self.arena.up(x) == o.arena.up(x));
            assert(self.arena.tags[x] == o.arena.tags[x]);
        }
        assert forall|x: int| o.live(x) implies #[trigger] self.level(x) == o.level(x) by {
            let v = self.arena.nodes[x];
        }
        assert(self.net().pts =~= o.net().pts);
        assert forall|x: int| #[trigger] self.live(x) implies self.good_data(x) && self.level(x)
            <= self.opts().max_zoom + 1 by {
            assert(o.live(x));
            assert(o.good_data(x));
            assert(self.point(x) == o.point(x));
            assert(self.level(x) == o.level(x));
        }
        assert forall|t: int, z: int| o.list_fn()(t, z) implies #[trigger] self.key_fn()(t, z)
            == o.key_fn()(t, z) by {
            assert(o.live(t));
            let w = self.arena.nodes[t];
        }
        assert forall|t: int, z: int| #[trigger] self.list_fn()(t, z) == o.list_fn()(t, z) by {
            assert(self.live(t) == o.live(t));
            if o.live(t) {
                assert(self.level(t) == o.level(t));
            }
        }
        super::grids::lemma_rekey(
            self.grid@,
            o.key_fn(),
            self.key_fn(),
            o.list_fn(),
            self.list_fn(),
        );
        assert forall|t: int| #[trigger] self.listings()(t) == o.listings()(t) by {
            assert(self.live(t) == o.live(t));
            if o.live(t) {
                assert(self.level(t) == o.level(t));
            }
        }
        assert(self.listings() =~= o.listings());
        assert forall|t: int| o.slots() <= t < self.slots() implies #[trigger] o.listings()(t)
            == 0 by {
            assert(!o.live(t));
        }
        crate::sums::lemma_total_extend(o.slots(), self.slots(), o.listings());
        assert forall|a: int, c: int| #[trigger] measure(a, c) implies self.forest().all_balanced(
            self.agg(a, c),
            self.weigh(a, c),
        ) by {
            assert(o.forest().all_balanced(o.agg(a, c), o.weigh(a, c)));
            assert forall|x: int| #[trigger] (self.forest().on)(x) implies self.forest().balanced(
                self.agg(a, c),
                self.weigh(a, c),
                x,
            ) by {
                assert(self.live(x));
                assert(o.live(x));
                assert((o.forest().on)(x));
                assert(o.forest().balanced(o.agg(a, c), o.weigh(a, c), x));
                let q = o.arena.kids@[x];
                assert(self.arena.kids@[x] == q);
                assert forall|y: int| o.live(y) implies #[trigger] self.mass(a, c, y) == o.mass(
                    a,
                    c,
                    y,
                ) by {
                    let v = self.arena.nodes[y];
                    let m = self.table.val(y, c);
                    let l = self.table.load(y);
                }
                assert forall|i: int| 0 <= i < q.len() implies o.agg(a, c)(#[trigger] q[i])
                    == self.agg(a, c)(q[i]) by {
                    assert(o.arena.linked(x, i));
                    assert(o.arena.hung(q[i]));
                    assert(o.live(q[i]));
                    assert(self.mass(a, c, q[i]) == o.mass(a, c, q[i]));
                }
                crate::sums::lemma_sum_ext(q, o.agg(a, c), self.agg(a, c));
                assert(self.mass(a, c, x) == o.mass(a, c, x));
                assert(self.point(x) == o.point(x));
            }
        }
        assert forall|x: int|
            0 <= x < self.arena.cap() && !self.live(x) && x
                != -1 implies #[trigger] self.table.load(x) == 0 && self.bare(x) by {
            assert(!o.live(x));
            if x < o.arena.cap() {
                assert(o.table.load(x) == 0);
            }
        }
    }

    /// Reserve a slot for a new point.
    fn reserve(&mut self) -> (s: Slot)
        requires
            old(self).sound(),
            old(self).room_for(1),
        ensures
            final(self).sound(),
            final(self).net() == old(self).net(),
            s < final(self).arena.n,
            !final(self).live(s as int),
            final(self).arena.up(s as int) == -1,
            final(self).arena.kids@[s as int].len() == 0,
            final(self).geo == old(self).geo,
            final(self).ids == old(self).ids,
            final(self).stats == old(self).stats,
            old(self).slots() <= final(self).slots() <= old(self).slots() + 1,
            s == old(self).handles().next(),
            final(self).handles() == old(self).handles().taken(),
            final(self).lists() == old(self).lists(),
            s <= old(self).slots(),
            forall|x: int|
                #![trigger final(self).arena.nodes[x]]
                old(self).live(x) ==> final(self).arena.nodes[x].ext == old(
                    self,
                ).arena.nodes[x].ext,
            forall|x: int| #[trigger] final(self).live(x) == old(self).live(x),
    {
        let ghost o = *self;
        proof {
            o.lemma_fits(2 * (o.slots() + 1), 2 * o.slots());
        }
        if self.arena.is_full() {
            self.arena.grow();
            let cap = self.arena.nodes.len();
            proof {
                assert(o.opts().dense() ==> cap * o.table.width() <= usize::MAX) by {
                    let w = o.table.width();
                    assert(cap * w <= cap * w * 8) by (nonlinear_arith)
                        requires
                            cap >= 0,
                            w >= 0,
                    ;
                }
            }
            self.table.grow(cap);
            proof {
                assert forall|x: int| #[trigger] self.live(x) == o.live(x) by {
                    if 0 <= x < o.arena.n {
                        let v = self.arena.nodes[x];
                    }
                }
                let (f, h) = (self.lists().kids, o.lists().kids);
                assert forall|x: int| #[trigger] f(x) == h(x) by {
                    if o.arena.cap() <= x < self.arena.cap() {
                        assert(self.arena.kids@[x].len() == 0);
                        assert(self.arena.kids@[x] =~= Seq::empty());
                    }
                }
                assert(f =~= h);
                self.lemma_reserved(o);
            }
        }
        let ghost g = *self;
        let s = self.arena.take();
        proof {
            let si = s as int;
            assert(!g.live(si)) by {
                if si < g.arena.n {
                    assert(g.arena.hung(si));
                    assert(g.arena.spared(g.arena.home@[si].1));
                }
            }
            assert forall|x: int| #[trigger] self.live(x) == g.live(x) by {
                if 0 <= x < g.arena.cap() && x != si {
                    let v = self.arena.nodes[x];
                    if x >= g.arena.n {
                        assert(g.arena.nodes[x].tz == DEAD);
                    }
                }
            }
            assert forall|x: int|
                #![trigger self.arena.nodes[x]]
                0 <= x < g.arena.cap() && g.live(x) implies self.arena.nodes[x]
                == g.arena.nodes[x] by {}
            assert forall|x: int| g.live(x) implies #[trigger] self.arena.up(x) == g.arena.up(
                x,
            ) by {}
            assert forall|x: int, c: int| g.table.slots() <= x implies #[trigger] self.table.val(x, c)
                == (0int, 0int, 0int) by {
                self.table.lemma_outside(x, c);
            }
            self.lemma_reserved(g);
        }
        s
    }

    /// There is room for `k` more points on this machine.
    pub open spec fn room_for(&self, k: int) -> bool {
        self.opts().houses(self.slots() + k)
    }

    /// Whether there is room for `k` more points on this machine.
    pub fn has_room_for(&self, k: usize) -> (r: bool)
        requires
            self.wf(),
        ensures
            r == self.room_for(k as int),
    {
        if k > 0x0800_0000 {
            return false;
        }
        self.geo.opts().can_house(self.arena.n as usize + k)
    }

    /// An empty index.
    pub fn new(opts: Options) -> (nc: Self)
        requires
            opts.valid(),
        ensures
            nc.wf(),
            nc.opts() == opts,
            nc.net() == (Net { opts, pts: Map::empty() }),
            nc.slots() == 0,
            nc.handles() == no_handles(),
            nc.lists() == no_lists(),
            nc.counters() == no_stats(),
    {
        let arena = Arena::new();
        let mut table = CellTable::new(opts.cell_count(), opts.dense_cells);
        proof {
            let w = opts.cells_in_force();
            if opts.dense() {
                assert(1024 * w <= usize::MAX);
            }
        }
        table.grow(1024);
        let nc = NetCluster {
            geo: Geometry::new(opts),
            grid: Grid::new(),
            table,
            arena,
            ids: HashMap::new(),
            stats: Stats {
                inserts: 0,
                removes: 0,
                moves: 0,
                moves_fast: 0,
                moves_rebuilt: 0,
                promotions: 0,
                reparents: 0,
                probes: 0,
            },
        };
        proof {
            assert(opts.entry_bound(0) == 0) by (nonlinear_arith)
                requires
                    opts.entry_bound(0) == (opts.max_zoom + 2) * (0 * opts.max_cells_per_device),
            ;
            assert(nc.net().pts =~= Map::empty());
            let (f, g) = (nc.lists().floor, no_lists().floor);
            assert forall|k: u64| #[trigger] f(k) == g(k) by {}
            assert(f =~= g);
            let (f, g) = (nc.lists().kids, no_lists().kids);
            assert forall|s: int| #[trigger] f(s) == g(s) by {
                if 0 <= s < nc.arena.cap() {
                    assert(nc.arena.kids@[s].len() == 0);
                    assert(nc.arena.kids@[s] =~= Seq::empty());
                }
            }
            assert(f =~= g);
            lemma_total_zero(nc.slots(), nc.listings());
            nc.grid.lemma_live();
            assert forall|k: u64, s: Slot| #[trigger]
                crate::grid::bucket_has(nc.grid@, k, s) <==> nc.list_fn()(
                s as int,
                crate::grid::key_level(k),
            ) && k == nc.key_fn()(s as int, crate::grid::key_level(k)) by {}
        }
        nc
    }

    /// The slot of an id.
    pub(super) fn find(&self, id: u64) -> (r: Option<Slot>)
        requires
            self.ids_ok(),
        ensures
            match r {
                Some(s) => self.live(s as int) && self.net().named(s as int, id),
                None => !self.net().knows(id),
            },
    {
        match self.ids.get(&id) {
            Some(s) => {
                proof {
                    self.lemma_net(*s as int);
                }
                Some(*s)
            },
            None => {
                proof {
                    assert forall|s: int| !self.net().named(s, id) by {
                        self.lemma_net(s);
                        if self.live(s) {
                            assert(self.ids@.contains_key(self.arena.nodes[s].ext));
                        }
                    }
                }
                None
            },
        }
    }

    /// Insert a point under an id that is not in use.
    fn insert_new(&mut self, id: u64, x: i32, y: i32, cells: Vec<u32>) -> (s: Slot)
        requires
            old(self).wf(),
            !old(self).net().knows(id),
            in_world(x as int),
            in_world(y as int),
            cells_ok(old(self).opts(), cells@),
            old(self).room_for(1),
        ensures
            final(self).wf(),
            final(self).opts() == old(self).opts(),
            inserted(old(self).net(), final(self).net(), s as int, id, x as int, y as int, cells@),
            old(self).slots() <= final(self).slots() <= old(self).slots() + 1,
            s < final(self).slots(),
            s == old(self).handles().next(),
            final(self).handles() == old(self).handles().taken(),
            final(self).lists() == old(self).lists().seated(final(self).net(), s as int),
            insert_counted(final(self).stats, old(self).stats),
    {
        let ghost o = *self;
        let ghost cs = cells@;
        let s = self.reserve();
        let ghost si = s as int;
        let ghost r = *self;
        self.prepare(s, id, x, y, cells);
        let ghost p = *self;
        proof {
            p.lemma_forest();
            assert(!p.net().has(si)) by {
                p.lemma_net(si);
            }
        }
        let top = self.geo.opts().max_zoom;
        self.link(s, top as i8);
        let ghost l = *self;
        proof {
            let net = o.net();
            let pt = Point {
                id,
                x: x as int,
                y: y as int,
                cells: cs,
                level: 0,
                parent: None,
            };
            assert(net.place(si, pt) == net.place(si, p.point(si)));
            assert forall|t: int| #[trigger] net.has(t) implies net.pts[t].id != id by {
                if net.pts[t].id == id {
                    assert(net.named(t, id));
                }
            }
            law_insert_keeps_invariants(net, si, pt);
        }
        self.ids.insert(id, s);
        self.stats.inserts = self.stats.inserts.wrapping_add(1);
        proof {
            let mid = NetCluster { ids: self.ids, ..l };
            self.lemma_stats(mid);
            mid.lemma_ids(l);
            self.lemma_ids(l);
            assert(self.ids_ok()) by {
                assert forall|t: int| #[trigger] self.live(t) == (t == si || o.live(t)) by {
                    self.lemma_net(t);
                    o.lemma_net(t);
                }
                assert forall|k: u64| #[trigger] self.ids@.contains_key(k) implies self.live(
                    self.ids@[k] as int,
                ) && self.arena.nodes[self.ids@[k] as int].ext == k by {
                    if k != id {
                        assert(o.ids@.contains_key(k));
                        let t = o.ids@[k] as int;
                        assert(o.live(t));
                        o.lemma_net(t);
                        self.lemma_net(t);
                    } else {
                        self.lemma_net(si);
                    }
                }
                assert forall|t: int| #[trigger] self.live(t) implies self.ids@.contains_key(
                    self.arena.nodes[t].ext,
                ) && self.ids@[self.arena.nodes[t].ext] == t by {
                    self.lemma_net(t);
                    if t != si {
                        assert(o.live(t));
                        o.lemma_net(t);
                        assert(o.net().pts[t].id != id) by {
                            if o.net().pts[t].id == id {
                                assert(o.net().named(t, id));
                            }
                        }
                    }
                }
            }
        }
        s
    }

    /// The id table is beside the tree.
    proof fn lemma_ids(&self, o: NetCluster)
        requires
            *self == (NetCluster { ids: self.ids, stats: self.stats, ..o }),
        ensures
            self.net() == o.net(),
            o.sound() ==> self.sound(),
            forall|x: int| #[trigger] self.live(x) == o.live(x),
    {
        let m = NetCluster { stats: self.stats, ..o };
        m.lemma_stats(o);
        assert(self.net().pts =~= m.net().pts);
        assert forall|x: int| #[trigger] self.live(x) == o.live(x) by {}
        if o.sound() {
            assert(self.key_fn() =~= m.key_fn());
            assert(self.list_fn() =~= m.list_fn());
            assert(self.listings() =~= m.listings());
            let (f, g) = (self.forest(), m.forest());
            assert(f.on =~= g.on);
            assert(f.up =~= g.up);
            assert(f.level =~= g.level);
            assert forall|s: int| #[trigger] self.live(s) implies self.good_data(s) && self.level(s)
                <= self.opts().max_zoom + 1 by {
                assert(m.live(s));
            }
            assert forall|a: int, c: int| #[trigger] measure(a, c) implies self.forest().all_balanced(
                self.agg(a, c),
                self.weigh(a, c),
            ) by {
                assert(self.agg(a, c) =~= m.agg(a, c));
                assert(self.weigh(a, c) =~= m.weigh(a, c));
            }
            assert forall|s: int|
                0 <= s < self.arena.cap() && !self.live(s) && s
                    != -1 implies #[trigger] self.table.load(s) == 0 && self.bare(s) by {
                assert(!m.live(s));
                assert(m.table.load(s) == 0);
            }
            assert(self.parts());
            assert(self.gridded());
        }
    }

    /// Fewer slots fit where more do.
    proof fn lemma_fits(&self, n: int, m: int)
        requires
            self.opts().fits(n),
            0 <= m <= n,
        ensures
            self.opts().fits(m),
    {
        let w = self.opts().cells_in_force();
        assert(m * w * 8 <= n * w * 8) by (nonlinear_arith)
            requires
                0 <= m <= n,
                w >= 0,
        ;
    }

    /// Whether a point may go to a position without any other point changing its place; and how
    /// many cells were looked at.
    fn can_slide(&self, s: Slot, x: i32, y: i32) -> (r: (bool, u64))
        requires
            self.wf(),
            self.live(s as int),
            in_world(x as int),
            in_world(y as int),
        ensures
            r.0 == self.net().may_slide(s as int, x as int, y as int),
    {
        let ghost net = self.net();
        let ghost si = s as int;
        let ghost (xi, yi) = (x as int, y as int);
        let v = self.arena.nodes[s as usize];
        proof {
            self.lemma_net(si);
            assert(net.sound_point(si) && net.covering(si));
            assert(self.arena.hung(si));
        }
        let (hit, probes) = self.covered_at_or_below(s, x, y, v.tz as u8);
        if hit {
            return (false, probes);
        }
        if v.par != NONE {
            proof {
                assert(self.arena.up(si) == v.par) by {
                    if self.arena.up(si) == -2 {
                        assert(self.arena.spared(self.arena.home@[si].1));
                    }
                }
                self.lemma_net(v.par as int);
                assert(net.center(v.par as int, v.tz - 1));
                assert(self.live(v.par as int));
                assert(self.good_data(v.par as int));
            }
            let u = self.arena.nodes[v.par as usize];
            let d = distance2(u.qx, u.qy, x, y);
            if !self.geo.near_with_slack((v.tz - 1) as u8, d) {
                return (false, probes);
            }
        }
        let kids = self.arena.children(s);
        let ghost q = self.arena.kids@[si];
        let mut i: usize = 0;
        while i < kids.len()
            invariant
                self.wf(),
                net == self.net(),
                si == s,
                self.live(si),
                xi == x,
                yi == y,
                in_world(xi),
                in_world(yi),
                q == self.arena.kids@[si],
                kids@.len() == q.len(),
                forall|j: int|
                    0 <= j < kids@.len() ==> #[trigger] kids@[j] == q[j] && kids@[j] < self.arena.n,
                i <= q.len(),
                forall|j: int|
                    0 <= j < i ==> net.opts.near_with_slack(
                        net.pts[#[trigger] q[j]].level - 1,
                        net.far(q[j], xi, yi),
                    ),
            decreases q.len() - i,
        {
            let c = kids[i];
            let ghost ci = c as int;
            proof {
                assert(kids@[i as int] == q[i as int]);
                assert(self.arena.linked(si, i as int));
                assert(self.arena.hung(ci));
                assert(self.live(ci));
                self.lemma_net(ci);
                assert(self.good_data(ci));
                assert(net.sound_point(ci));
                assert(net.child(ci, si));
            }
            let u = self.arena.nodes[c as usize];
            let d = distance2(u.qx, u.qy, x, y);
            if !self.geo.near_with_slack((u.tz - 1) as u8, d) {
                return (false, probes);
            }
            i = i + 1;
        }
        proof {
            assert forall|c: int| #[trigger] net.child(c, si) implies net.opts.near_with_slack(
                net.pts[c].level - 1,
                net.far(c, xi, yi),
            ) by {
                self.lemma_net(c);
                assert(self.arena.hung(c));
                let j = self.arena.home@[c].1;
                assert(q[j] == c);
            }
        }
        (true, probes)
    }

    /// Move a point that is there.
    #[verifier::rlimit(60)]
    fn move_known(&mut self, s: Slot, x: i32, y: i32)
        requires
            old(self).wf(),
            old(self).live(s as int),
            in_world(x as int),
            in_world(y as int),
        ensures
            final(self).wf(),
            final(self).opts() == old(self).opts(),
            final(self).slots() == old(self).slots(),
            final(self).handles() == old(self).handles(),
            final(self).lists() == old(self).lists().moved(
                old(self).net(),
                s as int,
                x as int,
                y as int,
            ),
            final(self).net() == old(self).net().moved(s as int, x as int, y as int),
            move_counted(
                final(self).stats,
                old(self).stats,
                old(self).net(),
                s as int,
                x as int,
                y as int,
            ),
    {
        let ghost o = *self;
        let ghost si = s as int;
        let v = self.arena.nodes[s as usize];
        proof {
            o.lemma_net(si);
            o.lemma_forest();
            law_move_keeps_invariants(o.net(), si, x as int, y as int);
        }
        if v.qx == x && v.qy == y {
            return ;
        }
        let (ok, probes) = self.can_slide(s, x, y);
        if ok {
            self.slide(s, x, y);
            let ghost m = *self;
            self.stats.moves = self.stats.moves.wrapping_add(1);
            self.stats.moves_fast = self.stats.moves_fast.wrapping_add(1);
            self.stats.probes = self.stats.probes.wrapping_add(probes);
            proof {
                self.lemma_stats(m);
                assert(self.net().pts.dom() =~= o.net().pts.dom());
                self.lemma_ids_kept(o);
            }
            return ;
        }
        let cells = copy_cells(self.arena.tags[s as usize].as_slice());
        proof {
            assert(o.good_data(si));
            law_remove_keeps_invariants(o.net(), si);
        }
        self.unlink(s);
        let ghost u = *self;
        self.prepare(s, v.ext, x, y, cells);
        let ghost p = *self;
        let top = self.geo.opts().max_zoom;
        proof {
            let goal = Point { x: x as int, y: y as int, ..o.net().pts[si] };
            assert(p.net().place(si, p.point(si)) == p.net().place(si, goal));
        }
        self.link(s, top as i8);
        let ghost l = *self;
        self.stats.moves = self.stats.moves.wrapping_add(1);
        self.stats.moves_rebuilt = self.stats.moves_rebuilt.wrapping_add(1);
        self.stats.probes = self.stats.probes.wrapping_add(probes);
        proof {
            self.lemma_stats(l);
            assert(self.net().pts.dom() =~= o.net().pts.dom());
            self.lemma_ids_kept(o);
        }
    }

    /// The id table stays right while handles keep their ids.
    proof fn lemma_ids_kept(&self, o: NetCluster)
        requires
            o.ids_ok(),
            self.ids == o.ids,
            self.net().pts.dom() == o.net().pts.dom(),
            forall|s: int| o.net().has(s) ==> #[trigger] self.net().pts[s].id == o.net().pts[s].id,
        ensures
            self.ids_ok(),
    {
        assert forall|s: int| #[trigger] self.live(s) == o.live(s) by {
            self.lemma_net(s);
            o.lemma_net(s);
            assert(self.net().pts.dom().contains(s) == o.net().pts.dom().contains(s));
        }
        assert forall|s: int| #[trigger] self.live(s) implies self.arena.nodes[s].ext
            == o.arena.nodes[s].ext by {
            self.lemma_net(s);
            o.lemma_net(s);
            assert(o.live(s));
            assert(self.net().pts[s].id == o.net().pts[s].id);
        }
        assert forall|id: u64| #[trigger] self.ids@.contains_key(id) implies self.live(
            self.ids@[id] as int,
        ) && self.arena.nodes[self.ids@[id] as int].ext == id by {
            assert(o.live(o.ids@[id] as int));
            assert(self.live(o.ids@[id] as int));
        }
    }

    /// The cells of a new point that comes with none: category 0, where there are categories.
    fn plain_cells(&self, cat: u32) -> (v: Vec<u32>)
        requires
            self.wf(),
            self.opts().cells_in_force() == 0 || cat < self.opts().cells_in_force(),
        ensures
            v@ == category_cells(self.opts(), cat),
            cells_ok(self.opts(), v@),
    {
        let mut v: Vec<u32> = Vec::new();
        if self.geo.opts().cell_count() > 0 {
            v.push(cat);
        }
        proof {
            assert(v@ =~= category_cells(self.opts(), cat));
        }
        v
    }

    /// An id has one holder.
    proof fn lemma_holder(&self, s: int, id: u64)
        requires
            self.wf(),
            self.net().named(s, id),
        ensures
            self.net().holder(id) == s,
    {
        self.law_invariants();
        lemma_register(self.net(), s, id);
    }

    /// Insert using pre-projected fixed-point coordinates, with a category; or move the point if
    /// the id is already present, whatever its category.
    pub fn insert_projected(&mut self, id: u64, x: i32, y: i32, cat: u32) -> (s: Slot)
        requires
            old(self).wf(),
            in_world(x as int),
            in_world(y as int),
            !old(self).net().knows(id) ==> old(self).room_for(1) && (old(
                self,
            ).opts().cells_in_force() == 0 || cat < old(self).opts().cells_in_force()),
        ensures
            final(self).wf(),
            final(self).holdings() == old(self).holdings().after(
                (Call::Put { id, x: x as int, y: y as int, cat }),
            ),
            final(self).opts() == old(self).opts(),
            old(self).slots() <= final(self).slots() <= old(self).slots() + 1,
            s < final(self).slots(),
            old(self).net().knows(id) ==> old(self).net().named(s as int, id) && final(self).net()
                == old(self).net().moved(s as int, x as int, y as int) && move_counted(
                final(self).counters(),
                old(self).counters(),
                old(self).net(),
                s as int,
                x as int,
                y as int,
            ),
            !old(self).net().knows(id) ==> inserted(
                old(self).net(),
                final(self).net(),
                s as int,
                id,
                x as int,
                y as int,
                category_cells(old(self).opts(), cat),
            ) && insert_counted(final(self).counters(), old(self).counters()),
    {
        match self.find(id) {
            Some(s) => {
                proof {
                    self.lemma_holder(s as int, id);
                }
                self.move_known(s, x, y);
                s
            },
            None => {
                let cells = self.plain_cells(cat);
                self.insert_new(id, x, y, cells)
            },
        }
    }

    /// Insert a point that belongs to several filter cells; or, if the id is already present,
    /// move the point and re-file it.
    pub fn insert_projected_cells(&mut self, id: u64, x: i32, y: i32, cells: &[u32]) -> (s: Slot)
        requires
            old(self).wf(),
            in_world(x as int),
            in_world(y as int),
            cells_ok(old(self).opts(), cells@),
            !old(self).net().knows(id) ==> old(self).room_for(1),
        ensures
            final(self).wf(),
            final(self).holdings() == old(self).holdings().after(
                (Call::File { id, x: x as int, y: y as int, cells: cells@ }),
            ),
            final(self).opts() == old(self).opts(),
            old(self).slots() <= final(self).slots() <= old(self).slots() + 1,
            s < final(self).slots(),
            old(self).net().knows(id) ==> old(self).net().named(s as int, id) && final(self).net()
                == old(self).net().moved(s as int, x as int, y as int).refiled(s as int, cells@)
                && move_counted(
                final(self).counters(),
                old(self).counters(),
                old(self).net(),
                s as int,
                x as int,
                y as int,
            ),
            !old(self).net().knows(id) ==> inserted(
                old(self).net(),
                final(self).net(),
                s as int,
                id,
                x as int,
                y as int,
                cells@,
            ) && insert_counted(final(self).counters(), old(self).counters()),
    {
        match self.find(id) {
            Some(s) => {
                proof {
                    self.lemma_holder(s as int, id);
                }
                self.move_known(s, x, y);
                self.refile(s, cells);
                s
            },
            None => {
                let own = copy_cells(cells);
                self.insert_new(id, x, y, own)
            },
        }
    }

    /// Re-file a point under other cells.
    fn refile(&mut self, s: Slot, cells: &[u32])
        requires
            old(self).wf(),
            old(self).net().has(s as int),
            cells_ok(old(self).opts(), cells@),
        ensures
            final(self).wf(),
            final(self).opts() == old(self).opts(),
            final(self).slots() == old(self).slots(),
            final(self).handles() == old(self).handles(),
            final(self).lists() == old(self).lists(),
            final(self).net() == old(self).net().refiled(s as int, cells@),
            final(self).stats == old(self).stats,
    {
        let ghost o = *self;
        proof {
            o.lemma_net(s as int);
            law_refile_keeps_invariants(o.net(), s as int, cells@);
        }
        let own = copy_cells(cells);
        self.file(s, own);
        proof {
            assert(self.net().pts.dom() =~= o.net().pts.dom());
            self.lemma_ids_kept(o);
        }
    }

    /// Move using pre-projected fixed-point coordinates, or insert the point if the id is
    /// unknown.
    ///
    /// The fast path only touches the levels whose invariants the displacement actually breaks.
    pub fn move_to_projected(&mut self, id: u64, x: i32, y: i32) -> (s: Slot)
        requires
            old(self).wf(),
            in_world(x as int),
            in_world(y as int),
            !old(self).net().knows(id) ==> old(self).room_for(1),
        ensures
            final(self).wf(),
            final(self).holdings() == old(self).holdings().after(
                (Call::Put { id, x: x as int, y: y as int, cat: 0 }),
            ),
            final(self).opts() == old(self).opts(),
            old(self).slots() <= final(self).slots() <= old(self).slots() + 1,
            s < final(self).slots(),
            old(self).net().knows(id) ==> old(self).net().named(s as int, id) && final(self).net()
                == old(self).net().moved(s as int, x as int, y as int) && move_counted(
                final(self).counters(),
                old(self).counters(),
                old(self).net(),
                s as int,
                x as int,
                y as int,
            ),
            !old(self).net().knows(id) ==> inserted(
                old(self).net(),
                final(self).net(),
                s as int,
                id,
                x as int,
                y as int,
                category_cells(old(self).opts(), 0),
            ) && insert_counted(final(self).counters(), old(self).counters()),
    {
        self.insert_projected(id, x, y, 0)
    }

    /// Move a point, and re-file it if cells are given; or insert it if the id is unknown.
    pub fn move_to_projected_cells(
        &mut self,
        id: u64,
        x: i32,
        y: i32,
        cells: Option<&[u32]>,
    ) -> (s: Slot)
        requires
            old(self).wf(),
            in_world(x as int),
            in_world(y as int),
            cells matches Some(q) ==> cells_ok(old(self).opts(), q@),
            !old(self).net().knows(id) ==> old(self).room_for(1),
        ensures
            final(self).wf(),
            final(self).holdings() == old(self).holdings().after(
                match cells {
                    Some(q) => Call::File { id, x: x as int, y: y as int, cells: q@ },
                    None => Call::Put { id, x: x as int, y: y as int, cat: 0 },
                },
            ),
            final(self).opts() == old(self).opts(),
            old(self).slots() <= final(self).slots() <= old(self).slots() + 1,
            s < final(self).slots(),
            old(self).net().knows(id) ==> old(self).net().named(s as int, id) && final(self).net()
                == (match cells {
                Some(q) => old(self).net().moved(s as int, x as int, y as int).refiled(
                    s as int,
                    q@,
                ),
                None => old(self).net().moved(s as int, x as int, y as int),
            }) && move_counted(
                final(self).counters(),
                old(self).counters(),
                old(self).net(),
                s as int,
                x as int,
                y as int,
            ),
            !old(self).net().knows(id) ==> inserted(
                old(self).net(),
                final(self).net(),
                s as int,
                id,
                x as int,
                y as int,
                match cells {
                    Some(q) => q@,
                    None => category_cells(old(self).opts(), 0),
                },
            ) && insert_counted(final(self).counters(), old(self).counters()),
    {
        match cells {
            Some(q) => self.insert_projected_cells(id, x, y, q),
            None => self.insert_projected(id, x, y, 0),
        }
    }

    /// Remove a point; false if the id is unknown.
    pub fn remove(&mut self, id: u64) -> (r: bool)
        requires
            old(self).wf(),
        ensures
            final(self).wf(),
            final(self).holdings() == old(self).holdings().after((Call::Remove { id })),
            final(self).opts() == old(self).opts(),
            final(self).slots() == old(self).slots(),
            r == old(self).net().knows(id),
            !r ==> *final(self) == *old(self),
            r ==> exists|s: int| #[trigger]
                old(self).net().named(s, id) && final(self).net() == old(self).net().unlinked(s)
                    && remove_counted(
                    final(self).counters(),
                    old(self).counters(),
                    old(self).net(),
                    s,
                ),
    {
        let ghost o = *self;
        let s = match self.find(id) {
            Some(s) => s,
            None => {
                return false;
            },
        };
        let ghost si = s as int;
        proof {
            o.lemma_forest();
            o.lemma_holder(si, id);
            law_remove_keeps_invariants(o.net(), si);
        }
        self.unlink(s);
        let ghost u = *self;
        self.ids.remove(&id);
        let ghost r = *self;
        proof {
            r.lemma_ids(u);
        }
        self.arena.give(s);
        let ghost g = *self;
        proof {
            assert forall|x: int| #[trigger] self.live(x) == r.live(x) by {
                if 0 <= x < r.arena.cap() && x != si {
                    let v = self.arena.nodes[x];
                }
            }
            assert forall|x: int, c: int| r.table.slots() <= x implies #[trigger] self.table.val(x, c)
                == (0int, 0int, 0int) by {
                self.table.lemma_outside(x, c);
            }
            self.lemma_reserved(r);
        }
        self.stats.removes = self.stats.removes.wrapping_add(1);
        proof {
            self.lemma_stats(g);
            let net = self.net();
            assert(net == o.net().unlinked(si));
            assert forall|t: int| #[trigger] self.live(t) == (o.live(t) && t != si) by {
                self.lemma_net(t);
                o.lemma_net(t);
                assert(net.pts.dom().contains(t) == o.net().drop_point(si).pts.dom().contains(t));
            }
            assert(self.ids_ok()) by {
                assert forall|t: int| #[trigger] self.live(t) implies self.arena.nodes[t].ext
                    == o.arena.nodes[t].ext by {
                    self.lemma_net(t);
                    o.lemma_net(t);
                    let v = u.arena.nodes[t];
                }
                assert forall|k: u64| #[trigger] self.ids@.contains_key(k) implies self.live(
                    self.ids@[k] as int,
                ) && self.arena.nodes[self.ids@[k] as int].ext == k by {
                    assert(o.ids@.contains_key(k));
                    let t = o.ids@[k] as int;
                    assert(o.live(t));
                    assert(t != si);
                    assert(self.live(t));
                }
                assert forall|t: int| #[trigger] self.live(t) implies self.ids@.contains_key(
                    self.arena.nodes[t].ext,
                ) && self.ids@[self.arena.nodes[t].ext] == t by {
                    assert(o.live(t));
                    o.lemma_net(t);
                    o.lemma_net(si);
                    assert(o.net().pts[t].id != o.net().pts[si].id);
                }
            }
            assert(o.net().named(si, id));
        }
        true
    }
}

} // verus!
