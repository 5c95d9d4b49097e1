//! Moving mass along the ancestor chains.
use super::arena::{mass_after, same_links};
use super::{cells_ok, measure, weight, NetCluster, Slot};
use crate::cells::{can_move, can_walk, holds, load_fits, mass_fits, own_load, sound_mass, times};
use crate::forest::{lemma_aggregate_bounds, lemma_aggregate_total, lemma_empty_below, Forest};
use crate::geometry::{in_world, Options};
use crate::net::Point;
use crate::sums::{lemma_total_ext, total};
use vstd::prelude::*;

verus! {

/// The chain as numbers.
pub open spec fn ints(q: Seq<u32>) -> Seq<int> {
    Seq::new(q.len(), |i: int| q[i] as int)
}

pub proof fn lemma_ints(q: Seq<u32>)
    ensures
        forall|x: int| #[trigger] ints(q).contains(x) == holds(q, x),
        q.no_duplicates() ==> ints(q).no_duplicates(),
{
    assert forall|x: int| #[trigger] ints(q).contains(x) == holds(q, x) by {
        if ints(q).contains(x) {
            let i = ints(q).index_of(x);
            assert(q[i] == x);
        }
        if holds(q, x) {
            let i = choose|i: int| 0 <= i < q.len() && #[trigger] q[i] == x;
            assert(ints(q)[i] == x);
        }
    }
}

/// Constant bounds of a sum of bounded summands.
pub proof fn lemma_total_bound(n: int, k: int, f: spec_fn(int) -> int)
    requires
        0 <= n,
        forall|i: int| 0 <= i < n ==> #[trigger] f(i) <= k,
    ensures
        total(n, f) <= n * k,
    decreases n,
{
    if n > 0 {
        lemma_total_bound(n - 1, k, f);
        assert(f(n - 1) <= k);
        assert(n * k == (n - 1) * k + k) by (nonlinear_arith);
    } else {
        assert(0 * k == 0);
    }
}

/// What the largest index can weigh.
pub open spec fn mass_range(a: int, m: int) -> bool {
    0 <= m && (a == 0 ==> m <= 0x0800_0000) && (a == 1 || a == 2 ==> m <= 0x0200_0000_0000_0000)
}

/// Aggregates that balance are non-negative and stay in range, and a cell without points has no
/// coordinates.
pub proof fn lemma_masses(
    f: Forest,
    o: Options,
    pt: spec_fn(int) -> Point,
    b: spec_fn(int, int, int) -> int,
)
    requires
        f.ok(),
        0 <= f.n <= 0x0800_0000,
        o.valid(),
        forall|s: int| #[trigger]
            (f.on)(s) ==> in_world(pt(s).x) && in_world(pt(s).y) && cells_ok(o, pt(s).cells) && (f.level)(s)
                <= o.max_zoom + 1,
        forall|a: int, c: int| #[trigger]
            measure(a, c) ==> f.all_balanced(
                |s: int| b(a, c, s),
                |s: int| weight(o.cells_in_force(), a, c, pt(s)),
            ),
    ensures
        forall|a: int, c: int, s: int|
            #![trigger b(a, c, s)]
            measure(a, c) && (f.on)(s) ==> mass_range(a, b(a, c, s)),
        forall|c: int, s: int|
            #![trigger b(0, c, s)]
            (f.on)(s) && b(0, c, s) == 0 ==> b(1, c, s) == 0 && b(2, c, s) == 0,
        total(
            f.n,
            |s: int|
                if (f.on)(s) {
                    b(3, -1, s)
                } else {
                    0
                },
        ) <= o.entry_bound(f.n),
{
    let w = o.cells_in_force();
    let top = o.max_zoom + 1;
    assert forall|a: int, c: int, s: int|
        #![trigger b(a, c, s)]
        measure(a, c) && (f.on)(s) implies mass_range(a, b(a, c, s)) by {
        let bf = |t: int| b(a, c, t);
        let wf = |t: int| weight(w, a, c, pt(t));
        assert(f.all_balanced(bf, wf));
        let k = if a == 0 {
            1
        } else if a == 3 {
            o.max_cells_per_device as int
        } else {
            0x4000_0000int
        };
        assert forall|t: int| #[trigger] (f.on)(t) implies (f.level)(t) <= top && wf(t) >= 0 by {}
        lemma_aggregate_bounds(f, bf, wf, s, top);
        assert(bf(s) == b(a, c, s));
        if a < 3 {
            assert forall|t: int| 0 <= t < f.n implies #[trigger] f.at_nodes(wf)(t) <= k by {
                if (f.on)(t) {
                    assert(wf(t) <= k);
                }
            }
            lemma_total_bound(f.n, k, f.at_nodes(wf));
            assert(f.n * 0x4000_0000 <= 0x0200_0000_0000_0000);
        }
    }
    assert forall|c: int, s: int|
        #![trigger b(0, c, s)]
        (f.on)(s) && b(0, c, s) == 0 implies b(1, c, s) == 0 && b(2, c, s) == 0 by {
        let b0 = |t: int| b(0, c, t);
        let w0 = |t: int| weight(w, 0, c, pt(t));
        let b1 = |t: int| b(1, c, t);
        let w1 = |t: int| weight(w, 1, c, pt(t));
        let b2 = |t: int| b(2, c, t);
        let w2 = |t: int| weight(w, 2, c, pt(t));
        assert(measure(0, c) && measure(1, c) && measure(2, c));
        assert(f.all_balanced(b0, w0));
        assert(f.all_balanced(b1, w1));
        assert(f.all_balanced(b2, w2));
        assert(b0(s) == 0);
        lemma_empty_below(f, b0, w0, b1, w1, s, top);
        lemma_empty_below(f, b0, w0, b2, w2, s, top);
        assert(b1(s) == b(1, c, s));
        assert(b2(s) == b(2, c, s));
    }
    let b3 = |t: int| b(3, -1, t);
    let w3 = |t: int| weight(w, 3, -1, pt(t));
    assert(measure(3, -1));
    assert(f.all_balanced(b3, w3));
    assert forall|t: int| #[trigger] (f.on)(t) implies (f.level)(t) <= top && w3(t) >= 0 by {}
    lemma_aggregate_total(f, b3, w3, top);
    let k = o.max_cells_per_device as int;
    assert forall|t: int| 0 <= t < f.n implies #[trigger] f.at_nodes(w3)(t) <= k by {
        if (f.on)(t) {
            assert(cells_ok(o, pt(t).cells));
        }
    }
    lemma_total_bound(f.n, k, f.at_nodes(w3));
    let tw = total(f.n, f.at_nodes(w3));
    assert((top + 1) * tw <= (top + 1) * (f.n * k)) by (nonlinear_arith)
        requires
            tw <= f.n * k,
            top + 1 >= 0,
    ;
    lemma_total_ext(
        f.n,
        f.at_nodes(b3),
        |s: int|
            if (f.on)(s) {
                b(3, -1, s)
            } else {
                0
            },
    );
}

impl NetCluster {
    /// The masses of two states differ by `d` on the chain and nowhere else.
    pub(super) open spec fn mass_moved(
        &self,
        o: NetCluster,
        q: Seq<u32>,
        d: spec_fn(int, int) -> int,
    ) -> bool {
        forall|a: int, c: int, x: int|
            #![trigger self.mass(a, c, x)]
            measure(a, c) && 0 <= x < o.arena.cap() ==> self.mass(a, c, x) == o.mass(a, c, x)
                + (if holds(q, x) {
                d(a, c)
            } else {
                0
            })
    }

    /// Two states with the same points in the same tree, whatever the masses.
    pub(super) open spec fn same_tree(&self, o: NetCluster) -> bool {
        &&& self.geo == o.geo
        &&& self.grid == o.grid
        &&& self.ids == o.ids
        &&& self.stats == o.stats
        &&& self.arena.same_shape(o.arena)
        &&& self.arena.tags == o.arena.tags
        &&& self.table.slots() == o.table.slots()
        &&& self.table.width() == o.table.width()
        &&& self.table.is_dense() == o.table.is_dense()
        &&& forall|x: int|
            #![trigger self.arena.nodes[x]]
            0 <= x < o.arena.nodes.len() ==> {
                let (a, b) = (self.arena.nodes[x], o.arena.nodes[x]);
                same_links(a, b) && a.qx == b.qx && a.qy == b.qy && a.tz == b.tz && a.ext == b.ext
            }
    }

    /// The tree, the points and the grids are read off alike.
    pub(super) proof fn lemma_same_tree(&self, o: NetCluster)
        requires
            self.same_tree(o),
            o.parts(),
            self.table.wf(),
        ensures
            self.parts(),
            self.net() == o.net(),
            self.forest() == o.forest(),
            self.key_fn() == o.key_fn(),
            o.gridded() ==> self.gridded(),
            o.ids_ok() ==> self.ids_ok(),
            forall|a: int, c: int, x: int|
                0 <= x < o.arena.cap() ==> #[trigger] self.weigh(a, c)(x) == o.weigh(a, c)(x),
            forall|x: int| #[trigger] self.live(x) == o.live(x),
            forall|x: int| 0 <= x < o.arena.cap() ==> #[trigger] self.point(x) == o.point(x),
    {
        self.arena.lemma_rewrite(o.arena);
        assert forall|x: int| #[trigger] self.live(x) == o.live(x) by {
            if 0 <= x < o.arena.n {
                let v = self.arena.nodes[x];
            }
        }
        assert forall|x: int| 0 <= x < o.arena.cap() implies #[trigger] self.point(x) == o.point(
            x,
        ) by {
            let v = self.arena.nodes[x];
        }
        assert forall|s: int| #[trigger] self.live(s) implies self.good_data(s) && self.level(s)
            <= self.opts().max_zoom + 1 by {
            assert(o.live(s));
            let v = self.arena.nodes[s];
        }
        assert(self.net().pts =~= o.net().pts);
        let (f, g) = (self.forest(), o.forest());
        assert(f.on =~= g.on);
        assert(f.up =~= g.up) by {
            assert forall|s: int| #[trigger] (f.up)(s) == (g.up)(s) by {
                assert(self.live(self.arena.up(s)) == o.live(o.arena.up(s)));
            }
        }
        assert forall|s: int| #[trigger] self.level(s) == o.level(s) by {
            if 0 <= s < o.arena.cap() {
                let v = self.arena.nodes[s];
            }
        }
        assert forall|s: int, z: int| #[trigger] self.key_fn()(s, z) == o.key_fn()(s, z) by {
            if 0 <= s < o.arena.cap() {
                let v = self.arena.nodes[s];
            }
        }
        assert(self.key_fn() =~= o.key_fn());
        assert(f.level =~= g.level) by {
            assert forall|s: int| #[trigger] (f.level)(s) == (g.level)(s) by {
                assert(self.level(s) == o.level(s));
            }
        }
        if o.gridded() {
            assert forall|s: int, z: int| #[trigger] self.list_fn()(s, z) == o.list_fn()(s, z) by {
                assert(self.live(s) == o.live(s));
                assert(self.level(s) == o.level(s));
            }
            assert(self.list_fn() =~= o.list_fn());
            assert forall|s: int| 0 <= s < self.slots() implies #[trigger] self.listings()(s)
                == o.listings()(s) by {
                assert(self.live(s) == o.live(s));
                assert(self.level(s) == o.level(s));
            }
            lemma_total_ext(self.slots(), self.listings(), o.listings());
        }
        if o.ids_ok() {
            assert forall|s: int| #[trigger] self.live(s) implies self.ids@.contains_key(
                self.arena.nodes[s].ext,
            ) && self.ids@[self.arena.nodes[s].ext] == s by {
                assert(o.live(s));
                let v = self.arena.nodes[s];
            }
            assert forall|id: u64| #[trigger] self.ids@.contains_key(id) implies self.live(
                self.ids@[id] as int,
            ) && self.arena.nodes[self.ids@[id] as int].ext == id by {
                assert(o.live(o.ids@[id] as int));
                assert(self.live(o.ids@[id] as int) == o.live(o.ids@[id] as int));
                let v = self.arena.nodes[self.ids@[id] as int];
            }
        }
    }

    /// The slots of a chain that mass may travel along.
    pub(super) open spec fn travels(&self, q: Seq<u32>) -> bool {
        q.no_duplicates() && forall|i: int| 0 <= i < q.len() ==> #[trigger] q[i] < self.arena.n
    }

    /// Subtree mass `sign * node` may be added on the chain.
    pub(super) open spec fn can_add(&self, q: Seq<u32>, node: int, sign: int) -> bool {
        &&& forall|a: int, c: int, x: int|
            #![trigger self.mass(a, c, x)]
            measure(a, c) && (x == node || holds(q, x)) ==> mass_range(a, self.mass(a, c, x))
        &&& forall|a: int, c: int, x: int|
            #![trigger self.mass(a, c, x)]
            measure(a, c) && holds(q, x) ==> mass_range(
                a,
                self.mass(a, c, x) + times(sign, self.mass(a, c, node)),
            )
        &&& forall|c: int|
            #![trigger self.mass(0, c, node)]
            self.mass(0, c, node) == 0 ==> self.mass(1, c, node) == 0 && self.mass(2, c, node) == 0
        &&& forall|c: int, x: int|
            #![trigger self.mass(0, c, x)]
            holds(q, x) && self.mass(0, c, x) + times(sign, self.mass(0, c, node)) == 0
                ==> self.mass(1, c, x) + times(sign, self.mass(1, c, node)) == 0 && self.mass(
                2,
                c,
                x,
            ) + times(sign, self.mass(2, c, node)) == 0
        &&& self.opts().cells_in_force() > 0 && !self.opts().dense() ==> load_fits(
            self.table.total_load(),
        ) && load_fits(self.table.total_load() + q.len() * times(sign, self.table.load(node)))
    }

    /// Move a whole subtree's mass, in every measure, on or off an ancestor chain.
    pub(super) fn agg_sub(&mut self, chain: &Vec<Slot>, node: Slot, sign: i32)
        requires
            old(self).parts(),
            old(self).travels(chain@),
            node < old(self).arena.n,
            !holds(chain@, node as int),
            sign == 1 || sign == -1,
            old(self).can_add(chain@, node as int, sign as int),
        ensures
            final(self).same_tree(*old(self)),
            final(self).table.wf(),
            final(self).parts(),
            final(self).mass_moved(
                *old(self),
                chain@,
                |a: int, c: int| times(sign as int, old(self).mass(a, c, node as int)),
            ),
    {
        let ghost o = *self;
        let ghost ni = node as int;
        let v = self.arena.nodes[node as usize];
        proof {
            assert(measure(0, -1) && measure(1, -1) && measure(2, -1));
            assert(o.mass(0, -1, ni) == v.cnt && o.mass(1, -1, ni) == v.sx && o.mass(2, -1, ni)
                == v.sy);
        }
        let (dc, dx, dy) = if sign == 1 {
            (v.cnt, v.sx, v.sy)
        } else {
            (-v.cnt, -v.sx, -v.sy)
        };
        proof {
            assert forall|i: int| 0 <= i < chain@.len() implies mass_after(
                &o.arena,
                #[trigger] chain@[i] as int,
                dc as int,
                dx as int,
                dy as int,
            ) by {
                let x = chain@[i] as int;
                assert(holds(chain@, x));
                assert(mass_range(0, o.mass(0, -1, x) + times(sign as int, o.mass(0, -1, ni))));
                assert(mass_range(1, o.mass(1, -1, x) + times(sign as int, o.mass(1, -1, ni))));
                assert(mass_range(2, o.mass(2, -1, x) + times(sign as int, o.mass(2, -1, ni))));
            }
            if o.table.width() > 0 {
                assert(can_move(o.table, chain@, ni, sign as int)) by {
                    assert forall|c: int| sound_mass(#[trigger] o.table.val(ni, c)) by {
                        o.lemma_val(ni, c);
                    }
                    assert forall|s: int, c: int|
                        holds(chain@, s) && o.table.val(ni, c).0 != 0 implies mass_fits(
                        (
                            (#[trigger] o.table.val(s, c)).0 + times(
                                sign as int,
                                o.table.val(ni, c).0,
                            ),
                            o.table.val(s, c).1 + times(sign as int, o.table.val(ni, c).1),
                            o.table.val(s, c).2 + times(sign as int, o.table.val(ni, c).2),
                        ),
                    ) by {
                        o.lemma_val(ni, c);
                        o.lemma_val(s, c);
                        if c >= 0 {
                            assert(measure(0, c) && measure(1, c) && measure(2, c));
                            assert(mass_range(
                                0,
                                o.mass(0, c, s) + times(sign as int, o.mass(0, c, ni)),
                            ));
                            assert(mass_range(
                                1,
                                o.mass(1, c, s) + times(sign as int, o.mass(1, c, ni)),
                            ));
                            assert(mass_range(
                                2,
                                o.mass(2, c, s) + times(sign as int, o.mass(2, c, ni)),
                            ));
                        }
                    }
                    assert forall|i: int| 0 <= i < chain@.len() implies #[trigger] chain@[i]
                        < o.table.slots() by {}
                }
            }
        }
        self.arena.add_mass(chain, dc, dx, dy);
        self.table.move_subtree(chain, node, sign);
        proof {
            assert(self.same_tree(o));
            self.lemma_same_tree(o);
            let d = |a: int, c: int| times(sign as int, o.mass(a, c, ni));
            assert forall|a: int, c: int, x: int|
                #![trigger self.mass(a, c, x)]
                measure(a, c) && 0 <= x < o.arena.cap() implies self.mass(a, c, x) == o.mass(
                a,
                c,
                x,
            ) + (if holds(chain@, x) {
                d(a, c)
            } else {
                0
            }) by {
                let w = self.arena.nodes[x];
                if a < 3 && c >= 0 {
                    let m = self.table.val(x, c);
                    if holds(chain@, x) {
                        assert(mass_range(0, o.mass(0, c, x))) by {
                            assert(measure(0, c));
                        }
                        assert(mass_range(0, o.mass(0, c, ni))) by {
                            assert(measure(0, c));
                        }
                        assert(o.mass(1, c, x) == o.table.val(x, c).1);
                        assert(o.mass(2, c, x) == o.table.val(x, c).2);
                        assert(o.mass(1, c, ni) == o.table.val(ni, c).1);
                        assert(o.mass(2, c, ni) == o.table.val(ni, c).2);
                    }
                } else if a == 3 {
                    let l = self.table.load(x);
                }
            }
        }
    }

    /// What [`NetCluster::mass`] says of a cell is what the table holds.
    pub(super) proof fn lemma_val(&self, s: int, c: int)
        ensures
            c >= 0 ==> self.mass(0, c, s) == self.table.val(s, c).0 && self.mass(1, c, s)
                == self.table.val(s, c).1 && self.mass(2, c, s) == self.table.val(s, c).2,
            c < 0 ==> self.table.val(s, c) == (0int, 0int, 0int),
    {
        self.table.lemma_outside(s, c);
    }

    /// What one point with these cells and these numbers adds to a measure.
    pub(super) open spec fn point_delta(
        width: int,
        cells: Seq<u32>,
        dc: int,
        dx: int,
        dy: int,
    ) -> spec_fn(int, int) -> int {
        |a: int, c: int|
            if a == 3 {
                dc * own_load(width, cells)
            } else if c < 0 || (width > 0 && holds(cells, c)) {
                if a == 0 {
                    dc
                } else if a == 1 {
                    dx
                } else {
                    dy
                }
            } else {
                0
            }
    }

    /// The mass of one point may be added on the chain.
    pub(super) open spec fn can_add_point(
        &self,
        q: Seq<u32>,
        cells: Seq<u32>,
        dc: int,
        dx: int,
        dy: int,
    ) -> bool {
        let d = Self::point_delta(self.opts().cells_in_force(), cells, dc, dx, dy);
        &&& cells_ok(self.opts(), cells)
        &&& forall|a: int, c: int, x: int|
            #![trigger self.mass(a, c, x)]
            measure(a, c) && a < 3 && holds(q, x) ==> mass_range(a, self.mass(a, c, x) + d(a, c))
        &&& forall|c: int, x: int|
            #![trigger self.mass(0, c, x)]
            c >= 0 && holds(q, x) && holds(cells, c) && self.mass(0, c, x) + d(0, c) == 0
                ==> self.mass(1, c, x) + d(1, c) == 0 && self.mass(2, c, x) + d(2, c) == 0
        &&& self.opts().cells_in_force() > 0 && !self.opts().dense() ==> load_fits(
            self.table.total_load(),
        ) && load_fits(self.table.total_load() + q.len() * (dc * cells.len()))
    }

    /// Add the mass of one point to every node of the chain.
    pub(super) fn agg_point(
        &mut self,
        chain: &Vec<Slot>,
        cells: &Vec<u32>,
        dc: i32,
        dx: i64,
        dy: i64,
    )
        requires
            old(self).parts(),
            old(self).travels(chain@),
            old(self).can_add_point(chain@, cells@, dc as int, dx as int, dy as int),
        ensures
            final(self).same_tree(*old(self)),
            final(self).table.wf(),
            final(self).parts(),
            final(self).mass_moved(
                *old(self),
                chain@,
                NetCluster::point_delta(
                    old(self).opts().cells_in_force(),
                    cells@,
                    dc as int,
                    dx as int,
                    dy as int,
                ),
            ),
    {
        let ghost o = *self;
        let ghost width = self.opts().cells_in_force();
        let ghost d = Self::point_delta(width, cells@, dc as int, dx as int, dy as int);
        proof {
            assert(measure(0, -1) && measure(1, -1) && measure(2, -1));
            assert forall|i: int| 0 <= i < chain@.len() implies mass_after(
                &o.arena,
                #[trigger] chain@[i] as int,
                dc as int,
                dx as int,
                dy as int,
            ) by {
                let x = chain@[i] as int;
                assert(holds(chain@, x));
                assert(mass_range(0, o.mass(0, -1, x) + d(0, -1)));
                assert(mass_range(1, o.mass(1, -1, x) + d(1, -1)));
                assert(mass_range(2, o.mass(2, -1, x) + d(2, -1)));
            }
            if width > 0 {
                assert(can_walk(o.table, chain@, cells@, dc as int, dx as int, dy as int)) by {
                    assert forall|s: int, c: int|
                        holds(chain@, s) && holds(cells@, c) implies mass_fits(
                        (
                            (#[trigger] o.table.val(s, c)).0 + dc,
                            o.table.val(s, c).1 + dx,
                            o.table.val(s, c).2 + dy,
                        ),
                    ) by {
                        o.lemma_val(s, c);
                        assert(measure(0, c) && measure(1, c) && measure(2, c));
                        assert(mass_range(0, o.mass(0, c, s) + d(0, c)));
                        assert(mass_range(1, o.mass(1, c, s) + d(1, c)));
                        assert(mass_range(2, o.mass(2, c, s) + d(2, c)));
                    }
                    assert forall|i: int| 0 <= i < chain@.len() implies #[trigger] chain@[i]
                        < o.table.slots() by {}
                    assert forall|i: int| 0 <= i < cells@.len() implies #[trigger] cells@[i]
                        < o.table.width() by {}
                }
            }
        }
        self.arena.add_mass(chain, dc, dx, dy);
        self.table.walk_once(chain, cells, dc, dx, dy);
        proof {
            assert(self.same_tree(o));
            self.lemma_same_tree(o);
            assert forall|a: int, c: int, x: int|
                #![trigger self.mass(a, c, x)]
                measure(a, c) && 0 <= x < o.arena.cap() implies self.mass(a, c, x) == o.mass(
                a,
                c,
                x,
            ) + (if holds(chain@, x) {
                d(a, c)
            } else {
                0
            }) by {
                let w = self.arena.nodes[x];
                if a < 3 && c >= 0 {
                    let m = self.table.val(x, c);
                    if holds(chain@, x) && holds(cells@, c) && width > 0 {
                        assert(o.mass(0, c, x) == o.table.val(x, c).0);
                        assert(o.mass(1, c, x) == o.table.val(x, c).1);
                        assert(o.mass(2, c, x) == o.table.val(x, c).2);
                    }
                } else if a == 3 {
                    let l = self.table.load(x);
                    if width == 0 {
                        assert(dc * 0 == 0);
                    }
                }
            }
        }
    }
}

} // verus!
