//! Hanging slots into the tree and taking them out again.
use super::arena::{same_data, Node, DEAD};
use super::mass::{ints, lemma_ints, lemma_masses, mass_range};
use super::{measure, weight, NetCluster, Slot};
use crate::cells::{holds, load_fits, times};
use crate::forest::{lemma_graft, lemma_prune, root_path, Forest};
use crate::geometry::in_world;
use crate::net::Point;
use crate::sums::{lemma_total_change, lemma_total_ext, lemma_sum_ext, lemma_total_extend, total};
use vstd::prelude::*;

verus! {

/// Adding `k` at the members of a sequence adds `k` for each of them.
pub proof fn lemma_total_on(
    n: int,
    q: Seq<u32>,
    f: spec_fn(int) -> int,
    g: spec_fn(int) -> int,
    k: int,
)
    requires
        q.no_duplicates(),
        forall|i: int| 0 <= i < q.len() ==> #[trigger] q[i] < n,
        forall|x: int| 0 <= x < n ==> #[trigger] g(x) == f(x) + (if holds(q, x) {
            k
        } else {
            0
        }),
    ensures
        total(n, g) == total(n, f) + q.len() * k,
    decreases q.len(),
{
    if q.len() == 0 {
        lemma_total_ext(n, g, f);
        assert(0 * k == 0);
    } else {
        let r = q.drop_last();
        let h = |x: int| f(x) + (if holds(r, x) {
            k
        } else {
            0
        });
        lemma_total_on(n, r, f, h, k);
        let e = q.last() as int;
        assert(q[q.len() - 1] == e);
        assert forall|x: int| 0 <= x < n && x != e implies #[trigger] h(x) == g(x) by {
            if holds(q, x) {
                let i = choose|i: int| 0 <= i < q.len() && #[trigger] q[i] == x;
                assert(r[i] == x);
            }
            if holds(r, x) {
                let i = choose|i: int| 0 <= i < r.len() && #[trigger] r[i] == x;
                assert(q[i] == x);
            }
        }
        assert(!holds(r, e)) by {
            if holds(r, e) {
                let i = choose|i: int| 0 <= i < r.len() && #[trigger] r[i] == e;
                assert(q[i] == q[q.len() - 1]);
            }
        }
        assert(holds(q, e));
        lemma_total_change(n, h, g, e);
        assert(q.len() * k == r.len() * k + k) by (nonlinear_arith)
            requires
                q.len() == r.len() + 1,
        ;
    }
}

impl NetCluster {
    /// Two states whose slots are in the tree at the same levels and positions.
    pub(super) open spec fn same_places(&self, o: NetCluster) -> bool {
        &&& self.geo == o.geo
        &&& self.grid == o.grid
        &&& self.arena.n == o.arena.n
        &&& self.arena.spare == o.arena.spare
        &&& self.arena.cap() == o.arena.cap()
        &&& forall|x: int|
            #![trigger self.arena.nodes[x]]
            0 <= x < o.arena.cap() ==> {
                let (a, b) = (self.arena.nodes[x], o.arena.nodes[x]);
                a.qx == b.qx && a.qy == b.qy && a.tz == b.tz
            }
    }

    pub(super) proof fn lemma_same_places(&self, o: NetCluster)
        requires
            self.same_places(o),
            o.arena.n <= o.arena.cap(),
        ensures
            forall|x: int| #[trigger] self.live(x) == o.live(x),
            forall|x: int| #[trigger] self.level(x) == o.level(x),
            self.key_fn() == o.key_fn(),
            self.list_fn() == o.list_fn(),
            o.gridded() ==> self.gridded(),
            forall|t: int| #[trigger] o.gridded_but(t) ==> self.gridded_but(t),
    {
        assert forall|x: int| #[trigger] self.live(x) == o.live(x) by {
            if 0 <= x < o.arena.n {
                let v = self.arena.nodes[x];
            }
        }
        assert forall|x: int| #[trigger] self.level(x) == o.level(x) by {
            if 0 <= x < o.arena.cap() {
                let v = self.arena.nodes[x];
            }
        }
        assert forall|s: int, z: int| #[trigger] self.key_fn()(s, z) == o.key_fn()(s, z) by {
            if 0 <= s < o.arena.cap() {
                let v = self.arena.nodes[s];
            }
        }
        assert(self.key_fn() =~= o.key_fn());
        assert forall|s: int, z: int| #[trigger] self.list_fn()(s, z) == o.list_fn()(s, z) by {
            assert(self.live(s) == o.live(s));
            assert(self.level(s) == o.level(s));
        }
        assert(self.list_fn() =~= o.list_fn());
        assert forall|s: int| #[trigger] self.listings()(s) == o.listings()(s) by {
            assert(self.live(s) == o.live(s));
            assert(self.level(s) == o.level(s));
        }
        assert(self.listings() =~= o.listings());
        assert forall|t: int| #[trigger] o.gridded_but(t) implies self.gridded_but(t) by {
            assert(self.list_but(t) =~= o.list_but(t));
            assert(self.listings_but(t) =~= o.listings_but(t));
        }
    }

    /// The structures fit, the aggregates are exact, and no slot outside the tree has a load.
    pub(super) open spec fn held(&self) -> bool {
        self.parts() && self.weighed() && self.clean_but(-1)
    }

    /// Masses are in range, and the load is that of the slots in the tree.
    pub(super) proof fn lemma_held(&self)
        requires
            self.held(),
        ensures
            self.forest().ok(),
            self.forest().n <= self.forest().kids.len(),
            forall|a: int, c: int, s: int|
                #![trigger self.mass(a, c, s)]
                measure(a, c) && self.live(s) ==> mass_range(a, self.mass(a, c, s)),
            forall|c: int, s: int|
                #![trigger self.mass(0, c, s)]
                self.live(s) && self.mass(0, c, s) == 0 ==> self.mass(1, c, s) == 0 && self.mass(
                    2,
                    c,
                    s,
                ) == 0,
            self.table.total_load() == total(self.slots(), self.live_load()),
            self.table.total_load() <= self.opts().entry_bound(self.slots()),
            self.opts().cells_in_force() > 0 && !self.opts().dense() ==> load_fits(
                self.table.total_load(),
            ),
    {
        self.lemma_forest();
        let f = self.forest();
        let pt = |s: int| self.point(s);
        let b = |a: int, c: int, s: int| self.mass(a, c, s);
        assert forall|s: int| #[trigger] (f.on)(s) implies in_world(pt(s).x) && in_world(pt(s).y)
            && super::cells_ok(self.opts(), pt(s).cells) && (f.level)(s) <= self.opts().max_zoom
            + 1 by {
            assert(self.live(s));
            assert(self.good_data(s));
        }
        assert forall|a: int, c: int| #[trigger] measure(a, c) implies f.all_balanced(
            |s: int| b(a, c, s),
            |s: int| weight(self.opts().cells_in_force(), a, c, pt(s)),
        ) by {
            assert(self.agg(a, c) =~= |s: int| b(a, c, s));
            assert(self.weigh(a, c) =~= |s: int|
                weight(self.opts().cells_in_force(), a, c, pt(s)));
        }
        lemma_masses(f, self.opts(), pt, b);
        assert forall|a: int, c: int, s: int|
            #![trigger self.mass(a, c, s)]
            measure(a, c) && self.live(s) implies mass_range(a, self.mass(a, c, s)) by {
            assert((f.on)(s));
            assert(b(a, c, s) == self.mass(a, c, s));
        }
        assert forall|c: int, s: int|
            #![trigger self.mass(0, c, s)]
            self.live(s) && self.mass(0, c, s) == 0 implies self.mass(1, c, s) == 0 && self.mass(
            2,
            c,
            s,
        ) == 0 by {
            assert((f.on)(s));
            assert(b(0, c, s) == 0);
            assert(b(1, c, s) == 0 && b(2, c, s) == 0);
        }
        let l = |s: int| self.table.load(s);
        let m = |s: int|
            if (f.on)(s) {
                b(3, -1, s)
            } else {
                0
            };
        assert forall|s: int| 0 <= s < self.arena.cap() implies #[trigger] l(s) == m(s) by {
            if !self.live(s) {
                assert(self.table.load(s) == 0);
            }
        }
        lemma_total_ext(self.arena.cap(), l, m);
        assert forall|s: int| self.slots() <= s < self.arena.cap() implies #[trigger] m(s) == 0 by {}
        lemma_total_extend(self.slots(), self.arena.cap(), m);
        lemma_total_ext(self.slots(), m, self.live_load());
        self.lemma_entry_room();
    }

    /// The load of each slot in the tree.
    pub(super) open spec fn live_load(&self) -> spec_fn(int) -> int {
        |s: int|
            if self.live(s) {
                self.mass(3, -1, s)
            } else {
                0
            }
    }

    /// The sparse layout has room for what the slots in use can need.
    pub(super) proof fn lemma_entry_room(&self)
        requires
            self.parts(),
        ensures
            self.opts().cells_in_force() > 0 && !self.opts().dense() ==> forall|n: int|
                n <= self.opts().entry_bound(self.slots()) ==> #[trigger] load_fits(n),
    {
    }

    /// Slot `s` can be hung into the tree: it is outside, with its point's data and with exact
    /// aggregates over whatever hangs from it.
    pub(super) open spec fn ready(&self, s: int) -> bool {
        &&& self.parts()
        &&& self.weighed()
        &&& self.clean_but(s)
        &&& 0 <= s < self.slots()
        &&& !self.live(s)
        &&& self.arena.up(s) == -1
        &&& self.good_data(s)
        &&& forall|a: int, c: int| #[trigger]
            measure(a, c) ==> self.forest().balanced(self.agg(a, c), self.weigh(a, c), s)
        &&& forall|i: int|
            0 <= i < self.arena.kids@[s].len() ==> self.live(#[trigger] self.arena.kids@[s][i])
    }

    /// Where the children and the masses are the same, so is the balance.
    pub(super) proof fn lemma_still_balanced(&self, o: NetCluster, a: int, c: int, x: int)
        requires
            o.arena.wf(),
            0 <= x < o.arena.n,
            self.arena.kids@[x] == o.arena.kids@[x],
            forall|y: int| 0 <= y < o.arena.n ==> #[trigger] self.mass(a, c, y) == o.mass(a, c, y),
            self.weigh(a, c)(x) == o.weigh(a, c)(x),
        ensures
            o.forest().balanced(o.agg(a, c), o.weigh(a, c), x) == self.forest().balanced(
                self.agg(a, c),
                self.weigh(a, c),
                x,
            ),
    {
        let q = o.arena.kids@[x];
        assert forall|i: int| 0 <= i < q.len() implies o.agg(a, c)(#[trigger] q[i]) == self.agg(
            a,
            c,
        )(q[i]) by {
            assert(o.arena.linked(x, i));
            assert(self.mass(a, c, q[i]) == o.mass(a, c, q[i]));
        }
        lemma_sum_ext(q, o.agg(a, c), self.agg(a, c));
        assert(self.mass(a, c, x) == o.mass(a, c, x));
    }

    /// Write the level of a slot that hangs nowhere.
    fn set_level(&mut self, s: Slot, level: i8)
        requires
            s < old(self).arena.nodes.len(),
        ensures
            final(self).arena.same_shape(old(self).arena),
            final(self).arena.tags == old(self).arena.tags,
            final(self).arena.nodes@ == old(self).arena.nodes@.update(
                s as int,
                (Node { tz: level, ..old(self).arena.nodes[s as int] }),
            ),
            final(self).geo == old(self).geo,
            final(self).grid == old(self).grid,
            final(self).table == old(self).table,
            final(self).ids == old(self).ids,
            final(self).stats == old(self).stats,
    {
        let mut v = self.arena.nodes[s as usize];
        v.tz = level;
        self.arena.nodes[s as usize] = v;
    }

    /// What a change of one level leaves alone.
    proof fn lemma_set_level(&self, o: NetCluster, s: int, level: i8)
        requires
            o.arena.n <= o.arena.cap(),
            0 <= s < o.arena.n,
            self.arena.same_shape(o.arena),
            self.arena.tags == o.arena.tags,
            self.arena.nodes@ == o.arena.nodes@.update(s, (Node { tz: level, ..o.arena.nodes[s] })),
            self.geo == o.geo,
            self.table == o.table,
        ensures
            forall|a: int, c: int, y: int|
                0 <= y < o.arena.cap() ==> #[trigger] self.mass(a, c, y) == o.mass(a, c, y),
            forall|a: int, c: int, y: int|
                0 <= y < o.arena.cap() ==> #[trigger] self.weigh(a, c)(y) == o.weigh(a, c)(y),
            forall|x: int| x != s ==> #[trigger] self.live(x) == o.live(x),
            forall|x: int| x != s ==> #[trigger] self.level(x) == o.level(x),
            self.live(s) == (level >= 0),
            self.level(s) == level,
            forall|x: int|
                0 <= x < o.arena.cap() ==> #[trigger] self.good_data(x) == o.good_data(x),
            forall|x: int|
                0 <= x < o.arena.cap() && x != s ==> #[trigger] self.point(x) == o.point(x),
            self.point(s) == (Point { level: level as int, ..o.point(s) }),
            self.key_fn() == o.key_fn(),
    {
        assert forall|s: int, z: int| #[trigger] self.key_fn()(s, z) == o.key_fn()(s, z) by {
            if 0 <= s < o.arena.cap() {
                let v = self.arena.nodes[s];
            }
        }
        assert(self.key_fn() =~= o.key_fn());
    }

    /// Take a ready slot into the tree as a root of level `level`. The grids do not list it yet.
    pub(super) fn raise(&mut self, s: Slot, level: i8)
        requires
            old(self).ready(s as int),
            old(self).gridded(),
            0 <= level <= old(self).opts().max_zoom + 1,
            forall|i: int|
                0 <= i < old(self).arena.kids@[s as int].len() ==> level < old(self).level(
                    #[trigger] old(self).arena.kids@[s as int][i],
                ),
        ensures
            final(self).held(),
            final(self).gridded_but(s as int),
            final(self).live(s as int),
            final(self).arena.same_shape(old(self).arena),
            final(self).arena.tags == old(self).arena.tags,
            final(self).arena.nodes@ == old(self).arena.nodes@.update(
                s as int,
                (Node { tz: level, ..old(self).arena.nodes[s as int] }),
            ),
            final(self).geo == old(self).geo,
            final(self).grid == old(self).grid,
            final(self).table == old(self).table,
            final(self).ids == old(self).ids,
            final(self).stats == old(self).stats,
    {
        let ghost o = *self;
        let ghost si = s as int;
        self.set_level(s, level);
        proof {
            self.lemma_set_level(o, si, level);
            assert forall|i: int| 0 <= i < o.arena.kids@[si].len() implies self.arena.nodes[si].tz
                < o.arena.nodes[#[trigger] o.arena.kids@[si][i]].tz by {
                assert(o.arena.linked(si, i));
                assert(level < o.level(o.arena.kids@[si][i]));
            }
            self.arena.lemma_relevel(o.arena, si);
            assert forall|x: int| #[trigger] self.live(x) implies self.good_data(x) && self.level(
                x,
            ) <= self.opts().max_zoom + 1 by {
                if x != si {
                    assert(o.live(x));
                    assert(o.good_data(x));
                }
            }
            assert forall|a: int, c: int| #[trigger] measure(a, c) implies self.forest().all_balanced(
                self.agg(a, c),
                self.weigh(a, c),
            ) by {
                assert(o.forest().all_balanced(o.agg(a, c), o.weigh(a, c)));
                assert forall|x: int| #[trigger] (self.forest().on)(x) implies self.forest().balanced(
                    self.agg(a, c),
                    self.weigh(a, c),
                    x,
                ) by {
                    assert(self.live(x));
                    if x != si {
                        assert((o.forest().on)(x));
                    }
                    self.lemma_still_balanced(o, a, c, x);
                }
            }
            assert forall|x: int|
                0 <= x < self.arena.cap() && !self.live(x) && x
                    != -1 implies #[trigger] self.table.load(x) == 0 && self.bare(x) by {
                assert(x != si);
                assert(!o.live(x));
                assert(o.table.load(x) == 0);
            }
            assert forall|t: int, z: int| #[trigger] self.list_but(si)(t, z) == o.list_fn()(t, z) by {
                if t != si {
                    assert(self.live(t) == o.live(t));
                    assert(self.level(t) == o.level(t));
                }
            }
            assert(self.list_but(si) =~= o.list_fn());
            assert forall|t: int| #[trigger] self.listings_but(si)(t) == o.listings()(t) by {
                if t != si {
                    assert(self.live(t) == o.live(t));
                    assert(self.level(t) == o.level(t));
                }
            }
            assert(self.listings_but(si) =~= o.listings());
        }
    }

    /// Take a root that the grids no longer list out of the tree, with all that hangs from it.
    pub(super) fn lower(&mut self, s: Slot)
        requires
            old(self).held(),
            old(self).gridded_but(s as int),
            old(self).live(s as int),
            old(self).arena.up(s as int) == -1,
        ensures
            final(self).ready(s as int),
            final(self).gridded(),
            final(self).arena.same_shape(old(self).arena),
            final(self).arena.tags == old(self).arena.tags,
            final(self).arena.nodes@ == old(self).arena.nodes@.update(
                s as int,
                (Node { tz: DEAD, ..old(self).arena.nodes[s as int] }),
            ),
            forall|i: int|
                0 <= i < old(self).arena.kids@[s as int].len() ==> old(self).level(s as int)
                    < final(self).level(#[trigger] old(self).arena.kids@[s as int][i]),
            final(self).geo == old(self).geo,
            final(self).grid == old(self).grid,
            final(self).table == old(self).table,
            final(self).ids == old(self).ids,
            final(self).stats == old(self).stats,
    {
        let ghost o = *self;
        let ghost si = s as int;
        self.set_level(s, DEAD);
        proof {
            self.lemma_set_level(o, si, DEAD);
            assert forall|i: int| 0 <= i < o.arena.kids@[si].len() implies o.arena.nodes[si].tz
                < o.arena.nodes[#[trigger] o.arena.kids@[si][i]].tz by {
                assert(o.arena.linked(si, i));
                assert(o.arena.hung(o.arena.kids@[si][i]));
            }
            assert forall|i: int| 0 <= i < o.arena.kids@[si].len() implies self.arena.nodes[si].tz
                < o.arena.nodes[#[trigger] o.arena.kids@[si][i]].tz by {}
            self.arena.lemma_relevel(o.arena, si);
            assert forall|i: int| 0 <= i < self.arena.kids@[si].len() implies self.live(
                #[trigger] self.arena.kids@[si][i],
            ) && o.level(si) < self.level(o.arena.kids@[si][i]) by {
                let k = o.arena.kids@[si][i];
                assert(o.arena.linked(si, i));
                assert(k != si);
                assert(o.live(k));
                assert(self.live(k) == o.live(k));
            }
            assert forall|x: int| #[trigger] self.live(x) implies self.good_data(x) && self.level(
                x,
            ) <= self.opts().max_zoom + 1 by {
                assert(x != si);
                assert(o.live(x));
                assert(o.good_data(x));
            }
            assert forall|a: int, c: int| #[trigger] measure(a, c) implies self.forest().all_balanced(
                self.agg(a, c),
                self.weigh(a, c),
            ) && self.forest().balanced(self.agg(a, c), self.weigh(a, c), si) by {
                assert(o.forest().all_balanced(o.agg(a, c), o.weigh(a, c)));
                assert forall|x: int| #[trigger] (self.forest().on)(x) implies self.forest().balanced(
                    self.agg(a, c),
                    self.weigh(a, c),
                    x,
                ) by {
                    assert(self.live(x));
                    assert(x != si);
                    assert((o.forest().on)(x));
                    self.lemma_still_balanced(o, a, c, x);
                }
                assert((o.forest().on)(si));
                self.lemma_still_balanced(o, a, c, si);
            }
            assert forall|x: int|
                0 <= x < self.arena.cap() && !self.live(x) && x
                    != si implies #[trigger] self.table.load(x) == 0 && self.bare(x) by {
                assert(!o.live(x));
                assert(o.table.load(x) == 0);
            }
            assert forall|t: int, z: int| #[trigger] self.list_fn()(t, z) == o.list_but(si)(t, z) by {
                if t != si {
                    assert(self.live(t) == o.live(t));
                    assert(self.level(t) == o.level(t));
                }
            }
            assert(self.list_fn() =~= o.list_but(si));
            assert forall|t: int| #[trigger] self.listings()(t) == o.listings_but(si)(t) by {
                if t != si {
                    assert(self.live(t) == o.live(t));
                    assert(self.level(t) == o.level(t));
                }
            }
            assert(self.listings() =~= o.listings_but(si));
        }
    }

    /// Two states with the same slots, points and levels, whatever the links and the masses.
    pub(super) open spec fn same_points(&self, o: NetCluster) -> bool {
        &&& self.geo == o.geo
        &&& self.grid == o.grid
        &&& self.ids == o.ids
        &&& self.stats == o.stats
        &&& self.arena.n == o.arena.n
        &&& self.arena.spare == o.arena.spare
        &&& self.arena.cap() == o.arena.cap()
        &&& self.arena.tags == o.arena.tags
        &&& forall|x: int|
            #![trigger self.arena.nodes[x]]
            0 <= x < o.arena.cap() ==> {
                let (a, b) = (self.arena.nodes[x], o.arena.nodes[x]);
                a.qx == b.qx && a.qy == b.qy && a.tz == b.tz && a.ext == b.ext
            }
    }

    /// The ancestors of a node at a coarser level than `s` do not include `s`.
    proof fn lemma_chain_above(&self, q: Seq<u32>, p: int, s: int)
        requires
            self.arena.wf(),
            self.arena.is_chain(q, p),
            self.live(p),
            self.live(s),
            self.level(p) < self.level(s),
        ensures
            !holds(q, s),
    {
        assert forall|i: int| 0 <= i < q.len() implies self.level(#[trigger] q[i] as int)
            <= self.level(p) by {
            self.lemma_chain_level(q, p, i);
        }
    }

    proof fn lemma_chain_level(&self, q: Seq<u32>, p: int, i: int)
        requires
            self.arena.wf(),
            self.arena.is_chain(q, p),
            0 <= i < q.len(),
        ensures
            self.level(q[i] as int) <= self.level(p),
        decreases i,
    {
        if i > 0 {
            self.lemma_chain_level(q, p, i - 1);
            let c = q[i - 1] as int;
            assert(self.live(c));
            assert(self.arena.hung(c));
            assert(self.arena.up(c) == q[i]);
        }
    }

    /// A chain of the arena is a path to a root of the tree.
    pub(super) proof fn lemma_chain_path(&self, q: Seq<u32>, p: int)
        requires
            self.arena.wf(),
            self.arena.is_chain(q, p),
        ensures
            root_path(self.forest(), ints(q), p),
            self.travels(q),
            forall|x: int| #[trigger] ints(q).contains(x) == holds(q, x),
            forall|x: int| #[trigger] holds(q, x) ==> self.live(x),
    {
        lemma_ints(q);
        let f = self.forest();
        let r = ints(q);
        assert forall|i: int| 0 <= i < r.len() implies (f.on)(#[trigger] r[i]) by {
            assert(self.live(q[i] as int));
        }
        assert forall|i: int| 0 <= i < r.len() - 1 implies (f.up)(#[trigger] r[i]) == r[i + 1] by {
            assert(self.arena.up(q[i] as int) == q[i + 1]);
            assert(self.live(q[i + 1] as int));
        }
        assert forall|i: int| 0 <= i < q.len() implies #[trigger] q[i] < self.arena.n by {
            assert(self.live(q[i] as int));
        }
        assert forall|x: int| #[trigger] holds(q, x) implies self.live(x) by {
            let i = choose|i: int| 0 <= i < q.len() && #[trigger] q[i] == x;
            assert(self.live(q[i] as int));
        }
    }

    /// The masses after those of `s` have been added, `sign` times, along a chain.
    spec fn shifted(&self, q: Seq<u32>, s: int, sign: int) -> spec_fn(int, int, int) -> int {
        |a: int, c: int, x: int|
            self.mass(a, c, x) + (if holds(q, x) {
                times(sign, self.mass(a, c, s))
            } else {
                0
            })
    }

    /// If the masses after the addition balance on some tree of the same points, the addition
    /// stays in range.
    proof fn lemma_can_add(&self, g: Forest, q: Seq<u32>, s: int, sign: int)
        requires
            self.held(),
            self.live(s),
            sign == 1 || sign == -1,
            self.travels(q),
            forall|x: int| #[trigger] holds(q, x) ==> self.live(x),
            g.ok(),
            g.n == self.slots(),
            g.on == self.forest().on,
            g.level == self.forest().level,
            forall|a: int, c: int| #[trigger]
                measure(a, c) ==> g.all_balanced(
                    |x: int| self.shifted(q, s, sign)(a, c, x),
                    self.weigh(a, c),
                ),
        ensures
            self.can_add(q, s, sign),
    {
        self.lemma_held();
        self.lemma_forest();
        let o = self.opts();
        let pt = |x: int| self.point(x);
        let b = self.shifted(q, s, sign);
        assert forall|x: int| #[trigger] (g.on)(x) implies in_world(pt(x).x) && in_world(pt(x).y)
            && super::cells_ok(o, pt(x).cells) && (g.level)(x) <= o.max_zoom + 1 by {
            assert(self.live(x));
            assert(self.good_data(x));
        }
        assert forall|a: int, c: int| #[trigger] measure(a, c) implies g.all_balanced(
            |x: int| b(a, c, x),
            |x: int| weight(o.cells_in_force(), a, c, pt(x)),
        ) by {
            assert(self.weigh(a, c) =~= |x: int| weight(o.cells_in_force(), a, c, pt(x)));
            assert((|x: int| b(a, c, x)) =~= (|x: int| self.shifted(q, s, sign)(a, c, x)));
        }
        lemma_masses(g, o, pt, b);
        assert forall|a: int, c: int, x: int|
            #![trigger self.mass(a, c, x)]
            measure(a, c) && holds(q, x) implies mass_range(
            a,
            self.mass(a, c, x) + times(sign, self.mass(a, c, s)),
        ) by {
            assert(self.live(x));
            assert((g.on)(x));
            assert(mass_range(a, b(a, c, x)));
        }
        assert forall|c: int, x: int|
            #![trigger self.mass(0, c, x)]
            holds(q, x) && self.mass(0, c, x) + times(sign, self.mass(0, c, s))
                == 0 implies self.mass(1, c, x) + times(sign, self.mass(1, c, s)) == 0 && self.mass(
            2,
            c,
            x,
        ) + times(sign, self.mass(2, c, s)) == 0 by {
            assert(self.live(x));
            assert((g.on)(x));
            assert(b(0, c, x) == 0);
            assert(b(1, c, x) == 0 && b(2, c, x) == 0);
        }
        let k = times(sign, self.table.load(s));
        assert(self.mass(3, -1, s) == self.table.load(s));
        let m = |x: int|
            if (g.on)(x) {
                b(3, -1, x)
            } else {
                0
            };
        assert forall|x: int| 0 <= x < self.slots() implies #[trigger] m(x) == self.live_load()(x)
            + (if holds(q, x) {
            k
        } else {
            0
        }) by {
            if holds(q, x) {
                assert(self.live(x));
            }
        }
        lemma_total_on(self.slots(), q, self.live_load(), m, k);
        self.lemma_entry_room();
    }

    /// The aggregates after a change of the tree that the masses followed.
    proof fn lemma_weighed_after(
        &self,
        m: NetCluster,
        o: NetCluster,
        q: Seq<u32>,
        s: int,
        sign: int,
    )
        requires
            o.held(),
            o.live(s),
            m.mass_moved(o, q, |a: int, c: int| times(sign, o.mass(a, c, s))),
            m.parts(),
            self.parts(),
            self.same_points(o),
            self.table == m.table,
            m.arena.cap() == o.arena.cap(),
            forall|x: int|
                0 <= x < o.arena.cap() ==> same_data(#[trigger] self.arena.nodes[x], m.arena.nodes[x]),
            forall|a: int, c: int| #[trigger]
                measure(a, c) ==> self.forest().all_balanced(
                    |x: int| o.shifted(q, s, sign)(a, c, x),
                    o.weigh(a, c),
                ),
            forall|x: int| #[trigger] holds(q, x) ==> o.live(x),
        ensures
            self.weighed(),
            self.clean_but(-1),
    {
        assert forall|a: int, c: int, x: int|
            measure(a, c) && 0 <= x < o.arena.cap() implies #[trigger] self.mass(a, c, x)
            == o.shifted(q, s, sign)(a, c, x) by {
            assert(same_data(self.arena.nodes[x], m.arena.nodes[x]));
            assert(m.mass(a, c, x) == self.mass(a, c, x));
        }
        assert forall|a: int, c: int| #[trigger] measure(a, c) implies self.forest().all_balanced(
            self.agg(a, c),
            self.weigh(a, c),
        ) by {
            let b = |x: int| o.shifted(q, s, sign)(a, c, x);
            assert(self.forest().all_balanced(b, o.weigh(a, c)));
            assert forall|x: int| #[trigger] (self.forest().on)(x) implies self.forest().balanced(
                self.agg(a, c),
                self.weigh(a, c),
                x,
            ) by {
                assert(self.forest().balanced(b, o.weigh(a, c), x));
                let r = self.arena.kids@[x];
                assert forall|i: int| 0 <= i < r.len() implies b(#[trigger] r[i]) == self.agg(a, c)(
                    r[i],
                ) by {
                    assert(self.arena.linked(x, i));
                    assert(self.mass(a, c, r[i]) == b(r[i]));
                }
                lemma_sum_ext(r, b, self.agg(a, c));
                assert(self.mass(a, c, x) == b(x));
                let v = self.arena.nodes[x];
            }
        }
        assert(measure(3, -1));
        assert forall|x: int|
            0 <= x < self.arena.cap() && !self.live(x) && x
                != -1 implies #[trigger] self.table.load(x) == 0 && self.bare(x) by {
            let v = self.arena.nodes[x];
            assert(!o.live(x));
            assert(o.table.load(x) == 0);
            assert(self.mass(3, -1, x) == o.shifted(q, s, sign)(3, -1, x));
            assert forall|c: int| #[trigger] self.table.val(x, c) == (0int, 0int, 0int) by {
                self.lemma_val(x, c);
                o.lemma_val(x, c);
                if c >= 0 {
                    assert(o.table.val(x, c) == (0int, 0int, 0int));
                    assert(measure(0, c) && measure(1, c) && measure(2, c));
                    assert(self.mass(0, c, x) == o.shifted(q, s, sign)(0, c, x));
                    assert(self.mass(1, c, x) == o.shifted(q, s, sign)(1, c, x));
                    assert(self.mass(2, c, x) == o.shifted(q, s, sign)(2, c, x));
                }
            }
        }
    }

    pub(super) proof fn lemma_parts_after(&self, o: NetCluster, m: NetCluster)
        requires
            o.parts(),
            m.parts(),
            m.geo == o.geo,
            m.arena.cap() == o.arena.cap(),
            self.same_points(o),
            self.table == m.table,
            self.arena.wf(),
        ensures
            self.parts(),
    {
        assert forall|x: int| #[trigger] self.live(x) implies self.good_data(x) && self.level(x)
            <= self.opts().max_zoom + 1 by {
            let v = self.arena.nodes[x];
            assert(o.live(x));
            assert(o.good_data(x));
            assert(o.level(x) == self.level(x));
        }
    }

    /// Hang root `s` from `p`, a center of the level above, and pass its mass up.
    pub(super) fn hang(&mut self, p: Slot, s: Slot)
        requires
            old(self).held(),
            old(self).live(p as int),
            old(self).live(s as int),
            old(self).arena.up(s as int) == -1,
            old(self).level(p as int) < old(self).level(s as int),
        ensures
            final(self).held(),
            final(self).same_points(*old(self)),
            final(self).arena.up(s as int) == p,
            forall|x: int|
                0 <= x < old(self).arena.n && x != s ==> #[trigger] final(self).arena.up(x) == old(
                    self,
                ).arena.up(x),
            forall|x: int|
                0 <= x < old(self).arena.cap() && x != p ==> #[trigger] final(self).arena.kids@[x]
                    == old(self).arena.kids@[x],
            exists|i: int|
                old(self).arena.behind(p as int, s as int, i) && final(self).arena.kids@ == old(
                    self,
                ).arena.kids@.update(
                    p as int,
                    #[trigger] old(self).arena.kids@[p as int].insert(i, s as int),
                ),
    {
        let ghost o = *self;
        let ghost (pi, si) = (p as int, s as int);
        let chain = self.arena.chain(p);
        let ghost q = chain@;
        let ghost f = o.forest();
        proof {
            o.lemma_held();
            o.lemma_chain_path(q, pi);
            o.lemma_chain_above(q, pi, si);
            assert(!ints(q).contains(si));
            assert((f.up)(si) == -1);
            let g = Forest {
                up: |x: int|
                    if x == si {
                        pi
                    } else {
                        (f.up)(x)
                    },
                kids: f.kids.update(pi, f.kids[pi].insert(0, si)),
                ..f
            };
            assert(measure(0, 0));
            assert forall|a: int, c: int| #[trigger] measure(a, c) implies g.all_balanced(
                |x: int| o.shifted(q, si, 1)(a, c, x),
                o.weigh(a, c),
            ) && g.ok() by {
                lemma_graft(
                    f,
                    g,
                    o.agg(a, c),
                    |x: int| o.shifted(q, si, 1)(a, c, x),
                    o.weigh(a, c),
                    ints(q),
                    pi,
                    si,
                    0,
                );
            }
            o.lemma_can_add(g, q, si, 1);
        }
        self.agg_sub(&chain, s, 1);
        let ghost m = *self;
        proof {
            assert(m.arena.nodes[pi].tz == o.arena.nodes[pi].tz);
            assert(m.arena.nodes[si].tz == o.arena.nodes[si].tz);
            assert(o.arena.hung(pi));
            if o.arena.up(pi) == -2 {
                assert(o.arena.spared(o.arena.home@[pi].1));
            }
        }
        self.arena.add_child(p, s);
        proof {
            assert(self.same_points(o)) by {
                assert forall|x: int|
                    #![trigger self.arena.nodes[x]]
                    0 <= x < o.arena.cap() implies {
                    let (a, b) = (self.arena.nodes[x], o.arena.nodes[x]);
                    a.qx == b.qx && a.qy == b.qy && a.tz == b.tz && a.ext == b.ext
                } by {
                    assert(same_data(self.arena.nodes[x], m.arena.nodes[x]));
                    let v = m.arena.nodes[x];
                }
            }
            self.lemma_parts_after(o, m);
            self.lemma_same_places(o);
            let g = self.forest();
            let i = choose|i: int|
                m.arena.behind(pi, si, i) && self.arena.kids@ == m.arena.kids@.update(
                    pi,
                    #[trigger] m.arena.kids@[pi].insert(i, si),
                );
            assert(o.arena.behind(pi, si, i)) by {
                let k = o.arena.kids@[pi];
                assert forall|j: int| 0 <= j < k.len() implies m.arena.nodes[#[trigger] k[j]].tz
                    == o.arena.nodes[k[j]].tz by {
                    assert(o.arena.linked(pi, j));
                    let v = m.arena.nodes[k[j]];
                }
            }
            assert(g.on =~= f.on);
            assert(g.level =~= f.level) by {
                assert forall|x: int| #[trigger] (g.level)(x) == (f.level)(x) by {
                    assert(self.level(x) == o.level(x));
                }
            }
            assert forall|x: int| (f.on)(x) implies #[trigger] (g.up)(x) == (if x == si {
                pi
            } else {
                (f.up)(x)
            }) by {
                assert(o.live(x));
                if x != si {
                    assert(self.arena.up(x) == o.arena.up(x));
                    assert(self.live(o.arena.up(x)) == o.live(o.arena.up(x)));
                } else {
                    assert(self.live(pi) == o.live(pi));
                }
            }
            assert forall|a: int, c: int| #[trigger] measure(a, c) implies g.all_balanced(
                |x: int| o.shifted(q, si, 1)(a, c, x),
                o.weigh(a, c),
            ) by {
                lemma_graft(
                    f,
                    g,
                    o.agg(a, c),
                    |x: int| o.shifted(q, si, 1)(a, c, x),
                    o.weigh(a, c),
                    ints(q),
                    pi,
                    si,
                    i,
                );
            }
            self.lemma_weighed_after(m, o, q, si, 1);
        }
    }

    /// Take `s`, with what hangs from it, off its parent, and its mass off its ancestors.
    pub(super) fn unhang(&mut self, s: Slot)
        requires
            old(self).held(),
            old(self).live(s as int),
            old(self).live(old(self).arena.up(s as int)),
        ensures
            final(self).held(),
            final(self).same_points(*old(self)),
            final(self).arena.up(s as int) == -1,
            forall|x: int|
                0 <= x < old(self).arena.n && x != s ==> #[trigger] final(self).arena.up(x) == old(
                    self,
                ).arena.up(x),
            forall|x: int|
                0 <= x < old(self).arena.cap() && x != old(self).arena.up(s as int)
                    ==> #[trigger] final(self).arena.kids@[x] == old(self).arena.kids@[x],
            ({
                let (p, i) = old(self).arena.home@[s as int];
                0 <= i < old(self).arena.kids@[p].len() && old(self).arena.kids@[p][i] == s
                    && final(self).arena.kids@ == old(self).arena.kids@.update(
                    p,
                    old(self).arena.kids@[p].remove(i),
                )
            }),
    {
        let ghost o = *self;
        let ghost si = s as int;
        let p = self.arena.nodes[s as usize].par;
        let ghost pi = p as int;
        proof {
            assert(o.arena.hung(si));
            assert(o.arena.up(si) == pi);
        }
        let chain = self.arena.chain(p);
        let ghost q = chain@;
        let ghost f = o.forest();
        let ghost i = o.arena.home@[si].1;
        let ghost g0 = Forest {
            up: |x: int|
                if x == si {
                    -1
                } else {
                    (f.up)(x)
                },
            kids: f.kids.update(pi, f.kids[pi].remove(i)),
            ..f
        };
        proof {
            o.lemma_held();
            o.lemma_chain_path(q, pi);
            o.lemma_chain_above(q, pi, si);
            assert((f.up)(si) == pi);
            assert(measure(0, 0));
            assert forall|a: int, c: int| #[trigger] measure(a, c) implies g0.all_balanced(
                |x: int| o.shifted(q, si, -1)(a, c, x),
                o.weigh(a, c),
            ) && g0.ok() by {
                lemma_prune(
                    f,
                    g0,
                    o.agg(a, c),
                    |x: int| o.shifted(q, si, -1)(a, c, x),
                    o.weigh(a, c),
                    ints(q),
                    pi,
                    si,
                    i,
                );
            }
            o.lemma_can_add(g0, q, si, -1);
        }
        self.agg_sub(&chain, s, -1);
        let ghost m = *self;
        self.arena.del_child(s);
        proof {
            assert(self.same_points(o)) by {
                assert forall|x: int|
                    #![trigger self.arena.nodes[x]]
                    0 <= x < o.arena.cap() implies {
                    let (a, b) = (self.arena.nodes[x], o.arena.nodes[x]);
                    a.qx == b.qx && a.qy == b.qy && a.tz == b.tz && a.ext == b.ext
                } by {
                    assert(same_data(self.arena.nodes[x], m.arena.nodes[x]));
                    let v = m.arena.nodes[x];
                }
            }
            self.lemma_parts_after(o, m);
            self.lemma_same_places(o);
            let g = self.forest();
            assert(g.on =~= f.on);
            assert(g.level =~= f.level) by {
                assert forall|x: int| #[trigger] (g.level)(x) == (f.level)(x) by {
                    assert(self.level(x) == o.level(x));
                }
            }
            assert forall|x: int| (f.on)(x) implies #[trigger] (g.up)(x) == (if x == si {
                -1
            } else {
                (f.up)(x)
            }) by {
                assert(o.live(x));
                if x != si {
                    assert(self.arena.up(x) == o.arena.up(x));
                    assert(self.live(o.arena.up(x)) == o.live(o.arena.up(x)));
                }
            }
            assert forall|a: int, c: int| #[trigger] measure(a, c) implies g.all_balanced(
                |x: int| o.shifted(q, si, -1)(a, c, x),
                o.weigh(a, c),
            ) by {
                lemma_prune(
                    f,
                    g,
                    o.agg(a, c),
                    |x: int| o.shifted(q, si, -1)(a, c, x),
                    o.weigh(a, c),
                    ints(q),
                    pi,
                    si,
                    i,
                );
            }
            self.lemma_weighed_after(m, o, q, si, -1);
        }
    }
}

} // verus!
