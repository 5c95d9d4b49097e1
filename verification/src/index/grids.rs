//! Listing centers in the grids, and finding the centers around a position.
use super::mass::lemma_total_bound;
use super::{grid_key, NetCluster, Slot};
use crate::geometry::{in_world, lemma_cell_halves, lemma_cell_range, Options, CELL_SPAN};
use crate::grid::{
    bucket_has, entries_fit, grid_lists, key_level, lemma_grid_add, lemma_grid_del,
};
use crate::order::{floor_of, fronted, lemma_floor_add, lemma_floor_del, lifted};
use crate::sums::{lemma_total_change, lemma_total_ext, total};
use vstd::prelude::*;

verus! {

/// Pack a level and a cell of it.
pub(super) fn pack(z: u8, cx: u64, cy: u64) -> (k: u64)
    requires
        z <= 20,
        cx < CELL_SPAN,
        cy < CELL_SPAN,
    ensures
        k == z * 0x400_0000_0000_0000 + cx * 0x2000_0000 + cy,
        key_level(k) == z,
        k != crate::cellhash::EMPTY,
{
    (z as u64) * 0x400_0000_0000_0000 + cx * 0x2000_0000 + cy
}

/// The level of a key.
pub(super) fn level_of(k: u64) -> (z: u64)
    ensures
        z == key_level(k),
{
    k / 0x400_0000_0000_0000
}

/// A grid key tells its level and its cell.
pub proof fn lemma_grid_key(o: Options, x: int, y: int, z: int)
    requires
        o.valid(),
        in_world(x),
        in_world(y),
        0 <= z <= o.max_zoom,
    ensures
        grid_key(o, x, y, z) == z * 0x400_0000_0000_0000 + o.cell(x, z) * 0x2000_0000 + o.cell(y, z),
        key_level(grid_key(o, x, y, z)) == z,
        grid_key(o, x, y, z) != crate::cellhash::EMPTY,
        0 <= o.cell(x, z) < CELL_SPAN,
        0 <= o.cell(y, z) < CELL_SPAN,
{
    lemma_cell_range(o, x, z);
    lemma_cell_range(o, y, z);
}

/// Keys matter only where something is listed.
pub proof fn lemma_rekey(
    g: Map<u64, Seq<Slot>>,
    key: spec_fn(int, int) -> u64,
    key2: spec_fn(int, int) -> u64,
    lists: spec_fn(int, int) -> bool,
    lists2: spec_fn(int, int) -> bool,
)
    requires
        grid_lists(g, key, lists),
        forall|t: int, v: int| #[trigger] lists2(t, v) == lists(t, v),
        forall|t: int, v: int| lists(t, v) ==> #[trigger] key2(t, v) == key(t, v),
    ensures
        grid_lists(g, key2, lists2),
{
    assert forall|k: u64, s: Slot| #[trigger] bucket_has(g, k, s) <==> lists2(
        s as int,
        key_level(k),
    ) && k == key2(s as int, key_level(k)) by {
        assert(bucket_has(g, k, s) <==> lists(s as int, key_level(k)) && k == key(
            s as int,
            key_level(k),
        ));
        assert(lists2(s as int, key_level(k)) == lists(s as int, key_level(k)));
        let k2 = key2(s as int, key_level(k));
    }
}

impl NetCluster {
    pub(super) open spec fn list_but(&self, s: int) -> spec_fn(int, int) -> bool {
        |t: int, z: int| t != s && self.list_fn()(t, z)
    }

    pub(super) open spec fn listings_but(&self, s: int) -> spec_fn(int) -> int {
        |t: int|
            if t == s {
                0
            } else {
                self.listings()(t)
            }
    }

    /// The grids list every center but `s`.
    pub(super) open spec fn gridded_but(&self, s: int) -> bool {
        &&& grid_lists(self.grid@, self.key_fn(), self.list_but(s))
        &&& self.grid.live() == total(self.slots(), self.listings_but(s))
    }

    /// Two states that differ in their grids at most.
    pub(super) open spec fn same_but_grid(&self, o: NetCluster) -> bool {
        &&& self.geo == o.geo
        &&& self.table == o.table
        &&& self.arena == o.arena
        &&& self.ids == o.ids
        &&& self.stats == o.stats
    }

    proof fn lemma_parts_but_grid(&self, o: NetCluster)
        requires
            o.parts(),
            self.same_but_grid(o),
            self.grid.wf(),
        ensures
            self.parts(),
    {
        assert forall|s: int| #[trigger] self.live(s) implies self.good_data(s) && self.level(s)
            <= self.opts().max_zoom + 1 by {
            assert(o.live(s));
        }
    }

    /// There is room for the listings of every slot.
    proof fn lemma_listings(&self)
        requires
            self.parts(),
        ensures
            total(self.slots(), self.listings()) <= 21 * self.slots(),
            entries_fit(21 * self.slots()),
    {
        let f = self.listings();
        assert forall|s: int| 0 <= s < self.slots() implies #[trigger] f(s) <= 21 by {
            if self.live(s) {
                let v = self.arena.nodes[s];
            }
        }
        lemma_total_bound(self.slots(), 21, f);
    }

    /// What listing `s` at the levels finer than `z` makes of the lists.
    spec fn partly(&self, s: int, z: int) -> spec_fn(int, int) -> bool {
        |t: int, v: int|
            (t != s && self.list_fn()(t, v)) || (t == s && z < v <= self.opts().max_zoom)
    }

    /// The key of the cell of the coarsest grid that slot `s` lies in.
    pub(super) open spec fn ground_key(&self, s: int) -> u64 {
        self.key_fn()(s, 0)
    }

    /// List `s` in every level from its own down to the finest.
    pub(super) fn grid_add(&mut self, s: Slot)
        requires
            old(self).parts(),
            old(self).live(s as int),
            old(self).gridded_but(s as int),
        ensures
            final(self).parts(),
            final(self).gridded(),
            final(self).same_but_grid(*old(self)),
            floor_of(final(self).grid@) == (if old(self).level(s as int) == 0 {
                fronted(floor_of(old(self).grid@), old(self).ground_key(s as int), s)
            } else {
                floor_of(old(self).grid@)
            }),
    {
        let ghost o = *self;
        let ghost si = s as int;
        let ghost opts = self.opts();
        let t = self.arena.nodes[s as usize].tz;
        let top = self.geo.opts().max_zoom;
        let ghost base = total(o.slots(), o.listings_but(si));
        proof {
            let (f, g) = (o.listings_but(si), o.listings());
            lemma_total_change(o.slots(), f, g, si);
            o.lemma_listings();
            assert(o.good_data(si));
        }
        if t > top as i8 {
            proof {
                lemma_rekey(
                    o.grid@,
                    o.key_fn(),
                    o.key_fn(),
                    o.list_but(si),
                    o.list_fn(),
                );
            }
            return ;
        }
        let mut cx = self.geo.finest_cell(self.arena.nodes[s as usize].qx);
        let mut cy = self.geo.finest_cell(self.arena.nodes[s as usize].qy);
        let ghost x = o.arena.nodes[si].qx as int;
        let ghost y = o.arena.nodes[si].qy as int;
        let mut z: i8 = top as i8;
        proof {
            lemma_rekey(
                o.grid@,
                o.key_fn(),
                o.key_fn(),
                o.list_but(si),
                o.partly(si, top as int),
            );
        }
        while z >= t
            invariant
                o.parts(),
                o.live(si),
                si == s,
                opts == o.opts(),
                self.same_but_grid(o),
                self.grid.wf(),
                o.good_data(si),
                x == o.arena.nodes[si].qx,
                y == o.arena.nodes[si].qy,
                t == o.arena.nodes[si].tz,
                0 <= t <= top,
                t - 1 <= z <= top,
                top == opts.max_zoom,
                z >= 0 ==> cx == opts.cell(x, z as int) && cy == opts.cell(y, z as int),
                grid_lists(self.grid@, o.key_fn(), o.partly(si, z as int)),
                base == total(o.slots(), o.listings_but(si)),
                self.grid.live() == base + (top - z),
                base + (top + 1 - t) <= 21 * o.slots(),
                entries_fit(21 * o.slots()),
                floor_of(self.grid@) == (if z < 0 {
                    fronted(floor_of(o.grid@), o.ground_key(si), s)
                } else {
                    floor_of(o.grid@)
                }),
            decreases z + 1,
        {
            proof {
                lemma_grid_key(opts, x, y, z as int);
                self.grid.lemma_live();
            }
            let k = pack(z as u8, cx, cy);
            let ghost g = self.grid@;
            self.grid.add_at(k, s);
            proof {
                assert(k == o.key_fn()(si, z as int));
                let before = o.partly(si, z as int);
                let after = o.partly(si, z - 1);
                assert forall|u: int, v: int| #[trigger] after(u, v) == (before(u, v) || (u == s
                    && v == z)) by {}
                lemma_grid_add(g, o.key_fn(), before, after, s, z as int);
                lemma_floor_add(g, k, s);
                if z > 0 {
                    lemma_cell_halves(opts, x, z - 1);
                    lemma_cell_halves(opts, y, z - 1);
                }
            }
            cx = cx / 2;
            cy = cy / 2;
            z = z - 1;
        }
        proof {
            lemma_rekey(
                self.grid@,
                o.key_fn(),
                self.key_fn(),
                o.partly(si, t - 1),
                self.list_fn(),
            );
            assert(self.listings() =~= o.listings());
            self.lemma_parts_but_grid(o);
        }
    }

    /// Take `s` out of every level it is listed at.
    pub(super) fn grid_del(&mut self, s: Slot)
        requires
            old(self).parts(),
            old(self).live(s as int),
            old(self).gridded(),
        ensures
            final(self).parts(),
            final(self).gridded_but(s as int),
            final(self).same_but_grid(*old(self)),
            floor_of(final(self).grid@) == (if old(self).level(s as int) == 0 {
                lifted(floor_of(old(self).grid@), old(self).ground_key(s as int), s)
            } else {
                floor_of(old(self).grid@)
            }),
    {
        let ghost o = *self;
        let ghost si = s as int;
        let ghost opts = self.opts();
        let t = self.arena.nodes[s as usize].tz;
        let top = self.geo.opts().max_zoom;
        let ghost base = total(o.slots(), o.listings_but(si));
        proof {
            let (f, g) = (o.listings_but(si), o.listings());
            lemma_total_change(o.slots(), f, g, si);
            assert(o.good_data(si));
        }
        if t > top as i8 {
            proof {
                lemma_rekey(o.grid@, o.key_fn(), o.key_fn(), o.list_fn(), o.list_but(si));
            }
            return ;
        }
        let mut cx = self.geo.finest_cell(self.arena.nodes[s as usize].qx);
        let mut cy = self.geo.finest_cell(self.arena.nodes[s as usize].qy);
        let ghost x = o.arena.nodes[si].qx as int;
        let ghost y = o.arena.nodes[si].qy as int;
        let mut z: i8 = top as i8;
        proof {
            lemma_rekey(
                o.grid@,
                o.key_fn(),
                o.key_fn(),
                o.list_fn(),
                o.coarsely(si, top as int),
            );
        }
        while z >= t
            invariant
                o.parts(),
                o.live(si),
                si == s,
                opts == o.opts(),
                self.same_but_grid(o),
                self.grid.wf(),
                o.good_data(si),
                x == o.arena.nodes[si].qx,
                y == o.arena.nodes[si].qy,
                t == o.arena.nodes[si].tz,
                0 <= t <= top,
                t - 1 <= z <= top,
                top == opts.max_zoom,
                z >= 0 ==> cx == opts.cell(x, z as int) && cy == opts.cell(y, z as int),
                grid_lists(self.grid@, o.key_fn(), o.coarsely(si, z as int)),
                base == total(o.slots(), o.listings_but(si)),
                self.grid.live() == base + (z + 1 - t),
                floor_of(self.grid@) == (if z < 0 {
                    lifted(floor_of(o.grid@), o.ground_key(si), s)
                } else {
                    floor_of(o.grid@)
                }),
            decreases z + 1,
        {
            proof {
                lemma_grid_key(opts, x, y, z as int);
            }
            let k = pack(z as u8, cx, cy);
            let ghost g = self.grid@;
            proof {
                assert(k == o.key_fn()(si, z as int));
                assert(o.coarsely(si, z as int)(si, z as int));
                assert(bucket_has(g, k, s));
            }
            self.grid.del_at(k, s);
            proof {
                let before = o.coarsely(si, z as int);
                let after = o.coarsely(si, z - 1);
                assert forall|u: int, v: int| #[trigger] after(u, v) == (before(u, v) && !(u == s
                    && v == z)) by {}
                let i = choose|i: int|
                    0 <= i < g[k].len() && g[k][i] == s && self.grid@
                        == #[trigger] crate::grid::bucket_without(g, k, i);
                lemma_floor_del(g, k, s, i);
                lemma_grid_del(g, o.key_fn(), before, after, s, z as int, i);
                if z > 0 {
                    lemma_cell_halves(opts, x, z - 1);
                    lemma_cell_halves(opts, y, z - 1);
                }
            }
            cx = cx / 2;
            cy = cy / 2;
            z = z - 1;
        }
        proof {
            lemma_rekey(
                self.grid@,
                o.key_fn(),
                self.key_fn(),
                o.coarsely(si, t - 1),
                self.list_but(si),
            );
            assert(self.listings_but(si) =~= o.listings_but(si));
            self.lemma_parts_but_grid(o);
        }
    }

    /// What listing `s` at the levels up to `z` only makes of the lists.
    spec fn coarsely(&self, s: int, z: int) -> spec_fn(int, int) -> bool {
        |t: int, v: int| self.list_fn()(t, v) && (t == s ==> v <= z)
    }

    /// The keys when `s` is under its new cells at the levels finer than `z`.
    spec fn half_moved(&self, s: int, nx: int, ny: int, z: int) -> spec_fn(int, int) -> u64 {
        |t: int, v: int|
            if t == s && v > z {
                grid_key(self.opts(), nx, ny, v)
            } else {
                self.key_fn()(t, v)
            }
    }

    /// Reposition a slot of the tree, relisting it at the levels whose cell changes. Cells are
    /// dyadic, so from the first level whose cell stays the same every coarser one does too.
    pub(super) fn grid_move(&mut self, s: Slot, nx: i32, ny: i32)
        requires
            old(self).parts(),
            old(self).live(s as int),
            old(self).gridded(),
            in_world(nx as int),
            in_world(ny as int),
        ensures
            final(self).parts(),
            final(self).gridded(),
            final(self).geo == old(self).geo,
            final(self).table == old(self).table,
            final(self).ids == old(self).ids,
            final(self).stats == old(self).stats,
            final(self).arena.same_shape(old(self).arena),
            final(self).arena.tags == old(self).arena.tags,
            final(self).arena.nodes@ == old(self).arena.nodes@.update(
                s as int,
                (super::arena::Node { qx: nx, qy: ny, ..old(self).arena.nodes[s as int] }),
            ),
            floor_of(final(self).grid@) == (if old(self).level(s as int) == 0 && old(
                self,
            ).ground_key(s as int) != final(self).ground_key(s as int) {
                fronted(
                    lifted(floor_of(old(self).grid@), old(self).ground_key(s as int), s),
                    final(self).ground_key(s as int),
                    s,
                )
            } else {
                floor_of(old(self).grid@)
            }),
    {
        let ghost o = *self;
        let ghost si = s as int;
        let ghost opts = self.opts();
        let t = self.arena.nodes[s as usize].tz;
        let top = self.geo.opts().max_zoom;
        proof {
            assert(o.good_data(si));
        }
        let ghost (x, y) = (o.arena.nodes[si].qx as int, o.arena.nodes[si].qy as int);
        let ghost (u, v) = (nx as int, ny as int);
        let ghost kz = grid_key(opts, x, y, 0);
        let ghost ku = grid_key(opts, u, v, 0);
        let mut z: i8 = top as i8;
        proof {
            lemma_rekey(
                o.grid@,
                o.key_fn(),
                o.half_moved(si, u, v, top as int),
                o.list_fn(),
                o.list_fn(),
            );
        }
        if t <= top as i8 {
            let mut ox = self.geo.finest_cell(self.arena.nodes[s as usize].qx);
            let mut oy = self.geo.finest_cell(self.arena.nodes[s as usize].qy);
            let mut px = self.geo.finest_cell(nx);
            let mut py = self.geo.finest_cell(ny);
            while z >= t && (ox != px || oy != py)
                invariant
                    o.parts(),
                    o.live(si),
                    si == s,
                    opts == o.opts(),
                    self.same_but_grid(o),
                    self.grid.wf(),
                    o.good_data(si),
                    x == o.arena.nodes[si].qx,
                    y == o.arena.nodes[si].qy,
                    u == nx,
                    v == ny,
                    in_world(u),
                    in_world(v),
                    t == o.arena.nodes[si].tz,
                    0 <= t <= top,
                    t - 1 <= z <= top,
                    top == opts.max_zoom,
                    z >= 0 ==> ox == opts.cell(x, z as int) && oy == opts.cell(y, z as int) && px
                        == opts.cell(u, z as int) && py == opts.cell(v, z as int),
                    grid_lists(self.grid@, o.half_moved(si, u, v, z as int), o.list_fn()),
                    self.grid.live() == o.grid.live(),
                    o.gridded(),
                    kz == grid_key(opts, x, y, 0),
                    ku == grid_key(opts, u, v, 0),
                    z < 0 ==> kz != ku,
                    floor_of(self.grid@) == (if z < 0 {
                        fronted(lifted(floor_of(o.grid@), kz, s), ku, s)
                    } else {
                        floor_of(o.grid@)
                    }),
                decreases z + 1,
            {
                proof {
                    lemma_grid_key(opts, x, y, z as int);
                    lemma_grid_key(opts, u, v, z as int);
                    o.lemma_listings();
                    self.grid.lemma_live();
                }
                let ko = pack(z as u8, ox, oy);
                let kn = pack(z as u8, px, py);
                let ghost g = self.grid@;
                let ghost less = |a: int, b: int| o.list_fn()(a, b) && !(a == si && b == z);
                let ghost keys = o.half_moved(si, u, v, z as int);
                let ghost keys2 = o.half_moved(si, u, v, z - 1);
                proof {
                    assert(ko == keys(si, z as int));
                    assert(o.list_fn()(si, z as int));
                    assert(bucket_has(g, ko, s));
                }
                self.grid.del_at(ko, s);
                let ghost h = self.grid@;
                proof {
                    let i = choose|i: int|
                        0 <= i < g[ko].len() && g[ko][i] == s && h
                            == #[trigger] crate::grid::bucket_without(g, ko, i);
                    assert forall|a: int, b: int| #[trigger] less(a, b) == (o.list_fn()(a, b)
                        && !(a == s && b == z)) by {}
                    lemma_floor_del(g, ko, s, i);
                    lemma_grid_del(g, keys, o.list_fn(), less, s, z as int, i);
                    lemma_rekey(h, keys, keys2, less, less);
                }
                self.grid.add_at(kn, s);
                proof {
                    assert(kn == keys2(si, z as int));
                    assert forall|a: int, b: int| #[trigger] o.list_fn()(a, b) == (less(a, b) || (a
                        == s && b == z)) by {}
                    lemma_grid_add(h, keys2, less, o.list_fn(), s, z as int);
                    lemma_floor_add(h, kn, s);
                    if z > 0 {
                        lemma_cell_halves(opts, x, z - 1);
                        lemma_cell_halves(opts, y, z - 1);
                        lemma_cell_halves(opts, u, z - 1);
                        lemma_cell_halves(opts, v, z - 1);
                    }
                }
                ox = ox / 2;
                oy = oy / 2;
                px = px / 2;
                py = py / 2;
                z = z - 1;
            }
            proof {
                // the coarser levels keep their cells
                if z >= t {
                    lemma_cells_stay(opts, x, u, z as int);
                    lemma_cells_stay(opts, y, v, z as int);
                }
            }
        }
        let mut w = self.arena.nodes[s as usize];
        w.qx = nx;
        w.qy = ny;
        self.arena.nodes[s as usize] = w;
        proof {
            self.arena.lemma_rewrite(o.arena);
            assert forall|r: int| #[trigger] self.live(r) == o.live(r) by {
                if 0 <= r < o.arena.n {
                    let q = self.arena.nodes[r];
                }
            }
            assert forall|r: int| #[trigger] self.level(r) == o.level(r) by {
                if 0 <= r < o.arena.cap() {
                    let q = self.arena.nodes[r];
                }
            }
            assert forall|r: int| #[trigger] self.live(r) implies self.good_data(r) && self.level(r)
                <= self.opts().max_zoom + 1 by {
                assert(o.live(r));
                assert(o.good_data(r));
                assert(o.level(r) == self.level(r));
            }
            assert forall|a: int, b: int| #[trigger] self.list_fn()(a, b) == o.list_fn()(a, b) by {
                assert(self.live(a) == o.live(a));
                assert(self.level(a) == o.level(a));
            }
            assert forall|a: int, b: int| o.list_fn()(a, b) implies #[trigger] self.key_fn()(a, b)
                == o.half_moved(si, u, v, z as int)(a, b) by {
                if a == si {
                    if b <= z {
                        assert(opts.cell(x, b) == opts.cell(u, b));
                        assert(opts.cell(y, b) == opts.cell(v, b));
                    }
                } else {
                    let q = self.arena.nodes[a];
                }
            }
            lemma_rekey(
                self.grid@,
                o.half_moved(si, u, v, z as int),
                self.key_fn(),
                o.list_fn(),
                self.list_fn(),
            );
            assert forall|r: int| 0 <= r < o.slots() implies #[trigger] self.listings()(r)
                == o.listings()(r) by {
                assert(self.live(r) == o.live(r));
                assert(self.level(r) == o.level(r));
            }
            lemma_total_ext(o.slots(), self.listings(), o.listings());
        }
    }
}

/// Once two positions share a cell they share every coarser one.
proof fn lemma_cells_stay(o: Options, x: int, u: int, z: int)
    requires
        o.valid(),
        in_world(x),
        in_world(u),
        0 <= z <= o.max_zoom,
        o.cell(x, z) == o.cell(u, z),
    ensures
        forall|v: int| 0 <= v <= z ==> #[trigger] o.cell(x, v) == o.cell(u, v),
    decreases z,
{
    if z > 0 {
        lemma_cell_halves(o, x, z - 1);
        lemma_cell_halves(o, u, z - 1);
        lemma_cells_stay(o, x, u, z - 1);
    }
}

} // verus!
