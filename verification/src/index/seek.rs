//! Finding the centers around a position.
use super::grids::{lemma_grid_key, pack};
use super::{NetCluster, Slot, NONE};
use crate::decimal::{first_in_decimal, lemma_decimal_trans};
use crate::geometry::{distance2, in_world, lemma_near_axis, CELL_SPAN};
use crate::grid::{bucket_has, key_level};
use crate::net::lemma_nearest_unique;
use vstd::prelude::*;

verus! {

impl NetCluster {
    /// What the net says of a slot in the tree.
    pub(super) proof fn lemma_net(&self, s: int)
        ensures
            self.net().has(s) == self.live(s),
            self.live(s) ==> self.net().pts[s] == self.point(s),
            self.net().opts == self.opts(),
    {
    }

    /// Collect the centers of one cell that cover the position.
    fn scan_cell(
        &self,
        z: u8,
        cx: u64,
        cy: u64,
        x: i32,
        y: i32,
        exclude: Slot,
        out: &mut Vec<Slot>,
    )
        requires
            self.parts(),
            self.gridded(),
            z <= self.opts().max_zoom,
            cx < CELL_SPAN,
            cy < CELL_SPAN,
            in_world(x as int),
            in_world(y as int),
            forall|i: int|
                0 <= i < old(out)@.len() ==> self.net().covers(
                    #[trigger] old(out)@[i] as int,
                    z as int,
                    x as int,
                    y as int,
                ) && old(out)@[i] != exclude,
        ensures
            forall|i: int|
                0 <= i < final(out)@.len() ==> self.net().covers(
                    #[trigger] final(out)@[i] as int,
                    z as int,
                    x as int,
                    y as int,
                ) && final(out)@[i] != exclude,
            forall|t: Slot| old(out)@.contains(t) ==> #[trigger] final(out)@.contains(t),
            forall|t: Slot|
                self.net().covers(t as int, z as int, x as int, y as int) && t != exclude
                    && self.opts().cell(self.net().pts[t as int].x, z as int) == cx
                    && self.opts().cell(self.net().pts[t as int].y, z as int) == cy
                    ==> #[trigger] final(out)@.contains(t),
    {
        let k = pack(z, cx, cy);
        let b = self.grid.bucket(k);
        let ghost zi = z as int;
        let ghost (xi, yi) = (x as int, y as int);
        let ghost net = self.net();
        let mut i: usize = 0;
        while i < b.len()
            invariant
                self.parts(),
                self.gridded(),
                net == self.net(),
                zi == z,
                xi == x,
                yi == y,
                z <= self.opts().max_zoom,
                in_world(xi),
                in_world(yi),
                key_level(k) == zi,
                b@ == (if self.grid@.contains_key(k) {
                    self.grid@[k]
                } else {
                    Seq::<Slot>::empty()
                }),
                i <= b@.len(),
                forall|j: int|
                    0 <= j < out@.len() ==> net.covers(#[trigger] out@[j] as int, zi, xi, yi)
                        && out@[j] != exclude,
                forall|t: Slot| old(out)@.contains(t) ==> #[trigger] out@.contains(t),
                forall|j: int|
                    0 <= j < i && net.covers(#[trigger] b@[j] as int, zi, xi, yi) && b@[j]
                        != exclude ==> out@.contains(b@[j]),
            decreases b@.len() - i,
        {
            let s = b[i];
            let ghost before = out@;
            proof {
                assert(self.grid@[k][i as int] == s);
                assert(bucket_has(self.grid@, k, s));
                assert(self.list_fn()(s as int, zi));
                assert(self.live(s as int));
                assert(self.good_data(s as int));
                self.lemma_net(s as int);
            }
            if s != exclude {
                let v = self.arena.nodes[s as usize];
                let d = distance2(v.qx, v.qy, x, y);
                let hit = self.geo.near(z, d);
                assert(hit == net.covers(s as int, zi, xi, yi));
                if hit {
                    out.push(s);
                    proof {
                        assert(out@[before.len() as int] == s);
                    }
                }
            }
            proof {
                assert forall|t: Slot| before.contains(t) implies #[trigger] out@.contains(t) by {
                    let j = before.index_of(t);
                    assert(out@[j] == t);
                }
                assert forall|j: int|
                    0 <= j < i + 1 && net.covers(#[trigger] b@[j] as int, zi, xi, yi) && b@[j]
                        != exclude implies out@.contains(b@[j]) by {
                    if j < i {
                        assert(before.contains(b@[j]));
                    } else {
                        assert(out@[before.len() as int] == s);
                    }
                }
            }
            i = i + 1;
        }
        proof {
            assert forall|t: Slot|
                net.covers(t as int, zi, xi, yi) && t != exclude && self.opts().cell(
                    net.pts[t as int].x,
                    zi,
                ) == cx && self.opts().cell(net.pts[t as int].y, zi)
                    == cy implies #[trigger] out@.contains(t) by {
                self.lemma_net(t as int);
                let ti = t as int;
                assert(self.good_data(ti));
                let p = net.pts[ti];
                lemma_grid_key(self.opts(), p.x, p.y, zi);
                assert(self.list_fn()(ti, zi));
                assert(k == self.key_fn()(ti, key_level(k)));
                assert(bucket_has(self.grid@, k, t));
                let j = self.grid@[k].index_of(t);
                assert(b@[j] == t);
            }
        }
    }

    /// The centers of level `z` that cover the position, but for `exclude`; and how many cells
    /// were looked at.
    pub(super) fn scan(&self, z: u8, x: i32, y: i32, exclude: Slot) -> (r: (Vec<Slot>, u64))
        requires
            self.parts(),
            self.gridded(),
            z <= self.opts().max_zoom,
            in_world(x as int),
            in_world(y as int),
        ensures
            forall|i: int|
                0 <= i < r.0@.len() ==> self.net().covers(
                    #[trigger] r.0@[i] as int,
                    z as int,
                    x as int,
                    y as int,
                ) && r.0@[i] != exclude,
            forall|t: int| #[trigger]
                self.net().covers(t, z as int, x as int, y as int) && t != exclude
                    ==> r.0@.contains(t as Slot) && 0 <= t < self.slots(),
    {
        let (xlo, xhi) = self.geo.cells_around(x, z);
        let (ylo, yhi) = self.geo.cells_around(y, z);
        let mut out: Vec<Slot> = Vec::new();
        let mut probes: u64 = 0;
        let ghost net = self.net();
        let ghost zi = z as int;
        let ghost (xi, yi) = (x as int, y as int);
        let mut cx = xlo;
        while cx <= xhi
            invariant
                self.parts(),
                self.gridded(),
                z <= self.opts().max_zoom,
                in_world(xi),
                in_world(yi),
                xi == x,
                yi == y,
                zi == z,
                net == self.net(),
                xhi < CELL_SPAN,
                yhi < CELL_SPAN,
                xlo <= cx,
                forall|j: int|
                    0 <= j < out@.len() ==> net.covers(#[trigger] out@[j] as int, zi, xi, yi)
                        && out@[j] != exclude,
                forall|t: Slot|
                    net.covers(t as int, zi, xi, yi) && t != exclude && xlo <= self.opts().cell(
                        net.pts[t as int].x,
                        zi,
                    ) < cx && ylo <= self.opts().cell(net.pts[t as int].y, zi) <= yhi
                        ==> #[trigger] out@.contains(t),
            decreases CELL_SPAN - cx,
        {
            let mut cy = ylo;
            let ghost before = out@;
            while cy <= yhi
                invariant
                    self.parts(),
                    self.gridded(),
                    z <= self.opts().max_zoom,
                    in_world(xi),
                    in_world(yi),
                    xi == x,
                    yi == y,
                    zi == z,
                    net == self.net(),
                    cx < CELL_SPAN,
                    yhi < CELL_SPAN,
                    ylo <= cy,
                    forall|j: int|
                        0 <= j < out@.len() ==> net.covers(#[trigger] out@[j] as int, zi, xi, yi)
                            && out@[j] != exclude,
                    forall|t: Slot| before.contains(t) ==> #[trigger] out@.contains(t),
                    forall|t: Slot|
                        net.covers(t as int, zi, xi, yi) && t != exclude && self.opts().cell(
                            net.pts[t as int].x,
                            zi,
                        ) == cx && ylo <= self.opts().cell(net.pts[t as int].y, zi) < cy
                            ==> #[trigger] out@.contains(t),
                decreases CELL_SPAN - cy,
            {
                probes = probes.wrapping_add(1);
                let ghost mid = out@;
                self.scan_cell(z, cx, cy, x, y, exclude, &mut out);
                proof {
                    assert forall|t: Slot|
                        net.covers(t as int, zi, xi, yi) && t != exclude && self.opts().cell(
                            net.pts[t as int].x,
                            zi,
                        ) == cx && ylo <= self.opts().cell(net.pts[t as int].y, zi) < cy
                            + 1 implies #[trigger] out@.contains(t) by {
                        if self.opts().cell(net.pts[t as int].y, zi) < cy {
                            assert(mid.contains(t));
                        }
                    }
                    assert forall|t: Slot| before.contains(t) implies #[trigger] out@.contains(t) by {
                        assert(mid.contains(t));
                    }
                }
                cy = cy + 1;
            }
            proof {
                assert forall|t: Slot|
                    net.covers(t as int, zi, xi, yi) && t != exclude && xlo <= self.opts().cell(
                        net.pts[t as int].x,
                        zi,
                    ) < cx + 1 && ylo <= self.opts().cell(net.pts[t as int].y, zi)
                        <= yhi implies #[trigger] out@.contains(t) by {
                    if self.opts().cell(net.pts[t as int].x, zi) < cx {
                        assert(before.contains(t));
                    }
                }
            }
            cx = cx + 1;
        }
        proof {
            assert forall|t: int| #[trigger] net.covers(t, zi, xi, yi) && t
                != exclude implies out@.contains(t as Slot) && 0 <= t < self.slots() by {
                self.lemma_net(t);
                assert(self.live(t));
                assert(self.good_data(t));
                let p = net.pts[t];
                lemma_near_axis(self.opts(), zi, p.x - xi, p.y - yi);
                assert(-(p.x - xi) == xi - p.x);
                assert(-(p.y - yi) == yi - p.y);
                assert(crate::geometry::within(self.opts(), zi, xi - p.x));
                assert(crate::geometry::within(self.opts(), zi, yi - p.y));
                assert(xlo <= self.opts().cell(p.x, zi) <= xhi);
                assert(ylo <= self.opts().cell(p.y, zi) <= yhi);
                assert(t as Slot == t);
                assert(net.covers((t as Slot) as int, zi, xi, yi));
            }
        }
        (out, probes)
    }

    /// The nearest of some slots; ties go to the id first in decimal order.
    fn nearest_of(&self, cand: &Vec<Slot>, x: i32, y: i32) -> (b: Slot)
        requires
            self.parts(),
            self.net().ids_differ(),
            in_world(x as int),
            in_world(y as int),
            cand@.len() > 0,
            forall|i: int| 0 <= i < cand@.len() ==> self.live(#[trigger] cand@[i] as int),
        ensures
            cand@.contains(b),
            forall|t: Slot|
                cand@.contains(t) && t != b ==> #[trigger] self.net().nearer(
                    b as int,
                    t as int,
                    x as int,
                    y as int,
                ),
    {
        let ghost net = self.net();
        let ghost (xi, yi) = (x as int, y as int);
        let mut b = cand[0];
        proof {
            assert(self.live(cand@[0] as int));
            assert(self.good_data(b as int));
            self.lemma_net(b as int);
        }
        let v = self.arena.nodes[b as usize];
        let mut best = distance2(v.qx, v.qy, x, y);
        let mut i: usize = 1;
        while i < cand.len()
            invariant
                self.parts(),
                net == self.net(),
                net.ids_differ(),
                xi == x,
                yi == y,
                in_world(xi),
                in_world(yi),
                1 <= i <= cand@.len(),
                forall|j: int| 0 <= j < cand@.len() ==> self.live(#[trigger] cand@[j] as int),
                cand@.contains(b),
                self.live(b as int),
                best == net.far(b as int, xi, yi),
                forall|j: int|
                    0 <= j < i && cand@[j] != b ==> net.nearer(
                        b as int,
                        #[trigger] cand@[j] as int,
                        xi,
                        yi,
                    ),
            decreases cand@.len() - i,
        {
            let s = cand[i];
            proof {
                assert(self.live(s as int));
                assert(self.good_data(s as int));
                self.lemma_net(s as int);
                self.lemma_net(b as int);
                assert(net.has(s as int) && net.has(b as int));
            }
            let v = self.arena.nodes[s as usize];
            let d = distance2(v.qx, v.qy, x, y);
            let swap = d < best || (d == best && first_in_decimal(
                v.ext,
                self.arena.nodes[b as usize].ext,
            ));
            proof {
                if s != b {
                    assert(net.pts[s as int].id != net.pts[b as int].id);
                }
                assert(swap ==> net.nearer(s as int, b as int, xi, yi));
                assert(!swap && s != b ==> net.nearer(b as int, s as int, xi, yi));
            }
            let ghost was = b;
            if swap {
                b = s;
                best = d;
            }
            proof {
                assert forall|j: int|
                    0 <= j < i + 1 && cand@[j] != b implies net.nearer(
                    b as int,
                    #[trigger] cand@[j] as int,
                    xi,
                    yi,
                ) by {
                    let t = cand@[j] as int;
                    if swap {
                        if t != was {
                            assert(j < i);
                            assert(net.nearer(was as int, t, xi, yi));
                            if d == net.far(t, xi, yi) {
                                lemma_decimal_trans(
                                    net.pts[s as int].id as int,
                                    net.pts[was as int].id as int,
                                    net.pts[t].id as int,
                                );
                            }
                        }
                    }
                }
                assert(cand@[i as int] == s);
            }
            i = i + 1;
        }
        b
    }

    /// The level and the parent of a point at this position, searched from level `top` upward,
    /// and how many cells were looked at.
    pub(super) fn descend(&self, x: i32, y: i32, top: i8) -> (r: (i8, Slot, u64))
        requires
            self.parts(),
            self.gridded(),
            self.net().ids_differ(),
            in_world(x as int),
            in_world(y as int),
            -1 <= top <= self.opts().max_zoom,
        ensures
            r.0 == self.net().finest(top as int, x as int, y as int) + 1,
            0 <= r.0 <= top + 1,
            r.0 == 0 ==> r.1 == NONE,
            r.0 > 0 ==> r.1 < self.slots() && self.net().nearest_is(
                r.1 as int,
                r.0 - 1,
                x as int,
                y as int,
            ) && r.1 == self.net().nearest(r.0 - 1, x as int, y as int),
    {
        let ghost net = self.net();
        let ghost (xi, yi) = (x as int, y as int);
        let mut z = top;
        let mut probes: u64 = 0;
        while z >= 0
            invariant
                self.parts(),
                self.gridded(),
                net == self.net(),
                net.ids_differ(),
                xi == x,
                yi == y,
                in_world(xi),
                in_world(yi),
                -1 <= z <= top <= self.opts().max_zoom,
                net.finest(top as int, xi, yi) == net.finest(z as int, xi, yi),
            decreases z + 1,
        {
            let (cand, n) = self.scan(z as u8, x, y, NONE);
            probes = probes.wrapping_add(n);
            if cand.len() > 0 {
                proof {
                    assert forall|i: int| 0 <= i < cand@.len() implies self.live(
                        #[trigger] cand@[i] as int,
                    ) by {
                        self.lemma_net(cand@[i] as int);
                    }
                    assert(net.covers(cand@[0] as int, z as int, xi, yi));
                    assert(net.covered(z as int, xi, yi));
                }
                let b = self.nearest_of(&cand, x, y);
                proof {
                    let j = cand@.index_of(b);
                    assert(net.covers(cand@[j] as int, z as int, xi, yi));
                    assert forall|t: int| #[trigger] net.covers(t, z as int, xi, yi) && t
                        != b implies net.nearer(b as int, t, xi, yi) by {
                        self.lemma_net(t);
                        assert(t != NONE);
                        assert(cand@.contains(t as Slot));
                        assert((t as Slot) as int == t);
                    }
                    assert(net.nearest_is(b as int, z as int, xi, yi));
                    lemma_nearest_unique(net, z as int, xi, yi, b as int);
                    self.lemma_net(b as int);
                }
                return (z + 1, b, probes);
            }
            proof {
                assert(!net.covered(z as int, xi, yi)) by {
                    if net.covered(z as int, xi, yi) {
                        let t = choose|t: int| net.covers(t, z as int, xi, yi);
                        self.lemma_net(t);
                        assert(t != NONE);
                        assert(cand@.contains(t as Slot));
                    }
                }
            }
            z = z - 1;
        }
        (0, NONE, probes)
    }

    /// Is the position covered by another center, at any level from the finest up to `from`?
    /// And how many cells were looked at.
    pub(super) fn covered_at_or_below(&self, s: Slot, x: i32, y: i32, from: u8) -> (r: (bool, u64))
        requires
            self.parts(),
            self.gridded(),
            in_world(x as int),
            in_world(y as int),
            from <= 21,
        ensures
            r.0 == exists|z: int|
                from <= z <= self.opts().max_zoom && #[trigger] self.net().drop_point(
                    s as int,
                ).covered(z, x as int, y as int),
    {
        let ghost net = self.net();
        let ghost less = net.drop_point(s as int);
        let ghost (xi, yi) = (x as int, y as int);
        let top = self.geo.opts().max_zoom;
        let mut z = top as i8;
        let mut probes: u64 = 0;
        while z >= from as i8
            invariant
                self.parts(),
                self.gridded(),
                net == self.net(),
                less == net.drop_point(s as int),
                xi == x,
                yi == y,
                in_world(xi),
                in_world(yi),
                top == self.opts().max_zoom,
                top <= 20,
                from <= 21,
                -1 <= z <= top,
                forall|v: int| z < v <= top && v >= from ==> !#[trigger] less.covered(v, xi, yi),
            decreases z + 1,
        {
            let (cand, n) = self.scan(z as u8, x, y, s);
            probes = probes.wrapping_add(n);
            if cand.len() > 0 {
                proof {
                    assert(net.covers(cand@[0] as int, z as int, xi, yi));
                    assert(less.covers(cand@[0] as int, z as int, xi, yi));
                    assert(less.covered(z as int, xi, yi));
                }
                return (true, probes);
            }
            proof {
                assert(!less.covered(z as int, xi, yi)) by {
                    if less.covered(z as int, xi, yi) {
                        let t = choose|t: int| less.covers(t, z as int, xi, yi);
                        assert(net.covers(t, z as int, xi, yi));
                        assert(cand@.contains(t as Slot));
                    }
                }
            }
            z = z - 1;
        }
        (false, probes)
    }
}

} // verus!
