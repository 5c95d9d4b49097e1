//! Putting points where they belong.
use super::arena::same_data;
use super::mass::{ints, lemma_ints};
use super::{measure, NetCluster, Slot, Stats, NONE};
use crate::cells::holds;
use crate::decimal::first_in_decimal;
use crate::net::{lemma_dropped, lemma_earlier_order, lemma_finest_from, lemma_heirs_unique,
    lemma_rehome_one, Net, Point};
use crate::order::{floor_key, floor_of, fronted, lemma_adopt, lemma_disown, lifted};
use crate::sums::lemma_sum_ext;
use vstd::prelude::*;

verus! {

/// Two counters that differ in their probes at most.
pub open spec fn same_but_probes(a: Stats, b: Stats) -> bool {
    a == (Stats { probes: a.probes, ..b })
}

/// A counter `n` steps further; it starts over at the end of its range.
pub open spec fn counted(a: u64, n: int) -> u64 {
    ((a + n) % 0x1_0000_0000_0000_0000) as u64
}

/// The counters after the heirs `q` have been re-homed in `net`.
pub open spec fn rehoming_counted(a: Stats, b: Stats, net: Net, q: Seq<int>) -> bool {
    a == (Stats {
        promotions: counted(b.promotions, net.promoted(q)),
        reparents: counted(b.reparents, q.len() as int),
        probes: a.probes,
        ..b
    })
}

impl NetCluster {
    /// Everything but the grids is the same.
    pub(super) proof fn lemma_same_but_grid(&self, o: NetCluster)
        requires
            self.same_but_grid(o),
        ensures
            self.net() == o.net(),
            self.forest() == o.forest(),
            o.weighed() ==> self.weighed(),
            forall|x: int| o.clean_but(x) ==> #[trigger] self.clean_but(x),
            forall|x: int| #[trigger] self.live(x) == o.live(x),
            forall|x: int| #[trigger] self.level(x) == o.level(x),
            o.ids_ok() ==> self.ids_ok(),
    {
        assert(self.net().pts =~= o.net().pts);
        let (f, g) = (self.forest(), o.forest());
        assert(f.on =~= g.on);
        assert(f.up =~= g.up);
        assert(f.level =~= g.level);
        if o.weighed() {
            assert forall|a: int, c: int| #[trigger] measure(a, c) implies self.forest().all_balanced(
                self.agg(a, c),
                self.weigh(a, c),
            ) by {
                assert(self.agg(a, c) =~= o.agg(a, c));
                assert(self.weigh(a, c) =~= o.weigh(a, c));
            }
        }
        assert forall|x: int| o.clean_but(x) implies #[trigger] self.clean_but(x) by {
            assert forall|s: int|
                0 <= s < self.arena.cap() && !self.live(s) && s
                    != x implies #[trigger] self.table.load(s) == 0 && self.bare(s) by {
                assert(!o.live(s));
                assert(o.table.load(s) == 0);
            }
        }
        if o.ids_ok() {
            assert forall|id: u64| #[trigger] self.ids@.contains_key(id) implies self.live(
                self.ids@[id] as int,
            ) && self.arena.nodes[self.ids@[id] as int].ext == id by {
                assert(o.ids@.contains_key(id));
            }
            assert forall|s: int| #[trigger] self.live(s) implies self.ids@.contains_key(
                self.arena.nodes[s].ext,
            ) && self.ids@[self.arena.nodes[s].ext] == s by {
                assert(o.live(s));
            }
        }
    }

    /// What is left alone when only slot `s` changes its place.
    pub(super) open spec fn others_stay(&self, o: NetCluster, s: int) -> bool {
        &&& self.geo == o.geo
        &&& self.ids == o.ids
        &&& self.arena.n == o.arena.n
        &&& self.arena.spare == o.arena.spare
        &&& self.arena.cap() == o.arena.cap()
        &&& self.arena.tags == o.arena.tags
        &&& forall|x: int|
            #![trigger self.arena.nodes[x]]
            0 <= x < o.arena.cap() ==> {
                let (a, b) = (self.arena.nodes[x], o.arena.nodes[x]);
                a.qx == b.qx && a.qy == b.qy && (x != s ==> a.tz == b.tz) && a.ext == b.ext
            }
        &&& forall|x: int|
            0 <= x < o.arena.n && x != s ==> #[trigger] self.arena.up(x) == o.arena.up(x)
    }

    /// Put a ready slot where it belongs. The search may start at level `top` if no finer one
    /// covers the position.
    pub(super) fn link(&mut self, s: Slot, top: i8)
        requires
            old(self).ready(s as int),
            old(self).gridded(),
            old(self).net().ids_differ(),
            -1 <= top <= old(self).opts().max_zoom,
            forall|v: int|
                top < v <= old(self).opts().max_zoom ==> !#[trigger] old(self).net().covered(
                    v,
                    old(self).point(s as int).x,
                    old(self).point(s as int).y,
                ),
            forall|i: int|
                0 <= i < old(self).arena.kids@[s as int].len() ==> old(self).net().level_for(
                    old(self).point(s as int).x,
                    old(self).point(s as int).y,
                ) < old(self).level(#[trigger] old(self).arena.kids@[s as int][i]),
        ensures
            final(self).sound(),
            final(self).live(s as int),
            final(self).net() == old(self).net().place(s as int, old(self).point(s as int)),
            final(self).others_stay(*old(self), s as int),
            forall|x: int|
                0 <= x < old(self).arena.n && !final(self).live(x)
                    ==> #[trigger] final(self).arena.kids@[x] == old(self).arena.kids@[x],
            same_but_probes(final(self).stats, old(self).stats),
            final(self).lists() == old(self).lists().seated(final(self).net(), s as int),
    {
        let ghost o = *self;
        let ghost si = s as int;
        let ghost net = o.net();
        let v = self.arena.nodes[s as usize];
        let ghost (x, y) = (v.qx as int, v.qy as int);
        let (level, p, probes) = self.descend(v.qx, v.qy, top);
        proof {
            assert(net.opts == o.opts());
            lemma_finest_from(net, net.top(), top as int, x, y);
            assert(level == net.level_for(x, y));
        }
        self.raise(s, level);
        let ghost r = *self;
        self.grid_add(s);
        let ghost g = *self;
        proof {
            self.lemma_same_but_grid(r);
        }
        if p != NONE {
            proof {
                self.lemma_net(p as int);
                o.lemma_net(p as int);
                assert(net.center(p as int, level - 1));
                assert(p as int != si);
                assert(r.arena.nodes[p as int] == o.arena.nodes[p as int]);
            }
            self.hang(p, s);
            proof {
                self.lemma_same_places(g);
            }
        }
        proof {
            let goal = net.place(si, o.point(si));
            let mine = self.net();
            assert(mine.opts == goal.opts);
            assert forall|t: int| #[trigger] self.live(t) == (t == si || o.live(t)) by {
                if 0 <= t < o.arena.n {
                    let w = self.arena.nodes[t];
                }
            }
            assert(mine.pts.dom() =~= goal.pts.dom());
            assert forall|t: int| mine.pts.contains_key(t) implies #[trigger] mine.pts[t]
                == goal.pts[t] by {
                assert(self.live(t));
                let w = self.arena.nodes[t];
                if t != si {
                    assert(o.live(t));
                    assert(self.arena.up(t) == o.arena.up(t));
                    assert(self.point(t) == o.point(t));
                } else {
                    assert(self.point(si) == (Point {
                        level: level as int,
                        parent: net.parent_for(x, y),
                        ..o.point(si)
                    }));
                }
            }
            assert(mine.pts =~= goal.pts);
            self.lemma_seated(o, g, si);
        }
        let ghost before = *self;
        self.stats.probes = self.stats.probes.wrapping_add(probes);
        proof {
            self.lemma_stats(before);
        }
    }

    /// A slot that has been listed in the grids, and then hung, has taken its place in the lists.
    proof fn lemma_seated(&self, o: NetCluster, g: NetCluster, s: int)
        requires
            self.arena.wf(),
            self.live(s),
            self.grid == g.grid,
            o.arena.kids@ == g.arena.kids@,
            o.arena.kids@.len() == o.arena.cap(),
            self.arena.cap() == o.arena.cap(),
            self.arena.up(s) >= -1,
            self.arena.up(s) == -1 <==> self.level(s) == 0,
            floor_of(g.grid@) == (if self.level(s) == 0 {
                fronted(floor_of(o.grid@), self.ground_key(s), s as Slot)
            } else {
                floor_of(o.grid@)
            }),
            self.arena.up(s) == -1 ==> self.arena.kids@ == g.arena.kids@,
            self.arena.up(s) >= 0 ==> exists|i: int|
                g.arena.behind(self.arena.up(s), s, i) && self.arena.kids@ == g.arena.kids@.update(
                    self.arena.up(s),
                    #[trigger] g.arena.kids@[self.arena.up(s)].insert(i, s),
                ),
            self.arena.up(s) >= 0 ==> self.live(self.arena.up(s)),
            forall|x: int|
                0 <= x < o.arena.cap() ==> (#[trigger] self.arena.nodes[x]).tz
                    == g.arena.nodes[x].tz,
        ensures
            self.lists() == o.lists().seated(self.net(), s),
    {
        let net = self.net();
        assert(net.pts[s] == self.point(s));
        let p = self.arena.up(s);
        if p >= 0 {
            let k = g.arena.kids@;
            let i = choose|i: int|
                g.arena.behind(p, s, i) && self.arena.kids@ == k.update(
                    p,
                    #[trigger] k[p].insert(i, s),
                );
            assert forall|j: int| 0 <= j < k[p].len() implies net.pts[#[trigger] k[p][j]].level
                == g.arena.nodes[k[p][j]].tz by {
                let jj = if j < i {
                    j
                } else {
                    j + 1
                };
                assert(self.arena.kids@[p][jj] == k[p][j]);
                assert(self.arena.linked(p, jj));
                let c = k[p][j];
                assert(self.arena.hung(c));
                assert(self.live(c));
                let v = self.arena.nodes[c];
            }
            lemma_adopt(k, p, s, i, net);
        } else {
            assert(floor_key(net, s) == self.ground_key(s));
        }
    }

    /// A slot that has left the grids, and then its parent, has left its place in the lists.
    proof fn lemma_unseated(&self, o: NetCluster, s: int)
        requires
            o.arena.wf(),
            o.live(s),
            o.arena.up(s) >= -1,
            o.arena.up(s) == -1 <==> o.level(s) == 0,
            floor_of(self.grid@) == (if o.level(s) == 0 {
                lifted(floor_of(o.grid@), o.ground_key(s), s as Slot)
            } else {
                floor_of(o.grid@)
            }),
            o.arena.up(s) == -1 ==> self.arena.kids@ == o.arena.kids@,
            o.arena.up(s) >= 0 ==> {
                let (p, i) = o.arena.home@[s];
                0 <= i < o.arena.kids@[p].len() && o.arena.kids@[p][i] == s && self.arena.kids@
                    == o.arena.kids@.update(p, o.arena.kids@[p].remove(i))
            },
        ensures
            self.lists() == o.lists().unseated(o.net(), s),
    {
        let net = o.net();
        assert(net.pts[s] == o.point(s));
        assert(o.arena.hung(s));
        if o.arena.up(s) >= 0 {
            let (p, i) = o.arena.home@[s];
            o.arena.lemma_kids_distinct(p);
            lemma_disown(o.arena.kids@, p, s, i);
        } else {
            assert(floor_key(net, s) == o.ground_key(s));
        }
    }

    /// The counters are beside the point.
    pub(super) proof fn lemma_stats(&self, o: NetCluster)
        requires
            *self == (NetCluster { stats: self.stats, ..o }),
        ensures
            self.net() == o.net(),
            o.sound() ==> self.sound(),
            o.ids_ok() ==> self.ids_ok(),
            forall|x: int| #[trigger] self.live(x) == o.live(x),
    {
        assert(self.net().pts =~= o.net().pts);
        let (f, g) = (self.forest(), o.forest());
        assert(f.on =~= g.on);
        assert(f.up =~= g.up);
        assert(f.level =~= g.level);
        if o.sound() {
            assert forall|s: int| #[trigger] self.live(s) implies self.good_data(s) && self.level(s)
                <= self.opts().max_zoom + 1 by {
                assert(o.live(s));
            }
            assert(self.key_fn() =~= o.key_fn());
            assert(self.list_fn() =~= o.list_fn());
            assert(self.listings() =~= o.listings());
            assert forall|a: int, c: int| #[trigger] measure(a, c) implies self.forest().all_balanced(
                self.agg(a, c),
                self.weigh(a, c),
            ) by {
                assert(self.agg(a, c) =~= o.agg(a, c));
                assert(self.weigh(a, c) =~= o.weigh(a, c));
            }
            assert forall|s: int|
                0 <= s < self.arena.cap() && !self.live(s) && s
                    != -1 implies #[trigger] self.table.load(s) == 0 && self.bare(s) by {
                assert(!o.live(s));
                assert(o.table.load(s) == 0);
            }
        }
        if o.ids_ok() {
            assert forall|id: u64| #[trigger] self.ids@.contains_key(id) implies self.live(
                self.ids@[id] as int,
            ) && self.arena.nodes[self.ids@[id] as int].ext == id by {
                assert(o.ids@.contains_key(id));
            }
            assert forall|s: int| #[trigger] self.live(s) implies self.ids@.contains_key(
                self.arena.nodes[s].ext,
            ) && self.ids@[self.arena.nodes[s].ext] == s by {
                assert(o.live(s));
            }
        }
    }

    /// Is `a` re-homed before `b`?
    fn goes_first(&self, a: Slot, b: Slot) -> (r: bool)
        requires
            self.parts(),
            self.net().ids_differ(),
            self.live(a as int),
            self.live(b as int),
            a != b,
        ensures
            r == self.net().earlier(a as int, b as int),
            !r ==> self.net().earlier(b as int, a as int),
    {
        let (u, v) = (self.arena.nodes[a as usize], self.arena.nodes[b as usize]);
        proof {
            self.lemma_net(a as int);
            self.lemma_net(b as int);
            assert(self.net().pts[a as int].id != self.net().pts[b as int].id);
        }
        u.tz < v.tz || (u.tz == v.tz && first_in_decimal(u.ext, v.ext))
    }

    /// Add a slot to a sorted list of heirs.
    fn add_heir(&self, out: &mut Vec<Slot>, c: Slot)
        requires
            self.parts(),
            self.net().ids_differ(),
            self.live(c as int),
            forall|j: int| 0 <= j < old(out)@.len() ==> self.live(#[trigger] old(out)@[j] as int),
            !old(out)@.contains(c),
            old(out)@.no_duplicates(),
            forall|j: int, k: int|
                0 <= j < k < old(out)@.len() ==> self.net().earlier(
                    #[trigger] old(out)@[j] as int,
                    #[trigger] old(out)@[k] as int,
                ),
        ensures
            forall|j: int|
                0 <= j < final(out)@.len() ==> self.live(#[trigger] final(out)@[j] as int),
            final(out)@.no_duplicates(),
            forall|x: Slot| #[trigger]
                final(out)@.contains(x) <==> (old(out)@.contains(x) || x == c),
            forall|j: int, k: int|
                0 <= j < k < final(out)@.len() ==> self.net().earlier(
                    #[trigger] final(out)@[j] as int,
                    #[trigger] final(out)@[k] as int,
                ),
    {
        let ghost net = self.net();
        let ghost q = out@;
        let mut at: usize = out.len();
        while at > 0 && self.goes_first(c, out[at - 1])
            invariant
                self.parts(),
                net == self.net(),
                net.ids_differ(),
                self.live(c as int),
                q == out@,
                0 <= at <= q.len(),
                !q.contains(c),
                forall|j: int| 0 <= j < q.len() ==> self.live(#[trigger] q[j] as int),
                forall|j: int, k: int|
                    0 <= j < k < q.len() ==> net.earlier(
                        #[trigger] q[j] as int,
                        #[trigger] q[k] as int,
                    ),
                forall|j: int| at <= j < q.len() ==> net.earlier(c as int, #[trigger] q[j] as int),
            decreases at,
        {
            at = at - 1;
        }
        proof {
            if at > 0 {
                assert(q.contains(q[at - 1]));
                assert(net.earlier(q[at - 1] as int, c as int));
            }
        }
        out.insert(at, c);
        proof {
            let r = out@;
            assert(r == q.insert(at as int, c));
            assert forall|j: int| 0 <= j < at implies net.earlier(
                #[trigger] q[j] as int,
                c as int,
            ) by {
                if j < at - 1 {
                    lemma_earlier_order(net, q[j] as int, q[at - 1] as int, c as int);
                }
            }
            assert forall|j: int, k: int|
                0 <= j < k < r.len() implies net.earlier(
                #[trigger] r[j] as int,
                #[trigger] r[k] as int,
            ) by {
                let jj = if j < at {
                    j
                } else {
                    j - 1
                };
                let kk = if k < at {
                    k
                } else {
                    k - 1
                };
                if j != at {
                    assert(r[j] == q[jj]);
                }
                if k != at {
                    assert(r[k] == q[kk]);
                }
            }
            assert forall|x: Slot| #[trigger] r.contains(x) <==> (q.contains(x) || x == c) by {
                if r.contains(x) {
                    let j = r.index_of(x);
                    if j < at {
                        assert(q[j] == x);
                    } else if j > at {
                        assert(q[j - 1] == x);
                    }
                }
                if q.contains(x) {
                    let j = q.index_of(x);
                    if j < at {
                        assert(r[j] == x);
                    } else {
                        assert(r[j + 1] == x);
                    }
                }
                assert(r[at as int] == c);
            }
            assert forall|j: int| 0 <= j < r.len() implies self.live(#[trigger] r[j] as int) by {
                if j < at {
                    assert(r[j] == q[j]);
                } else if j > at {
                    assert(r[j] == q[j - 1]);
                }
            }
            assert forall|j: int, k: int|
                0 <= j < r.len() && 0 <= k < r.len() && j != k implies r[j] != r[k] by {
                let jj = if j < at {
                    j
                } else {
                    j - 1
                };
                let kk = if k < at {
                    k
                } else {
                    k - 1
                };
                if j == at {
                    assert(r[k] == q[kk]);
                    assert(q.contains(r[k]));
                } else if k == at {
                    assert(r[j] == q[jj]);
                    assert(q.contains(r[j]));
                } else {
                    assert(r[j] == q[jj] && r[k] == q[kk]);
                }
            }
        }
    }

    /// The children of a slot in the order in which they are re-homed.
    fn heirs(&self, s: Slot) -> (out: Vec<Slot>)
        requires
            self.parts(),
            self.net().ids_differ(),
            self.live(s as int),
        ensures
            self.net().heirs(s as int, ints(out@)),
            forall|j: int|
                0 <= j < out@.len() ==> self.live(#[trigger] out@[j] as int) && self.arena.up(
                    out@[j] as int,
                ) == s,
            forall|x: int|
                self.live(x) && #[trigger] self.arena.up(x) == s ==> holds(out@, x),
    {
        let ghost net = self.net();
        let ghost si = s as int;
        let ghost all = self.arena.kids@[si];
        let kids = self.arena.children(s);
        proof {
            assert forall|j: int| 0 <= j < all.len() implies self.live(#[trigger] all[j])
                && self.arena.up(all[j]) == si by {
                assert(self.arena.linked(si, j));
                assert(self.arena.hung(all[j]));
            }
        }
        let mut out: Vec<Slot> = Vec::new();
        let mut i: usize = 0;
        while i < kids.len()
            invariant
                self.parts(),
                net == self.net(),
                net.ids_differ(),
                si == s,
                self.live(si),
                all == self.arena.kids@[si],
                kids@.len() == all.len(),
                forall|j: int| 0 <= j < kids@.len() ==> #[trigger] kids@[j] == all[j],
                forall|j: int|
                    0 <= j < all.len() ==> self.live(#[trigger] all[j]) && self.arena.up(all[j])
                        == si,
                i <= all.len(),
                out@.no_duplicates(),
                forall|j: int| 0 <= j < out@.len() ==> self.live(#[trigger] out@[j] as int),
                forall|x: Slot| #[trigger]
                    out@.contains(x) <==> exists|j: int| 0 <= j < i && #[trigger] all[j] == x,
                forall|j: int, k: int|
                    0 <= j < k < out@.len() ==> net.earlier(
                        #[trigger] out@[j] as int,
                        #[trigger] out@[k] as int,
                    ),
            decreases all.len() - i,
        {
            let c = kids[i];
            let ghost before = out@;
            proof {
                assert(all[i as int] == c);
                assert(!out@.contains(c)) by {
                    if out@.contains(c) {
                        let j = choose|j: int| 0 <= j < i && #[trigger] all[j] == c;
                        assert(self.arena.linked(si, j));
                        assert(self.arena.linked(si, i as int));
                    }
                }
            }
            self.add_heir(&mut out, c);
            proof {
                assert forall|x: Slot| #[trigger] out@.contains(x) <==> exists|j: int|
                    0 <= j < i + 1 && #[trigger] all[j] == x by {
                    if out@.contains(x) {
                        if x == c {
                            assert(all[i as int] == x);
                        } else {
                            assert(before.contains(x));
                            let j = choose|j: int| 0 <= j < i && #[trigger] all[j] == x;
                            assert(all[j] == x);
                        }
                    }
                    if exists|j: int| 0 <= j < i + 1 && #[trigger] all[j] == x {
                        let j = choose|j: int| 0 <= j < i + 1 && #[trigger] all[j] == x;
                        if j < i {
                            assert(before.contains(x));
                        }
                    }
                }
            }
            i = i + 1;
        }
        proof {
            let q = ints(out@);
            lemma_ints(out@);
            assert forall|x: int| self.live(x) && #[trigger] self.arena.up(x) == s implies holds(
                out@,
                x,
            ) by {
                assert(self.arena.hung(x));
                let j = self.arena.home@[x].1;
                assert(all[j] == x);
                assert(out@.contains(x as Slot));
                let k = out@.index_of(x as Slot);
                assert(out@[k] == x);
            }
            assert forall|j: int| 0 <= j < out@.len() implies self.live(#[trigger] out@[j] as int)
                && self.arena.up(out@[j] as int) == s by {
                assert(out@.contains(out@[j]));
                let k = choose|k: int| 0 <= k < all.len() && #[trigger] all[k] == out@[j];
                assert(self.live(all[k]));
            }
            assert forall|c: int| q.contains(c) <==> #[trigger] net.child(c, si) by {
                self.lemma_net(c);
                if q.contains(c) {
                    let j = q.index_of(c);
                    assert(self.live(out@[j] as int));
                }
                if net.child(c, si) {
                    assert(self.arena.up(c) == s);
                    assert(holds(out@, c));
                }
            }
            assert forall|i: int, j: int| 0 <= i < j < q.len() implies net.earlier(
                #[trigger] q[i],
                #[trigger] q[j],
            ) by {
                assert(net.earlier(out@[i] as int, out@[j] as int));
            }
        }
        out
    }

    /// Dropping the aggregates of a slot that hangs nowhere leaves the tree alone.
    proof fn lemma_dropped_slot(&self, o: NetCluster, s: int)
        requires
            o.ready(s),
            o.gridded(),
            self.geo == o.geo,
            self.grid == o.grid,
            self.arena == o.arena,
            self.table.wf(),
            self.table.slots() == o.table.slots(),
            self.table.width() == o.table.width(),
            self.table.is_dense() == o.table.is_dense(),
            forall|t: int, c: int|
                #![trigger self.table.val(t, c)]
                self.table.val(t, c) == (if t == s {
                    (0int, 0int, 0int)
                } else {
                    o.table.val(t, c)
                }),
            forall|t: int|
                0 <= t < o.table.slots() ==> #[trigger] self.table.load(t) == (if t == s {
                    0
                } else {
                    o.table.load(t)
                }),
        ensures
            self.sound(),
            self.net() == o.net(),
            forall|x: int| #[trigger] self.live(x) == o.live(x),
    {
        self.lemma_same_places(o);
        assert(self.net().pts =~= o.net().pts);
        assert forall|x: int| #[trigger] self.live(x) implies self.good_data(x) && self.level(x)
            <= self.opts().max_zoom + 1 by {
            assert(o.live(x));
            assert(o.good_data(x));
            assert(o.level(x) == self.level(x));
        }
        assert forall|a: int, c: int, x: int| 0 <= x < o.arena.cap() && x
            != s implies #[trigger] self.mass(a, c, x) == o.mass(a, c, x) by {
            let v = self.table.val(x, c);
            let l = self.table.load(x);
        }
        assert forall|a: int, c: int| #[trigger] measure(a, c) implies self.forest().all_balanced(
            self.agg(a, c),
            self.weigh(a, c),
        ) by {
            assert(o.forest().all_balanced(o.agg(a, c), o.weigh(a, c)));
            assert forall|x: int| #[trigger] (self.forest().on)(x) implies self.forest().balanced(
                self.agg(a, c),
                self.weigh(a, c),
                x,
            ) by {
                assert(self.live(x));
                assert(o.live(x));
                assert((o.forest().on)(x));
                assert(o.forest().balanced(o.agg(a, c), o.weigh(a, c), x));
                let q = o.arena.kids@[x];
                assert forall|i: int| 0 <= i < q.len() implies o.agg(a, c)(#[trigger] q[i])
                    == self.agg(a, c)(q[i]) by {
                    assert(o.arena.linked(x, i));
                    assert(q[i] != s);
                    assert(self.mass(a, c, q[i]) == o.mass(a, c, q[i]));
                }
                lemma_sum_ext(q, o.agg(a, c), self.agg(a, c));
                assert(self.mass(a, c, x) == o.mass(a, c, x));
            }
        }
        assert forall|x: int|
            0 <= x < self.arena.cap() && !self.live(x) && x
                != -1 implies #[trigger] self.table.load(x) == 0 && self.bare(x) by {
            assert(!o.live(x));
            if x != s {
                assert(o.table.load(x) == 0);
            }
        }
    }

    /// The net once a slot has left the tree.
    proof fn lemma_net_without(&self, o: NetCluster, s: int)
        requires
            self.others_stay(o, s),
            o.arena.n <= o.arena.cap(),
            !self.live(s),
        ensures
            self.net() == o.net().drop_point(s),
    {
        let (m, g) = (self.net(), o.net().drop_point(s));
        assert forall|x: int| #[trigger] m.pts.contains_key(x) == g.pts.contains_key(x) by {
            if 0 <= x < o.arena.n {
                let v = self.arena.nodes[x];
            }
        }
        assert forall|x: int| m.pts.contains_key(x) implies #[trigger] m.pts[x] == g.pts[x] by {
            assert(self.live(x));
            let v = self.arena.nodes[x];
            assert(self.arena.up(x) == o.arena.up(x));
            assert(self.point(x) == o.point(x));
        }
        assert(m.pts =~= g.pts);
    }

    /// Take a slot out of the tree; what hung from it hangs nowhere now, though its links stay.
    fn take_out(&mut self, s: Slot)
        requires
            old(self).sound(),
            old(self).live(s as int),
            old(self).arena.up(s as int) >= 0 ==> old(self).live(old(self).arena.up(s as int)),
            old(self).arena.up(s as int) < 0 <==> old(self).level(s as int) == 0,
        ensures
            final(self).sound(),
            !final(self).live(s as int),
            final(self).lists() == old(self).lists().unseated(old(self).net(), s as int),
            final(self).arena.up(s as int) == -1,
            final(self).net() == old(self).net().drop_point(s as int),
            final(self).others_stay(*old(self), s as int),
            final(self).arena.kids@[s as int] == old(self).arena.kids@[s as int],
            final(self).stats == old(self).stats,
    {
        let ghost o = *self;
        let ghost si = s as int;
        self.grid_del(s);
        let ghost g = *self;
        proof {
            self.lemma_same_but_grid(o);
            assert(g.arena.hung(si));
            if g.arena.up(si) == -2 {
                assert(g.arena.spared(g.arena.home@[si].1));
            }
        }
        let p = self.arena.nodes[s as usize].par;
        if p != NONE {
            self.unhang(s);
            proof {
                self.lemma_same_places(g);
            }
        }
        let ghost u = *self;
        self.lower(s);
        let ghost l = *self;
        self.table.drop_slot(s);
        proof {
            self.lemma_dropped_slot(l, si);
            assert(self.others_stay(o, si)) by {
                assert forall|x: int|
                    #![trigger self.arena.nodes[x]]
                    0 <= x < o.arena.cap() implies {
                    let (a, b) = (self.arena.nodes[x], o.arena.nodes[x]);
                    a.qx == b.qx && a.qy == b.qy && (x != si ==> a.tz == b.tz) && a.ext == b.ext
                } by {
                    let v = u.arena.nodes[x];
                }
                assert forall|x: int|
                    0 <= x < o.arena.n && x != si implies #[trigger] self.arena.up(x)
                    == o.arena.up(x) by {
                    assert(u.arena.up(x) == self.arena.up(x));
                }
            }
            self.lemma_net_without(o, si);
            self.lemma_unseated(o, si);
        }
    }

    /// Cut the links of a slot to a parent that has left the tree.
    fn orphan(&mut self, s: Slot)
        requires
            old(self).held(),
            old(self).live(s as int),
            old(self).arena.up(s as int) >= 0,
            !old(self).live(old(self).arena.up(s as int)),
        ensures
            final(self).held(),
            final(self).same_points(*old(self)),
            final(self).arena.up(s as int) == -1,
            forall|x: int|
                0 <= x < old(self).arena.n && x != s ==> #[trigger] final(self).arena.up(x) == old(
                    self,
                ).arena.up(x),
            forall|x: int|
                0 <= x < old(self).arena.cap() && x != old(self).arena.up(s as int)
                    ==> #[trigger] final(self).arena.kids@[x] == old(self).arena.kids@[x],
            ({
                let (p, i) = old(self).arena.home@[s as int];
                0 <= i < old(self).arena.kids@[p].len() && old(self).arena.kids@[p][i] == s
                    && final(self).arena.kids@ == old(self).arena.kids@.update(
                    p,
                    old(self).arena.kids@[p].remove(i),
                )
            }),
    {
        let ghost o = *self;
        let ghost si = s as int;
        let ghost p = o.arena.up(si);
        self.arena.del_child(s);
        proof {
            assert(o.arena.hung(si));
            assert forall|x: int| 0 <= x < o.arena.cap() && x != p implies #[trigger] self.arena.kids@[x]
                == o.arena.kids@[x] by {}
            assert(self.same_points(o)) by {
                assert forall|x: int|
                    #![trigger self.arena.nodes[x]]
                    0 <= x < o.arena.cap() implies {
                    let (a, b) = (self.arena.nodes[x], o.arena.nodes[x]);
                    a.qx == b.qx && a.qy == b.qy && a.tz == b.tz && a.ext == b.ext
                } by {
                    assert(same_data(self.arena.nodes[x], o.arena.nodes[x]));
                }
            }
            self.lemma_parts_after(o, o);
            self.lemma_same_places(o);
            assert forall|a: int, c: int| #[trigger] measure(a, c) implies self.forest().all_balanced(
                self.agg(a, c),
                self.weigh(a, c),
            ) by {
                assert(o.forest().all_balanced(o.agg(a, c), o.weigh(a, c)));
                assert forall|x: int| #[trigger] (self.forest().on)(x) implies self.forest().balanced(
                    self.agg(a, c),
                    self.weigh(a, c),
                    x,
                ) by {
                    assert(self.live(x));
                    assert(o.live(x));
                    assert((o.forest().on)(x));
                    assert(x != p);
                    assert forall|y: int| 0 <= y < o.arena.n implies #[trigger] self.mass(a, c, y)
                        == o.mass(a, c, y) by {
                        assert(same_data(self.arena.nodes[y], o.arena.nodes[y]));
                    }
                    assert(same_data(self.arena.nodes[x], o.arena.nodes[x]));
                    self.lemma_still_balanced(o, a, c, x);
                }
            }
            assert(self.weighed());
            self.lemma_clean_kept(o);
        }
    }

    /// Slots outside the tree stay clean where nothing is aggregated anew.
    proof fn lemma_clean_kept(&self, o: NetCluster)
        requires
            o.clean_but(-1),
            self.table == o.table,
            self.arena.cap() == o.arena.cap(),
            forall|x: int| #[trigger] self.live(x) == o.live(x),
        ensures
            self.clean_but(-1),
    {
        assert forall|x: int|
            0 <= x < self.arena.cap() && !self.live(x) && x
                != -1 implies #[trigger] self.table.load(x) == 0 && self.bare(x) by {
            assert(!o.live(x));
            assert(o.table.load(x) == 0);
            assert(o.bare(x));
        }
    }

    /// Put a child of a slot that has left where it belongs.
    fn rehome(&mut self, c: Slot, gone: Ghost<int>)
        requires
            old(self).sound(),
            old(self).live(c as int),
            old(self).arena.up(c as int) == gone@,
            gone@ >= 0,
            !old(self).live(gone@),
            old(self).net().ok_but(gone@),
        ensures
            final(self).sound(),
            final(self).live(c as int),
            final(self).net() == old(self).net().drop_point(c as int).place(
                c as int,
                old(self).net().pts[c as int],
            ),
            final(self).arena.up(c as int) != gone@,
            final(self).others_stay(*old(self), c as int),
            final(self).lists() == old(self).lists().unseated(old(self).net(), c as int).seated(
                final(self).net(),
                c as int,
            ),
            final(self).stats == (Stats {
                promotions: counted(
                    old(self).stats.promotions,
                    if final(self).net().pts[c as int].level < old(self).net().pts[c as int].level {
                        1
                    } else {
                        0
                    },
                ),
                reparents: counted(old(self).stats.reparents, 1),
                probes: final(self).stats.probes,
                ..old(self).stats
            }),
    {
        let ghost o = *self;
        let ghost ci = c as int;
        let old_level = self.arena.nodes[c as usize].tz;
        proof {
            o.lemma_forest();
            o.lemma_net(ci);
            o.lemma_net(gone@);
            lemma_rehome_one(o.net(), ci, gone@);
        }
        self.grid_del(c);
        let ghost g = *self;
        proof {
            self.lemma_same_but_grid(o);
        }
        self.orphan(c);
        let ghost u = *self;
        proof {
            self.lemma_same_places(g);
        }
        self.lower(c);
        let ghost l = *self;
        proof {
            assert(l.others_stay(o, ci)) by {
                assert forall|x: int|
                    #![trigger l.arena.nodes[x]]
                    0 <= x < o.arena.cap() implies {
                    let (a, b) = (l.arena.nodes[x], o.arena.nodes[x]);
                    a.qx == b.qx && a.qy == b.qy && (x != ci ==> a.tz == b.tz) && a.ext == b.ext
                } by {
                    let v = u.arena.nodes[x];
                }
                assert forall|x: int|
                    0 <= x < o.arena.n && x != ci implies #[trigger] l.arena.up(x)
                    == o.arena.up(x) by {
                    assert(u.arena.up(x) == l.arena.up(x));
                }
            }
            l.lemma_net_without(o, ci);
            let p = o.net().pts[ci];
            assert(l.point(ci).x == p.x && l.point(ci).y == p.y && l.point(ci).id == p.id
                && l.point(ci).cells == p.cells) by {
                let v = l.arena.nodes[ci];
            }
            assert(u.level(ci) == old_level) by {
                let v = u.arena.nodes[ci];
            }
            l.lemma_unseated(o, ci);
            let less = l.net();
            assert(less.place(ci, l.point(ci)) == less.place(ci, p));
            assert(less.level_for(p.x, p.y) == less.place(ci, p).pts[ci].level);
            assert forall|i: int| 0 <= i < l.arena.kids@[ci].len() implies less.level_for(p.x, p.y)
                < l.level(#[trigger] l.arena.kids@[ci][i]) by {
                assert(u.arena.kids@[ci][i] == l.arena.kids@[ci][i]);
            }
            assert forall|s: int, t: int|
                #![trigger less.pts[s].id, less.pts[t].id]
                less.has(s) && less.has(t) && less.pts[s].id == less.pts[t].id implies s == t by {
                assert(o.net().pts[s].id == o.net().pts[t].id);
            }
            assert(o.net().sound_point(ci));
        }
        self.link(c, old_level - 1);
        let ghost k = *self;
        proof {
            assert(k.others_stay(o, ci)) by {
                assert forall|x: int|
                    #![trigger k.arena.nodes[x]]
                    0 <= x < o.arena.cap() implies {
                    let (a, b) = (k.arena.nodes[x], o.arena.nodes[x]);
                    a.qx == b.qx && a.qy == b.qy && (x != ci ==> a.tz == b.tz) && a.ext == b.ext
                } by {
                    let v = l.arena.nodes[x];
                }
                assert forall|x: int|
                    0 <= x < o.arena.n && x != ci implies #[trigger] k.arena.up(x)
                    == o.arena.up(x) by {
                    assert(k.arena.up(x) == l.arena.up(x));
                }
            }
            k.lemma_net(ci);
            assert(k.net().pts[ci].parent != Some(gone@));
        }
        if self.arena.nodes[c as usize].tz < old_level {
            self.stats.promotions = self.stats.promotions.wrapping_add(1);
        }
        self.stats.reparents = self.stats.reparents.wrapping_add(1);
        proof {
            self.lemma_stats(k);
        }
    }

    /// Take a point out of the net: its children find new parents.
    #[verifier::rlimit(60)]
    pub(super) fn unlink(&mut self, s: Slot)
        requires
            old(self).sound(),
            old(self).net().ok(),
            old(self).live(s as int),
        ensures
            final(self).sound(),
            !final(self).live(s as int),
            final(self).arena.up(s as int) == -1,
            final(self).arena.kids@[s as int].len() == 0,
            final(self).net() == old(self).net().unlinked(s as int),
            final(self).same_handles(*old(self)),
            final(self).lists() == old(self).lists().unlinked(old(self).net(), s as int),
            rehoming_counted(
                final(self).stats,
                old(self).stats,
                old(self).net().drop_point(s as int),
                old(self).net().heirs_of(s as int),
            ),
    {
        let ghost o = *self;
        let ghost si = s as int;
        proof {
            o.lemma_forest();
            o.lemma_net(si);
            assert(o.net().covering(si));
            if o.arena.up(si) >= 0 {
                o.lemma_net(o.arena.up(si));
            }
        }
        let heirs = self.heirs(s);
        let ghost q = ints(heirs@);
        let ghost base = o.net().drop_point(si);
        let ghost floor = o.lists().unseated(o.net(), si);
        proof {
            lemma_heirs_unique(o.net(), si, q);
            lemma_ints(heirs@);
            lemma_dropped(o.net(), si);
        }
        self.take_out(s);
        proof {
            assert forall|x: int| 0 <= x < self.arena.n && #[trigger] self.arena.up(x)
                == si implies holds(heirs@.skip(0), x) by {
                assert(heirs@.skip(0) =~= heirs@);
                assert(x != si);
                assert(o.arena.up(x) == si);
                assert(o.arena.hung(x));
                assert(o.live(x));
            }
            assert(q.take(0) =~= Seq::<int>::empty());
            assert forall|j: int| 0 <= j < heirs@.len() implies self.live(#[trigger] heirs@[j] as int)
                && self.arena.up(heirs@[j] as int) == si by {
                let h = heirs@[j] as int;
                assert(o.live(h) && o.arena.up(h) == si);
                assert(h != si);
                let v = self.arena.nodes[h];
            }
        }
        let mut i: usize = 0;
        while i < heirs.len()
            invariant
                self.sound(),
                o.sound(),
                si == s,
                0 <= si < o.arena.n,
                !self.live(si),
                self.arena.up(si) == -1,
                q == ints(heirs@),
                q.no_duplicates(),
                i <= heirs@.len(),
                base.pts.dom().finite(),
                self.net() == base.rehome(q.take(i as int)),
                self.net().ok_but(si),
                self.same_handles(o),
                floor == o.lists().unseated(o.net(), si),
                self.lists() == floor.rehomed(base, q.take(i as int)),
                forall|x: int|
                    0 <= x < self.arena.n && #[trigger] self.arena.up(x) == si ==> holds(
                        heirs@.skip(i as int),
                        x,
                    ),
                forall|j: int|
                    i <= j < heirs@.len() ==> self.live(#[trigger] heirs@[j] as int)
                        && self.arena.up(heirs@[j] as int) == si,
                rehoming_counted(self.stats, o.stats, base, q.take(i as int)),
                base.promoted(q.take(i as int)) >= 0,
            decreases heirs@.len() - i,
        {
            let c = heirs[i];
            let ghost b = *self;
            let ghost ci = c as int;
            proof {
                assert(self.live(heirs@[i as int] as int));
                b.lemma_forest();
                b.lemma_net(ci);
                b.lemma_net(si);
                lemma_rehome_one(b.net(), ci, si);
            }
            self.rehome(c, Ghost(si));
            proof {
                let r = q.take(i + 1);
                assert(r.drop_last() =~= q.take(i as int));
                assert(r.last() == ci);
                assert(heirs@[i as int] == c);
                assert(self.net() == base.rehome(r));
                assert forall|x: int| 0 <= x < self.arena.n && #[trigger] self.arena.up(x)
                    == si implies holds(heirs@.skip(i + 1), x) by {
                    assert(x != ci);
                    assert(b.arena.up(x) == si);
                    let old_rest = heirs@.skip(i as int);
                    let j = choose|j: int| 0 <= j < old_rest.len() && #[trigger] old_rest[j] == x;
                    assert(j != 0);
                    assert(heirs@.skip(i + 1)[j - 1] == x);
                }
                assert forall|j: int| i + 1 <= j < heirs@.len() implies self.live(
                    #[trigger] heirs@[j] as int,
                ) && self.arena.up(heirs@[j] as int) == si by {
                    let h = heirs@[j] as int;
                    assert(q[j] == h && q[i as int] == ci);
                    assert(h != ci);
                    assert(b.live(h) && b.arena.up(h) == si);
                    let v = self.arena.nodes[h];
                }
                assert(!self.live(si)) by {
                    let v = self.arena.nodes[si];
                }
                assert(self.same_handles(o)) by {
                    assert forall|x: int|
                        #![trigger self.arena.nodes[x]]
                        0 <= x < o.arena.cap() implies {
                        let (a, b) = (self.arena.nodes[x], o.arena.nodes[x]);
                        a.qx == b.qx && a.qy == b.qy && a.ext == b.ext
                    } by {
                        let v = b.arena.nodes[x];
                    }
                }
            }
            i = i + 1;
        }
        proof {
            assert(q.take(q.len() as int) =~= q);
            if self.arena.kids@[si].len() > 0 {
                let x = self.arena.kids@[si][0];
                assert(self.arena.linked(si, 0));
                assert(self.arena.up(x) == si);
                assert(holds(heirs@.skip(i as int), x));
            }
        }
    }

    /// The slots, the ids and the points' own data are the same.
    pub(super) open spec fn same_handles(&self, o: NetCluster) -> bool {
        &&& self.geo == o.geo
        &&& self.ids == o.ids
        &&& self.arena.n == o.arena.n
        &&& self.arena.spare == o.arena.spare
        &&& self.arena.cap() == o.arena.cap()
        &&& self.arena.tags == o.arena.tags
        &&& forall|x: int|
            #![trigger self.arena.nodes[x]]
            0 <= x < o.arena.cap() ==> {
                let (a, b) = (self.arena.nodes[x], o.arena.nodes[x]);
                a.qx == b.qx && a.qy == b.qy && a.ext == b.ext
            }
    }
}

} // verus!
