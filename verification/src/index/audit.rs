//! Checking a live index: its data are copied out and verified by brute force.
use super::arena::Node;
use super::update::copy_cells;
use super::verify::{kept_in, Dump, Verification};
use super::{grid_key, measure, NetCluster, Slot, NONE};
use crate::cells::holds;
use crate::grid::bucket_has;
use super::facts::law_population;
use crate::net::Net;
use crate::forest::lemma_aggregate;
use crate::sums::{lemma_total_add, lemma_total_ext, lemma_total_zero, total};
use vstd::prelude::*;

verus! {

/// A row of aggregates holds what was put in it.
proof fn lemma_kept(q: Seq<(u32, i32, i64, i64)>, c: int, v: (int, int, int))
    requires
        forall|i: int|
            0 <= i < q.len() && (#[trigger] q[i]).0 == c ==> v == (
                q[i].1 as int,
                q[i].2 as int,
                q[i].3 as int,
            ),
        v != (0int, 0int, 0int) ==> exists|i: int| 0 <= i < q.len() && (#[trigger] q[i]).0 == c,
    ensures
        kept_in(q, c) == v,
    decreases q.len(),
{
    if q.len() > 0 && q[0].0 != c {
        let r = q.skip(1);
        assert forall|i: int| 0 <= i < r.len() && (#[trigger] r[i]).0 == c implies v == (
            r[i].1 as int,
            r[i].2 as int,
            r[i].3 as int,
        ) by {
            assert(q[i + 1] == r[i]);
        }
        if v != (0int, 0int, 0int) {
            let i = choose|i: int| 0 <= i < q.len() && (#[trigger] q[i]).0 == c;
            assert(r[i - 1] == q[i]);
        }
        lemma_kept(r, c, v);
    }
}

impl NetCluster {
    /// `d` is a copy of the data of the index.
    spec fn copied(&self, d: Dump) -> bool {
        &&& d.opts == self.opts()
        &&& d.nodes.len() == self.slots()
        &&& forall|s: int| 0 <= s < self.slots() ==> #[trigger] d.nodes[s] == self.arena.nodes[s]
        &&& d.cells.len() == self.slots()
        &&& forall|s: int| 0 <= s < self.slots() ==> #[trigger] d.cells[s]@ == self.arena.tags[s]@
        &&& d.sums.len() == self.slots()
        &&& forall|s: int| 0 <= s < self.slots() ==> self.row_of(s, #[trigger] d.sums[s]@)
        &&& forall|s: int| #[trigger] d.has(s) <==> self.live(s)
        &&& forall|i: int, j: int|
            0 <= i < j < d.ids.len() ==> (#[trigger] d.ids[i]).1 < (#[trigger] d.ids[j]).1
        &&& forall|i: int| 0 <= i < d.ids.len() ==> (#[trigger] d.ids[i]).1 < self.slots()
        &&& d.ids.len() == self.net().pts.len()
        &&& d.id_count == d.ids.len()
        &&& forall|i: int|
            0 <= i < d.listings.len() ==> self.grid@.contains_key(#[trigger] d.listings[i].0)
                && d.listings[i].1@ == self.grid@[d.listings[i].0]
        &&& forall|k: u64| #[trigger]
            self.grid@.contains_key(k) ==> exists|i: int|
                0 <= i < d.listings.len() && #[trigger] d.listings[i].0 == k
        &&& forall|i: int, j: int|
            0 <= i < j < d.listings.len() ==> #[trigger] d.listings[i].0
                != #[trigger] d.listings[j].0
        &&& d.entries == self.grid.live()
    }

    /// `q` holds the aggregates under slot `s`.
    spec fn row_of(&self, s: int, q: Seq<(u32, i32, i64, i64)>) -> bool {
        forall|c: int| #[trigger] kept_in(q, c) == self.table.val(s, c)
    }

    proof fn lemma_row(&self, s: int, q: Seq<(u32, i32, i64, i64)>)
        requires
            self.table.wf(),
            0 <= s < self.table.slots(),
            forall|i: int|
                0 <= i < q.len() ==> (#[trigger] q[i]).0 < self.table.width() && self.table.val(
                    s,
                    q[i].0 as int,
                ) == (q[i].1 as int, q[i].2 as int, q[i].3 as int),
            forall|c: int|
                0 <= c < self.table.width() && #[trigger] self.table.val(s, c) != (0int, 0int, 0int)
                    ==> exists|i: int| 0 <= i < q.len() && (#[trigger] q[i]).0 == c,
        ensures
            self.row_of(s, q),
    {
        assert forall|c: int| #[trigger] kept_in(q, c) == self.table.val(s, c) by {
            if !(0 <= c < self.table.width()) {
                self.table.lemma_outside(s, c);
            }
            lemma_kept(q, c, self.table.val(s, c));
        }
    }

    proof fn lemma_copy_placed(&self, d: Dump)
        requires
            self.wf(),
            self.copied(d),
        ensures
            d.shaped(),
            d.all_placed(),
            d.all_apart(),
    {
        let net = self.net();
        reveal(Dump::all_placed);
        assert forall|s: int| #[trigger] d.has(s) implies d.placed(s) by {
            self.lemma_net(s);
            assert(net.sound_point(s) && net.covering(s));
            assert(self.arena.hung(s));
            assert(d.nodes[s] == self.arena.nodes[s]);
            if self.arena.up(s) == -2 {
                assert(self.arena.spared(self.arena.home@[s].1));
            }
            match net.pts[s].parent {
                None => {},
                Some(q) => {
                    self.lemma_net(q);
                    assert(net.has(q));
                    assert(d.has(q));
                    assert(d.nodes[q] == self.arena.nodes[q]);
                },
            }
        }
        assert forall|a: int, b: int|
            #![trigger d.has(a), d.has(b)]
            d.has(a) && d.has(b) && a != b implies d.apart(a, b) by {
            self.lemma_net(a);
            self.lemma_net(b);
            assert(net.has(a) && net.has(b));
            assert(net.separated(a, b));
            assert(net.sound_point(a) && net.sound_point(b));
            assert(d.nodes[a] == self.arena.nodes[a] && d.nodes[b] == self.arena.nodes[b]);
            let (t, u) = (d.nodes[a].tz as int, d.nodes[b].tz as int);
            let z = if t > u {
                t
            } else {
                u
            };
            if z <= d.top() {
                assert(net.center(a, z) && net.center(b, z));
                assert(!self.opts().near(z, net.far(a, net.pts[b].x, net.pts[b].y)));
            }
        }
    }

    proof fn lemma_copy_listed(&self, d: Dump)
        requires
            self.wf(),
            self.copied(d),
        ensures
            d.listed(),
    {
        reveal(Dump::listed);
        let lists = self.arena.kids@.take(self.slots());
        let f = self.forest();
        self.lemma_forest();
        assert forall|s: int| #[trigger] d.has(s) implies d.list_of(s, lists[s]) by {
            let q = lists[s];
            assert(self.live(s));
            assert(self.arena.headed(s) && self.arena.sorted(s));
            assert(d.nodes[s] == self.arena.nodes[s]);
            assert((f.on)(s));
            assert(f.bears(s));
            assert forall|i: int| #![trigger q[i]] 0 <= i < q.len() implies d.entry_of(s, q, i) by {
                assert(self.arena.linked(s, i));
                assert((f.on)(q[i]));
                assert(self.live(q[i]));
                assert(d.has(q[i]));
                assert(d.nodes[q[i]] == self.arena.nodes[q[i]]);
                assert(self.arena.hung(q[i]));
            }
            assert forall|i: int, j: int| 0 <= i < j < q.len() implies d.nodes[#[trigger] q[i]].tz
                <= d.nodes[#[trigger] q[j]].tz by {
                assert(d.entry_of(s, q, i) && d.entry_of(s, q, j));
                assert(self.live(q[i]) && self.live(q[j]));
                assert(d.nodes[q[i]] == self.arena.nodes[q[i]]);
                assert(d.nodes[q[j]] == self.arena.nodes[q[j]]);
            }
            assert(q.no_duplicates());
        }
        assert forall|s: int| #[trigger] d.has(s) implies d.has_list(s) by {
            assert(d.list_of(s, lists[s]));
        }
        assert forall|s: int| #[trigger] d.has(s) && d.nodes[s].par != NONE implies d.lists_child(
            d.nodes[s].par as int,
            s,
        ) by {
            assert(self.live(s));
            assert(self.arena.hung(s));
            assert(d.nodes[s] == self.arena.nodes[s]);
            let (p, i) = self.arena.home@[s];
            if p == -2 {
                assert(self.arena.spared(i));
            }
            assert(lists[p][i] == s);
            self.lemma_net(s);
            self.lemma_net(p);
            assert(self.net().sound_point(s) && self.net().covering(s));
            assert(d.has(p));
            assert(d.list_of(p, lists[p]) && lists[p].contains(s));
        }
    }

    /// The copy's tree is the index's.
    proof fn lemma_copy_under(&self, d: Dump, s: int, p: int)
        requires
            self.wf(),
            self.copied(d),
            self.live(p),
        ensures
            d.under(s, p) == self.forest().under(s, p),
        decreases self.level(p),
    {
        let f = self.forest();
        let net = self.net();
        self.lemma_net(p);
        assert(net.sound_point(p) && net.covering(p));
        assert(self.arena.hung(p));
        assert(d.nodes[p] == self.arena.nodes[p]);
        match net.pts[p].parent {
            None => {},
            Some(q) => {
                self.lemma_net(q);
                assert(net.has(q));
                assert(d.nodes[q] == self.arena.nodes[q]);
                self.lemma_copy_under(d, s, q);
            },
        }
    }

    /// What the index has aggregated is what the copy's subtrees sum up to.
    proof fn lemma_copy_mass(&self, d: Dump, a: int, c: int, s: int)
        requires
            self.wf(),
            self.copied(d),
            self.live(s),
            0 <= a <= 2,
            c < self.opts().cells_in_force(),
        ensures
            d.mass(a, c, s) == self.mass(a, c, s),
    {
        let f = self.forest();
        self.lemma_forest();
        assert((f.on)(s));
        assert(measure(a, c));
        lemma_aggregate(f, self.agg(a, c), self.weigh(a, c), s, 21);
        assert forall|p: int| 0 <= p < self.slots() implies #[trigger] d.own_under(a, c, s)(p)
            == f.at_under(s, self.weigh(a, c))(p) by {
            if self.live(p) {
                assert(d.has(p));
                self.lemma_copy_under(d, s, p);
                assert(d.nodes[p] == self.arena.nodes[p]);
                assert(d.cells[p]@ == self.arena.tags[p]@);
            } else {
                assert(!d.has(p));
            }
        }
        lemma_total_ext(self.slots(), d.own_under(a, c, s), f.at_under(s, self.weigh(a, c)));
    }

    /// Beyond the filter cells there is nothing.
    proof fn lemma_copy_none(&self, d: Dump, a: int, c: int, s: int)
        requires
            self.wf(),
            self.copied(d),
            0 <= a <= 2,
            c >= self.opts().cells_in_force(),
            c >= 0,
        ensures
            d.mass(a, c, s) == 0,
    {
        assert forall|p: int| 0 <= p < self.slots() implies #[trigger] d.own_under(a, c, s)(p)
            == 0 by {
            if d.has(p) {
                assert(self.live(p));
                assert(self.good_data(p));
                assert(d.cells[p]@ == self.arena.tags[p]@);
                assert(!holds(d.cells[p]@, c));
            }
        }
        lemma_total_zero(self.slots(), d.own_under(a, c, s));
    }

    proof fn lemma_copy_weighed(&self, d: Dump, s: int)
        requires
            self.wf(),
            self.copied(d),
            d.has(s),
        ensures
            d.weighed(s),
            d.cells_weighed(s),
    {
        assert(self.live(s));
        assert(d.nodes[s] == self.arena.nodes[s]);
        self.lemma_copy_mass(d, 0, -1, s);
        self.lemma_copy_mass(d, 1, -1, s);
        self.lemma_copy_mass(d, 2, -1, s);
        assert(self.row_of(s, d.sums[s]@));
        assert forall|c: int| c >= 0 implies #[trigger] d.cell_weighed(s, c) by {
            assert(kept_in(d.sums[s]@, c) == self.table.val(s, c));
            if c < self.opts().cells_in_force() {
                self.lemma_copy_mass(d, 0, c, s);
                self.lemma_copy_mass(d, 1, c, s);
                self.lemma_copy_mass(d, 2, c, s);
            } else {
                self.table.lemma_outside(s, c);
                self.lemma_copy_none(d, 0, c, s);
                self.lemma_copy_none(d, 1, c, s);
                self.lemma_copy_none(d, 2, c, s);
            }
        }
    }

    proof fn lemma_copy_gridded(&self, d: Dump)
        requires
            self.wf(),
            self.copied(d),
        ensures
            d.gridded(),
    {
        let g = self.grid@;
        assert forall|i: int| 0 <= i < d.listings.len() implies #[trigger] d.bucket_ok(i) by {
            let (k, q) = d.listings[i];
            assert(g.contains_key(d.listings[i].0));
            self.grid.lemma_buckets();
            assert forall|j: int| 0 <= j < q.len() implies #[trigger] d.listing_ok(i, j) by {
                assert(g[k][j] == q[j]);
                assert(bucket_has(g, k, q[j]));
                assert(self.live(q[j] as int));
                assert(d.has(q[j] as int));
                assert(d.nodes[q[j] as int] == self.arena.nodes[q[j] as int]);
            }
            assert(d.listing_ok(i, 0));
            assert(bucket_has(g, k, g[k][0]));
        }
        assert forall|i: int, j: int, k: int, l: int, s: int, z: int|
            #![trigger d.lists_at(i, j, s, z), d.lists_at(k, l, s, z)]
            d.lists_at(i, j, s, z) && d.lists_at(k, l, s, z) implies i == k && j == l by {
            assert(d.bucket_ok(i) && d.bucket_ok(k));
            assert(d.listing_ok(i, j) && d.listing_ok(k, l));
            assert(d.listings[i].0 == d.listings[k].0);
            if i != k {
                assert(false) by {
                    if i < k {
                        assert(d.listings[i].0 != d.listings[k].0);
                    } else {
                        assert(d.listings[k].0 != d.listings[i].0);
                    }
                }
            }
            assert(g.contains_key(d.listings[i].0));
            assert(g[d.listings[i].0].no_duplicates());
        }
        assert forall|s: int, z: int| #![trigger d.expects(s, z)] d.expects(s, z) implies d.gives(s, z) by {
            assert(self.live(s));
            assert(d.nodes[s] == self.arena.nodes[s]);
            assert(self.good_data(s));
            let k = grid_key(
                self.opts(),
                self.arena.nodes[s].qx as int,
                self.arena.nodes[s].qy as int,
                z,
            );
            super::grids::lemma_grid_key(
                self.opts(),
                self.arena.nodes[s].qx as int,
                self.arena.nodes[s].qy as int,
                z,
            );
            assert(bucket_has(g, k, s as Slot));
            let j = choose|j: int| 0 <= j < g[k].len() && g[k][j] == s as Slot;
            let i = choose|i: int| 0 <= i < d.listings.len() && #[trigger] d.listings[i].0 == k;
            assert(d.lists_at(i, j, s, z));
        }
        let f = |s: int| d.levels(s);
        assert forall|s: int| 0 <= s < self.slots() implies #[trigger] f(s) == self.listings()(
            s,
        ) by {
            assert(d.nodes[s] == self.arena.nodes[s]);
            assert(d.has(s) == self.live(s));
        }
        lemma_total_ext(self.slots(), f, self.listings());
    }

    proof fn lemma_copy(&self, d: Dump)
        requires
            self.wf(),
            self.copied(d),
        ensures
            d.sound(),
    {
        self.lemma_copy_placed(d);
        self.lemma_copy_listed(d);
        self.lemma_copy_gridded(d);
        assert forall|s: int| #[trigger] d.has(s) implies d.weighed(s) && d.cells_weighed(s) by {
            self.lemma_copy_weighed(d, s);
        }
    }
}

impl Net {
    /// How many ancestors point `s` has.
    pub open spec fn depth(&self, s: int) -> int
        decreases self.pts[s].level,
    {
        match self.pts[s].parent {
            Some(q) => if 0 <= self.pts[q].level < self.pts[s].level {
                1 + self.depth(q)
            } else {
                0
            },
            None => 0,
        }
    }

    /// `v` describes the net, whose handles are below `n`.
    pub open spec fn summary(&self, n: int, v: Verification) -> bool {
        &&& v.points == self.pts.len()
        &&& v.centers == self.centers_at(n, self.top())
        &&& v.leaves == v.points - v.centers
        &&& v.grid_listings == total(n, |s: int| self.levels_of(s))
        &&& forall|s: int| #[trigger] self.has(s) ==> self.depth(s) <= v.max_depth
        &&& v.max_depth > 0 ==> exists|s: int| #[trigger] self.has(s) && self.depth(s) == v.max_depth
    }
}

impl NetCluster {
    proof fn lemma_copy_depth(&self, d: Dump, s: int)
        requires
            self.wf(),
            self.copied(d),
            self.live(s),
        ensures
            d.depth(s) == self.net().depth(s),
        decreases self.level(s),
    {
        let net = self.net();
        self.lemma_net(s);
        assert(net.sound_point(s) && net.covering(s));
        assert(self.arena.hung(s));
        assert(d.nodes[s] == self.arena.nodes[s]);
        match net.pts[s].parent {
            None => {},
            Some(q) => {
                self.lemma_net(q);
                assert(net.has(q));
                assert(d.nodes[q] == self.arena.nodes[q]);
                self.lemma_copy_depth(d, q);
            },
        }
    }

    proof fn lemma_copy_summary(&self, d: Dump, v: Verification)
        requires
            self.wf(),
            self.copied(d),
            d.summed_up(v),
        ensures
            self.net().summary(self.slots(), v),
    {
        let net = self.net();
        let n = self.slots();
        let top = net.top();
        let all = |s: int|
            if net.has(s) && net.in_cell(s, -1) {
                1int
            } else {
                0
            };
        let is_center = |s: int|
            if net.center(s, top) {
                1int
            } else {
                0
            };
        let high = |s: int|
            if d.has(s) && 0 <= d.nodes[s].tz <= top {
                1int
            } else {
                0
            };
        let low = |s: int|
            if d.has(s) && top + 1 <= d.nodes[s].tz <= top + 1 {
                1int
            } else {
                0
            };
        assert forall|s: int| 0 <= s < n implies #[trigger] high(s) == is_center(s) && all(s)
            == high(s) + low(s) && d.levels(s) == net.levels_of(s) by {
            self.lemma_net(s);
            assert(d.has(s) == self.live(s));
            assert(d.nodes[s] == self.arena.nodes[s]);
            if net.has(s) {
                assert(net.sound_point(s));
            }
        }
        lemma_total_ext(n, high, is_center);
        assert forall|s: int| 0 <= s < n implies #[trigger] all(s) == high(s) + low(s) by {
            assert(high(s) == is_center(s));
        }
        lemma_total_add(n, high, low, all);
        self.law_invariants();
        law_population(net, n);
        assert(total(n, all) == net.population(n, -1));
        let f = |s: int| d.levels(s);
        let g = |s: int| net.levels_of(s);
        assert forall|s: int| 0 <= s < n implies #[trigger] f(s) == g(s) by {
            assert(high(s) == is_center(s));
        }
        lemma_total_ext(n, f, g);
        assert forall|s: int| #[trigger] net.has(s) implies net.depth(s) <= v.max_depth by {
            self.lemma_net(s);
            assert(d.has(s));
            self.lemma_copy_depth(d, s);
        }
        if v.max_depth > 0 {
            let s = choose|s: int| #[trigger] d.has(s) && d.depth(s) == v.max_depth;
            self.lemma_net(s);
            self.lemma_copy_depth(d, s);
            assert(net.has(s));
        }
    }

    /// The data of the index, copied out.
    pub fn dump(&self) -> (d: Dump)
        requires
            self.wf(),
        ensures
            d.sound(),
            forall|v: Verification| #[trigger]
                d.summed_up(v) ==> self.net().summary(self.slots(), v),
    {
        let n = self.arena.n;
        let count = self.len();
        let mut nodes: Vec<Node> = Vec::new();
        let mut cells: Vec<Vec<u32>> = Vec::new();
        let mut sums: Vec<Vec<(u32, i32, i64, i64)>> = Vec::new();
        let mut ids: Vec<(u64, Slot)> = Vec::new();
        let ghost net = self.net();
        let ghost all = |p: int|
            if net.has(p) && net.in_cell(p, -1) {
                1int
            } else {
                0
            };
        let mut s: u32 = 0;
        while s < n
            invariant
                self.wf(),
                n == self.arena.n,
                s <= n,
                net == self.net(),
                all == (|p: int|
                    if net.has(p) && net.in_cell(p, -1) {
                        1int
                    } else {
                        0
                    }),
                nodes@.len() == s,
                forall|t: int| 0 <= t < s ==> #[trigger] nodes@[t] == self.arena.nodes[t],
                cells@.len() == s,
                forall|t: int| 0 <= t < s ==> #[trigger] cells@[t]@ == self.arena.tags[t]@,
                sums@.len() == s,
                forall|t: int| 0 <= t < s ==> self.row_of(t, #[trigger] sums@[t]@),
                forall|i: int| 0 <= i < ids@.len() ==> (#[trigger] ids@[i]).1 < s && self.live(
                    ids@[i].1 as int,
                ),
                forall|t: int| 0 <= t < s && self.live(t) ==> exists|i: int| 0 <= i < ids@.len() && (
                #[trigger] ids@[i]).1 == t,
                forall|i: int, j: int|
                    0 <= i < j < ids@.len() ==> (#[trigger] ids@[i]).1 < (#[trigger] ids@[j]).1,
                ids@.len() == total(s as int, all),
            decreases n - s,
        {
            let node = self.arena.nodes[s as usize];
            let row = self.table.kept(s);
            proof {
                self.lemma_row(s as int, row@);
                self.lemma_net(s as int);
            }
            let ghost before = ids@;
            let found = match self.ids.get(&node.ext) {
                Some(t) => *t == s,
                None => false,
            };
            assert(found == self.live(s as int)) by {
                if self.live(s as int) {
                    assert(self.ids@.contains_key(self.arena.nodes[s as int].ext));
                }
            }
            if found {
                ids.push((node.ext, s));
            }
            proof {
                assert forall|t: int| 0 <= t < s + 1 && self.live(t) implies exists|i: int|
                    0 <= i < ids@.len() && (#[trigger] ids@[i]).1 == t by {
                    if t < s {
                        let i = choose|i: int|
                            0 <= i < before.len() && (#[trigger] before[i]).1 == t;
                        assert(ids@[i] == before[i]);
                    } else {
                        assert(ids@[before.len() as int].1 == t);
                    }
                }
            }
            cells.push(copy_cells(&self.arena.tags[s as usize]));
            nodes.push(node);
            sums.push(row);
            s = s + 1;
        }
        let d = Dump {
            opts: self.geo.opts(),
            nodes,
            cells,
            sums,
            ids,
            id_count: count,
            listings: self.grid.buckets(),
            entries: self.grid.entries(),
        };
        proof {
            self.law_invariants();
            law_population(net, self.slots());
            assert(total(n as int, all) == net.population(self.slots(), -1));
            assert forall|t: int| #[trigger] d.has(t) <==> self.live(t) by {
                if d.has(t) {
                    let i = choose|i: int| d.leads(i, t);
                    assert(self.live(d.ids[i].1 as int));
                }
                if self.live(t) {
                    let i = choose|i: int| 0 <= i < d.ids.len() && (#[trigger] d.ids[i]).1 == t;
                    assert(d.leads(i, t));
                }
            }
            assert(self.copied(d));
            self.lemma_copy(d);
            assert forall|v: Verification| #[trigger] d.summed_up(v) implies self.net().summary(
                self.slots(),
                v,
            ) by {
                self.lemma_copy_summary(d, v);
            }
        }
        d
    }

    /// Verify the index by brute force, from a copy of its data. An index in order passes.
    pub fn verify(&self) -> (r: Result<Verification, String>)
        requires
            self.wf(),
        ensures
            r is Ok,
            self.net().summary(self.slots(), r->Ok_0),
    {
        match self.dump().verify() {
            Ok(v) => Ok(v),
            Err(f) => Err(f.message()),
        }
    }
}

} // verus!
