//! Reading the index: clusters in a box, tiles, handles.
use super::{measure, NetCluster, Slot};
use super::mass::mass_range;
use crate::cells::holds;
use crate::clusters::{
    lemma_one_root, lemma_rep, lemma_rep_below, lemma_root_of, lemma_tally,
    lemma_under_level, lemma_under_one, lemma_under_top, Window,
};
use crate::feature::Feature;
use crate::forest::lemma_cluster;
use super::grids::{lemma_grid_key, pack};
use crate::geometry::{
    cut_off, in_world, lemma_cell_order, lemma_cell_range, lemma_reach_cells, CELL_SPAN, PREC_I,
};
use crate::grid::{bucket_has, key_level};
use crate::laws::lemma_viewport;
use crate::net::Point;
use crate::order::{
    cell_key, column, descent, drawn_of, ground, lemma_drawn_add, lemma_drawn_none, roots_of, sight, tour,
    tour_below,
};
use crate::sums::{lemma_sum_ext, lemma_sum_prefix, lemma_sum_push, lemma_total_ext, sum_over};
use vstd::prelude::*;

verus! {

impl NetCluster {
    /// What holds of every index in order: the net's invariants, with handles below
    /// [`NetCluster::slots`] and filter cells in range.
    pub proof fn law_invariants(&self)
        requires
            self.wf(),
        ensures
            self.net().ok(),
            self.net().opts == self.opts(),
            self.opts().valid(),
            self.net().within_slots(self.slots()),
            self.net().pts.dom().finite(),
            0 <= self.slots() <= 0x0800_0000,
            forall|s: int| #[trigger]
                self.net().has(s) ==> super::cells_ok(self.opts(), self.net().pts[s].cells),
    {
        self.lemma_forest();
        assert forall|s: int| #[trigger] self.net().has(s) implies super::cells_ok(
            self.opts(),
            self.net().pts[s].cells,
        ) by {
            self.lemma_net(s);
            assert(self.good_data(s));
        }
    }

    /// The tree that is kept is the tree of the net.
    pub(super) proof fn lemma_same_rep(&self, p: int, z: int)
        requires
            self.wf(),
            self.live(p),
        ensures
            self.forest().rep(p, z) == self.net().rep(p, z),
            forall|s: int| #[trigger] self.forest().under(s, p) == self.net().under(s, p),
        decreases self.level(p),
    {
        let net = self.net();
        let f = self.forest();
        self.lemma_net(p);
        assert(net.sound_point(p) && net.covering(p));
        let q = self.arena.up(p);
        assert(self.arena.hung(p));
        if q >= 0 {
            self.lemma_net(q);
            assert(net.has(q));
            assert(self.live(q));
            assert(net.sound_point(q));
            self.lemma_same_rep(q, z);
            assert((f.up)(p) == q);
        } else {
            assert((f.up)(p) == -1) by {
                assert(!self.live(q));
            }
        }
        assert forall|s: int| #[trigger] f.under(s, p) == net.under(s, p) by {
            if q >= 0 {
                assert(f.under(s, q) == net.under(s, q));
            }
        }
    }

    /// A category that is asked for: with no filter cells in force it does not count.
    pub open spec fn effective(&self, category: int) -> int {
        if self.opts().cells_in_force() > 0 && category >= 0 {
            category
        } else {
            -1
        }
    }

    fn effective_category(&self, category: i32) -> (c: i32)
        requires
            self.wf(),
        ensures
            c == self.effective(category as int),
    {
        if self.geo.opts().cell_count() > 0 && category >= 0 {
            category
        } else {
            -1
        }
    }

    /// The aggregate of one slot.
    fn own_aggregate(&self, s: Slot, cat: i32) -> (r: (i32, i64, i64))
        requires
            self.wf(),
            self.live(s as int),
            cat == self.effective(cat as int),
        ensures
            r.0 == self.mass(0, cat as int, s as int),
            r.1 == self.mass(1, cat as int, s as int),
            r.2 == self.mass(2, cat as int, s as int),
            mass_range(0, r.0 as int),
            mass_range(1, r.1 as int),
            mass_range(2, r.2 as int),
    {
        proof {
            self.lemma_held();
            assert(measure(0, cat as int) && measure(1, cat as int) && measure(2, cat as int));
            assert(mass_range(0, self.mass(0, cat as int, s as int)));
            assert(mass_range(1, self.mass(1, cat as int, s as int)));
            assert(mass_range(2, self.mass(2, cat as int, s as int)));
        }
        if cat >= 0 {
            proof {
                self.table.lemma_outside(s as int, cat as int);
            }
            if cat as usize >= self.geo.opts().cell_count() {
                return (0, 0, 0);
            }
            match self.table.find(s, cat as u32) {
                Some(e) => {
                    self.table.at(e)
                },
                None => (0, 0, 0),
            }
        } else {
            let v = self.arena.nodes[s as usize];
            (v.cnt, v.sx, v.sy)
        }
    }

    /// Aggregate of the cluster represented by center `s` at level `z`.
    ///
    /// With a category the same subtraction runs over that cell's aggregates, so a filtered
    /// cluster costs exactly what an unfiltered one costs.
    pub(super) fn cluster_at(&self, s: Slot, z: i8, cat: i32) -> (r: (i32, i64, i64))
        requires
            self.wf(),
            self.live(s as int),
            self.level(s as int) <= z,
            cat == self.effective(cat as int),
        ensures
            r.0 == self.net().tally(self.slots(), 0, cat as int, s as int, z as int),
            r.1 == self.net().tally(self.slots(), 1, cat as int, s as int, z as int),
            r.2 == self.net().tally(self.slots(), 2, cat as int, s as int, z as int),
            0 <= r.0 <= 0x0800_0000,
            0 <= r.1 <= 0x0200_0000_0000_0000,
            0 <= r.2 <= 0x0200_0000_0000_0000,
    {
        let ghost si = s as int;
        let ghost c = cat as int;
        let ghost f = self.forest();
        let ghost q = self.arena.kids@[si];
        proof {
            self.lemma_held();
            self.lemma_forest();
            self.lemma_cluster_sums(si, z as int, c);
        }
        let (mut n, mut ax, mut ay) = self.own_aggregate(s, cat);
        let kids = self.arena.children(s);
        let mut i: usize = 0;
        while i < kids.len()
            invariant
                self.wf(),
                self.live(si),
                si == s,
                c == cat,
                cat == self.effective(cat as int),
                q == self.arena.kids@[si],
                kids@.len() == q.len(),
                forall|j: int|
                    0 <= j < kids@.len() ==> #[trigger] kids@[j] == q[j] && kids@[j] < self.arena.n,
                i <= q.len(),
                n == self.mass(0, c, si) - sum_over(q.take(i as int), self.outside(0, c, z as int)),
                ax == self.mass(1, c, si) - sum_over(q.take(i as int), self.outside(1, c, z as int)),
                ay == self.mass(2, c, si) - sum_over(q.take(i as int), self.outside(2, c, z as int)),
                forall|a: int, j: int|
                    #![trigger sum_over(q.take(j), self.outside(a, c, z as int))]
                    0 <= a <= 2 && 0 <= j <= q.len() ==> 0 <= sum_over(
                        q.take(j),
                        self.outside(a, c, z as int),
                    ) <= self.mass(a, c, si),
                forall|j: int| 0 <= j < q.len() ==> self.live(#[trigger] q[j]),
                mass_range(0, self.mass(0, c, si)),
                mass_range(1, self.mass(1, c, si)),
                mass_range(2, self.mass(2, c, si)),
            decreases q.len() - i,
        {
            let b = kids[i];
            proof {
                assert(kids@[i as int] == q[i as int]);
                assert(self.live(q[i as int]));
                assert forall|a: int| 0 <= a <= 2 implies #[trigger] sum_over(
                    q.take(i + 1),
                    self.outside(a, c, z as int),
                ) == sum_over(q.take(i as int), self.outside(a, c, z as int)) + self.outside(
                    a,
                    c,
                    z as int,
                )(q[i as int]) by {
                    lemma_sum_push(q, i as int, self.outside(a, c, z as int));
                }
                let (s0, s1, s2) = (
                    sum_over(q.take(i + 1), self.outside(0, c, z as int)),
                    sum_over(q.take(i + 1), self.outside(1, c, z as int)),
                    sum_over(q.take(i + 1), self.outside(2, c, z as int)),
                );
            }
            if self.arena.nodes[b as usize].tz <= z {
                let (bn, bx, by) = self.own_aggregate(b, cat);
                n = n - bn;
                ax = ax - bx;
                ay = ay - by;
            }
            i = i + 1;
        }
        proof {
            assert(q.take(q.len() as int) =~= q);
            assert(0 <= sum_over(q.take(i as int), self.outside(0, c, z as int)));
            assert(0 <= sum_over(q.take(i as int), self.outside(1, c, z as int)));
            assert(0 <= sum_over(q.take(i as int), self.outside(2, c, z as int)));
        }
        (n, ax, ay)
    }

    /// What a child takes out of the cluster of its parent at level `z`.
    spec fn outside(&self, a: int, c: int, z: int) -> spec_fn(int) -> int {
        |b: int|
            if self.level(b) <= z {
                self.mass(a, c, b)
            } else {
                0
            }
    }

    /// A cluster is a subtree without the subtrees of its children that are centers themselves.
    proof fn lemma_cluster_sums(&self, s: int, z: int, c: int)
        requires
            self.wf(),
            self.live(s),
            self.level(s) <= z,
        ensures
            forall|a: int|
                0 <= a <= 2 ==> self.mass(a, c, s) - sum_over(
                    self.arena.kids@[s],
                    self.outside(a, c, z),
                ) == #[trigger] self.net().tally(self.slots(), a, c, s, z),
            forall|a: int, j: int|
                #![trigger sum_over(self.arena.kids@[s].take(j), self.outside(a, c, z))]
                0 <= a <= 2 && 0 <= j <= self.arena.kids@[s].len() ==> 0 <= sum_over(
                    self.arena.kids@[s].take(j),
                    self.outside(a, c, z),
                ) <= self.mass(a, c, s),
            forall|j: int|
                0 <= j < self.arena.kids@[s].len() ==> self.live(#[trigger] self.arena.kids@[s][j]),
    {
        self.lemma_held();
        self.lemma_forest();
        let f = self.forest();
        let q = self.arena.kids@[s];
        assert((f.on)(s));
        assert(f.bears(s));
        assert forall|j: int| 0 <= j < q.len() implies self.live(#[trigger] q[j]) by {
            assert((f.on)(f.kids[s][j]));
        }
        assert forall|a: int| 0 <= a <= 2 implies self.mass(a, c, s) - sum_over(
            q,
            self.outside(a, c, z),
        ) == #[trigger] self.net().tally(self.slots(), a, c, s, z) by {
            assert(measure(a, c));
            assert(f.all_balanced(self.agg(a, c), self.weigh(a, c)));
            lemma_cluster(f, self.agg(a, c), self.weigh(a, c), s, z, 21);
            let g = |b: int|
                if (f.level)(b) <= z {
                    self.agg(a, c)(b)
                } else {
                    0
                };
            lemma_sum_ext(q, g, self.outside(a, c, z));
            let h = f.at_rep(s, z, self.weigh(a, c));
            let t = self.net().tally_at(a, c, s, z);
            assert forall|p: int| 0 <= p < self.slots() implies #[trigger] h(p) == t(p) by {
                self.lemma_net(p);
                if self.live(p) {
                    self.lemma_same_rep(p, z);
                }
            }
            lemma_total_ext(self.slots(), h, t);
        }
        assert forall|a: int, j: int|
            #![trigger sum_over(q.take(j), self.outside(a, c, z))]
            0 <= a <= 2 && 0 <= j <= q.len() implies 0 <= sum_over(
            q.take(j),
            self.outside(a, c, z),
        ) <= self.mass(a, c, s) by {
            assert(measure(a, c));
            assert(f.all_balanced(self.agg(a, c), self.weigh(a, c)));
            assert(f.balanced(self.agg(a, c), self.weigh(a, c), s));
            assert(self.good_data(s));
            assert forall|i: int| 0 <= i < q.len() implies 0 <= self.outside(a, c, z)(
                #[trigger] q[i],
            ) <= self.agg(a, c)(q[i]) by {
                assert(self.live(q[i]));
                assert(mass_range(a, self.mass(a, c, q[i])));
            }
            lemma_sum_prefix(q, j, self.outside(a, c, z), self.agg(a, c));
        }
    }

    /// How many points of a category sit anywhere under `s`.
    pub(super) fn subtree_count(&self, s: Slot, cat: i32) -> (n: i32)
        requires
            self.wf(),
            self.live(s as int),
            cat == self.effective(cat as int),
        ensures
            n == self.mass(0, cat as int, s as int),
            n >= 0,
    {
        self.own_aggregate(s, cat).0
    }

    /// Whether the point of a slot is in a filter cell.
    fn in_category(&self, s: Slot, cat: i32) -> (r: bool)
        requires
            self.wf(),
            self.live(s as int),
            cat >= 0,
        ensures
            r == holds(self.point(s as int).cells, cat as int),
    {
        let ghost q = self.arena.tags[s as int]@;
        let mut i: usize = 0;
        while i < self.arena.tags[s as usize].len()
            invariant
                self.wf(),
                self.live(s as int),
                cat >= 0,
                q == self.arena.tags[s as int]@,
                i <= q.len(),
                forall|j: int| 0 <= j < i ==> #[trigger] q[j] != cat,
            decreases q.len() - i,
        {
            if self.arena.tags[s as usize][i] as i64 == cat as i64 {
                proof {
                    assert(q[i as int] == cat);
                }
                return true;
            }
            i = i + 1;
        }
        false
    }

    /// A point of a category somewhere under `s`, once there is one.
    fn find_single_in(&self, s: Slot, cat: i32) -> (r: Slot)
        requires
            self.wf(),
            self.live(s as int),
            cat >= 0,
            cat == self.effective(cat as int),
            self.mass(0, cat as int, s as int) > 0,
        ensures
            self.live(r as int),
            self.net().under(s as int, r as int),
            self.net().in_cell(r as int, cat as int),
        decreases 21 - self.level(s as int),
    {
        let ghost si = s as int;
        let ghost c = cat as int;
        proof {
            self.lemma_net(si);
        }
        if self.in_category(s, cat) {
            return s;
        }
        let kids = self.arena.children(s);
        let ghost q = self.arena.kids@[si];
        proof {
            self.lemma_cluster_sums(si, 21, c);
        }
        let mut i: usize = 0;
        while i < kids.len()
            invariant
                self.wf(),
                self.live(si),
                si == s,
                c == cat,
                cat >= 0,
                cat == self.effective(cat as int),
                q == self.arena.kids@[si],
                kids@.len() == q.len(),
                forall|j: int|
                    0 <= j < kids@.len() ==> #[trigger] kids@[j] == q[j] && kids@[j] < self.arena.n,
                i <= q.len(),
                forall|j: int| 0 <= j < q.len() ==> self.live(#[trigger] q[j]),
                forall|j: int| 0 <= j < i ==> self.mass(0, c, #[trigger] q[j]) == 0,
            decreases q.len() - i,
        {
            let b = kids[i];
            proof {
                assert(kids@[i as int] == q[i as int]);
                assert(self.live(q[i as int]));
            }
            if self.subtree_count(b, cat) > 0 {
                proof {
                    self.lemma_kid(si, i as int);
                }
                let r = self.find_single_in(b, cat);
                proof {
                    crate::laws::lemma_under_trans(self.net(), si, b as int, r as int);
                }
                return r;
            }
            i = i + 1;
        }
        proof {
            let f = self.forest();
            assert(measure(0, c));
            assert(f.all_balanced(self.agg(0, c), self.weigh(0, c)));
            assert((f.on)(si));
            assert(f.balanced(self.agg(0, c), self.weigh(0, c), si));
            crate::sums::lemma_sum_zero(q, self.agg(0, c));
            assert(self.weigh(0, c)(si) == 0);
            assert(false);
        }
        s
    }

    /// What the net says of a child.
    pub(super) proof fn lemma_kid(&self, s: int, i: int)
        requires
            self.wf(),
            self.live(s),
            0 <= i < self.arena.kids@[s].len(),
        ensures
            self.live(self.arena.kids@[s][i]),
            self.level(s) < self.level(self.arena.kids@[s][i]) <= self.opts().max_zoom + 1,
            self.net().child(self.arena.kids@[s][i], s),
            self.net().under(s, self.arena.kids@[s][i]),
    {
        let b = self.arena.kids@[s][i];
        assert(self.arena.linked(s, i));
        assert(self.arena.hung(b));
        assert(self.live(b));
        self.lemma_net(b);
        self.lemma_net(s);
        assert(self.net().under(s, s));
    }

    /// The one member of a category in the cluster of `s` at level `z`.
    fn find_single(&self, s: Slot, z: i8, cat: i32) -> (r: Slot)
        requires
            self.wf(),
            self.live(s as int),
            self.level(s as int) <= z,
            cat >= 0,
            cat == self.effective(cat as int),
            self.net().tally(self.slots(), 0, cat as int, s as int, z as int) > 0,
        ensures
            self.live(r as int),
            self.net().member(r as int, s as int, z as int, cat as int),
    {
        let ghost si = s as int;
        let ghost c = cat as int;
        let ghost net = self.net();
        proof {
            self.lemma_net(si);
        }
        if self.in_category(s, cat) {
            return s;
        }
        let kids = self.arena.children(s);
        let ghost q = self.arena.kids@[si];
        proof {
            self.lemma_cluster_sums(si, z as int, c);
        }
        let mut i: usize = 0;
        while i < kids.len()
            invariant
                self.wf(),
                self.live(si),
                si == s,
                c == cat,
                cat >= 0,
                net == self.net(),
                cat == self.effective(cat as int),
                self.level(si) <= z,
                q == self.arena.kids@[si],
                kids@.len() == q.len(),
                forall|j: int|
                    0 <= j < kids@.len() ==> #[trigger] kids@[j] == q[j] && kids@[j] < self.arena.n,
                i <= q.len(),
                forall|j: int| 0 <= j < q.len() ==> self.live(#[trigger] q[j]),
                forall|j: int|
                    0 <= j < i ==> self.mass(0, c, #[trigger] q[j]) == 0 || self.level(q[j]) <= z,
            decreases q.len() - i,
        {
            let b = kids[i];
            proof {
                assert(kids@[i as int] == q[i as int]);
                assert(self.live(q[i as int]));
            }
            if self.arena.nodes[b as usize].tz > z && self.subtree_count(b, cat) > 0 {
                proof {
                    self.lemma_kid(si, i as int);
                }
                let r = self.find_single_in(b, cat);
                proof {
                    self.lemma_net(b as int);
                    self.lemma_net(r as int);
                    lemma_rep_below(net, b as int, r as int, z as int);
                    assert(net.rep(b as int, z as int) == net.rep(si, z as int));
                }
                return r;
            }
            i = i + 1;
        }
        proof {
            let f = self.forest();
            assert(measure(0, c));
            assert(f.all_balanced(self.agg(0, c), self.weigh(0, c)));
            assert((f.on)(si));
            assert(f.balanced(self.agg(0, c), self.weigh(0, c), si));
            assert forall|j: int| 0 <= j < q.len() implies self.agg(0, c)(#[trigger] q[j])
                == self.outside(0, c, z as int)(q[j]) by {}
            lemma_sum_ext(q, self.agg(0, c), self.outside(0, c, z as int));
            assert(self.weigh(0, c)(si) == 0);
            assert(net.tally(self.slots(), 0, c, si, z as int) == 0);
            assert(false);
        }
        s
    }

    /// The feature that shows a cluster.
    pub(super) fn feature(&self, s: Slot, z: i8, cat: i32, n: i32, ax: i64, ay: i64) -> (f: Feature)
        requires
            self.wf(),
            self.live(s as int),
            0 <= self.level(s as int) <= z <= 21,
            cat == self.effective(cat as int),
            n > 0,
            n == self.net().tally(self.slots(), 0, cat as int, s as int, z as int),
            ax == self.net().tally(self.slots(), 1, cat as int, s as int, z as int),
            ay == self.net().tally(self.slots(), 2, cat as int, s as int, z as int),
        ensures
            self.net().shows(f, self.slots(), cat as int, s as int, z as int),
            f.size() == n,
    {
        let ghost net = self.net();
        if n == 1 {
            let one = if cat >= 0 {
                self.find_single(s, z, cat)
            } else {
                s
            };
            proof {
                self.lemma_net(s as int);
                self.lemma_net(one as int);
                assert(net.member(one as int, s as int, z as int, cat as int));
            }
            let v = self.arena.nodes[one as usize];
            Feature::Point { id: v.ext, x: v.qx, y: v.qy }
        } else {
            Feature::Cluster {
                cluster_id: (s as u64) * 32 + (z as u64),
                count: n as u32,
                sx: ax,
                sy: ay,
            }
        }
    }

    /// A subtree that holds none of a category has no cluster of it.
    proof fn lemma_empty_subtree(&self, s: int, p: int, c: int, z: int)
        requires
            self.wf(),
            self.live(s),
            self.net().under(s, p),
            self.net().has(p),
            self.net().tally(self.slots(), 0, c, p, z) > 0,
            0 <= z,
        ensures
            self.mass(0, c, s) > 0,
    {
        self.law_invariants();
        self.lemma_forest();
        let net = self.net();
        let n = self.slots();
        lemma_tally(net, n, c, p, z);
        let m = choose|m: int| net.member(m, p, z, c);
        assert(net.member(m, p, z, c));
        lemma_rep(net, m, z);
        crate::laws::lemma_under_trans(net, s, p, m);
        self.lemma_net(m);
        self.lemma_same_rep(m, z);
        let f = self.forest();
        assert(measure(0, c));
        let (a, w) = (self.agg(0, c), self.weigh(0, c));
        assert(f.all_balanced(a, w));
        assert((f.on)(s));
        crate::forest::lemma_aggregate(f, a, w, s, 21);
        assert(f.under(s, m));
        crate::sums::lemma_total_member(n, f.at_under(s, w), m);
        assert(f.at_under(s, w)(m) == 1);
    }

    /// The window that a query asks for.
    pub open spec fn window(x0: i32, y0: i32, x1: i32, y1: i32) -> Window {
        Window { x0: x0 as int, y0: y0 as int, x1: x1 as int, y1: y1 as int }
    }

    /// Whom a tour comes upon is below its start.
    proof fn lemma_tour(&self, s: int, z: int, p: int)
        requires
            self.wf(),
            self.live(s),
            z <= 20,
            tour(self.lists().kids, self.net().pts, s, z).contains(p),
        ensures
            self.net().under(s, p),
        decreases 21 - self.level(s), self.arena.kids@[s].len() + 1,
    {
        let (kids, net) = (self.lists().kids, self.net());
        self.lemma_net(s);
        assert(net.under(s, s));
        let below = tour_below(kids, net.pts, s, z, 0);
        let i = (seq![s] + below).index_of(p);
        if i > 0 {
            assert(below[i - 1] == p);
            self.lemma_tour_below(s, z, 0, p);
        }
    }

    proof fn lemma_tour_below(&self, s: int, z: int, i: int, p: int)
        requires
            self.wf(),
            self.live(s),
            z <= 20,
            0 <= i,
            tour_below(self.lists().kids, self.net().pts, s, z, i).contains(p),
        ensures
            self.net().under(s, p),
        decreases 21 - self.level(s), self.arena.kids@[s].len() - i,
    {
        let (kids, net) = (self.lists().kids, self.net());
        self.lemma_net(s);
        let q = self.arena.kids@[s];
        assert(q == kids(s));
        let k = q[i];
        self.lemma_kid(s, i);
        self.lemma_net(k);
        let rest = tour_below(kids, net.pts, s, z, i + 1);
        let all = tour_below(kids, net.pts, s, z, i);
        let j = all.index_of(p);
        if j < rest.len() {
            assert(rest[j] == p);
            self.lemma_tour_below(s, z, i + 1, p);
        } else {
            let part = tour(kids, net.pts, k, z);
            assert(all == rest + part);
            assert(part[j - rest.len()] == p);
            self.lemma_tour(k, z, p);
            crate::laws::lemma_under_trans(net, s, k, p);
        }
    }

    /// Where nothing below `s` is drawn, nothing of its tour is.
    proof fn lemma_nothing_drawn(&self, s: int, z: int, n: int, c: int, b: Window)
        requires
            self.wf(),
            self.live(s),
            z <= 20,
            forall|p: int| #[trigger] self.net().under(s, p) ==> !self.net().drawn(n, c, p, z, b),
        ensures
            drawn_of(tour(self.lists().kids, self.net().pts, s, z), self.net(), n, c, z, b).len()
                == 0,
    {
        let q = tour(self.lists().kids, self.net().pts, s, z);
        assert forall|i: int| 0 <= i < q.len() implies !self.net().drawn(
            n,
            c,
            #[trigger] q[i],
            z,
            b,
        ) by {
            assert(q.contains(q[i]));
            self.lemma_tour(s, z, q[i]);
        }
        lemma_drawn_none(q, self.net(), n, c, z, b);
    }

    /// Draw the subtree of `s`.
    #[verifier::rlimit(80)]
    fn visit(
        &self,
        s: Slot,
        z: i8,
        cat: i32,
        x0: i32,
        y0: i32,
        x1: i32,
        y1: i32,
        out: &mut Vec<Feature>,
        shown: &mut Ghost<Seq<int>>,
    )
        requires
            self.wf(),
            self.live(s as int),
            0 <= self.level(s as int) <= z <= self.opts().max_zoom,
            cat == self.effective(cat as int),
            self.net().pictures(old(out)@, old(shown)@, self.slots(), cat as int, z as int),
            forall|i: int|
                0 <= i < old(shown)@.len() ==> !self.net().under(s as int, #[trigger] old(shown)@[i]),
        ensures
            self.net().pictures(final(out)@, final(shown)@, self.slots(), cat as int, z as int),
            forall|p: int| #[trigger]
                final(shown)@.contains(p) <==> (old(shown)@.contains(p) || (self.net().under(
                    s as int,
                    p,
                ) && self.net().drawn(
                    self.slots(),
                    cat as int,
                    p,
                    z as int,
                    Self::window(x0, y0, x1, y1),
                ))),
            final(shown)@ == old(shown)@ + drawn_of(
                tour(self.lists().kids, self.net().pts, s as int, z as int),
                self.net(),
                self.slots(),
                cat as int,
                z as int,
                Self::window(x0, y0, x1, y1),
            ),
        decreases 21 - self.level(s as int),
    {
        let ghost si = s as int;
        let ghost c = cat as int;
        let ghost zi = z as int;
        let ghost net = self.net();
        let ghost b = Self::window(x0, y0, x1, y1);
        let ghost n = self.slots();
        let ghost was = shown@;
        let ghost lists = self.lists();
        let ghost whole = tour(lists.kids, net.pts, si, zi);
        proof {
            self.law_invariants();
            self.lemma_net(si);
            assert(net.under(si, si));
        }
        if cat >= 0 && self.subtree_count(s, cat) == 0 {
            proof {
                assert forall|p: int| #[trigger] was.contains(p) <==> (was.contains(p) || (net.under(
                    si,
                    p,
                ) && net.drawn(n, c, p, zi, b))) by {
                    if net.under(si, p) && net.drawn(n, c, p, zi, b) {
                        self.lemma_empty_subtree(si, p, c, zi);
                    }
                }
                assert forall|p: int| #[trigger] net.under(si, p) implies !net.drawn(
                    n,
                    c,
                    p,
                    zi,
                    b,
                ) by {
                    if net.drawn(n, c, p, zi, b) {
                        self.lemma_empty_subtree(si, p, c, zi);
                    }
                }
                self.lemma_nothing_drawn(si, zi, n, c, b);
                assert(shown@ =~= was + drawn_of(whole, net, n, c, zi, b));
            }
            return ;
        }
        let v = self.arena.nodes[s as usize];
        if !self.geo.reaches(v.qx, x0, x1, v.tz as u8) || !self.geo.reaches(
            v.qy,
            y0,
            y1,
            v.tz as u8,
        ) {
            proof {
                assert(!net.meets(si, b));
                assert forall|p: int| #[trigger] was.contains(p) <==> (was.contains(p) || (net.under(
                    si,
                    p,
                ) && net.drawn(n, c, p, zi, b))) by {
                    if net.under(si, p) && net.drawn(n, c, p, zi, b) {
                        lemma_viewport(net, n, c, p, zi, b, si);
                    }
                }
                assert forall|p: int| #[trigger] net.under(si, p) implies !net.drawn(
                    n,
                    c,
                    p,
                    zi,
                    b,
                ) by {
                    if net.drawn(n, c, p, zi, b) {
                        lemma_viewport(net, n, c, p, zi, b, si);
                    }
                }
                self.lemma_nothing_drawn(si, zi, n, c, b);
                assert(shown@ =~= was + drawn_of(whole, net, n, c, zi, b));
            }
            return ;
        }
        let (count, ax, ay) = self.cluster_at(s, z, cat);
        if count > 0 {
            proof {
                assert(-0x8000_0000 * 0x0800_0000 <= x0 * count <= 0x8000_0000 * 0x0800_0000
                    && -0x8000_0000 * 0x0800_0000 <= x1 * count <= 0x8000_0000 * 0x0800_0000)
                    by (nonlinear_arith)
                    requires
                        -0x8000_0000 <= x0 <= 0x7fff_ffff,
                        -0x8000_0000 <= x1 <= 0x7fff_ffff,
                        0 <= count <= 0x0800_0000,
                ;
                assert(-0x8000_0000 * 0x0800_0000 <= y0 * count <= 0x8000_0000 * 0x0800_0000
                    && -0x8000_0000 * 0x0800_0000 <= y1 * count <= 0x8000_0000 * 0x0800_0000)
                    by (nonlinear_arith)
                    requires
                        -0x8000_0000 <= y0 <= 0x7fff_ffff,
                        -0x8000_0000 <= y1 <= 0x7fff_ffff,
                        0 <= count <= 0x0800_0000,
                ;
            }
            let k = count as i64;
            if (x0 as i64) * k <= ax && ax <= (x1 as i64) * k && (y0 as i64) * k <= ay && ay <= (
            y1 as i64) * k {
                let f = self.feature(s, z, cat, count, ax, ay);
                out.push(f);
                proof {
                    shown@ = shown@.push(si);
                    assert(!was.contains(si)) by {
                        if was.contains(si) {
                            let i = was.index_of(si);
                            assert(net.under(si, was[i]));
                        }
                    }
                }
            }
        }
        let ghost mid = shown@;
        proof {
            assert(net.pictures(out@, mid, n, c, zi));
            assert forall|p: int| #[trigger] mid.contains(p) <==> (was.contains(p) || (p == si
                && net.drawn(n, c, si, zi, b))) by {
                if mid.len() > was.len() {
                    assert(mid == was.push(si));
                    if mid.contains(p) {
                        let i = mid.index_of(p);
                        if i < was.len() {
                            assert(was[i] == p);
                        }
                    }
                    if was.contains(p) {
                        let i = was.index_of(p);
                        assert(mid[i] == p);
                    }
                    assert(mid[was.len() as int] == si);
                }
            }
        }
        let kids = self.arena.children(s);
        let ghost q = self.arena.kids@[si];
        let mut i: usize = kids.len();
        proof {
            let one = seq![si];
            assert(one.drop_last() =~= Seq::<int>::empty());
            assert(drawn_of(one.drop_last(), net, n, c, zi, b) =~= Seq::<int>::empty());
            assert(mid =~= was + drawn_of(one, net, n, c, zi, b));
            assert(shown@ =~= mid + drawn_of(Seq::<int>::empty(), net, n, c, zi, b));
        }
        while i > 0
            invariant
                lists == self.lists(),
                q == (lists.kids)(si),
                shown@ == mid + drawn_of(
                    tour_below(lists.kids, net.pts, si, zi, i as int),
                    net,
                    n,
                    c,
                    zi,
                    b,
                ),
                self.wf(),
                self.live(si),
                si == s,
                c == cat,
                zi == z,
                0 <= self.level(si) <= z <= self.opts().max_zoom,
                self.opts().max_zoom <= 20,
                cat == self.effective(cat as int),
                net == self.net(),
                net.ok(),
                n == self.slots(),
                b == Self::window(x0, y0, x1, y1),
                net.has(si),
                net.pts[si].level == self.level(si),
                q == self.arena.kids@[si],
                kids@.len() == q.len(),
                forall|j: int|
                    0 <= j < kids@.len() ==> #[trigger] kids@[j] == q[j] && kids@[j] < self.arena.n,
                i <= q.len(),
                net.pictures(out@, shown@, n, c, zi),
                forall|j: int| 0 <= j < was.len() ==> !net.under(si, #[trigger] was[j]),
                forall|p: int| #[trigger]
                    shown@.contains(p) <==> (was.contains(p) || (p == si && net.drawn(
                        n,
                        c,
                        si,
                        zi,
                        b,
                    )) || exists|j: int|
                        i <= j < q.len() && self.level(#[trigger] q[j]) <= z && net.under(q[j], p)
                            && net.drawn(n, c, p, zi, b)),
            decreases i,
        {
            i = i - 1;
            let k = kids[i];
            let ghost ki = k as int;
            let ghost before = shown@;
            proof {
                assert(kids@[i as int] == q[i as int]);
                self.lemma_kid(si, i as int);
                self.lemma_net(ki);
                assert(net.sound_point(ki));
            }
            if self.arena.nodes[k as usize].tz <= z {
                proof {
                    assert forall|j: int| 0 <= j < before.len() implies !net.under(
                        ki,
                        #[trigger] before[j],
                    ) by {
                        let p = before[j];
                        assert(before.contains(p));
                        if net.under(ki, p) {
                            crate::laws::lemma_under_trans(net, si, ki, p);
                            if was.contains(p) {
                                let w = was.index_of(p);
                                assert(!net.under(si, was[w]));
                            } else if p == si {
                                lemma_under_level(net, ki, si);
                            } else {
                                let l = choose|l: int|
                                    i + 1 <= l < q.len() && self.level(#[trigger] q[l]) <= z
                                        && net.under(q[l], p) && net.drawn(n, c, p, zi, b);
                                self.lemma_kid(si, l);
                                self.lemma_net(q[l]);
                                lemma_under_one(net, si, ki, q[l], p);
                                assert(self.arena.linked(si, l));
                                assert(self.arena.linked(si, i as int));
                            }
                        }
                    }
                }
                self.visit(k, z, cat, x0, y0, x1, y1, out, shown);
            }
            proof {
                let rest = tour_below(lists.kids, net.pts, si, zi, i + 1);
                let part = if self.level(ki) <= z {
                    tour(lists.kids, net.pts, ki, zi)
                } else {
                    seq![]
                };
                assert(tour_below(lists.kids, net.pts, si, zi, i as int) == rest + part);
                lemma_drawn_add(rest, part, net, n, c, zi, b);
                assert(shown@ =~= mid + drawn_of(rest + part, net, n, c, zi, b));
                assert forall|p: int| #[trigger] shown@.contains(p) <==> (was.contains(p) || (p
                    == si && net.drawn(n, c, si, zi, b)) || exists|j: int|
                    i <= j < q.len() && self.level(#[trigger] q[j]) <= z && net.under(q[j], p)
                        && net.drawn(n, c, p, zi, b)) by {
                    if exists|j: int|
                        i <= j < q.len() && self.level(#[trigger] q[j]) <= z && net.under(q[j], p)
                            && net.drawn(n, c, p, zi, b) {
                        let j = choose|j: int|
                            i <= j < q.len() && self.level(#[trigger] q[j]) <= z && net.under(
                                q[j],
                                p,
                            ) && net.drawn(n, c, p, zi, b);
                        if j > i {
                            assert(before.contains(p));
                        }
                    }
                    if shown@.contains(p) {
                        if before.contains(p) {
                        } else {
                            assert(q[i as int] == ki);
                        }
                    }
                }
            }
        }
        proof {
            let below = tour_below(lists.kids, net.pts, si, zi, 0);
            lemma_drawn_add(seq![si], below, net, n, c, zi, b);
            assert(whole == seq![si] + below);
            assert(shown@ =~= was + drawn_of(whole, net, n, c, zi, b));
            assert forall|p: int| #[trigger] shown@.contains(p) <==> (was.contains(p) || (net.under(
                si,
                p,
            ) && net.drawn(n, c, p, zi, b))) by {
                if net.under(si, p) && net.drawn(n, c, p, zi, b) && p != si {
                    let k = lemma_under_top(net, si, p);
                    self.lemma_net(k);
                    assert(self.arena.hung(k));
                    let j = self.arena.home@[k].1;
                    assert(q[j] == k);
                    lemma_under_level(net, k, p);
                    assert(self.level(q[j]) <= z);
                }
                if exists|j: int|
                    0 <= j < q.len() && self.level(#[trigger] q[j]) <= z && net.under(q[j], p)
                        && net.drawn(n, c, p, zi, b) {
                    let j = choose|j: int|
                        0 <= j < q.len() && self.level(#[trigger] q[j]) <= z && net.under(q[j], p)
                            && net.drawn(n, c, p, zi, b);
                    self.lemma_kid(si, j);
                    crate::laws::lemma_under_trans(net, si, q[j], p);
                }
            }
        }
    }

    /// The centers of level 0 that the search starts from.
    fn roots(&self, x0: i32, y0: i32, x1: i32, y1: i32) -> (out: Vec<Slot>)
        requires
            self.wf(),
            x0 <= x1,
            y0 <= y1,
        ensures
            out@.no_duplicates(),
            forall|i: int|
                0 <= i < out@.len() ==> self.live(#[trigger] out@[i] as int) && self.level(
                    out@[i] as int,
                ) == 0,
            forall|s: int|
                self.live(s) && self.level(s) == 0 && #[trigger] self.net().meets(
                    s,
                    Self::window(x0, y0, x1, y1),
                ) ==> holds(out@, s),
            out@ == roots_of(self.lists(), self.opts(), Self::window(x0, y0, x1, y1)),
    {
        let ghost floor = self.lists().floor;
        let cx0 = self.geo.coarsest_cell(x0);
        let cx1 = self.geo.coarsest_cell(x1);
        let cy0 = self.geo.coarsest_cell(y0);
        let cy1 = self.geo.coarsest_cell(y1);
        let m = self.geo.margin();
        let last = self.geo.coarsest_cell(0x4000_0000);
        let xlo: u64 = if cx0 > m {
            cx0 - m
        } else {
            0
        };
        let ylo: u64 = if cy0 > m {
            cy0 - m
        } else {
            0
        };
        let xhi: u64 = if cx1 + m < last {
            cx1 + m
        } else {
            last
        };
        let yhi: u64 = if cy1 + m < last {
            cy1 + m
        } else {
            last
        };
        let ghost o = self.opts();
        let mut out: Vec<Slot> = Vec::new();
        let mut cx = xlo;
        while cx <= xhi
            invariant
                self.wf(),
                o == self.opts(),
                xhi < CELL_SPAN,
                yhi < CELL_SPAN,
                xlo <= cx,
                floor == self.lists().floor,
                cx <= xhi + 1 || cx == xlo,
                out@ == ground(floor, xlo as int, cx as int, ylo as int, yhi + 1),
                self.rooted(out@),
                forall|i: int|
                    0 <= i < out@.len() ==> o.cell(
                        self.point(#[trigger] out@[i] as int).x,
                        0,
                    ) < cx,
                forall|s: int|
                    #![trigger self.point(s)]
                    self.live(s) && self.level(s) == 0 && xlo <= o.cell(self.point(s).x, 0) < cx
                        && ylo <= o.cell(self.point(s).y, 0) <= yhi ==> holds(out@, s),
            decreases CELL_SPAN - cx,
        {
            let mut cy = ylo;
            let ghost before = out@;
            while cy <= yhi
                invariant
                    self.wf(),
                    o == self.opts(),
                    cx <= xhi,
                    xhi < CELL_SPAN,
                    yhi < CELL_SPAN,
                    ylo <= cy,
                    floor == self.lists().floor,
                    cy <= yhi + 1 || cy == ylo,
                    out@ == before + column(floor, cx as int, ylo as int, cy as int),
                    self.rooted(out@),
                    forall|s: int| holds(before, s) ==> #[trigger] holds(out@, s),
                    forall|i: int|
                        0 <= i < out@.len() ==> o.cell(self.point(#[trigger] out@[i] as int).x, 0)
                            < cx || (o.cell(self.point(out@[i] as int).x, 0) == cx && o.cell(
                            self.point(out@[i] as int).y,
                            0,
                        ) < cy),
                    forall|s: int|
                        #![trigger self.point(s)]
                        self.live(s) && self.level(s) == 0 && o.cell(self.point(s).x, 0) == cx
                            && ylo <= o.cell(self.point(s).y, 0) < cy ==> holds(out@, s),
                decreases CELL_SPAN - cy,
            {
                let ghost mid = out@;
                self.add_roots(cx, cy, &mut out);
                proof {
                    assert(out@ =~= before + column(floor, cx as int, ylo as int, cy + 1));
                    assert forall|s: int| holds(before, s) implies #[trigger] holds(out@, s) by {
                        assert(holds(mid, s));
                    }
                    assert forall|s: int|
                        #![trigger self.point(s)]
                        self.live(s) && self.level(s) == 0 && o.cell(self.point(s).x, 0) == cx
                            && ylo <= o.cell(self.point(s).y, 0) < cy + 1 implies holds(
                        out@,
                        s,
                    ) by {
                        if o.cell(self.point(s).y, 0) < cy {
                            assert(holds(mid, s));
                        }
                    }
                    assert forall|i: int| 0 <= i < out@.len() implies o.cell(
                        self.point(#[trigger] out@[i] as int).x,
                        0,
                    ) < cx || (o.cell(self.point(out@[i] as int).x, 0) == cx && o.cell(
                        self.point(out@[i] as int).y,
                        0,
                    ) < cy + 1) by {
                        if i < mid.len() {
                            assert(out@[i] == mid[i]);
                        }
                    }
                }
                cy = cy + 1;
            }
            proof {
                assert forall|s: int|
                    #![trigger self.point(s)]
                    self.live(s) && self.level(s) == 0 && xlo <= o.cell(self.point(s).x, 0) < cx + 1
                        && ylo <= o.cell(self.point(s).y, 0) <= yhi implies holds(out@, s) by {
                    if o.cell(self.point(s).x, 0) < cx {
                        assert(holds(before, s));
                    }
                }
            }
            cx = cx + 1;
        }
        proof {
            assert forall|s: int|
                self.live(s) && self.level(s) == 0 && #[trigger] self.net().meets(
                    s,
                    Self::window(x0, y0, x1, y1),
                ) implies holds(out@, s) by {
                self.lemma_net(s);
                let p = self.point(s);
                assert(self.good_data(s));
                lemma_cell_range(o, p.x, 0);
                lemma_cell_range(o, p.y, 0);
                lemma_reach_cells(o, p.x, x0 as int, x1 as int);
                lemma_reach_cells(o, p.y, y0 as int, y1 as int);
                lemma_cell_order(o, p.x, PREC_I as int);
                lemma_cell_order(o, p.y, PREC_I as int);
                // cutting the window off at the edge of the world loses no cell of it
                self.lemma_cut(p.x, x0 as int, x1 as int);
                self.lemma_cut(p.y, y0 as int, y1 as int);
            }
        }
        out
    }

    proof fn lemma_cut(&self, x: int, lo: int, hi: int)
        requires
            self.wf(),
            in_world(x),
            lo <= hi,
            self.opts().cell(lo, 0) - self.opts().margin() <= self.opts().cell(x, 0)
                <= self.opts().cell(hi, 0) + self.opts().margin(),
        ensures
            self.opts().cell(cut_off(lo), 0) - self.opts().margin() <= self.opts().cell(x, 0)
                <= self.opts().cell(cut_off(hi), 0) + self.opts().margin(),
    {
        let o = self.opts();
        if lo < 0 {
            lemma_cell_order(o, 0, x);
        } else if lo > PREC_I {
            lemma_cell_order(o, PREC_I as int, lo);
        }
        if hi > PREC_I {
            lemma_cell_order(o, x, PREC_I as int);
        } else if hi < 0 {
            lemma_cell_order(o, hi, 0);
        }
    }

    /// Distinct centers of level 0.
    spec fn rooted(&self, q: Seq<Slot>) -> bool {
        q.no_duplicates() && forall|i: int|
            0 <= i < q.len() ==> self.live(#[trigger] q[i] as int) && self.level(q[i] as int) == 0
    }

    /// Append the centers of level 0 in one cell.
    fn add_roots(&self, cx: u64, cy: u64, out: &mut Vec<Slot>)
        requires
            self.wf(),
            cx < CELL_SPAN,
            cy < CELL_SPAN,
            self.rooted(old(out)@),
            forall|i: int|
                0 <= i < old(out)@.len() ==> !(self.opts().cell(
                    self.point(#[trigger] old(out)@[i] as int).x,
                    0,
                ) == cx && self.opts().cell(self.point(old(out)@[i] as int).y, 0) == cy),
        ensures
            self.rooted(final(out)@),
            final(out)@ == old(out)@ + (self.lists().floor)(cell_key(cx as int, cy as int)),
            old(out)@.len() <= final(out)@.len(),
            forall|i: int| 0 <= i < old(out)@.len() ==> #[trigger] final(out)@[i] == old(out)@[i],
            forall|i: int|
                old(out)@.len() <= i < final(out)@.len() ==> self.opts().cell(
                    self.point(#[trigger] final(out)@[i] as int).x,
                    0,
                ) == cx && self.opts().cell(self.point(final(out)@[i] as int).y, 0) == cy,
            forall|s: int| holds(old(out)@, s) ==> #[trigger] holds(final(out)@, s),
            forall|s: int|
                #![trigger self.point(s)]
                self.live(s) && self.level(s) == 0 && self.opts().cell(self.point(s).x, 0) == cx
                    && self.opts().cell(self.point(s).y, 0) == cy ==> holds(final(out)@, s),
    {
        let ghost o = self.opts();
        let ghost was = out@;
        let k = pack(0, cx, cy);
        let b = self.grid.bucket(k);
        proof {
            if self.grid@.contains_key(k) {
                assert(self.grid@[k].no_duplicates());
            }
            assert forall|i: int| 0 <= i < b@.len() implies self.live(#[trigger] b@[i] as int)
                && self.level(b@[i] as int) == 0 && o.cell(self.point(b@[i] as int).x, 0) == cx
                && o.cell(self.point(b@[i] as int).y, 0) == cy by {
                let s = b@[i];
                assert(self.grid@[k][i] == s);
                assert(bucket_has(self.grid@, k, s));
                assert(self.list_fn()(s as int, 0));
                assert(self.live(s as int));
                self.lemma_net(s as int);
                assert(self.net().sound_point(s as int));
                assert(self.good_data(s as int));
                lemma_grid_key(o, self.point(s as int).x, self.point(s as int).y, 0);
            }
        }
        let mut i: usize = 0;
        while i < b.len()
            invariant
                self.wf(),
                o == self.opts(),
                b@.no_duplicates(),
                forall|i: int|
                    0 <= i < b@.len() ==> self.live(#[trigger] b@[i] as int) && self.level(
                        b@[i] as int,
                    ) == 0 && o.cell(self.point(b@[i] as int).x, 0) == cx && o.cell(
                        self.point(b@[i] as int).y,
                        0,
                    ) == cy,
                self.rooted(was),
                forall|i: int|
                    0 <= i < was.len() ==> !(o.cell(self.point(#[trigger] was[i] as int).x, 0) == cx
                        && o.cell(self.point(was[i] as int).y, 0) == cy),
                i <= b@.len(),
                out@ == was + b@.take(i as int),
            decreases b@.len() - i,
        {
            out.push(b[i]);
            proof {
                assert(b@.take(i + 1) =~= b@.take(i as int).push(b@[i as int]));
            }
            i = i + 1;
        }
        proof {
            assert(b@.take(b@.len() as int) =~= b@);
            assert(out@ =~= was + b@);
            assert forall|i: int, j: int|
                0 <= i < out@.len() && 0 <= j < out@.len() && i != j implies out@[i]
                != out@[j] by {
                if i < was.len() && j >= was.len() {
                    assert(out@[j] == b@[j - was.len()]);
                    assert(out@[i] == was[i]);
                } else if j < was.len() && i >= was.len() {
                    assert(out@[i] == b@[i - was.len()]);
                    assert(out@[j] == was[j]);
                } else if i >= was.len() {
                    assert(out@[i] == b@[i - was.len()]);
                    assert(out@[j] == b@[j - was.len()]);
                }
            }
            assert forall|i: int| 0 <= i < out@.len() implies self.live(#[trigger] out@[i] as int)
                && self.level(out@[i] as int) == 0 by {
                if i < was.len() {
                    assert(out@[i] == was[i]);
                } else {
                    assert(out@[i] == b@[i - was.len()]);
                }
            }
            assert forall|i: int| was.len() <= i < out@.len() implies o.cell(
                self.point(#[trigger] out@[i] as int).x,
                0,
            ) == cx && o.cell(self.point(out@[i] as int).y, 0) == cy by {
                assert(out@[i] == b@[i - was.len()]);
            }
            assert forall|s: int| holds(was, s) implies #[trigger] holds(out@, s) by {
                let i = choose|i: int| 0 <= i < was.len() && #[trigger] was[i] == s;
                assert(out@[i] == s);
            }
            assert forall|s: int|
                #![trigger self.point(s)]
                self.live(s) && self.level(s) == 0 && o.cell(self.point(s).x, 0) == cx && o.cell(
                    self.point(s).y,
                    0,
                ) == cy implies holds(out@, s) by {
                assert(self.good_data(s));
                lemma_grid_key(o, self.point(s).x, self.point(s).y, 0);
                assert(self.list_fn()(s, 0));
                assert(k == self.key_fn()(s, key_level(k)));
                assert(bucket_has(self.grid@, k, s as Slot));
                let j = self.grid@[k].index_of(s as Slot);
                assert(b@[j] == s);
                assert(out@[was.len() + j] == s);
            }
        }
    }

    /// The zoom that a query gets: the one it asks for, cut off at what the index covers.
    pub open spec fn zoom_of(&self, zoom: int) -> int {
        if zoom < self.opts().min_zoom {
            self.opts().min_zoom as int
        } else if zoom > self.opts().max_zoom {
            self.opts().max_zoom as int
        } else {
            zoom
        }
    }

    pub(super) fn clamp_zoom(&self, zoom: i32) -> (z: i8)
        requires
            self.wf(),
        ensures
            z == self.zoom_of(zoom as int),
            0 <= z <= self.opts().max_zoom,
            z <= 20,
    {
        let o = self.geo.opts();
        if zoom < o.min_zoom as i32 {
            o.min_zoom as i8
        } else if zoom > o.max_zoom as i32 {
            o.max_zoom as i8
        } else {
            zoom as i8
        }
    }

    /// `out` shows exactly what is drawn in the box, in the order of the search: column by column
    /// of the coarsest grid, and from each root downwards.
    pub open spec fn sees(&self, out: Seq<Feature>, category: int, zoom: int, b: Window) -> bool {
        let (n, c, z) = (self.slots(), self.effective(category), self.zoom_of(zoom));
        self.net().picture(out, sight(self.lists(), self.net(), n, c, z, b), n, c, z, b)
    }

    /// All clusters visible in a box of world coordinates at a zoom, of one category or (with a
    /// negative one) of all.
    ///
    /// Top-down: the roots are found through the grid of level 0, and a subtree is left out when
    /// the square of two radii, stretched by the slack, around its center misses the box.
    pub fn get_clusters_projected(
        &self,
        x0: i32,
        y0: i32,
        x1: i32,
        y1: i32,
        zoom: i32,
        category: i32,
    ) -> (out: Vec<Feature>)
        requires
            self.wf(),
        ensures
            self.sees(
                out@,
                category as int,
                zoom as int,
                Window::of(x0 as int, y0 as int, x1 as int, y1 as int),
            ),
    {
        let (xa, xb) = if x1 < x0 {
            (x1, x0)
        } else {
            (x0, x1)
        };
        let (ya, yb) = if y1 < y0 {
            (y1, y0)
        } else {
            (y0, y1)
        };
        let z = self.clamp_zoom(zoom);
        let cat = self.effective_category(category);
        let roots = self.roots(xa, ya, xb, yb);
        let ghost q = roots@;
        let ghost net = self.net();
        let ghost n = self.slots();
        let ghost c = cat as int;
        let ghost zi = z as int;
        let ghost b = Self::window(xa, ya, xb, yb);
        let mut out: Vec<Feature> = Vec::new();
        let mut shown: Ghost<Seq<int>> = Ghost(Seq::empty());
        let ghost lists = self.lists();
        proof {
            self.law_invariants();
        }
        let mut i: usize = roots.len();
        while i > 0
            invariant
                lists == self.lists(),
                shown@ == drawn_of(
                    descent(lists.kids, net.pts, q, zi, i as int),
                    net,
                    n,
                    c,
                    zi,
                    b,
                ),
                self.wf(),
                net == self.net(),
                net.ok(),
                n == self.slots(),
                c == cat,
                zi == z,
                0 <= z <= self.opts().max_zoom,
                cat == self.effective(cat as int),
                b == Self::window(xa, ya, xb, yb),
                q == roots@,
                q.no_duplicates(),
                forall|j: int|
                    0 <= j < q.len() ==> self.live(#[trigger] q[j] as int) && self.level(
                        q[j] as int,
                    ) == 0,
                i <= q.len(),
                net.pictures(out@, shown@, n, c, zi),
                forall|p: int| #[trigger]
                    shown@.contains(p) <==> exists|j: int|
                        i <= j < q.len() && net.under(#[trigger] q[j] as int, p) && net.drawn(
                            n,
                            c,
                            p,
                            zi,
                            b,
                        ),
            decreases i,
        {
            i = i - 1;
            let s = roots[i];
            let ghost si = s as int;
            let ghost before = shown@;
            proof {
                assert(self.live(q[i as int] as int));
                self.lemma_net(si);
                assert(net.covering(si) && net.sound_point(si));
                assert forall|k: int| 0 <= k < before.len() implies !net.under(
                    si,
                    #[trigger] before[k],
                ) by {
                    let p = before[k];
                    assert(before.contains(p));
                    let j = choose|j: int|
                        i + 1 <= j < q.len() && net.under(#[trigger] q[j] as int, p) && net.drawn(
                            n,
                            c,
                            p,
                            zi,
                            b,
                        );
                    if net.under(si, p) {
                        assert(self.live(q[j] as int));
                        self.lemma_net(q[j] as int);
                        assert(net.covering(q[j] as int));
                        lemma_one_root(net, si, q[j] as int, p);
                    }
                }
            }
            self.visit(s, z, cat, xa, ya, xb, yb, &mut out, &mut shown);
            proof {
                lemma_drawn_add(
                    descent(lists.kids, net.pts, q, zi, i + 1),
                    tour(lists.kids, net.pts, si, zi),
                    net,
                    n,
                    c,
                    zi,
                    b,
                );
                assert forall|p: int| #[trigger] shown@.contains(p) <==> exists|j: int|
                    i <= j < q.len() && net.under(#[trigger] q[j] as int, p) && net.drawn(
                        n,
                        c,
                        p,
                        zi,
                        b,
                    ) by {
                    if shown@.contains(p) {
                        if before.contains(p) {
                            let j = choose|j: int|
                                i + 1 <= j < q.len() && net.under(#[trigger] q[j] as int, p)
                                    && net.drawn(n, c, p, zi, b);
                            assert(net.under(q[j] as int, p));
                        } else {
                            assert(net.under(q[i as int] as int, p));
                        }
                    }
                    if exists|j: int|
                        i <= j < q.len() && net.under(#[trigger] q[j] as int, p) && net.drawn(
                            n,
                            c,
                            p,
                            zi,
                            b,
                        ) {
                        let j = choose|j: int|
                            i <= j < q.len() && net.under(#[trigger] q[j] as int, p) && net.drawn(
                                n,
                                c,
                                p,
                                zi,
                                b,
                            );
                        if j > i {
                            assert(before.contains(p));
                        }
                    }
                }
            }
        }
        proof {
            assert forall|p: int| #[trigger] shown@.contains(p) <==> net.drawn(n, c, p, zi, b) by {
                if net.drawn(n, c, p, zi, b) {
                    let r = lemma_root_of(net, p);
                    lemma_viewport(net, n, c, p, zi, b, r);
                    self.lemma_net(r);
                    assert(self.live(r) && self.level(r) == 0);
                    assert(net.meets(r, b));
                    assert(holds(q, r));
                    let j = choose|j: int| 0 <= j < q.len() && #[trigger] q[j] == r;
                    assert(net.under(q[j] as int, p));
                }
            }
            assert(net.picture(out@, shown@, n, c, zi, b));
            assert(b == Window::of(x0 as int, y0 as int, x1 as int, y1 as int));
        }
        out
    }
}

} // verus!
