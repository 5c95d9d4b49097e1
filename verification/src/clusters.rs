//! What is drawn at a zoom: the clusters of a net, and what holds of them.
use crate::cells::holds;
use crate::feature::Feature;
use crate::geometry::reaches;
use crate::index::weight;
use crate::net::Net;
use crate::sums::{lemma_total_change, lemma_total_ext, lemma_total_nonneg, lemma_total_swap,
    lemma_total_zero, total};
use vstd::prelude::*;

verus! {

/// A box of world coordinates, its sides in order.
pub struct Window {
    pub x0: int,
    pub y0: int,
    pub x1: int,
    pub y1: int,
}

impl Window {
    /// The box between two corners.
    pub open spec fn of(x0: int, y0: int, x1: int, y1: int) -> Window {
        Window {
            x0: if x1 < x0 {
                x1
            } else {
                x0
            },
            x1: if x1 < x0 {
                x0
            } else {
                x1
            },
            y0: if y1 < y0 {
                y1
            } else {
                y0
            },
            y1: if y1 < y0 {
                y0
            } else {
                y1
            },
        }
    }

    /// The centroid of `k` points with these coordinate sums lies in the box.
    pub open spec fn holds_mean(&self, k: int, sx: int, sy: int) -> bool {
        self.x0 * k <= sx <= self.x1 * k && self.y0 * k <= sy <= self.y1 * k
    }

    /// The box holds the whole world.
    pub open spec fn is_world(&self) -> bool {
        self.x0 <= 0 && self.y0 <= 0 && self.x1 >= crate::geometry::PREC_I && self.y1
            >= crate::geometry::PREC_I
    }
}

impl Net {
    /// The center that stands for point `p` at level `z`: itself, or its nearest ancestor that is
    /// a center there.
    pub open spec fn rep(&self, p: int, z: int) -> int
        decreases self.pts[p].level,
    {
        if self.pts[p].level <= z {
            p
        } else {
            match self.pts[p].parent {
                Some(q) => if 0 <= self.pts[q].level < self.pts[p].level {
                    self.rep(q, z)
                } else {
                    p
                },
                None => p,
            }
        }
    }

    /// `p` is `s` or hangs somewhere below it.
    pub open spec fn under(&self, s: int, p: int) -> bool
        decreases self.pts[p].level,
    {
        p == s || match self.pts[p].parent {
            Some(q) => 0 <= self.pts[q].level < self.pts[p].level && self.under(s, q),
            None => false,
        }
    }

    /// Point `p` is in filter cell `c`; a negative cell stands for all points.
    pub open spec fn in_cell(&self, p: int, c: int) -> bool {
        c < 0 || (self.opts.cells_in_force() > 0 && holds(self.pts[p].cells, c))
    }

    /// Point `p` is drawn as center `s` at level `z`, and is in filter cell `c`.
    pub open spec fn member(&self, p: int, s: int, z: int, c: int) -> bool {
        self.has(p) && self.rep(p, z) == s && self.in_cell(p, c)
    }

    /// What the members of a cluster add up to: their number (`a` 0), or the sum of their x (1)
    /// or y coordinates (2). Handles are below `n`.
    pub open spec fn tally(&self, n: int, a: int, c: int, s: int, z: int) -> int {
        total(n, self.tally_at(a, c, s, z))
    }

    pub open spec fn tally_at(&self, a: int, c: int, s: int, z: int) -> spec_fn(int) -> int {
        |p: int|
            if self.has(p) && self.rep(p, z) == s {
                weight(self.opts.cells_in_force(), a, c, self.pts[p])
            } else {
                0
            }
    }

    /// How many points are in filter cell `c`.
    pub open spec fn population(&self, n: int, c: int) -> int {
        total(
            n,
            |p: int|
                if self.has(p) && self.in_cell(p, c) {
                    1
                } else {
                    0
                },
        )
    }

    /// The square of two radii, stretched by the slack, around center `s` meets the box.
    pub open spec fn meets(&self, s: int, b: Window) -> bool {
        let p = self.pts[s];
        reaches(self.opts, p.level, p.x, b.x0, b.x1) && reaches(self.opts, p.level, p.y, b.y0, b.y1)
    }

    /// The cluster of center `s` at level `z`, in filter cell `c`, is drawn in the box: it is not
    /// empty, and its centroid lies in the box.
    pub open spec fn drawn(&self, n: int, c: int, s: int, z: int, b: Window) -> bool {
        &&& self.center(s, z)
        &&& self.tally(n, 0, c, s, z) > 0
        &&& b.holds_mean(
            self.tally(n, 0, c, s, z),
            self.tally(n, 1, c, s, z),
            self.tally(n, 2, c, s, z),
        )
    }

    /// `f` shows the cluster of center `s`: a point if it has one member, else a handle with the
    /// size and the coordinate sums.
    pub open spec fn shows(&self, f: Feature, n: int, c: int, s: int, z: int) -> bool {
        let k = self.tally(n, 0, c, s, z);
        if k == 1 {
            exists|m: int| #[trigger]
                self.member(m, s, z, c) && f == (Feature::Point {
                    id: self.pts[m].id,
                    x: self.pts[m].x as i32,
                    y: self.pts[m].y as i32,
                })
        } else {
            f == (Feature::Cluster {
                cluster_id: (s * 32 + z) as u64,
                count: k as u32,
                sx: self.tally(n, 1, c, s, z) as i64,
                sy: self.tally(n, 2, c, s, z) as i64,
            })
        }
    }

    /// `out` shows the clusters of the centers `q`, in that order.
    pub open spec fn pictures(&self, out: Seq<Feature>, q: Seq<int>, n: int, c: int, z: int) -> bool {
        &&& out.len() == q.len()
        &&& q.no_duplicates()
        &&& forall|i: int| 0 <= i < q.len() ==> self.shows(#[trigger] out[i], n, c, q[i], z)
    }

    /// `out` shows exactly what is drawn in the box.
    pub open spec fn picture(
        &self,
        out: Seq<Feature>,
        q: Seq<int>,
        n: int,
        c: int,
        z: int,
        b: Window,
    ) -> bool {
        &&& self.pictures(out, q, n, c, z)
        &&& forall|s: int| #[trigger] q.contains(s) <==> self.drawn(n, c, s, z, b)
    }

    /// Handles are below `n`.
    pub open spec fn within_slots(&self, n: int) -> bool {
        forall|s: int| #[trigger] self.has(s) ==> 0 <= s < n
    }
}

/// A point is drawn as a center, itself or one of its ancestors.
pub proof fn lemma_rep(net: Net, p: int, z: int)
    requires
        net.ok(),
        net.has(p),
        0 <= z,
    ensures
        net.center(net.rep(p, z), z),
        net.under(net.rep(p, z), p),
    decreases net.pts[p].level,
{
    assert(net.sound_point(p) && net.covering(p));
    if net.pts[p].level > z {
        let q = net.pts[p].parent->0;
        assert(net.has(q));
        assert(net.sound_point(q));
        lemma_rep(net, q, z);
    }
}

/// A cluster is made of its members.
pub proof fn lemma_tally(net: Net, n: int, c: int, s: int, z: int)
    requires
        net.within_slots(n),
        0 <= n,
    ensures
        net.tally(n, 0, c, s, z) >= 0,
        forall|p: int| #[trigger] net.member(p, s, z, c) ==> net.tally(n, 0, c, s, z) >= 1,
        net.tally(n, 0, c, s, z) >= 1 ==> exists|p: int| net.member(p, s, z, c),
{
    let f = net.tally_at(0, c, s, z);
    lemma_total_nonneg(n, f);
    assert forall|p: int| #[trigger] net.member(p, s, z, c) implies net.tally(n, 0, c, s, z)
        >= 1 by {
        assert(net.has(p));
        crate::sums::lemma_total_member(n, f, p);
        assert(f(p) == 1);
    }
    if net.tally(n, 0, c, s, z) >= 1 && !exists|p: int| net.member(p, s, z, c) {
        assert forall|p: int| 0 <= p < n implies #[trigger] f(p) == 0 by {
            assert(!net.member(p, s, z, c));
        }
        lemma_total_zero(n, f);
    }
}

/// A cluster of one has one member, and that is what its sums are.
pub proof fn lemma_single(net: Net, n: int, c: int, s: int, z: int, m: int)
    requires
        net.within_slots(n),
        0 <= n,
        net.tally(n, 0, c, s, z) == 1,
        net.member(m, s, z, c),
    ensures
        net.tally(n, 1, c, s, z) == net.pts[m].x,
        net.tally(n, 2, c, s, z) == net.pts[m].y,
        forall|p: int| #[trigger] net.member(p, s, z, c) ==> p == m,
{
    let f = net.tally_at(0, c, s, z);
    assert(net.has(m));
    assert(f(m) == 1);
    let g = |p: int|
        if p == m {
            0
        } else {
            f(p)
        };
    lemma_total_change(n, f, g, m);
    assert forall|p: int| 0 <= p < n && p != m implies #[trigger] f(p) == 0 by {
        if f(p) != 0 {
            crate::sums::lemma_total_member(n, g, p);
        }
    }
    assert forall|p: int| #[trigger] net.member(p, s, z, c) implies p == m by {
        assert(net.has(p));
        if p != m {
            assert(f(p) == 1);
        }
    }
    assert forall|a: int| 1 <= a <= 2 implies net.tally(n, a, c, s, z) == weight(
        net.opts.cells_in_force(),
        a,
        c,
        net.pts[m],
    ) by {
        let h = net.tally_at(a, c, s, z);
        let o = |p: int|
            if p == m {
                h(p)
            } else {
                0
            };
        assert forall|p: int| 0 <= p < n implies #[trigger] h(p) == o(p) by {
            if p != m {
                assert(f(p) == 0);
            }
        }
        lemma_total_ext(n, h, o);
        let zero = |p: int| 0int;
        lemma_total_zero(n, zero);
        lemma_total_change(n, zero, o, m);
    }
}

/// **Partition**: at every zoom, the clusters of all centers account for every point of a filter
/// cell exactly once.
pub proof fn law_partition(net: Net, n: int, c: int, z: int)
    requires
        net.ok(),
        net.within_slots(n),
        0 <= n,
        0 <= z,
    ensures
        total(
            n,
            |s: int|
                if net.center(s, z) {
                    net.tally(n, 0, c, s, z)
                } else {
                    0
                },
        ) == net.population(n, c),
        forall|p: int| #[trigger] net.has(p) && net.in_cell(p, c) ==> net.member(p, net.rep(p, z), z, c) && net.center(net.rep(p, z), z),
{
    let g = |s: int, p: int| net.tally_at(0, c, s, z)(p);
    let shown = |s: int|
        if net.center(s, z) {
            net.tally(n, 0, c, s, z)
        } else {
            0
        };
    assert forall|p: int| #[trigger] net.has(p) implies net.center(net.rep(p, z), z) by {
        lemma_rep(net, p, z);
    }
    let rows = |s: int| total(n, |p: int| g(s, p));
    assert forall|s: int| 0 <= s < n implies #[trigger] shown(s) == rows(s) by {
        lemma_total_ext(n, net.tally_at(0, c, s, z), |p: int| g(s, p));
        if !net.center(s, z) {
            assert forall|p: int| 0 <= p < n implies #[trigger] net.tally_at(0, c, s, z)(p)
                == 0 by {
                if net.has(p) {
                    assert(net.center(net.rep(p, z), z));
                }
            }
            lemma_total_zero(n, net.tally_at(0, c, s, z));
        }
    }
    lemma_total_ext(n, shown, rows);
    lemma_total_swap(n, n, g);
    let cols = |p: int| total(n, |s: int| g(s, p));
    let ones = |p: int|
        if net.has(p) && net.in_cell(p, c) {
            1int
        } else {
            0
        };
    assert forall|p: int| 0 <= p < n implies #[trigger] cols(p) == ones(p) by {
        let h = |s: int| g(s, p);
        if net.has(p) {
            let r = net.rep(p, z);
            assert(net.center(r, z));
            assert(net.has(r));
            let zero = |s: int| 0int;
            lemma_total_zero(n, zero);
            lemma_total_change(n, zero, h, r);
        } else {
            lemma_total_zero(n, h);
        }
    }
    lemma_total_ext(n, cols, ones);
}

/// All that hangs from a point that is no center of a level is drawn as what it is drawn as.
pub proof fn lemma_rep_below(net: Net, b: int, p: int, z: int)
    requires
        net.under(b, p),
        net.pts[b].level > z,
    ensures
        net.rep(p, z) == net.rep(b, z),
        net.pts[p].level >= net.pts[b].level,
    decreases net.pts[p].level,
{
    if p != b {
        let q = net.pts[p].parent->0;
        lemma_rep_below(net, b, q, z);
    }
}

/// What hangs from a point is at finer levels.
pub proof fn lemma_under_level(net: Net, s: int, p: int)
    requires
        net.under(s, p),
    ensures
        net.pts[s].level <= net.pts[p].level,
        s != p ==> net.pts[s].level < net.pts[p].level,
    decreases net.pts[p].level,
{
    if s != p {
        lemma_under_level(net, s, net.pts[p].parent->0);
    }
}

/// What hangs below a point hangs below one of its children.
pub proof fn lemma_under_top(net: Net, s: int, p: int) -> (k: int)
    requires
        net.ok(),
        net.has(p),
        net.under(s, p),
        s != p,
    ensures
        net.child(k, s),
        net.under(k, p),
    decreases net.pts[p].level,
{
    assert(net.covering(p));
    let q = net.pts[p].parent->0;
    assert(net.has(q));
    if q == s {
        assert(net.under(p, p));
        p
    } else {
        let k = lemma_under_top(net, s, q);
        k
    }
}

/// What hangs below a child does not hang below its siblings.
pub proof fn lemma_under_one(net: Net, s: int, k: int, l: int, p: int)
    requires
        net.child(k, s),
        net.child(l, s),
        net.pts[s].level < net.pts[l].level,
        net.pts[s].level < net.pts[k].level,
        net.under(k, p),
        net.under(l, p),
    ensures
        k == l,
    decreases net.pts[p].level,
{
    if k != l {
        if p == k {
            assert(net.under(l, s));
            lemma_under_level(net, l, s);
        } else if p == l {
            assert(net.under(k, s));
            lemma_under_level(net, k, s);
        } else {
            lemma_under_one(net, s, k, l, net.pts[p].parent->0);
        }
    }
}

/// Everything hangs below some center of level 0.
pub proof fn lemma_root_of(net: Net, p: int) -> (r: int)
    requires
        net.ok(),
        net.has(p),
    ensures
        net.has(r),
        net.under(r, p),
        net.pts[r].parent is None,
        net.pts[r].level == 0,
    decreases net.pts[p].level,
{
    assert(net.covering(p) && net.sound_point(p));
    match net.pts[p].parent {
        None => {
            assert(net.under(p, p));
            p
        },
        Some(q) => {
            assert(net.has(q));
            assert(net.sound_point(q));
            let r = lemma_root_of(net, q);
            r
        },
    }
}

/// Nothing hangs below two of them.
pub proof fn lemma_one_root(net: Net, a: int, b: int, p: int)
    requires
        net.under(a, p),
        net.under(b, p),
        net.pts[a].parent is None,
        net.pts[b].parent is None,
    ensures
        a == b,
    decreases net.pts[p].level,
{
    if a != p && b != p {
        lemma_one_root(net, a, b, net.pts[p].parent->0);
    }
}

} // verus!
