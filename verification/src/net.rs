//! What the index is: a hierarchy of nets over the points, as plain mathematics.
//!
//! A point is a *center* of every level from its own downward. Where a new point goes, who
//! adopts the children of one that leaves, and what a move changes are functions of the net
//! alone; the invariants below hold of every net that they make.
use crate::decimal::{decimal_before, lemma_decimal_total, lemma_decimal_trans};
use crate::geometry::{
    dist2, in_world, lemma_dist2_bound, lemma_near_is_near_with_slack, Options,
};
use vstd::prelude::*;

verus! {

/// A point of the net.
#[verifier::ext_equal]
pub struct Point {
    /// The id it was inserted under.
    pub id: u64,
    pub x: int,
    pub y: int,
    /// The filter cells it belongs to.
    pub cells: Seq<u32>,
    /// The coarsest level at which it is a center; one more than the finest level if at none.
    pub level: int,
    /// The handle of the center that covers it one level up; none at level 0.
    pub parent: Option<int>,
}

/// The points by handle, and the geometry they are arranged by.
#[verifier::ext_equal]
pub struct Net {
    pub opts: Options,
    pub pts: Map<int, Point>,
}

impl Net {
    pub open spec fn has(&self, s: int) -> bool {
        self.pts.contains_key(s)
    }

    /// `s` is the point inserted under `id`.
    pub open spec fn named(&self, s: int, id: u64) -> bool {
        self.has(s) && self.pts[s].id == id
    }

    /// Some point was inserted under `id`.
    pub open spec fn knows(&self, id: u64) -> bool {
        exists|s: int| self.named(s, id)
    }

    pub open spec fn top(&self) -> int {
        self.opts.max_zoom as int
    }

    /// Squared distance from point `s` to a position.
    pub open spec fn far(&self, s: int, x: int, y: int) -> int {
        dist2(self.pts[s].x, self.pts[s].y, x, y)
    }

    /// `s` is a center of level `z`.
    pub open spec fn center(&self, s: int, z: int) -> bool {
        self.has(s) && self.pts[s].level <= z
    }

    /// Center `s` of level `z` covers the position.
    pub open spec fn covers(&self, s: int, z: int, x: int, y: int) -> bool {
        self.center(s, z) && self.opts.near(z, self.far(s, x, y))
    }

    /// Some center of level `z` covers the position.
    pub open spec fn covered(&self, z: int, x: int, y: int) -> bool {
        exists|s: int| self.covers(s, z, x, y)
    }

    /// The finest level from `z` upward whose net covers the position; -1 if none does.
    pub open spec fn finest(&self, z: int, x: int, y: int) -> int
        decreases z + 1,
    {
        if z < 0 {
            -1
        } else if self.covered(z, x, y) {
            z
        } else {
            self.finest(z - 1, x, y)
        }
    }

    /// `s` is nearer to the position than `t`, or as near with the id that comes first.
    pub open spec fn nearer(&self, s: int, t: int, x: int, y: int) -> bool {
        self.far(s, x, y) < self.far(t, x, y) || (self.far(s, x, y) == self.far(t, x, y)
            && decimal_before(self.pts[s].id as int, self.pts[t].id as int))
    }

    /// `s` is the nearest of the centers of level `z` that cover the position.
    pub open spec fn nearest_is(&self, s: int, z: int, x: int, y: int) -> bool {
        self.covers(s, z, x, y) && forall|t: int|
            #[trigger] self.covers(t, z, x, y) && t != s ==> self.nearer(s, t, x, y)
    }

    /// The nearest of the centers of level `z` that cover the position.
    pub open spec fn nearest(&self, z: int, x: int, y: int) -> int {
        choose|s: int| self.nearest_is(s, z, x, y)
    }

    /// The level a point at this position goes to.
    pub open spec fn level_for(&self, x: int, y: int) -> int {
        self.finest(self.top(), x, y) + 1
    }

    /// The parent of a point at this position.
    pub open spec fn parent_for(&self, x: int, y: int) -> Option<int> {
        let z = self.finest(self.top(), x, y);
        if z < 0 {
            None
        } else {
            Some(self.nearest(z, x, y))
        }
    }

    /// The net with `p` put where it belongs, under handle `s`.
    pub open spec fn place(&self, s: int, p: Point) -> Net {
        Net {
            pts: self.pts.insert(
                s,
                Point {
                    level: self.level_for(p.x, p.y),
                    parent: self.parent_for(p.x, p.y),
                    ..p
                },
            ),
            ..*self
        }
    }

    /// The net without `s`; what hung from it still names it as its parent.
    pub open spec fn drop_point(&self, s: int) -> Net {
        Net { pts: self.pts.remove(s), ..*self }
    }

    /// `c` hangs from `s`.
    pub open spec fn child(&self, c: int, s: int) -> bool {
        self.has(c) && self.pts[c].parent == Some(s)
    }

    /// `q` holds the children of `s`, coarser levels first, ids in decimal order within one.
    pub open spec fn heirs(&self, s: int, q: Seq<int>) -> bool {
        &&& q.no_duplicates()
        &&& forall|c: int| q.contains(c) <==> #[trigger] self.child(c, s)
        &&& forall|i: int, j: int| 0 <= i < j < q.len() ==> self.earlier(#[trigger] q[i], #[trigger] q[j])
    }

    /// The order in which children are re-homed.
    pub open spec fn earlier(&self, a: int, b: int) -> bool {
        self.pts[a].level < self.pts[b].level || (self.pts[a].level == self.pts[b].level
            && decimal_before(self.pts[a].id as int, self.pts[b].id as int))
    }

    /// Each of `q` in turn taken out and put where it belongs.
    pub open spec fn rehome(&self, q: Seq<int>) -> Net
        decreases q.len(),
    {
        if q.len() == 0 {
            *self
        } else {
            let before = self.rehome(q.drop_last());
            let c = q.last();
            before.drop_point(c).place(c, before.pts[c])
        }
    }

    /// How many of `q` end up at a coarser level than before.
    pub open spec fn promoted(&self, q: Seq<int>) -> int
        decreases q.len(),
    {
        if q.len() == 0 {
            0
        } else {
            let c = q.last();
            self.promoted(q.drop_last()) + (if self.rehome(q).pts[c].level < self.rehome(
                q.drop_last(),
            ).pts[c].level {
                1int
            } else {
                0
            })
        }
    }

    /// The net after `s` has left and its children have found new parents.
    pub open spec fn unlinked(&self, s: int) -> Net {
        self.drop_point(s).rehome(self.heirs_of(s))
    }

    pub open spec fn heirs_of(&self, s: int) -> Seq<int> {
        choose|q: Seq<int>| self.heirs(s, q)
    }

    /// Point `s` may go to the position without any other point changing its place: no center
    /// of its levels comes within their radius, its parent still covers it, and it still covers
    /// its children, with slack.
    pub open spec fn may_slide(&self, s: int, x: int, y: int) -> bool {
        &&& forall|z: int|
            self.pts[s].level <= z <= self.top() ==> !#[trigger] self.drop_point(s).covered(z, x, y)
        &&& match self.pts[s].parent {
            Some(p) => self.opts.near_with_slack(self.pts[s].level - 1, self.far(p, x, y)),
            None => true,
        }
        &&& forall|c: int| #[trigger]
            self.child(c, s) ==> self.opts.near_with_slack(
                self.pts[c].level - 1,
                self.far(c, x, y),
            )
    }

    /// The net with point `s` at another position, everything else in place.
    pub open spec fn slid(&self, s: int, x: int, y: int) -> Net {
        Net { pts: self.pts.insert(s, Point { x, y, ..self.pts[s] }), ..*self }
    }

    /// The net with other filter cells for point `s`.
    pub open spec fn refiled(&self, s: int, cells: Seq<u32>) -> Net {
        Net { pts: self.pts.insert(s, Point { cells, ..self.pts[s] }), ..*self }
    }

    /// The net after point `s` has moved.
    pub open spec fn moved(&self, s: int, x: int, y: int) -> Net {
        if self.pts[s].x == x && self.pts[s].y == y {
            *self
        } else if self.may_slide(s, x, y) {
            self.slid(s, x, y)
        } else {
            self.unlinked(s).place(s, Point { x, y, ..self.pts[s] })
        }
    }

    /// Levels lie in their range, positions in the world.
    pub open spec fn sound_point(&self, s: int) -> bool {
        let p = self.pts[s];
        &&& 0 <= p.level <= self.top() + 1
        &&& in_world(p.x)
        &&& in_world(p.y)
    }

    /// **Covering**: a point of level `z + 1` lies within the stretched radius of level `z`
    /// around its parent, which is a center of level `z`; roots are centers of level 0.
    pub open spec fn covering(&self, s: int) -> bool {
        let p = self.pts[s];
        match p.parent {
            None => p.level == 0,
            Some(q) => {
                &&& p.level > 0
                &&& self.center(q, p.level - 1)
                &&& self.opts.near_with_slack(p.level - 1, self.far(q, p.x, p.y))
            },
        }
    }

    /// **Separation**: two centers of a level are more than its radius apart.
    pub open spec fn separated(&self, s: int, t: int) -> bool {
        forall|z: int|
            0 <= z <= self.top() && self.center(s, z) && self.center(t, z)
                ==> !#[trigger] self.opts.near(z, self.far(s, self.pts[t].x, self.pts[t].y))
    }

    /// Ids are distinct.
    pub open spec fn ids_differ(&self) -> bool {
        forall|s: int, t: int|
            #![trigger self.pts[s].id, self.pts[t].id]
            self.has(s) && self.has(t) && self.pts[s].id == self.pts[t].id ==> s == t
    }

    /// The invariants of the net, but that children of `gone` may still name it.
    pub open spec fn ok_but(&self, gone: int) -> bool {
        &&& self.opts.valid()
        &&& self.ids_differ()
        &&& forall|s: int| #[trigger] self.has(s) ==> self.sound_point(s)
        &&& forall|s: int| #[trigger]
            self.has(s) ==> self.covering(s) || (self.pts[s].parent == Some(gone) && !self.has(
                gone,
            ) && self.pts[s].level > 0)
        &&& forall|s: int, t: int|
            #![trigger self.has(s), self.has(t)]
            self.has(s) && self.has(t) && s != t ==> self.separated(s, t)
    }

    /// The invariants of the net. **Nesting** is in the representation: a center of a level is a
    /// center of every finer one.
    pub open spec fn ok(&self) -> bool {
        &&& self.opts.valid()
        &&& self.ids_differ()
        &&& forall|s: int| #[trigger] self.has(s) ==> self.sound_point(s) && self.covering(s)
        &&& forall|s: int, t: int|
            #![trigger self.has(s), self.has(t)]
            self.has(s) && self.has(t) && s != t ==> self.separated(s, t)
    }
}

/// A finer net holds every center of a coarser one.
pub proof fn law_nesting(net: Net, s: int, z: int)
    requires
        net.center(s, z),
    ensures
        net.center(s, z + 1),
{
}

/// What [`Net::finest`] finds: the finest covered level, everything finer uncovered.
pub proof fn lemma_finest(net: Net, z: int, x: int, y: int)
    requires
        z >= -1,
    ensures
        -1 <= net.finest(z, x, y) <= z,
        net.finest(z, x, y) >= 0 ==> net.covered(net.finest(z, x, y), x, y),
        forall|v: int| net.finest(z, x, y) < v <= z ==> !#[trigger] net.covered(v, x, y),
    decreases z + 1,
{
    if z >= 0 && !net.covered(z, x, y) {
        lemma_finest(net, z - 1, x, y);
    }
}

/// The sweep may start above levels that cover nothing.
pub proof fn lemma_finest_from(net: Net, z: int, from: int, x: int, y: int)
    requires
        -1 <= from <= z,
        forall|v: int| from < v <= z ==> !#[trigger] net.covered(v, x, y),
    ensures
        net.finest(z, x, y) == net.finest(from, x, y),
    decreases z - from,
{
    if from < z {
        assert(!net.covered(z, x, y));
        lemma_finest_from(net, z - 1, from, x, y);
    }
}

/// At most one center is the nearest.
pub proof fn lemma_nearest_unique(net: Net, z: int, x: int, y: int, s: int)
    requires
        net.nearest_is(s, z, x, y),
    ensures
        net.nearest(z, x, y) == s,
{
    let t = net.nearest(z, x, y);
    assert(net.nearest_is(t, z, x, y));
    if s != t {
        assert(net.covers(s, z, x, y) && net.covers(t, z, x, y));
        assert(net.nearer(s, t, x, y) && net.nearer(t, s, x, y));
        lemma_decimal_total(net.pts[s].id as int, net.pts[t].id as int);
    }
}

/// The children of a point have one order only.
pub proof fn lemma_heirs_unique(net: Net, s: int, q: Seq<int>)
    requires
        net.heirs(s, q),
    ensures
        net.heirs_of(s) == q,
{
    let r = net.heirs_of(s);
    assert(net.heirs(s, r));
    assert forall|c: int| q.contains(c) <==> r.contains(c) by {
        assert(q.contains(c) <==> net.child(c, s));
        assert(r.contains(c) <==> net.child(c, s));
    }
    lemma_sorted_unique(net, q, r);
}

pub proof fn lemma_earlier_order(net: Net, a: int, b: int, c: int)
    ensures
        !(net.earlier(a, b) && net.earlier(b, a)),
        net.earlier(a, b) && net.earlier(b, c) ==> net.earlier(a, c),
{
    lemma_decimal_total(net.pts[a].id as int, net.pts[b].id as int);
    if net.earlier(a, b) && net.earlier(b, c) && net.pts[a].level == net.pts[c].level {
        lemma_decimal_trans(net.pts[a].id as int, net.pts[b].id as int, net.pts[c].id as int);
    }
}

proof fn lemma_sorted_unique(net: Net, q: Seq<int>, r: Seq<int>)
    requires
        q.no_duplicates(),
        r.no_duplicates(),
        forall|c: int| q.contains(c) <==> r.contains(c),
        forall|i: int, j: int| 0 <= i < j < q.len() ==> net.earlier(#[trigger] q[i], #[trigger] q[j]),
        forall|i: int, j: int| 0 <= i < j < r.len() ==> net.earlier(#[trigger] r[i], #[trigger] r[j]),
    ensures
        q == r,
    decreases q.len(),
{
    if q.len() == 0 {
        if r.len() > 0 {
            assert(r.contains(r[0]));
            assert(q.contains(r[0]));
        }
        assert(q =~= r);
    } else {
        assert(q.contains(q[0]));
        assert(r.contains(q[0]));
        let k = r.index_of(q[0]);
        assert(r[k] == q[0]);
        assert(r.contains(r[0]));
        let l = q.index_of(r[0]);
        assert(q[l] == r[0]);
        if k > 0 && l > 0 {
            assert(net.earlier(r[0], r[k]));
            assert(net.earlier(q[0], q[l]));
            lemma_earlier_order(net, q[0], r[0], r[0]);
        }
        assert(q[0] == r[0]) by {
            if k == 0 {
            } else if l == 0 {
            }
        }
        let q1 = q.skip(1);
        let r1 = r.skip(1);
        assert forall|c: int| q1.contains(c) <==> r1.contains(c) by {
            if q1.contains(c) {
                let i = q1.index_of(c);
                assert(q[i + 1] == c);
                assert(q.contains(c));
                assert(r.contains(c));
                let j = r.index_of(c);
                assert(r[j] == c);
                assert(j != 0);
                assert(r1[j - 1] == c);
            }
            if r1.contains(c) {
                let i = r1.index_of(c);
                assert(r[i + 1] == c);
                assert(r.contains(c));
                assert(q.contains(c));
                let j = q.index_of(c);
                assert(q[j] == c);
                assert(j != 0);
                assert(q1[j - 1] == c);
            }
        }
        assert forall|i: int, j: int| 0 <= i < j < q1.len() implies net.earlier(
            #[trigger] q1[i],
            #[trigger] q1[j],
        ) by {
            assert(net.earlier(q[i + 1], q[j + 1]));
        }
        assert forall|i: int, j: int| 0 <= i < j < r1.len() implies net.earlier(
            #[trigger] r1[i],
            #[trigger] r1[j],
        ) by {
            assert(net.earlier(r[i + 1], r[j + 1]));
        }
        lemma_sorted_unique(net, q1, r1);
        assert(q =~= seq![q[0]] + q1);
        assert(r =~= seq![r[0]] + r1);
    }
}

/// The parts of the invariants that speak of each point, or each two points, by themselves.
pub open spec fn well_spread(net: Net) -> bool {
    &&& net.opts.valid()
    &&& net.ids_differ()
    &&& forall|s: int| #[trigger] net.has(s) ==> net.sound_point(s)
    &&& forall|s: int, t: int|
        #![trigger net.has(s), net.has(t)]
        net.has(s) && net.has(t) && s != t ==> net.separated(s, t)
}

/// Putting a point where it belongs keeps the invariants: separation and covering are repaired
/// locally. What still names `s` as its parent must be covered by it there.
proof fn lemma_place(net: Net, s: int, p: Point, gone: int)
    requires
        well_spread(net),
        net.pts.dom().finite(),
        !net.has(s),
        s != gone,
        in_world(p.x),
        in_world(p.y),
        forall|t: int| #[trigger] net.has(t) ==> net.pts[t].id != p.id,
        forall|t: int| #[trigger]
            net.has(t) ==> net.covering(t) || (net.pts[t].parent == Some(gone) && !net.has(gone)
                && net.pts[t].level > 0) || (net.pts[t].parent == Some(s) && net.pts[t].level
                > net.level_for(p.x, p.y) && net.opts.near_with_slack(
                net.pts[t].level - 1,
                dist2(p.x, p.y, net.pts[t].x, net.pts[t].y),
            )),
    ensures
        net.place(s, p).ok_but(gone),
        net.level_for(p.x, p.y) >= 0,
        match net.parent_for(p.x, p.y) {
            Some(q) => net.has(q),
            None => true,
        },
{
    let m = net.place(s, p);
    let z = net.finest(net.top(), p.x, p.y);
    lemma_finest(net, net.top(), p.x, p.y);
    if z >= 0 {
        lemma_nearest_exists(net, z, p.x, p.y);
    }
    assert forall|t: int| #[trigger] m.has(t) implies m.sound_point(t) by {
        if t != s {
            assert(net.has(t));
        }
    }
    assert forall|t: int| #[trigger] m.has(t) implies m.covering(t) || (m.pts[t].parent == Some(
        gone,
    ) && !m.has(gone) && m.pts[t].level > 0) by {
        if t != s {
            assert(net.has(t));
            if net.covering(t) {
                if let Some(q) = net.pts[t].parent {
                    assert(net.center(q, net.pts[t].level - 1));
                    assert(q != s);
                }
            }
        } else if z >= 0 {
            let q = net.nearest(z, p.x, p.y);
            assert(net.covers(q, z, p.x, p.y));
            lemma_near_is_near_with_slack(net.opts, z, net.far(q, p.x, p.y));
        }
    }
    assert forall|a: int, b: int|
        #![trigger m.has(a), m.has(b)]
        m.has(a) && m.has(b) && a != b implies m.separated(a, b) by {
        if a != s && b != s {
            assert(net.has(a) && net.has(b));
            assert(net.separated(a, b));
            assert forall|v: int|
                0 <= v <= m.top() && m.center(a, v) && m.center(b, v) implies !#[trigger] m.opts.near(
                v,
                m.far(a, m.pts[b].x, m.pts[b].y),
            ) by {
                assert(net.center(a, v) && net.center(b, v));
                assert(!net.opts.near(v, net.far(a, net.pts[b].x, net.pts[b].y)));
            }
        } else {
            let t = if a == s {
                b
            } else {
                a
            };
            assert(net.has(t));
            assert(net.sound_point(t));
            assert forall|v: int|
                0 <= v <= m.top() && m.center(a, v) && m.center(b, v) implies !#[trigger] m.opts.near(
                v,
                m.far(a, m.pts[b].x, m.pts[b].y),
            ) by {
                assert(v > z);
                assert(!net.covered(v, p.x, p.y));
                assert(!net.covers(t, v, p.x, p.y));
                lemma_dist2_bound(net.pts[t].x, net.pts[t].y, p.x, p.y);
            }
        }
    }
    assert forall|a: int, b: int|
        #![trigger m.pts[a].id, m.pts[b].id]
        m.has(a) && m.has(b) && m.pts[a].id == m.pts[b].id implies a == b by {
        if a != s && b != s {
            assert(net.pts[a].id == net.pts[b].id);
            assert(net.has(a) && net.has(b));
        } else if a != s {
            assert(net.has(a));
        } else if b != s {
            assert(net.has(b));
        }
    }
}

/// Of finitely many centers that cover a position one is the nearest.
pub proof fn lemma_nearest_exists(net: Net, z: int, x: int, y: int)
    requires
        net.pts.dom().finite(),
        net.ids_differ(),
        net.covered(z, x, y),
    ensures
        net.nearest_is(net.nearest(z, x, y), z, x, y),
{
    let all = net.pts.dom().filter(|s: int| net.covers(s, z, x, y));
    net.pts.dom().lemma_len_filter(|s: int| net.covers(s, z, x, y));
    let w = choose|s: int| net.covers(s, z, x, y);
    assert(all.contains(w));
    let s = lemma_min_exists(net, all, x, y);
    assert forall|t: int| #[trigger] net.covers(t, z, x, y) && t != s implies net.nearer(
        s,
        t,
        x,
        y,
    ) by {
        assert(all.contains(t));
    }
    assert(net.nearest_is(s, z, x, y));
}

proof fn lemma_nearer_order(net: Net, a: int, b: int, c: int, x: int, y: int)
    requires
        net.ids_differ(),
        net.has(a),
        net.has(b),
    ensures
        a != b ==> net.nearer(a, b, x, y) || net.nearer(b, a, x, y),
        net.nearer(a, b, x, y) && net.nearer(b, c, x, y) ==> net.nearer(a, c, x, y),
{
    lemma_decimal_total(net.pts[a].id as int, net.pts[b].id as int);
    if a != b && net.pts[a].id == net.pts[b].id {
        assert(false);
    }
    if net.nearer(a, b, x, y) && net.nearer(b, c, x, y) && net.far(a, x, y) == net.far(c, x, y) {
        lemma_decimal_trans(net.pts[a].id as int, net.pts[b].id as int, net.pts[c].id as int);
    }
}

proof fn lemma_min_exists(net: Net, all: Set<int>, x: int, y: int) -> (s: int)
    requires
        all.finite(),
        all.len() > 0 || exists|a: int| all.contains(a),
        net.ids_differ(),
        forall|a: int| #[trigger] all.contains(a) ==> net.has(a),
    ensures
        all.contains(s),
        forall|t: int| #[trigger] all.contains(t) && t != s ==> net.nearer(s, t, x, y),
    decreases all.len(),
{
    let a = all.choose();
    assert(all.contains(a)) by {
        if exists|b: int| all.contains(b) {
        } else {
            assert(all =~= Set::<int>::empty());
        }
    }
    let rest = all.remove(a);
    if exists|b: int| rest.contains(b) {
        let m = lemma_min_exists(net, rest, x, y);
        lemma_nearer_order(net, a, m, m, x, y);
        if net.nearer(a, m, x, y) {
            assert forall|t: int| #[trigger] all.contains(t) && t != a implies net.nearer(
                a,
                t,
                x,
                y,
            ) by {
                assert(rest.contains(t));
                if t != m {
                    lemma_nearer_order(net, a, m, t, x, y);
                }
            }
            a
        } else {
            assert forall|t: int| #[trigger] all.contains(t) && t != m implies net.nearer(
                m,
                t,
                x,
                y,
            ) by {
                if t != a {
                    assert(rest.contains(t));
                }
            }
            m
        }
    } else {
        assert forall|t: int| #[trigger] all.contains(t) && t != a implies net.nearer(
            a,
            t,
            x,
            y,
        ) by {
            assert(rest.contains(t));
        }
        a
    }
}

/// The finitely many children of a point can be put into their order.
pub proof fn lemma_heirs_exist(net: Net, s: int)
    requires
        net.pts.dom().finite(),
        net.ids_differ(),
    ensures
        net.heirs(s, net.heirs_of(s)),
{
    let all = net.pts.dom().filter(|c: int| net.child(c, s));
    net.pts.dom().lemma_len_filter(|c: int| net.child(c, s));
    let q = lemma_sort(net, all);
    assert forall|c: int| q.contains(c) <==> #[trigger] net.child(c, s) by {
        assert(q.contains(c) <==> all.contains(c));
    }
    assert(net.heirs(s, q));
}

proof fn lemma_sort(net: Net, all: Set<int>) -> (q: Seq<int>)
    requires
        all.finite(),
        net.ids_differ(),
        forall|a: int| #[trigger] all.contains(a) ==> net.has(a),
    ensures
        q.no_duplicates(),
        forall|c: int| q.contains(c) <==> #[trigger] all.contains(c),
        forall|i: int, j: int| 0 <= i < j < q.len() ==> net.earlier(#[trigger] q[i], #[trigger] q[j]),
    decreases all.len(),
{
    if all.len() == 0 {
        assert(all =~= Set::<int>::empty()) by {
            all.lemma_len0_is_empty();
        }
        Seq::empty()
    } else {
        let a = all.choose();
        assert(all.contains(a));
        let rest = lemma_sort(net, all.remove(a));
        assert forall|c: int| rest.contains(c) implies c != a && net.has(c) by {
            assert(all.remove(a).contains(c));
            assert(all.contains(c));
        }
        let i = lemma_slot_in(net, rest, a);
        let q = rest.insert(i, a);
        assert forall|c: int| q.contains(c) <==> #[trigger] all.contains(c) by {
            if q.contains(c) {
                let j = q.index_of(c);
                assert(q[j] == c);
                if j < i {
                    assert(rest[j] == c);
                    assert(rest.contains(c));
                } else if j > i {
                    assert(rest[j - 1] == c);
                    assert(rest.contains(c));
                }
                if c != a {
                    assert(all.remove(a).contains(c));
                }
            }
            if all.contains(c) {
                if c == a {
                    assert(q[i] == a);
                } else {
                    assert(all.remove(a).contains(c));
                    assert(rest.contains(c));
                    let j = rest.index_of(c);
                    assert(rest[j] == c);
                    if j < i {
                        assert(q[j] == c);
                    } else {
                        assert(q[j + 1] == c);
                    }
                }
            }
        }
        assert forall|j: int, k: int| 0 <= j < k < q.len() implies net.earlier(
            #[trigger] q[j],
            #[trigger] q[k],
        ) by {
            let j0 = if j <= i {
                j
            } else {
                j - 1
            };
            let k0 = if k <= i {
                k
            } else {
                k - 1
            };
            if j != i {
                assert(q[j] == rest[j0]);
            }
            if k != i {
                assert(q[k] == rest[k0]);
            }
        }
        assert(q.no_duplicates()) by {
            assert forall|j: int, k: int|
                0 <= j < q.len() && 0 <= k < q.len() && j != k implies q[j] != q[k] by {
                let (lo, hi) = if j < k {
                    (j, k)
                } else {
                    (k, j)
                };
                assert(net.earlier(q[lo], q[hi]));
                lemma_earlier_order(net, q[lo], q[hi], q[lo]);
            }
        }
        q
    }
}

/// Where `a` goes in a sorted sequence.
proof fn lemma_slot_in(net: Net, q: Seq<int>, a: int) -> (i: int)
    requires
        net.ids_differ(),
        net.has(a),
        forall|c: int| q.contains(c) ==> c != a && #[trigger] net.has(c),
        forall|i: int, j: int| 0 <= i < j < q.len() ==> net.earlier(#[trigger] q[i], #[trigger] q[j]),
    ensures
        0 <= i <= q.len(),
        forall|j: int| 0 <= j < i ==> net.earlier(#[trigger] q[j], a),
        forall|j: int| i <= j < q.len() ==> net.earlier(a, #[trigger] q[j]),
    decreases q.len(),
{
    if q.len() == 0 {
        0
    } else {
        let l = q.last();
        assert(q.contains(l));
        assert(net.has(l) && l != a);
        lemma_decimal_total(net.pts[a].id as int, net.pts[l].id as int);
        if net.pts[a].id == net.pts[l].id {
            assert(false);
        }
        if net.earlier(l, a) {
            assert forall|j: int| 0 <= j < q.len() implies net.earlier(#[trigger] q[j], a) by {
                if j < q.len() - 1 {
                    assert(net.earlier(q[j], q[q.len() - 1]));
                    lemma_earlier_order(net, q[j], l, a);
                }
            }
            q.len() as int
        } else {
            let r = q.drop_last();
            assert forall|c: int| r.contains(c) implies c != a && #[trigger] net.has(c) by {
                let j = r.index_of(c);
                assert(q[j] == c);
                assert(q.contains(c));
            }
            assert forall|i: int, j: int| 0 <= i < j < r.len() implies net.earlier(
                #[trigger] r[i],
                #[trigger] r[j],
            ) by {
                assert(net.earlier(q[i], q[j]));
            }
            let i = lemma_slot_in(net, r, a);
            assert forall|j: int| 0 <= j < i implies net.earlier(#[trigger] q[j], a) by {
                assert(q[j] == r[j]);
            }
            assert forall|j: int| i <= j < q.len() implies net.earlier(a, #[trigger] q[j]) by {
                if j < r.len() {
                    assert(q[j] == r[j]);
                }
            }
            i
        }
    }
}

/// Inserting a point under a fresh handle and a fresh id keeps every invariant.
pub proof fn law_insert_keeps_invariants(net: Net, s: int, p: Point)
    requires
        net.ok(),
        net.pts.dom().finite(),
        !net.has(s),
        in_world(p.x),
        in_world(p.y),
        forall|t: int| #[trigger] net.has(t) ==> net.pts[t].id != p.id,
    ensures
        net.place(s, p).ok(),
{
    let gone = if s == -1 {
        -2int
    } else {
        -1int
    };
    assert forall|t: int| #[trigger] net.has(t) implies net.covering(t) || (net.pts[t].parent
        == Some(gone) && !net.has(gone) && net.pts[t].level > 0) || (net.pts[t].parent == Some(s)
        && net.pts[t].level > net.level_for(p.x, p.y) && net.opts.near_with_slack(
        net.pts[t].level - 1,
        dist2(p.x, p.y, net.pts[t].x, net.pts[t].y),
    )) by {
        assert(net.covering(t));
    }
    lemma_place(net, s, p, gone);
    let m = net.place(s, p);
    assert forall|t: int| #[trigger] m.has(t) implies m.sound_point(t) && m.covering(t) by {
        if t != s {
            assert(net.has(t));
            assert(net.covering(t));
            if let Some(q) = net.pts[t].parent {
                assert(net.has(q));
            }
        } else if let Some(q) = net.parent_for(p.x, p.y) {
            assert(net.has(q));
            if !m.covering(t) {
                assert(q == gone && !m.has(gone));
            }
        }
    }
}

/// What re-homing changes: levels and parents of the re-homed, nothing else.
pub open spec fn rehomed_from(net: Net, m: Net, q: Seq<int>, gone: int) -> bool {
    &&& m.opts == net.opts
    &&& m.pts.dom() == net.pts.dom()
    &&& forall|t: int| #[trigger]
        net.has(t) ==> m.pts[t] == (Point {
            level: m.pts[t].level,
            parent: m.pts[t].parent,
            ..net.pts[t]
        })
    &&& forall|t: int| #[trigger] net.has(t) && !q.contains(t) ==> m.pts[t] == net.pts[t]
    &&& forall|t: int| #[trigger] net.has(t) && q.contains(t) ==> m.pts[t].parent != Some(gone)
}

/// One child finds a new parent: its level can only get coarser, and every invariant holds
/// again.
pub proof fn lemma_rehome_one(net: Net, c: int, gone: int)
    requires
        net.ok_but(gone),
        net.pts.dom().finite(),
        net.has(c),
        !net.has(gone),
    ensures
        ({
            let m = net.drop_point(c).place(c, net.pts[c]);
            &&& m.ok_but(gone)
            &&& m.pts.dom() == net.pts.dom()
            &&& m.pts[c].level <= net.pts[c].level
            &&& m.pts[c].parent != Some(gone)
            &&& m.pts[c] == (Point {
                level: m.pts[c].level,
                parent: m.pts[c].parent,
                ..net.pts[c]
            })
            &&& forall|t: int| net.has(t) && t != c ==> #[trigger] m.pts[t] == net.pts[t]
        }),
        forall|v: int|
            net.pts[c].level <= v <= net.top() ==> !#[trigger] net.drop_point(c).covered(
                v,
                net.pts[c].x,
                net.pts[c].y,
            ),
{
    let d = net.drop_point(c);
    let p = net.pts[c];
    let m = d.place(c, p);
    assert(net.sound_point(c));
    assert forall|v: int| p.level <= v <= net.top() implies !#[trigger] d.covered(v, p.x, p.y) by {
        assert forall|t: int| !d.covers(t, v, p.x, p.y) by {
            if d.has(t) {
                assert(net.has(t) && t != c);
                assert(net.separated(t, c));
                if d.center(t, v) {
                    assert(net.center(t, v) && net.center(c, v));
                    assert(!net.opts.near(v, net.far(t, p.x, p.y)));
                }
            }
        }
    }
    lemma_finest(d, d.top(), p.x, p.y);
    assert(d.finest(d.top(), p.x, p.y) < p.level) by {
        let z = d.finest(d.top(), p.x, p.y);
        if z >= p.level {
            assert(d.covered(z, p.x, p.y));
        }
    }
    assert(well_spread(d)) by {
        assert forall|t: int| #[trigger] d.has(t) implies d.sound_point(t) by {
            assert(net.has(t));
        }
        assert forall|a: int, b: int|
            #![trigger d.has(a), d.has(b)]
            d.has(a) && d.has(b) && a != b implies d.separated(a, b) by {
            assert(net.has(a) && net.has(b));
            assert(net.separated(a, b));
            assert forall|v: int|
                0 <= v <= d.top() && d.center(a, v) && d.center(b, v) implies !#[trigger] d.opts.near(
                v,
                d.far(a, d.pts[b].x, d.pts[b].y),
            ) by {
                assert(net.center(a, v) && net.center(b, v));
                assert(!net.opts.near(v, net.far(a, net.pts[b].x, net.pts[b].y)));
            }
        }
        assert forall|a: int, b: int|
            #![trigger d.pts[a].id, d.pts[b].id]
            d.has(a) && d.has(b) && d.pts[a].id == d.pts[b].id implies a == b by {
            assert(net.pts[a].id == net.pts[b].id);
            assert(net.has(a) && net.has(b));
        }
    }
    assert forall|t: int| #[trigger] d.has(t) implies d.pts[t].id != p.id by {
        assert(net.has(t) && net.has(c));
        assert(net.pts[t].id != net.pts[c].id);
    }
    assert forall|t: int| #[trigger] d.has(t) implies d.covering(t) || (d.pts[t].parent == Some(
        gone,
    ) && !d.has(gone) && d.pts[t].level > 0) || (d.pts[t].parent == Some(c) && d.pts[t].level
        > d.level_for(p.x, p.y) && d.opts.near_with_slack(
        d.pts[t].level - 1,
        dist2(p.x, p.y, d.pts[t].x, d.pts[t].y),
    )) by {
        assert(net.has(t));
        if net.covering(t) {
            if let Some(q) = net.pts[t].parent {
                assert(net.center(q, net.pts[t].level - 1));
            }
        }
    }
    lemma_place(d, c, p, gone);
    assert(m.pts.dom() =~= net.pts.dom());
}

proof fn lemma_rehome(net: Net, q: Seq<int>, gone: int)
    requires
        net.ok_but(gone),
        net.pts.dom().finite(),
        !net.has(gone),
        q.no_duplicates(),
        forall|i: int| 0 <= i < q.len() ==> net.has(#[trigger] q[i]),
    ensures
        net.rehome(q).ok_but(gone),
        rehomed_from(net, net.rehome(q), q, gone),
    decreases q.len(),
{
    if q.len() > 0 {
        let r = q.drop_last();
        let c = q.last();
        assert(q[q.len() - 1] == c);
        assert forall|i: int| 0 <= i < r.len() implies net.has(#[trigger] r[i]) by {
            assert(r[i] == q[i]);
        }
        lemma_rehome(net, r, gone);
        let b = net.rehome(r);
        assert(net.has(c));
        assert(b.pts.dom().contains(c));
        lemma_rehome_one(b, c, gone);
        let m = net.rehome(q);
        assert forall|t: int| #[trigger] net.has(t) implies m.pts[t] == (Point {
            level: m.pts[t].level,
            parent: m.pts[t].parent,
            ..net.pts[t]
        }) && (!q.contains(t) ==> m.pts[t] == net.pts[t]) && (q.contains(t) ==> m.pts[t].parent
            != Some(gone)) by {
            assert(b.pts.dom().contains(t));
            assert(b.has(t));
            assert(q.contains(t) == (r.contains(t) || t == c)) by {
                if q.contains(t) {
                    let i = q.index_of(t);
                    if i < r.len() {
                        assert(r[i] == t);
                    }
                }
                if r.contains(t) {
                    let i = r.index_of(t);
                    assert(q[i] == t);
                }
            }
            if t != c {
                assert(m.pts[t] == b.pts[t]);
            }
        }
    }
}

/// Removing a point, its children finding new parents, keeps every invariant, and every other
/// point stays where it is.
pub proof fn law_remove_keeps_invariants(net: Net, s: int)
    requires
        net.ok(),
        net.pts.dom().finite(),
        net.has(s),
    ensures
        net.unlinked(s).ok(),
        rehomed_from(net.drop_point(s), net.unlinked(s), net.heirs_of(s), s),
{
    let d = net.drop_point(s);
    let q = net.heirs_of(s);
    lemma_heirs_exist(net, s);
    lemma_dropped(net, s);
    assert forall|i: int| 0 <= i < q.len() implies d.has(#[trigger] q[i]) by {
        assert(q.contains(q[i]));
        assert(net.child(q[i], s));
        assert(net.covering(s) && net.covering(q[i]));
        assert(q[i] != s);
    }
    lemma_rehome(d, q, s);
    let m = d.rehome(q);
    assert forall|t: int| #[trigger] m.has(t) implies m.sound_point(t) && m.covering(t) by {
        assert(d.pts.dom().contains(t));
        assert(d.has(t));
        if !m.covering(t) {
            if q.contains(t) {
                assert(m.pts[t].parent != Some(s));
            } else {
                assert(m.pts[t] == d.pts[t]);
                assert(net.child(t, s));
            }
        }
    }
}

/// Dropping a point leaves its children without a parent and nothing else amiss.
pub proof fn lemma_dropped(net: Net, s: int)
    requires
        net.ok(),
        net.has(s),
    ensures
        net.drop_point(s).ok_but(s),
{
    let d = net.drop_point(s);
    assert forall|t: int| #[trigger] d.has(t) implies d.sound_point(t) by {
        assert(net.has(t));
    }
    assert forall|t: int| #[trigger] d.has(t) implies d.covering(t) || (d.pts[t].parent == Some(s)
        && !d.has(s) && d.pts[t].level > 0) by {
        assert(net.has(t));
        assert(net.covering(t));
        if let Some(q) = net.pts[t].parent {
            assert(net.center(q, net.pts[t].level - 1));
        }
    }
    assert forall|a: int, b: int|
        #![trigger d.has(a), d.has(b)]
        d.has(a) && d.has(b) && a != b implies d.separated(a, b) by {
        assert(net.has(a) && net.has(b));
        assert(net.separated(a, b));
        assert forall|v: int|
            0 <= v <= d.top() && d.center(a, v) && d.center(b, v) implies !#[trigger] d.opts.near(
            v,
            d.far(a, d.pts[b].x, d.pts[b].y),
        ) by {
            assert(net.center(a, v) && net.center(b, v));
            assert(!net.opts.near(v, net.far(a, net.pts[b].x, net.pts[b].y)));
        }
    }
    assert forall|a: int, b: int|
        #![trigger d.pts[a].id, d.pts[b].id]
        d.has(a) && d.has(b) && d.pts[a].id == d.pts[b].id implies a == b by {
        assert(net.pts[a].id == net.pts[b].id);
        assert(net.has(a) && net.has(b));
    }
}

/// Moving a point, on either path, keeps every invariant.
pub proof fn law_move_keeps_invariants(net: Net, s: int, x: int, y: int)
    requires
        net.ok(),
        net.pts.dom().finite(),
        net.has(s),
        in_world(x),
        in_world(y),
    ensures
        net.moved(s, x, y).ok(),
{
    if net.pts[s].x == x && net.pts[s].y == y {
    } else if net.may_slide(s, x, y) {
        lemma_slide_ok(net, s, x, y);
    } else {
        law_remove_keeps_invariants(net, s);
        let u = net.unlinked(s);
        let d = net.drop_point(s);
        assert(u.pts.dom() == d.pts.dom());
        assert(!u.has(s));
        let p = Point { x, y, ..net.pts[s] };
        assert forall|t: int| #[trigger] u.has(t) implies u.pts[t].id != p.id by {
            assert(d.pts.dom().contains(t));
            assert(d.has(t));
            assert(net.has(t) && net.has(s));
            assert(net.pts[t].id != net.pts[s].id);
        }
        law_insert_keeps_invariants(u, s, p);
    }
}

proof fn lemma_slide_ok(net: Net, s: int, x: int, y: int)
    requires
        net.ok(),
        net.has(s),
        in_world(x),
        in_world(y),
        net.may_slide(s, x, y),
    ensures
        net.slid(s, x, y).ok(),
{
    let m = net.slid(s, x, y);
    let d = net.drop_point(s);
    assert forall|t: int| #[trigger] m.has(t) implies m.sound_point(t) && m.covering(t) by {
        assert(net.has(t));
        assert(net.sound_point(t) && net.covering(t));
        if let Some(q) = net.pts[t].parent {
            assert(net.has(q));
            if q == s {
                assert(net.child(t, s));
                lemma_dist2_bound(net.pts[t].x, net.pts[t].y, x, y);
            }
        }
    }
    assert forall|a: int, b: int|
        #![trigger m.has(a), m.has(b)]
        m.has(a) && m.has(b) && a != b implies m.separated(a, b) by {
        assert(net.has(a) && net.has(b));
        assert(net.separated(a, b));
        assert forall|v: int|
            0 <= v <= m.top() && m.center(a, v) && m.center(b, v) implies !#[trigger] m.opts.near(
            v,
            m.far(a, m.pts[b].x, m.pts[b].y),
        ) by {
            assert(net.center(a, v) && net.center(b, v));
            assert(!net.opts.near(v, net.far(a, net.pts[b].x, net.pts[b].y)));
            if a == s || b == s {
                let t = if a == s {
                    b
                } else {
                    a
                };
                assert(net.sound_point(t));
                assert(!d.covered(v, x, y));
                assert(!d.covers(t, v, x, y));
                lemma_dist2_bound(net.pts[t].x, net.pts[t].y, x, y);
            }
        }
    }
    assert forall|a: int, b: int|
        #![trigger m.pts[a].id, m.pts[b].id]
        m.has(a) && m.has(b) && m.pts[a].id == m.pts[b].id implies a == b by {
        assert(net.pts[a].id == net.pts[b].id);
        assert(net.has(a) && net.has(b));
    }
}

/// Re-filing a point under other cells keeps every invariant.
pub proof fn law_refile_keeps_invariants(net: Net, s: int, cells: Seq<u32>)
    requires
        net.ok(),
        net.has(s),
    ensures
        net.refiled(s, cells).ok(),
{
    let m = net.refiled(s, cells);
    assert forall|t: int| #[trigger] m.has(t) implies m.sound_point(t) && m.covering(t) by {
        assert(net.has(t));
        assert(net.sound_point(t) && net.covering(t));
        if let Some(q) = net.pts[t].parent {
            assert(net.has(q));
        }
    }
    assert forall|a: int, b: int|
        #![trigger m.has(a), m.has(b)]
        m.has(a) && m.has(b) && a != b implies m.separated(a, b) by {
        assert(net.has(a) && net.has(b));
        assert(net.separated(a, b));
        assert forall|v: int|
            0 <= v <= m.top() && m.center(a, v) && m.center(b, v) implies !#[trigger] m.opts.near(
            v,
            m.far(a, m.pts[b].x, m.pts[b].y),
        ) by {
            assert(net.center(a, v) && net.center(b, v));
            assert(!net.opts.near(v, net.far(a, net.pts[b].x, net.pts[b].y)));
        }
    }
    assert forall|a: int, b: int|
        #![trigger m.pts[a].id, m.pts[b].id]
        m.has(a) && m.has(b) && m.pts[a].id == m.pts[b].id implies a == b by {
        assert(net.pts[a].id == net.pts[b].id);
        assert(net.has(a) && net.has(b));
    }
}

} // verus!
