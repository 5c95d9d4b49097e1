//! Following cluster handles and ids.
use super::{NetCluster, Slot};
use crate::clusters::{lemma_rep, lemma_tally, lemma_under_level, lemma_under_top};
use crate::feature::{ClusterIdError, Feature};
use crate::laws::{lemma_sizes, sizes};
use crate::net::Net;
use crate::order::parting;
use crate::sums::{lemma_sum_total_swap, lemma_total_ext, sum_over, total};
use vstd::prelude::*;

verus! {

impl Net {
    /// A handle names a live center slot and a level.
    pub open spec fn live_handle(&self, id: u64) -> bool {
        self.has(id as int / 32) && id as int % 32 <= self.top() + 1
    }

    /// The coarsest level finer than `z` at which the cluster of `s` splits: that of its coarsest
    /// child below, or one more than the finest if it has none.
    pub open spec fn splits_at(&self, s: int, z: int, nz: int) -> bool {
        if exists|c: int| #[trigger] self.child(c, s) && self.pts[c].level > z {
            &&& exists|c: int| #[trigger] self.child(c, s) && self.pts[c].level == nz
            &&& nz > z
            &&& forall|c: int| #[trigger] self.child(c, s) && self.pts[c].level > z ==> nz
                <= self.pts[c].level
        } else {
            nz == self.top() + 1
        }
    }

    /// `f` is point `p`.
    pub open spec fn is_leaf(&self, f: Feature, p: int) -> bool {
        f == (Feature::Point {
            id: self.pts[p].id,
            x: self.pts[p].x as i32,
            y: self.pts[p].y as i32,
        })
    }

    /// `q` starts with `s` and goes on with its children of level `nz`, which is below `z`.
    pub open spec fn fragments(&self, s: int, z: int, nz: int, q: Seq<int>) -> bool {
        &&& q.len() > 0
        &&& q[0] == s
        &&& q.no_duplicates()
        &&& forall|c: int| #[trigger] q.contains(c) <==> (c == s || (self.child(c, s) && z < nz
            && self.pts[c].level == nz))
    }

    /// `out` shows each of `q` as a point of its own.
    pub open spec fn are_leaves(&self, out: Seq<Feature>, q: Seq<int>) -> bool {
        &&& out.len() == q.len()
        &&& forall|i: int| 0 <= i < q.len() ==> self.is_leaf(#[trigger] out[i], q[i])
    }
}

/// **Expansion**: one step down, a cluster falls into the clusters of its center and of the
/// children that are centers there, and no member is lost. Beyond the finest level these are its
/// points, one by one. A cluster of two or more falls into two or more.
pub proof fn law_expansion(net: Net, n: int, c: int, s: int, z: int, nz: int, q: Seq<int>)
    requires
        net.ok(),
        net.within_slots(n),
        net.center(s, z),
        0 <= z,
        net.splits_at(s, z, nz),
        net.fragments(s, z, nz, q),
    ensures
        z <= net.top() ==> nz > z,
        nz <= net.top() ==> q.len() >= 2,
        net.tally(n, 0, -1, s, z) >= 2 ==> q.len() >= 2,
        forall|t: int| nz > net.top() && q.contains(t) ==> #[trigger] net.tally(n, 0, -1, t, nz) == 1,
        sum_over(q, |t: int| net.tally(n, 0, c, t, nz)) == net.tally(n, 0, c, s, z),
{
    lemma_breaks(net, n, c, s, z, nz, q);
    lemma_breaks(net, n, -1, s, z, nz, q);
    if nz <= net.top() {
        let kid = choose|k: int| #[trigger] net.child(k, s) && net.pts[k].level == nz;
        assert(q.contains(kid));
        assert(net.covering(kid));
        assert(kid != s);
        let i = q.index_of(kid);
    } else {
        assert forall|t: int| q.contains(t) implies #[trigger] net.tally(n, 0, -1, t, nz) == 1 by {
            assert(net.sound_point(s));
            lemma_alone(net, n, t, nz);
        }
        if q.len() < 2 {
            assert(q =~= seq![s]);
            assert(q.contains(s));
            crate::sums::lemma_sum_one(s, |t: int| net.tally(n, 0, -1, t, nz));
        }
    }
}

/// Beyond the finest level a point stands alone.
proof fn lemma_alone(net: Net, n: int, t: int, z: int)
    requires
        net.ok(),
        net.within_slots(n),
        net.has(t),
        z > net.top(),
    ensures
        net.tally(n, 0, -1, t, z) == 1,
{
    let f = net.tally_at(0, -1, t, z);
    let one = |p: int|
        if p == t {
            1int
        } else {
            0
        };
    let zero = |p: int| 0int;
    assert forall|p: int| 0 <= p < n implies #[trigger] f(p) == one(p) by {
        if net.has(p) {
            assert(net.sound_point(p));
            assert(net.rep(p, z) == p);
        }
    }
    lemma_total_ext(n, f, one);
    crate::sums::lemma_total_zero(n, zero);
    crate::sums::lemma_total_change(n, zero, one, t);
}

proof fn lemma_breaks(net: Net, n: int, c: int, s: int, z: int, nz: int, q: Seq<int>)
    requires
        net.ok(),
        net.within_slots(n),
        net.center(s, z),
        0 <= z,
        net.splits_at(s, z, nz),
        net.fragments(s, z, nz, q),
    ensures
        z <= net.top() ==> nz > z,
        sum_over(q, |t: int| net.tally(n, 0, c, t, nz)) == net.tally(n, 0, c, s, z),
{
    if !(z < nz) {
        lemma_whole(net, n, c, s, z, nz, q);
    } else {
        lemma_breaks_below(net, n, c, s, z, nz, q);
    }
}

/// A handle from beyond the finest level is a point already.
proof fn lemma_whole(net: Net, n: int, c: int, s: int, z: int, nz: int, q: Seq<int>)
    requires
        net.ok(),
        net.within_slots(n),
        net.center(s, z),
        0 <= z,
        net.splits_at(s, z, nz),
        net.fragments(s, z, nz, q),
        z >= nz,
    ensures
        z > net.top(),
        sum_over(q, |t: int| net.tally(n, 0, c, t, nz)) == net.tally(n, 0, c, s, z),
{
    if q.len() > 1 {
        assert(q.contains(q[1]));
    }
    assert(q =~= seq![s]);
    crate::sums::lemma_sum_one(s, |t: int| net.tally(n, 0, c, t, nz));
    assert forall|p: int| 0 <= p < n implies #[trigger] net.tally_at(0, c, s, nz)(p)
        == net.tally_at(0, c, s, z)(p) by {
        if net.has(p) {
            assert(net.sound_point(p));
            assert(net.rep(p, z) == p && net.rep(p, nz) == p);
        }
    }
    lemma_total_ext(n, net.tally_at(0, c, s, nz), net.tally_at(0, c, s, z));
}

proof fn lemma_breaks_below(net: Net, n: int, c: int, s: int, z: int, nz: int, q: Seq<int>)
    requires
        net.ok(),
        net.within_slots(n),
        net.center(s, z),
        0 <= z < nz,
        net.splits_at(s, z, nz),
        net.fragments(s, z, nz, q),
    ensures
        sum_over(q, |t: int| net.tally(n, 0, c, t, nz)) == net.tally(n, 0, c, s, z),
{
    let g = |t: int, p: int| net.tally_at(0, c, t, nz)(p);
    let rows = |t: int| total(n, |p: int| g(t, p));
    assert forall|i: int| 0 <= i < q.len() implies net.tally(n, 0, c, #[trigger] q[i], nz) == rows(
        q[i],
    ) by {
        lemma_total_ext(n, net.tally_at(0, c, q[i], nz), |p: int| g(q[i], p));
    }
    crate::sums::lemma_sum_ext(q, |t: int| net.tally(n, 0, c, t, nz), rows);
    lemma_sum_total_swap(q, n, g);
    let cols = |p: int| sum_over(q, |t: int| g(t, p));
    assert forall|p: int| 0 <= p < n implies #[trigger] cols(p) == net.tally_at(0, c, s, z)(p) by {
        let h = |t: int| g(t, p);
        if net.has(p) {
            lemma_fragment(net, s, z, nz, p);
            let r = net.rep(p, nz);
            assert forall|i: int| 0 <= i < q.len() && q[i] != r implies h(#[trigger] q[i]) == 0 by {}
            if q.contains(r) {
                let k = q.index_of(r);
                assert forall|i: int| 0 <= i < q.len() && i != k implies h(#[trigger] q[i]) == 0 by {}
                crate::sums::lemma_sum_indicator(q, k, h);
            } else {
                assert forall|i: int| 0 <= i < q.len() implies h(#[trigger] q[i]) == 0 by {
                    assert(q.contains(q[i]));
                }
                crate::sums::lemma_sum_zero(q, h);
            }
            assert(q.contains(r) == (net.rep(p, z) == s));
        } else {
            crate::sums::lemma_sum_zero(q, h);
        }
    }
    lemma_total_ext(n, cols, net.tally_at(0, c, s, z));
}

/// Points count one each.
proof fn lemma_leaf_sizes(net: Net, out: Seq<Feature>, q: Seq<int>, n: int, z: int)
    requires
        net.are_leaves(out, q),
        forall|i: int| 0 <= i < q.len() ==> net.tally(n, 0, -1, #[trigger] q[i], z) == 1,
    ensures
        sizes(out) == sum_over(q, |t: int| net.tally(n, 0, -1, t, z)),
    decreases q.len(),
{
    if q.len() > 0 {
        let (o2, q2) = (out.drop_last(), q.drop_last());
        assert forall|i: int| 0 <= i < q2.len() implies net.is_leaf(#[trigger] o2[i], q2[i]) by {
            assert(o2[i] == out[i]);
        }
        assert forall|i: int| 0 <= i < q2.len() implies net.tally(n, 0, -1, #[trigger] q2[i], z)
            == 1 by {
            assert(q2[i] == q[i]);
        }
        lemma_leaf_sizes(net, o2, q2, n, z);
        assert(net.is_leaf(out[q.len() - 1], q[q.len() - 1]));
    }
}

/// A member of a cluster is a member of one of its fragments, and of nothing else's.
proof fn lemma_fragment(net: Net, s: int, z: int, nz: int, p: int)
    requires
        net.ok(),
        net.has(p),
        net.center(s, z),
        0 <= z < nz,
        net.splits_at(s, z, nz),
    ensures
        (net.rep(p, z) == s) == (net.rep(p, nz) == s || (net.child(net.rep(p, nz), s) && net.pts[net.rep(
            p,
            nz,
        )].level == nz)),
    decreases net.pts[p].level,
{
    assert(net.sound_point(p) && net.covering(p));
    let l = net.pts[p].level;
    if l > nz {
        let q = net.pts[p].parent->0;
        assert(net.has(q));
        assert(net.sound_point(q));
        lemma_fragment(net, s, z, nz, q);
    } else if l > z {
        // p stands for itself at `nz`
        let q = net.pts[p].parent->0;
        assert(net.has(q));
        assert(net.sound_point(q));
        assert(net.rep(p, nz) == p);
        assert(p != s);
        assert(net.rep(p, z) == net.rep(q, z));
        if net.child(p, s) {
            assert(q == s);
            assert(nz <= l);
        }
        if net.rep(q, z) == s && q != s {
            // some child of `s` above `p` would be a center between the two levels
            lemma_rep(net, q, z);
            let k = lemma_under_top(net, s, q);
            lemma_under_level(net, k, q);
            assert(net.covering(k));
            if net.pts[k].level > z {
                assert(nz <= net.pts[k].level);
            } else {
                lemma_rep_stops(net, k, q, z);
            }
        }
    } else {
        assert(net.rep(p, z) == p && net.rep(p, nz) == p);
        if net.child(p, s) && l == nz {
        }
    }
}

/// What hangs below a center of a level is not drawn as anything above that center.
proof fn lemma_rep_stops(net: Net, k: int, p: int, z: int)
    requires
        net.under(k, p),
        net.pts[k].level <= z,
    ensures
        net.pts[k].level <= net.pts[net.rep(p, z)].level,
    decreases net.pts[p].level,
{
    if net.pts[p].level > z {
        lemma_rep_stops(net, k, net.pts[p].parent->0, z);
    } else {
        lemma_under_level(net, k, p);
    }
}

impl NetCluster {
    /// Decode a cluster handle into a slot and a level, rejecting anything stale.
    pub(super) fn decode(&self, cluster_id: u64) -> (r: Result<(Slot, i8), ClusterIdError>)
        requires
            self.wf(),
        ensures
            match r {
                Ok((s, z)) => {
                    &&& self.net().live_handle(cluster_id)
                    &&& self.live(s as int)
                    &&& s == cluster_id as int / 32
                    &&& z == cluster_id as int % 32
                    &&& 0 <= z <= self.opts().max_zoom + 1
                },
                Err(e) => !self.net().live_handle(cluster_id) && e.cluster_id == cluster_id,
            },
    {
        let slot = cluster_id / 32;
        let z = cluster_id % 32;
        proof {
            self.lemma_net(slot as int);
        }
        if slot >= self.arena.n as u64 || z > self.geo.opts().max_zoom as u64 + 1
            || self.arena.nodes[slot as usize].tz < 0 {
            return Err(ClusterIdError { cluster_id });
        }
        Ok((slot as Slot, z as i8))
    }

    /// Zoom at which a cluster first splits.
    fn expansion_zoom(&self, s: Slot, z: i8) -> (nz: i8)
        requires
            self.wf(),
            self.live(s as int),
            0 <= z <= self.opts().max_zoom + 1,
        ensures
            self.net().splits_at(s as int, z as int, nz as int),
            0 <= nz <= self.opts().max_zoom + 1,
            nz <= self.opts().max_zoom ==> self.level(s as int) < nz,
    {
        let ghost si = s as int;
        let ghost net = self.net();
        let kids = self.arena.children(s);
        let ghost q = self.arena.kids@[si];
        let mut i: usize = 0;
        proof {
            self.lemma_net(si);
        }
        while i < kids.len()
            invariant
                self.wf(),
                self.live(si),
                si == s,
                net == self.net(),
                q == self.arena.kids@[si],
                kids@.len() == q.len(),
                forall|j: int|
                    0 <= j < kids@.len() ==> #[trigger] kids@[j] == q[j] && kids@[j] < self.arena.n,
                i <= q.len(),
                forall|j: int| 0 <= j < i ==> self.level(#[trigger] q[j]) <= z,
            decreases q.len() - i,
        {
            let b = kids[i];
            proof {
                assert(kids@[i as int] == q[i as int]);
                self.lemma_kid(si, i as int);
                self.lemma_net(b as int);
            }
            let t = self.arena.nodes[b as usize].tz;
            if t > z {
                proof {
                    assert(net.child(b as int, si) && net.pts[b as int].level > z);
                    assert forall|c: int| #[trigger] net.child(c, si) && net.pts[c].level
                        > z implies t <= net.pts[c].level by {
                        self.lemma_net(c);
                        assert(self.arena.hung(c));
                        let j = self.arena.home@[c].1;
                        assert(q[j] == c);
                        assert(self.arena.sorted(si));
                        if j < i {
                            assert(self.level(q[j]) <= z);
                        } else if i < j {
                            assert(self.arena.nodes[q[i as int]].tz <= self.arena.nodes[q[j]].tz);
                        }
                    }
                }
                return t;
            }
            i = i + 1;
        }
        proof {
            if exists|c: int| #[trigger] net.child(c, si) && net.pts[c].level > z {
                let c = choose|c: int| #[trigger] net.child(c, si) && net.pts[c].level > z;
                self.lemma_net(c);
                assert(self.arena.hung(c));
                let j = self.arena.home@[c].1;
                assert(q[j] == c);
                assert(self.level(q[j]) <= z);
            }
        }
        (self.geo.opts().max_zoom + 1) as i8
    }

    /// Zoom at which a cluster first splits.
    pub fn get_cluster_expansion_zoom(&self, cluster_id: u64) -> (r: Result<i32, ClusterIdError>)
        requires
            self.wf(),
        ensures
            match r {
                Ok(nz) => self.net().live_handle(cluster_id) && self.net().splits_at(
                    cluster_id as int / 32,
                    cluster_id as int % 32,
                    nz as int,
                ),
                Err(e) => !self.net().live_handle(cluster_id) && e.cluster_id == cluster_id,
            },
    {
        match self.decode(cluster_id) {
            Ok((s, z)) => Ok(self.expansion_zoom(s, z) as i32),
            Err(e) => Err(e),
        }
    }

    /// The point of a slot.
    pub(super) fn leaf_feature(&self, s: Slot) -> (f: Feature)
        requires
            self.wf(),
            self.live(s as int),
        ensures
            self.net().is_leaf(f, s as int),
    {
        let v = self.arena.nodes[s as usize];
        proof {
            self.lemma_net(s as int);
        }
        Feature::Point { id: v.ext, x: v.qx, y: v.qy }
    }

    /// Features that show the sub-clusters one expansion step below a cluster, or beyond the
    /// finest level its points: the center first, then the children in their order.
    pub open spec fn breaks_into(&self, cluster_id: u64, out: Seq<Feature>) -> bool {
        let (s, z) = (cluster_id as int / 32, cluster_id as int % 32);
        exists|nz: int, q: Seq<int>|
            {
                &&& #[trigger] self.net().splits_at(s, z, nz)
                &&& #[trigger] self.net().fragments(s, z, nz, q)
                &&& q == seq![s] + parting(
                    (self.lists().kids)(s),
                    self.net().pts,
                    z,
                    nz,
                    (self.lists().kids)(s).len() as int,
                )
                &&& if nz > self.net().top() {
                    self.net().are_leaves(out, q)
                } else {
                    self.net().pictures(out, q, self.slots(), -1, nz)
                }
            }
    }

    /// The sub-clusters one expansion step below a cluster; the points of one that only parts
    /// beyond the finest level.
    pub fn get_children(&self, cluster_id: u64) -> (r: Result<Vec<Feature>, ClusterIdError>)
        requires
            self.wf(),
        ensures
            match r {
                Ok(out) => {
                    let (s, z) = (cluster_id as int / 32, cluster_id as int % 32);
                    &&& self.net().live_handle(cluster_id)
                    &&& self.breaks_into(cluster_id, out@)
                    &&& self.net().center(s, z) ==> sizes(out@) == self.net().tally(
                        self.slots(),
                        0,
                        -1,
                        s,
                        z,
                    )
                    &&& self.net().center(s, z) && self.net().tally(self.slots(), 0, -1, s, z) >= 2
                        ==> out@.len() >= 2
                },
                Err(e) => !self.net().live_handle(cluster_id) && e.cluster_id == cluster_id,
            },
    {
        let (s, z) = match self.decode(cluster_id) {
            Ok((s, z)) => (s, z),
            Err(e) => {
                return Err(e);
            },
        };
        let ghost si = s as int;
        let ghost net = self.net();
        let ghost n = self.slots();
        let nz = self.expansion_zoom(s, z);
        let leaves = nz > self.geo.opts().max_zoom as i8;
        let mut out: Vec<Feature> = Vec::new();
        let ghost mut done: Seq<int> = seq![si];
        proof {
            self.law_invariants();
            self.lemma_net(si);
            assert(net.sound_point(si));
        }
        let f = if leaves {
            self.leaf_feature(s)
        } else {
            self.whole(s, nz)
        };
        out.push(f);
        let kids = self.arena.children(s);
        let ghost q = self.arena.kids@[si];
        proof {
            assert(self.shown(out@, done, leaves, nz as int));
            assert forall|c: int| #[trigger] done.contains(c) <==> (c == si || exists|j: int|
                0 <= j < 0 && #[trigger] q[j] == c && self.level(c) == nz && z < nz) by {
                assert(done[0] == si);
            }
        }
        let mut i: usize = 0;
        while i < kids.len()
            invariant
                self.wf(),
                self.live(si),
                si == s,
                net == self.net(),
                net.ok(),
                n == self.slots(),
                0 <= z,
                nz <= self.opts().max_zoom + 1,
                leaves == (nz > self.opts().max_zoom),
                !leaves ==> z < nz,
                self.opts().max_zoom <= 20,
                net.splits_at(si, z as int, nz as int),
                q == self.arena.kids@[si],
                kids@.len() == q.len(),
                forall|j: int|
                    0 <= j < kids@.len() ==> #[trigger] kids@[j] == q[j] && kids@[j] < self.arena.n,
                i <= q.len(),
                self.shown(out@, done, leaves, nz as int),
                done.len() > 0,
                done[0] == si,
                done.no_duplicates(),
                done == seq![si] + parting(q, net.pts, z as int, nz as int, i as int),
                forall|c: int| #[trigger]
                    done.contains(c) <==> (c == si || exists|j: int|
                        0 <= j < i && #[trigger] q[j] == c && self.level(c) == nz && z < nz),
            decreases q.len() - i,
        {
            let b = kids[i];
            let ghost bi = b as int;
            let ghost before = done;
            proof {
                assert(kids@[i as int] == q[i as int]);
                self.lemma_kid(si, i as int);
                self.lemma_net(bi);
                self.lemma_net(si);
                assert(net.child(bi, si));
            }
            let t = self.arena.nodes[b as usize].tz;
            if t <= nz && t > z {
                proof {
                    assert(t == nz);
                    assert(!done.contains(bi)) by {
                        if done.contains(bi) {
                            if bi != si {
                                let j = choose|j: int|
                                    0 <= j < i && #[trigger] q[j] == bi && self.level(bi) == nz && z
                                        < nz;
                                assert(self.arena.linked(si, j));
                                assert(self.arena.linked(si, i as int));
                            }
                        }
                    }
                }
                let f = if leaves {
                    self.leaf_feature(b)
                } else {
                    self.whole(b, nz)
                };
                out.push(f);
                proof {
                    done = done.push(bi);
                    assert(done.no_duplicates()) by {
                        assert forall|x: int, y: int|
                            0 <= x < done.len() && 0 <= y < done.len() && x != y implies done[x]
                            != done[y] by {
                            if x == before.len() {
                                assert(before.contains(before[y]));
                            } else if y == before.len() {
                                assert(before.contains(before[x]));
                            }
                        }
                    }
                }
            }
            proof {
                assert forall|c: int| #[trigger] done.contains(c) <==> (c == si || exists|j: int|
                    0 <= j < i + 1 && #[trigger] q[j] == c && self.level(c) == nz && z < nz) by {
                    if done.contains(c) {
                        let k = done.index_of(c);
                        if k < before.len() {
                            assert(before[k] == c);
                            assert(before.contains(c));
                            if c != si {
                                let j = choose|j: int|
                                    0 <= j < i && #[trigger] q[j] == c && self.level(c) == nz && z
                                        < nz;
                                assert(q[j] == c);
                            }
                        } else {
                            assert(q[i as int] == c);
                        }
                    }
                    if before.contains(c) {
                        let k = before.index_of(c);
                        assert(done[k] == c);
                    }
                    if exists|j: int|
                        0 <= j < i + 1 && #[trigger] q[j] == c && self.level(c) == nz && z < nz {
                        let j = choose|j: int|
                            0 <= j < i + 1 && #[trigger] q[j] == c && self.level(c) == nz && z < nz;
                        if j < i {
                            assert(before.contains(c));
                        } else {
                            assert(done[before.len() as int] == c);
                        }
                    }
                    if c == si {
                        assert(before.contains(si));
                    }
                }
            }
            proof {
                assert(done =~= seq![si] + parting(q, net.pts, z as int, nz as int, i + 1));
            }
            i = i + 1;
        }
        proof {
            assert(q == (self.lists().kids)(si));
            assert(net.fragments(si, z as int, nz as int, done)) by {
                assert forall|c: int| #[trigger] done.contains(c) <==> (c == si || (net.child(c, si)
                    && z < nz && net.pts[c].level == nz)) by {
                    self.lemma_net(c);
                    if done.contains(c) && c != si {
                        let j = choose|j: int|
                            0 <= j < q.len() && #[trigger] q[j] == c && self.level(c) == nz && z
                                < nz;
                        self.lemma_kid(si, j);
                    }
                    if net.child(c, si) && net.pts[c].level == nz {
                        assert(self.arena.hung(c));
                        let j = self.arena.home@[c].1;
                        assert(q[j] == c);
                    }
                }
            }
            assert(net.splits_at(si, z as int, nz as int));
            if net.center(si, z as int) {
                law_expansion(net, n, -1, si, z as int, nz as int, done);
                assert forall|i: int| 0 <= i < done.len() implies net.has(#[trigger] done[i]) && (
                !leaves ==> 0 <= net.pts[done[i]].level <= nz) by {
                    assert(done.contains(done[i]));
                    assert(net.has(done[i]));
                    assert(net.sound_point(done[i]));
                }
                self.lemma_shown_sizes(out@, done, leaves, nz as int);
            }
        }
        Ok(out)
    }

    /// `out` shows `q` at level `nz`, or as points.
    spec fn shown(&self, out: Seq<Feature>, q: Seq<int>, leaves: bool, nz: int) -> bool {
        if leaves {
            self.net().are_leaves(out, q)
        } else {
            self.net().pictures(out, q, self.slots(), -1, nz)
        }
    }

    proof fn lemma_shown_sizes(&self, out: Seq<Feature>, q: Seq<int>, leaves: bool, nz: int)
        requires
            self.wf(),
            self.shown(out, q, leaves, nz),
            leaves ==> nz > self.net().top(),
            forall|i: int| 0 <= i < q.len() ==> self.net().has(#[trigger] q[i]),
            !leaves ==> forall|i: int|
                0 <= i < q.len() ==> 0 <= self.net().pts[#[trigger] q[i]].level <= nz,
        ensures
            sizes(out) == sum_over(q, |t: int| self.net().tally(self.slots(), 0, -1, t, nz)),
            out.len() == q.len(),
    {
        let net = self.net();
        let n = self.slots();
        self.law_invariants();
        if leaves {
            assert forall|i: int| 0 <= i < q.len() implies net.tally(n, 0, -1, #[trigger] q[i], nz)
                == 1 by {
                lemma_alone(net, n, q[i], nz);
            }
            lemma_leaf_sizes(net, out, q, n, nz);
        } else {
            assert forall|i: int| 0 <= i < q.len() implies 0 < net.tally(
                n,
                0,
                -1,
                #[trigger] q[i],
                nz,
            ) <= u32::MAX by {
                assert(net.sound_point(q[i]));
                lemma_tally(net, n, -1, q[i], nz);
                assert(net.member(q[i], q[i], nz, -1));
                super::mass::lemma_total_bound(n, 1, net.tally_at(0, -1, q[i], nz));
            }
            lemma_sizes(net, out, q, n, -1, nz);
        }
    }

    /// The unfiltered cluster of a center.
    pub(super) fn whole(&self, s: Slot, z: i8) -> (f: Feature)
        requires
            self.wf(),
            self.live(s as int),
            self.level(s as int) <= z <= self.opts().max_zoom,
        ensures
            self.net().shows(f, self.slots(), -1, s as int, z as int),
    {
        proof {
            self.law_invariants();
            self.lemma_net(s as int);
            assert(self.net().sound_point(s as int));
            lemma_tally(self.net(), self.slots(), -1, s as int, z as int);
            assert(self.net().member(s as int, s as int, z as int, -1));
        }
        let (c, ax, ay) = self.cluster_at(s, z, -1);
        self.feature(s, z, -1, c, ax, ay)
    }
}

} // verus!
