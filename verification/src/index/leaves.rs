//! The points inside a cluster, one by one.
use super::{NetCluster, Slot};
use crate::clusters::{lemma_under_level, lemma_under_one};
use crate::feature::{ClusterIdError, Feature};
use crate::net::Net;
use crate::order::{leaf_tour, leaf_tour_of};
use vstd::prelude::*;

verus! {

impl Net {
    /// `p` is `s`, or hangs below it with nothing between them that is a center of level `z`.
    pub open spec fn inside(&self, s: int, z: int, p: int) -> bool
        decreases self.pts[p].level,
    {
        p == s || (self.pts[p].level > z && match self.pts[p].parent {
            Some(q) => 0 <= self.pts[q].level < self.pts[p].level && self.inside(s, z, q),
            None => false,
        })
    }
}

/// Inside the cluster of a center is exactly what is drawn as it; inside the handle of a point
/// that is no center of its level, all that hangs from it.
pub proof fn law_inside(net: Net, s: int, z: int, p: int)
    requires
        net.ok(),
        net.has(s),
        net.has(p),
    ensures
        net.pts[s].level <= z ==> net.inside(s, z, p) == (net.rep(p, z) == s),
        net.pts[s].level > z ==> net.inside(s, z, p) == net.under(s, p),
    decreases net.pts[p].level,
{
    assert(net.covering(p) && net.sound_point(p) && net.sound_point(s));
    if p != s {
        if let Some(q) = net.pts[p].parent {
            assert(net.has(q));
            assert(net.sound_point(q));
            law_inside(net, s, z, q);
            if net.pts[s].level > z && net.under(s, p) {
                lemma_under_level(net, s, p);
            }
        }
    }
}

/// What is inside is below.
proof fn lemma_inside_under(net: Net, s: int, z: int, p: int)
    requires
        net.inside(s, z, p),
    ensures
        net.under(s, p),
    decreases net.pts[p].level,
{
    if p != s {
        lemma_inside_under(net, s, z, net.pts[p].parent->0);
    }
}

/// What is inside a point is inside one of its children that is no center.
proof fn lemma_inside_top(net: Net, s: int, z: int, p: int) -> (k: int)
    requires
        net.ok(),
        net.has(p),
        net.inside(s, z, p),
        p != s,
    ensures
        net.child(k, s),
        net.pts[k].level > z,
        net.inside(k, z, p),
    decreases net.pts[p].level,
{
    assert(net.covering(p));
    let q = net.pts[p].parent->0;
    assert(net.has(q));
    if q == s {
        assert(net.inside(p, z, p));
        p
    } else {
        let k = lemma_inside_top(net, s, z, q);
        k
    }
}

proof fn lemma_inside_step(net: Net, s: int, k: int, z: int, p: int)
    requires
        net.child(k, s),
        net.pts[k].level > z,
        0 <= net.pts[s].level < net.pts[k].level,
        net.inside(k, z, p),
    ensures
        net.inside(s, z, p),
    decreases net.pts[p].level,
{
    assert(net.inside(s, z, s));
    if p != k {
        lemma_inside_step(net, s, k, z, net.pts[p].parent->0);
    }
}

impl NetCluster {
    /// The points inside the cluster of `s` at level `z`, in the order in which they are listed.
    pub open spec fn leaf_order(&self, s: int, z: int) -> Seq<int> {
        leaf_tour(self.lists().kids, self.net().pts, s, z)
    }

    proof fn lemma_leaf_tour(&self, s: int, z: int)
        requires
            self.wf(),
            self.live(s),
        ensures
            self.leaf_order(s, z) == self.leaf_list(s, z),
        decreases 22 - self.level(s), self.arena.kids@[s].len() + 1,
    {
        assert((self.lists().kids)(s) == self.arena.kids@[s]);
        self.lemma_leaf_tour_of(s, z, self.arena.kids@[s].len());
    }

    proof fn lemma_leaf_tour_of(&self, s: int, z: int, i: nat)
        requires
            self.wf(),
            self.live(s),
            i <= self.arena.kids@[s].len(),
        ensures
            leaf_tour_of(self.lists().kids, self.net().pts, s, z, i as int) == self.leaves_of(s, z, i),
        decreases 22 - self.level(s), i,
    {
        assert((self.lists().kids)(s) == self.arena.kids@[s]);
        if i > 0 {
            let k = self.arena.kids@[s][i - 1];
            self.lemma_kid(s, i - 1);
            self.lemma_net(s);
            self.lemma_net(k);
            self.lemma_leaf_tour_of(s, z, (i - 1) as nat);
            if self.level(k) > z && self.level(s) < self.level(k) <= 21 {
                self.lemma_leaf_tour(k, z);
            }
        }
    }

    spec fn leaf_list(&self, s: int, z: int) -> Seq<int>
        decreases 22 - self.level(s), self.arena.kids@[s].len() + 1,
    {
        seq![s] + self.leaves_of(s, z, self.arena.kids@[s].len())
    }

    /// Those that come with the first `i` children.
    spec fn leaves_of(&self, s: int, z: int, i: nat) -> Seq<int>
        decreases 22 - self.level(s), i,
    {
        if i == 0 {
            Seq::empty()
        } else {
            let k = self.arena.kids@[s][i - 1];
            self.leaves_of(s, z, (i - 1) as nat) + (if self.level(k) > z && self.level(s)
                < self.level(k) <= 21 {
                self.leaf_list(k, z)
            } else {
                Seq::empty()
            })
        }
    }

    /// **Leaves**: the points inside a cluster are listed exactly once each, the center first.
    pub proof fn law_leaves(&self, s: int, z: int)
        requires
            self.wf(),
            self.net().has(s),
        ensures
            self.leaf_order(s, z).no_duplicates(),
            self.leaf_order(s, z).len() > 0,
            self.leaf_order(s, z)[0] == s,
            forall|p: int| #[trigger]
                self.leaf_order(s, z).contains(p) <==> self.net().has(p) && self.net().inside(s, z, p),
    {
        self.lemma_net(s);
        self.lemma_leaf_tour(s, z);
        self.lemma_leaves(s, z);
    }

    proof fn lemma_leaves(&self, s: int, z: int)
        requires
            self.wf(),
            self.net().has(s),
        ensures
            self.leaf_list(s, z).no_duplicates(),
            self.leaf_list(s, z).len() > 0,
            self.leaf_list(s, z)[0] == s,
            forall|p: int| #[trigger]
                self.leaf_list(s, z).contains(p) <==> self.net().has(p) && self.net().inside(s, z, p),
        decreases 22 - self.level(s), self.arena.kids@[s].len() + 1,
    {
        self.law_invariants();
        let net = self.net();
        self.lemma_net(s);
        let q = self.arena.kids@[s];
        assert(net.sound_point(s));
        self.lemma_leaves_of(s, z, q.len());
        let rest = self.leaves_of(s, z, q.len());
        let all = self.leaf_list(s, z);
        assert(all =~= seq![s] + rest);
        assert(net.inside(s, z, s));
        assert forall|p: int| #[trigger] all.contains(p) <==> net.has(p) && net.inside(s, z, p) by {
            if all.contains(p) {
                let i = all.index_of(p);
                if i > 0 {
                    assert(rest[i - 1] == p);
                    assert(rest.contains(p));
                    let j = choose|j: int|
                        0 <= j < q.len() && self.level(#[trigger] q[j]) > z && net.has(p)
                            && net.inside(q[j], z, p);
                    self.lemma_kid(s, j);
                    self.lemma_net(q[j]);
                    lemma_inside_step(net, s, q[j], z, p);
                }
            }
            if net.has(p) && net.inside(s, z, p) {
                if p == s {
                    assert(all[0] == s);
                } else {
                    let k = lemma_inside_top(net, s, z, p);
                    self.lemma_net(k);
                    assert(self.arena.hung(k));
                    let j = self.arena.home@[k].1;
                    assert(q[j] == k);
                    assert(self.level(q[j]) > z);
                    assert(rest.contains(p));
                    let i = rest.index_of(p);
                    assert(all[i + 1] == p);
                }
            }
        }
        assert forall|i: int, j: int|
            0 <= i < all.len() && 0 <= j < all.len() && i != j implies all[i] != all[j] by {
            if i == 0 || j == 0 {
                let o = if i == 0 {
                    j
                } else {
                    i
                };
                assert(rest[o - 1] == all[o]);
                assert(rest.contains(all[o]));
                let p = all[o];
                let k = choose|k: int|
                    0 <= k < q.len() && self.level(#[trigger] q[k]) > z && net.has(p)
                        && net.inside(q[k], z, p);
                self.lemma_kid(s, k);
                self.lemma_net(q[k]);
                lemma_inside_under(net, q[k], z, p);
                lemma_under_level(net, q[k], p);
            } else {
                assert(all[i] == rest[i - 1] && all[j] == rest[j - 1]);
            }
        }
    }

    proof fn lemma_leaves_of(&self, s: int, z: int, i: nat)
        requires
            self.wf(),
            self.net().has(s),
            i <= self.arena.kids@[s].len(),
        ensures
            self.leaves_of(s, z, i).no_duplicates(),
            forall|p: int| #[trigger]
                self.leaves_of(s, z, i).contains(p) <==> exists|j: int|
                    0 <= j < i && self.level(#[trigger] self.arena.kids@[s][j]) > z && self.net().has(p)
                        && self.net().inside(self.arena.kids@[s][j], z, p),
        decreases 22 - self.level(s), i,
    {
        self.law_invariants();
        let net = self.net();
        self.lemma_net(s);
        assert(net.sound_point(s));
        let q = self.arena.kids@[s];
        let all = self.leaves_of(s, z, i);
        if i > 0 {
            let k = q[i - 1];
            self.lemma_kid(s, i - 1);
            self.lemma_net(k);
            self.lemma_leaves_of(s, z, (i - 1) as nat);
            let a = self.leaves_of(s, z, (i - 1) as nat);
            let b = if self.level(k) > z {
                self.leaf_list(k, z)
            } else {
                Seq::empty()
            };
            if self.level(k) > z {
                self.lemma_leaves(k, z);
            }
            assert(all =~= a + b);
            assert forall|p: int| #[trigger] all.contains(p) <==> exists|j: int|
                0 <= j < i && self.level(#[trigger] q[j]) > z && net.has(p) && net.inside(
                    q[j],
                    z,
                    p,
                ) by {
                if all.contains(p) {
                    let t = all.index_of(p);
                    if t < a.len() {
                        assert(a[t] == p);
                        assert(a.contains(p));
                    } else {
                        assert(b[t - a.len()] == p);
                        assert(b.contains(p));
                        assert(self.level(q[i - 1]) > z && net.inside(q[i - 1], z, p));
                    }
                }
                if a.contains(p) {
                    let t = a.index_of(p);
                    assert(all[t] == p);
                }
                if b.contains(p) {
                    let t = b.index_of(p);
                    assert(all[a.len() + t] == p);
                }
                if exists|j: int|
                    0 <= j < i && self.level(#[trigger] q[j]) > z && net.has(p) && net.inside(
                        q[j],
                        z,
                        p,
                    ) {
                    let j = choose|j: int|
                        0 <= j < i && self.level(#[trigger] q[j]) > z && net.has(p) && net.inside(
                            q[j],
                            z,
                            p,
                        );
                    if j < i - 1 {
                        assert(a.contains(p));
                    } else {
                        assert(b.contains(p));
                    }
                }
            }
            assert forall|x: int, y: int|
                0 <= x < all.len() && 0 <= y < all.len() && x != y implies all[x] != all[y] by {
                let (lo, hi) = if x < y {
                    (x, y)
                } else {
                    (y, x)
                };
                if hi < a.len() {
                    assert(all[lo] == a[lo] && all[hi] == a[hi]);
                } else if lo >= a.len() {
                    assert(all[lo] == b[lo - a.len()] && all[hi] == b[hi - a.len()]);
                } else {
                    let p = all[lo];
                    assert(a[lo] == p);
                    assert(a.contains(p));
                    assert(b[hi - a.len()] == all[hi]);
                    assert(b.contains(all[hi]));
                    let j = choose|j: int|
                        0 <= j < i - 1 && self.level(#[trigger] q[j]) > z && net.has(p)
                            && net.inside(q[j], z, p);
                    if all[hi] == p {
                        self.lemma_kid(s, j);
                        self.lemma_net(q[j]);
                        lemma_inside_under(net, q[j], z, p);
                        lemma_inside_under(net, k, z, p);
                        lemma_under_one(net, s, k, q[j], p);
                        assert(self.arena.linked(s, j) && self.arena.linked(s, i - 1));
                    }
                }
            }
        }
    }

    /// List the points inside `s`, as long as fewer than `need` are listed.
    fn walk_leaves(&self, s: Slot, z: i8, need: usize, out: &mut Vec<Slot>)
        requires
            self.wf(),
            self.live(s as int),
            forall|i: int| 0 <= i < old(out)@.len() ==> self.live(#[trigger] old(out)@[i] as int),
            old(out)@.len() <= need,
        ensures
            numbers(final(out)@) == first(
                numbers(old(out)@) + self.leaf_order(s as int, z as int),
                need as int,
            ),
            forall|i: int| 0 <= i < final(out)@.len() ==> self.live(#[trigger] final(out)@[i] as int),
            final(out)@.len() <= need,
        decreases 22 - self.level(s as int),
    {
        let ghost si = s as int;
        let ghost zi = z as int;
        let ghost was = numbers(out@);
        if out.len() >= need {
            proof {
                assert(first(was + self.leaf_order(si, zi), need as int) =~= was);
            }
            return ;
        }
        out.push(s);
        let kids = self.arena.children(s);
        let ghost q = self.arena.kids@[si];
        proof {
            assert(numbers(out@) =~= was.push(si));
            assert(self.leaves_of(si, zi, 0) =~= Seq::<int>::empty());
            assert(first(was + (seq![si] + self.leaves_of(si, zi, 0)), need as int) =~= was.push(
                si,
            ));
        }
        let mut i: usize = 0;
        while i < kids.len()
            invariant
                self.wf(),
                self.live(si),
                si == s,
                zi == z,
                q == self.arena.kids@[si],
                kids@.len() == q.len(),
                forall|j: int|
                    0 <= j < kids@.len() ==> #[trigger] kids@[j] == q[j] && kids@[j] < self.arena.n,
                i <= q.len(),
                numbers(out@) == first(
                    was + (seq![si] + self.leaves_of(si, zi, i as nat)),
                    need as int,
                ),
                forall|j: int| 0 <= j < out@.len() ==> self.live(#[trigger] out@[j] as int),
                out@.len() <= need,
            decreases q.len() - i,
        {
            let b = kids[i];
            let ghost so_far = was + (seq![si] + self.leaves_of(si, zi, i as nat));
            proof {
                assert(kids@[i as int] == q[i as int]);
                self.lemma_kid(si, i as int);
            }
            if self.arena.nodes[b as usize].tz > z {
                let ghost more = self.leaf_order(b as int, zi);
                self.walk_leaves(b, z, need, out);
                proof {
                    lemma_first(so_far, more, need as int);
                    self.lemma_leaf_tour(b as int, zi);
                    assert(so_far + more =~= was + (seq![si] + self.leaves_of(
                        si,
                        zi,
                        (i + 1) as nat,
                    )));
                }
            } else {
                proof {
                    assert(self.leaves_of(si, zi, (i + 1) as nat) =~= self.leaves_of(
                        si,
                        zi,
                        i as nat,
                    ));
                }
            }
            i = i + 1;
        }
        proof {
            self.lemma_leaf_tour(si, zi);
            assert(was + (seq![si] + self.leaves_of(si, zi, q.len())) =~= was + self.leaf_order(
                si,
                zi,
            ));
        }
    }

    /// Features that show up to `limit` points of a cluster, after the first `offset`.
    pub open spec fn leaf_page(
        &self,
        cluster_id: u64,
        limit: int,
        offset: int,
        out: Seq<Feature>,
    ) -> bool {
        let all = self.leaf_order(cluster_id as int / 32, cluster_id as int % 32);
        let page = first(rest(all, offset), limit);
        &&& out.len() == page.len()
        &&& forall|i: int| 0 <= i < out.len() ==> self.net().is_leaf(#[trigger] out[i], page[i])
    }

    /// Every individual point inside a cluster, paginated: up to `limit` of them, after the first
    /// `offset`.
    pub fn get_leaves(&self, cluster_id: u64, limit: usize, offset: usize) -> (r: Result<
        Vec<Feature>,
        ClusterIdError,
    >)
        requires
            self.wf(),
        ensures
            match r {
                Ok(out) => self.net().live_handle(cluster_id) && self.leaf_page(
                    cluster_id,
                    limit as int,
                    offset as int,
                    out@,
                ),
                Err(e) => !self.net().live_handle(cluster_id) && e.cluster_id == cluster_id,
            },
    {
        let (s, z) = match self.decode(cluster_id) {
            Ok((s, z)) => (s, z),
            Err(e) => {
                return Err(e);
            },
        };
        let need: usize = if limit > usize::MAX - offset {
            usize::MAX
        } else {
            limit + offset
        };
        let ghost all = self.leaf_order(s as int, z as int);
        let mut order: Vec<Slot> = Vec::new();
        self.walk_leaves(s, z, need, &mut order);
        proof {
            self.lemma_leaf_tour(s as int, z as int);
            assert(numbers(Seq::<Slot>::empty()) + all =~= all);
            self.law_invariants();
            self.lemma_net(s as int);
            self.law_leaves(s as int, z as int);
            self.lemma_leaf_bound(all);
        }
        let ghost page = first(rest(all, offset as int), limit as int);
        let mut out: Vec<Feature> = Vec::new();
        let mut i: usize = offset;
        while i < order.len()
            invariant
                self.wf(),
                offset <= i,
                numbers(order@) == first(all, need as int),
                page == first(rest(all, offset as int), limit as int),
                need == limit + offset || (need == usize::MAX && all.len() <= usize::MAX && limit
                    + offset >= usize::MAX),
                forall|j: int| 0 <= j < order@.len() ==> self.live(#[trigger] order@[j] as int),
                out@.len() == i - offset,
                forall|j: int|
                    0 <= j < out@.len() ==> self.net().is_leaf(#[trigger] out@[j], page[j]),
                i == offset || i <= order@.len(),
            decreases order@.len() - i,
        {
            proof {
                assert(self.live(order@[i as int] as int));
                assert(numbers(order@)[i as int] == order@[i as int]);
                assert(numbers(order@).len() == order@.len());
                let l = i - offset;
                assert(rest(all, offset as int)[l] == all[i as int]);
                assert(page[l] == all[i as int]);
                assert(order@[i as int] == all[i as int]);
            }
            out.push(self.leaf_feature(order[i]));
            i = i + 1;
        }
        proof {
            assert(numbers(order@).len() == order@.len());
            assert(out@.len() == page.len());
        }
        Ok(out)
    }

    proof fn lemma_leaf_bound(&self, all: Seq<int>)
        requires
            self.wf(),
            all.no_duplicates(),
            forall|p: int| #[trigger] all.contains(p) ==> self.net().has(p),
        ensures
            all.len() <= usize::MAX,
    {
        self.law_invariants();
        assert forall|i: int| 0 <= i < all.len() implies 0 <= #[trigger] all[i] < self.slots() by {
            assert(all.contains(all[i]));
            assert(self.net().has(all[i]));
        }
        crate::sums::lemma_no_dup_bound(all, self.slots());
    }
}

/// Slots as numbers.
pub open spec fn numbers(q: Seq<Slot>) -> Seq<int> {
    Seq::new(q.len(), |i: int| q[i] as int)
}

/// At most `n` elements from the front.
pub open spec fn first<T>(q: Seq<T>, n: int) -> Seq<T> {
    if q.len() <= n {
        q
    } else {
        q.take(n)
    }
}

/// What is left behind the first `n` elements.
pub open spec fn rest<T>(q: Seq<T>, n: int) -> Seq<T> {
    if q.len() <= n {
        Seq::empty()
    } else {
        q.skip(n)
    }
}

proof fn lemma_first(a: Seq<int>, b: Seq<int>, n: int)
    requires
        n >= 0,
    ensures
        first(first(a, n) + b, n) == first(a + b, n),
{
    assert(first(first(a, n) + b, n) =~= first(a + b, n));
}

/// **Paging**: pages of `k` put one after the other give the whole list.
pub proof fn law_pages<T>(q: Seq<T>, k: int, i: int)
    requires
        0 < k,
        0 <= i,
    ensures
        first(q, i * k) + first(rest(q, i * k), k) == first(q, (i + 1) * k),
{
    assert((i + 1) * k == i * k + k) by (nonlinear_arith);
    assert(i * k >= 0) by (nonlinear_arith)
        requires
            i >= 0,
            k >= 0,
    ;
    assert(first(q, i * k) + first(rest(q, i * k), k) =~= first(q, (i + 1) * k));
}

} // verus!
