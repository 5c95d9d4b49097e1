//! Answers built device by device: searches, whitelists and listings.
//!
//! A substring has nothing to keep a running count of, so these cannot read a precomputed
//! aggregate the way a declared filter does. Instead the candidates are tested one by one, and
//! the survivors are grouped by the marker they would be drawn as, or listed.
use super::query::{drawings, Candidates, Drawn, OutFeature, Page, TextPred};
use super::{maybe, number_of, wanted, Collection, Record, NO_MATCH};
use crate::clusters::Window;
use crate::geometry::PREC_I;
use crate::index::Slot;
use crate::net::Net;
use crate::register::lemma_register;
use std::collections::HashMap;
use vstd::prelude::*;

verus! {

broadcast use vstd::std_specs::hash::group_hash_axioms;

/// A device passes the predicates and, where one is chosen, lies in the filter cell.
pub open spec fn answers(r: Record, cat: i32, preds: Seq<TextPred>) -> bool {
    &&& r.live()
    &&& forall|i: int|
        0 <= i < preds.len() ==> (#[trigger] preds[i]).passes(r.text[preds[i].field as int])
    &&& cat >= 0 ==> r.cells.contains(cat as u32)
}

/// The devices to look at, by number, in order. An id nobody has leads past the last.
pub open spec fn looked_at(recs: Seq<Record>, cands: Candidates) -> Seq<int> {
    match cands {
        Candidates::All => Seq::new(recs.len(), |i: int| i),
        Candidates::Ids(ids) => Seq::new(ids@.len(), |i: int| number_of(recs, ids@[i]@)),
    }
}

/// Those of the first `k` candidates that answer, in order.
pub open spec fn hits(
    recs: Seq<Record>,
    q: Seq<int>,
    cat: i32,
    preds: Seq<TextPred>,
    k: int,
) -> Seq<int>
    decreases k,
{
    if k <= 0 {
        seq![]
    } else {
        let s = hits(recs, q, cat, preds, k - 1);
        if 0 <= q[k - 1] < recs.len() && answers(recs[q[k - 1]], cat, preds) {
            s.push(q[k - 1])
        } else {
            s
        }
    }
}

/// What matches.
pub open spec fn matching(
    recs: Seq<Record>,
    cands: Candidates,
    cat: i32,
    preds: Seq<TextPred>,
) -> Seq<int> {
    let q = looked_at(recs, cands);
    hits(recs, q, cat, preds, q.len() as int)
}

/// What matches is live and known.
pub proof fn lemma_hits(
    recs: Seq<Record>,
    q: Seq<int>,
    cat: i32,
    preds: Seq<TextPred>,
    k: int,
)
    requires
        0 <= k <= q.len(),
    ensures
        hits(recs, q, cat, preds, k).len() <= k,
        forall|i: int|
            #![trigger hits(recs, q, cat, preds, k)[i]]
            0 <= i < hits(recs, q, cat, preds, k).len() ==> 0 <= hits(recs, q, cat, preds, k)[i]
                < recs.len() && answers(recs[hits(recs, q, cat, preds, k)[i]], cat, preds),
    decreases k,
{
    if k > 0 {
        lemma_hits(recs, q, cat, preds, k - 1);
    }
}

/// The marker a device is drawn as.
pub open spec fn marker(net: Net, n: int, z: int) -> int {
    net.rep(net.holder(n as u64), z)
}

pub open spec fn markers(net: Net, q: Seq<int>, z: int) -> Seq<int> {
    Seq::new(q.len(), |i: int| marker(net, q[i], z))
}

/// What occurs among the first `k`, each once, in the order of first occurrence.
pub open spec fn distinct(m: Seq<int>, k: int) -> Seq<int>
    decreases k,
{
    if k <= 0 {
        seq![]
    } else {
        let s = distinct(m, k - 1);
        if s.contains(m[k - 1]) {
            s
        } else {
            s.push(m[k - 1])
        }
    }
}

/// How many of the first `k` are `g`.
pub open spec fn occurrences(m: Seq<int>, g: int, k: int) -> int
    decreases k,
{
    if k <= 0 {
        0
    } else {
        occurrences(m, g, k - 1) + (if m[k - 1] == g {
            1int
        } else {
            0
        })
    }
}

/// The sum of `v` over those of the first `k` that are `g`.
pub open spec fn summed(m: Seq<int>, v: Seq<int>, g: int, k: int) -> int
    decreases k,
{
    if k <= 0 {
        0
    } else {
        summed(m, v, g, k - 1) + (if m[k - 1] == g {
            v[k - 1]
        } else {
            0
        })
    }
}

/// Where `g` occurs first, from `i` on.
pub open spec fn first_place(m: Seq<int>, g: int, i: int) -> int
    decreases m.len() - i,
{
    if i >= m.len() || m[i] == g {
        i
    } else {
        first_place(m, g, i + 1)
    }
}

pub open spec fn xs(recs: Seq<Record>, q: Seq<int>) -> Seq<int> {
    Seq::new(q.len(), |i: int| (recs[q[i]].at->0).0 as int)
}

pub open spec fn ys(recs: Seq<Record>, q: Seq<int>) -> Seq<int> {
    Seq::new(q.len(), |i: int| (recs[q[i]].at->0).1 as int)
}

/// The matches `q` that share the marker `g`, drawn as one, at their centroid rounded down.
///
/// A cluster of matches is not a node of the tree, so it has no handle to expand: its children
/// would be those of the whole cluster, with everything that did not match.
pub open spec fn gathered(recs: Seq<Record>, q: Seq<int>, m: Seq<int>, g: int) -> Drawn {
    let c = occurrences(m, g, m.len() as int);
    let one = recs[q[first_place(m, g, 0)]];
    Drawn {
        sx: (summed(m, xs(recs, q), g, m.len() as int) / c) as i64,
        sy: (summed(m, ys(recs, q), g, m.len() as int) / c) as i64,
        per: 1,
        count: c as u32,
        device: if c == 1 {
            Some(one.id)
        } else {
            None
        },
        cluster_id: None,
        props: if c == 1 {
            one.props
        } else {
            None
        },
    }
}

pub open spec fn inside(w: Window, d: Drawn) -> bool {
    w.x0 <= d.sx <= w.x1 && w.y0 <= d.sy <= w.y1
}

/// The first `k` groups, as far as they lie in the box.
pub open spec fn gathered_all(
    recs: Seq<Record>,
    q: Seq<int>,
    m: Seq<int>,
    gs: Seq<int>,
    w: Window,
    k: int,
) -> Seq<Drawn>
    decreases k,
{
    if k <= 0 {
        seq![]
    } else {
        let s = gathered_all(recs, q, m, gs, w, k - 1);
        let d = gathered(recs, q, m, gs[k - 1]);
        if inside(w, d) {
            s.push(d)
        } else {
            s
        }
    }
}

/// Those of the first `k` that stand in the box.
pub open spec fn boxed(recs: Seq<Record>, q: Seq<int>, w: Window, k: int) -> Seq<int>
    decreases k,
{
    if k <= 0 {
        seq![]
    } else {
        let s = boxed(recs, q, w, k - 1);
        let p = recs[q[k - 1]].at->0;
        if w.x0 <= p.0 <= w.x1 && w.y0 <= p.1 <= w.y1 {
            s.push(q[k - 1])
        } else {
            s
        }
    }
}

/// A device as a listing shows it.
pub open spec fn listed(recs: Seq<Record>, n: int, with_props: bool) -> Drawn {
    let p = recs[n].at->0;
    Drawn {
        sx: p.0 as i64,
        sy: p.1 as i64,
        per: 1,
        count: 1,
        device: Some(recs[n].id),
        cluster_id: None,
        props: if with_props {
            recs[n].props
        } else {
            None
        },
    }
}

/// A slice of a listing: from `offset` on, at most `limit`.
pub open spec fn paged(recs: Seq<Record>, q: Seq<int>, page: Page) -> Seq<Drawn> {
    let from = if page.offset < q.len() {
        page.offset as int
    } else {
        q.len() as int
    };
    let n = if page.limit < q.len() - from {
        page.limit as int
    } else {
        q.len() - from
    };
    Seq::new(n as nat, |i: int| listed(recs, q[from + i], page.with_props))
}

/// A group of matches under way.
struct Group {
    count: u32,
    sx: i64,
    sy: i64,
    member: u64,
}

/// A group holds what the first `k` matches say of a marker.
spec fn tells(e: Group, recs: Seq<Record>, q: Seq<int>, m: Seq<int>, g: int, k: int) -> bool {
    &&& e.count == occurrences(m, g, k)
    &&& e.count >= 1
    &&& e.sx == summed(m, xs(recs, q), g, k)
    &&& e.sy == summed(m, ys(recs, q), g, k)
    &&& 0 <= first_place(m, g, 0) < k
    &&& e.member == q[first_place(m, g, 0)]
}

/// Sums of coordinates stay small.
pub(super) proof fn lemma_summed(m: Seq<int>, v: Seq<int>, g: int, k: int)
    requires
        0 <= k <= m.len(),
        v.len() == m.len(),
        forall|i: int| 0 <= i < v.len() ==> 0 <= #[trigger] v[i] <= PREC_I,
    ensures
        0 <= occurrences(m, g, k) <= k,
        0 <= summed(m, v, g, k) <= occurrences(m, g, k) * PREC_I,
    decreases k,
{
    if k > 0 {
        lemma_summed(m, v, g, k - 1);
        assert((occurrences(m, g, k - 1) + 1) * PREC_I == occurrences(m, g, k - 1) * PREC_I
            + PREC_I) by (nonlinear_arith);
    }
}

/// What does not occur counts nothing.
pub(super) proof fn lemma_absent(m: Seq<int>, v: Seq<int>, g: int, k: int)
    requires
        0 <= k <= m.len(),
        !distinct(m, k).contains(g),
    ensures
        occurrences(m, g, k) == 0,
        summed(m, v, g, k) == 0,
        forall|i: int| 0 <= i < k ==> #[trigger] m[i] != g,
    decreases k,
{
    if k > 0 {
        let s = distinct(m, k - 1);
        if s.contains(g) {
            let j = choose|j: int| 0 <= j < s.len() && s[j] == g;
            assert(s.push(m[k - 1])[j] == g);
        }
        assert(s.push(m[k - 1])[s.len() as int] == m[k - 1]);
        lemma_absent(m, v, g, k - 1);
    }
}

proof fn lemma_first_place(m: Seq<int>, g: int, i: int, k: int)
    requires
        0 <= i <= k < m.len(),
        m[k] == g,
        forall|j: int| i <= j < k ==> #[trigger] m[j] != g,
    ensures
        first_place(m, g, i) == k,
    decreases k - i,
{
    if i < k {
        assert(m[i] != g);
        lemma_first_place(m, g, i + 1, k);
    }
}

fn has_cell(cells: &Vec<u32>, want: u32) -> (r: bool)
    ensures
        r == cells@.contains(want),
{
    let mut j: usize = 0;
    while j < cells.len()
        invariant
            j <= cells.len(),
            forall|k: int| 0 <= k < j ==> #[trigger] cells@[k] != want,
        decreases cells.len() - j,
    {
        if cells[j] == want {
            return true;
        }
        j = j + 1;
    }
    false
}

impl Collection {
    /// Predicates name fields that can be searched.
    pub open spec fn searchable(&self, preds: Seq<TextPred>) -> bool {
        forall|i: int| 0 <= i < preds.len() ==> (#[trigger] preds[i]).field < self.fields()
    }

    fn matches_at(&self, n: usize, cat: i32, preds: &[TextPred]) -> (r: bool)
        requires
            self.sound(),
            n < self.devices.len(),
            self.searchable(preds@),
        ensures
            r == answers(self.recs()[n as int], cat, preds@),
    {
        let d = &self.devices[n];
        let ghost rec = self.recs()[n as int];
        proof {
            assert(rec == self.devices[n as int].record());
        }
        if d.last_seen == u64::MAX {
            return false;
        }
        let mut i: usize = 0;
        while i < preds.len()
            invariant
                i <= preds.len(),
                n < self.devices.len(),
                d == self.devices[n as int],
                rec == d.record(),
                rec.text.len() == self.fields(),
                self.searchable(preds@),
                forall|j: int|
                    0 <= j < i ==> (#[trigger] preds@[j]).passes(rec.text[preds@[j].field as int]),
            decreases preds.len() - i,
        {
            let p = &preds[i];
            proof {
                assert(preds@[i as int].field < self.fields());
                assert(rec.text[p.field as int] == maybe(d.text@[p.field as int]));
            }
            let v: Option<&str> = match &d.text[p.field] {
                Some(t) => Some(t.as_str()),
                None => None,
            };
            if !p.test(v) {
                proof {
                    assert(!preds@[i as int].passes(rec.text[preds@[i as int].field as int]));
                }
                return false;
            }
            i = i + 1;
        }
        if cat >= 0 {
            return has_cell(&d.cells, cat as u32);
        }
        true
    }

    /// The devices of `cands` that pass `cat` and `preds`, in candidate order.
    ///
    /// One place where "what matches" is decided, so the clustered answer, the flat listing and
    /// the id whitelist cannot drift apart. Order is that of the numbers for `All` and the
    /// caller's for `Ids`; both are stable, which is what makes paging over them mean anything.
    pub fn visit_matches(&self, cands: Candidates<'_>, cat: i32, preds: &[TextPred]) -> (v: Vec<
        u64,
    >)
        requires
            self.sound(),
            self.searchable(preds@),
        ensures
            v@.len() == matching(self.recs(), cands, cat, preds@).len(),
            forall|i: int|
                0 <= i < v@.len() ==> #[trigger] v@[i] == matching(
                    self.recs(),
                    cands,
                    cat,
                    preds@,
                )[i],
    {
        let ghost recs = self.recs();
        let ghost q = looked_at(recs, cands);
        let mut v: Vec<u64> = Vec::new();
        match cands {
            Candidates::All => {
                let mut n: usize = 0;
                while n < self.devices.len()
                    invariant
                        self.sound(),
                        self.searchable(preds@),
                        recs == self.recs(),
                        q == looked_at(recs, Candidates::All),
                        n <= self.devices.len(),
                        v@.len() == hits(recs, q, cat, preds@, n as int).len(),
                        forall|i: int|
                            0 <= i < v@.len() ==> #[trigger] v@[i] == hits(
                                recs,
                                q,
                                cat,
                                preds@,
                                n as int,
                            )[i],
                    decreases self.devices.len() - n,
                {
                    let hit = self.matches_at(n, cat, preds);
                    if hit {
                        v.push(n as u64);
                    }
                    n = n + 1;
                }
            },
            Candidates::Ids(ids) => {
                let mut i: usize = 0;
                while i < ids.len()
                    invariant
                        self.sound(),
                        self.searchable(preds@),
                        recs == self.recs(),
                        q == looked_at(recs, Candidates::Ids(ids)),
                        i <= ids.len(),
                        v@.len() == hits(recs, q, cat, preds@, i as int).len(),
                        forall|j: int|
                            0 <= j < v@.len() ==> #[trigger] v@[j] == hits(
                                recs,
                                q,
                                cat,
                                preds@,
                                i as int,
                            )[j],
                    decreases ids.len() - i,
                {
                    proof {
                        self.lemma_numbered(ids@[i as int]@);
                    }
                    if let Some(n) = self.numbers.get(ids[i].as_str()) {
                        let hit = self.matches_at(*n as usize, cat, preds);
                        if hit {
                            v.push(*n);
                        }
                    }
                    i = i + 1;
                }
            },
        }
        v
    }
}

impl Collection {
    /// What matches has a place and a marker.
    pub(super) proof fn lemma_hit(&self, n: int, z: int)
        requires
            self.wf(),
            0 <= n < self.devices.len(),
            self.recs()[n].live(),
            z >= 0,
        ensures
            n <= u64::MAX,
            self.index.net().knows(n as u64),
            self.index.net().named(self.index.net().holder(n as u64), n as u64),
            self.recs()[n].at is Some,
            0 <= (self.recs()[n].at->0).0 <= PREC_I,
            0 <= (self.recs()[n].at->0).1 <= PREC_I,
    {
        let net = self.index.net();
        assert(self.recs()[n] == self.devices[n].record());
        assert(wanted(self.recs()).contains_key(n as u64));
        assert(net.register().contains_key(n as u64));
        assert(net.knows(n as u64));
    }

    /// The matches, grouped by marker.
    fn group(&self, v: &Vec<u64>, z: i32, Ghost(q): Ghost<Seq<int>>) -> (groups: Vec<Group>)
        requires
            self.wf(),
            z >= 0,
            v@.len() <= u32::MAX,
            q.len() == v@.len(),
            forall|i: int|
                #![trigger v@[i]]
                0 <= i < v@.len() ==> v@[i] == q[i] && 0 <= q[i] < self.devices.len()
                    && self.recs()[q[i]].live(),
        ensures
            ({
                let m = markers(self.index.net(), q, z as int);
                let gs = distinct(m, m.len() as int);
                &&& groups@.len() == gs.len()
                &&& forall|j: int|
                    0 <= j < gs.len() ==> tells(
                        #[trigger] groups@[j],
                        self.recs(),
                        q,
                        m,
                        gs[j],
                        m.len() as int,
                    )
            }),
    {
        let ghost recs = self.recs();
        let ghost m = markers(self.index.net(), q, z as int);
        let ghost (vx, vy) = (xs(recs, q), ys(recs, q));
        proof {
            self.index.law_invariants();
            assert forall|i: int| 0 <= i < q.len() implies 0 <= #[trigger] vx[i] <= PREC_I by {
                assert(v@[i] == q[i]);
                self.lemma_hit(q[i], z as int);
            }
            assert forall|i: int| 0 <= i < q.len() implies 0 <= #[trigger] vy[i] <= PREC_I by {
                assert(v@[i] == q[i]);
                self.lemma_hit(q[i], z as int);
            }
        }
        let mut place: HashMap<Slot, usize> = HashMap::new();
        let mut groups: Vec<Group> = Vec::new();
        let mut i: usize = 0;
        while i < v.len()
            invariant
                self.wf(),
                self.index.net().ok(),
                z >= 0,
                i <= v@.len() <= u32::MAX,
                q.len() == v@.len(),
                forall|i: int|
                    #![trigger v@[i]]
                    0 <= i < v@.len() ==> v@[i] == q[i] && 0 <= q[i] < self.devices.len()
                        && self.recs()[q[i]].live(),
                recs == self.recs(),
                m == markers(self.index.net(), q, z as int),
                vx == xs(recs, q),
                vy == ys(recs, q),
                forall|i: int| 0 <= i < q.len() ==> 0 <= #[trigger] vx[i] <= PREC_I,
                forall|i: int| 0 <= i < q.len() ==> 0 <= #[trigger] vy[i] <= PREC_I,
                groups@.len() == distinct(m, i as int).len(),
                groups@.len() <= i,
                forall|j: int|
                    0 <= j < groups@.len() ==> tells(
                        #[trigger] groups@[j],
                        recs,
                        q,
                        m,
                        distinct(m, i as int)[j],
                        i as int,
                    ),
                forall|g: Slot| #[trigger]
                    place@.contains_key(g) ==> place@[g] < groups@.len() && distinct(
                        m,
                        i as int,
                    )[place@[g] as int] == g,
                forall|j: int|
                    0 <= j < groups@.len() ==> #[trigger] distinct(m, i as int)[j] <= u32::MAX
                        && distinct(m, i as int)[j] >= 0 && place@.contains_key(
                        distinct(m, i as int)[j] as Slot,
                    ) && place@[distinct(m, i as int)[j] as Slot] == j,
            decreases v.len() - i,
        {
            let n = v[i];
            let ghost ni = q[i as int];
            let ghost gs = distinct(m, i as int);
            let ghost before = groups@;
            let ghost was = place@;
            let d = &self.devices[n as usize];
            proof {
                self.lemma_hit(ni, z as int);
                assert(recs[ni] == d.record());
                assert(vx[i as int] == (recs[ni].at->0).0);
                assert(vy[i as int] == (recs[ni].at->0).1);
            }
            let (x, y): (i32, i32) = match d.position {
                Some((x, y)) => (x, y),
                None => (0, 0),
            };
            let rep: Slot = match self.index.representative_slot(n, z) {
                Some(s) => s,
                None => 0,
            };
            proof {
                let p = choose|p: int| #[trigger]
                    self.index.net().named(p, n) && rep == self.index.net().rep(p, z as int);
                lemma_register(self.index.net(), p, n);
                assert(m[i as int] == rep);
                lemma_summed(m, vx, rep as int, i as int);
                lemma_summed(m, vy, rep as int, i as int);
            }
            let at: usize = match place.get(&rep) {
                Some(at) => *at,
                None => {
                    let at: usize = groups.len();
                    groups.push(Group { count: 0, sx: 0, sy: 0, member: n });
                    place.insert(rep, at);
                    proof {
                        if gs.contains(rep as int) {
                            let j = choose|j: int| 0 <= j < gs.len() && gs[j] == rep;
                            assert(was.contains_key(gs[j] as Slot));
                        }
                        lemma_absent(m, vx, rep as int, i as int);
                        lemma_absent(m, vy, rep as int, i as int);
                        lemma_first_place(m, rep as int, 0, i as int);
                        assert(distinct(m, i + 1) == gs.push(rep as int));
                    }
                    at
                },
            };
            proof {
                if was.contains_key(rep) {
                    assert(gs[was[rep] as int] == rep);
                    assert(gs.contains(rep as int));
                    assert(distinct(m, i + 1) == gs);
                    assert(tells(before[at as int], recs, q, m, rep as int, i as int));
                }
                assert(distinct(m, i + 1)[at as int] == rep);
            }
            let count: u32 = groups[at].count;
            let sx: i64 = groups[at].sx;
            let sy: i64 = groups[at].sy;
            let member: u64 = groups[at].member;
            proof {
                assert(occurrences(m, rep as int, i as int) * PREC_I <= 0x3fff_ffff_ffff_ffff) by {
                    assert(occurrences(m, rep as int, i as int) < u32::MAX);
                }
            }
            groups.set(
                at,
                Group { count: count + 1, sx: sx + x as i64, sy: sy + y as i64, member },
            );
            i = i + 1;
            proof {
                let now = distinct(m, i as int);
                assert forall|j: int| 0 <= j < groups@.len() implies tells(
                    #[trigger] groups@[j],
                    recs,
                    q,
                    m,
                    now[j],
                    i as int,
                ) by {
                    if j == at {
                    } else {
                        assert(j < before.len());
                        assert(groups@[j] == before[j]);
                        assert(now[j] == gs[j]);
                        assert(gs[j] != rep) by {
                            assert(was[gs[j] as Slot] == j);
                        }
                        assert(tells(before[j], recs, q, m, gs[j], i - 1));
                    }
                }
                assert forall|j: int| 0 <= j < groups@.len() implies #[trigger] now[j] <= u32::MAX
                    && now[j] >= 0 && place@.contains_key(now[j] as Slot) && place@[now[j] as Slot]
                    == j by {
                    if j < gs.len() {
                        assert(now[j] == gs[j]);
                        assert(was.contains_key(gs[j] as Slot));
                    }
                }
            }
        }
        groups
    }

    /// Clusters built from an explicitly selected subset rather than from the precomputed
    /// aggregates, in a box of world coordinates.
    ///
    /// Grouping is by the same representative the ordinary query uses, so the markers land where
    /// the unfiltered ones would, restricted to the matches. Two matching vehicles in one yard
    /// stay one marker of 2 instead of vanishing. The marker is placed at the centroid of the
    /// matches, so that is what has to lie in the box.
    pub fn select_clusters(
        &self,
        x0: i32,
        y0: i32,
        x1: i32,
        y1: i32,
        zoom: i32,
        cat: i32,
        preds: &[TextPred],
        cands: Candidates<'_>,
    ) -> (out: Vec<OutFeature>)
        requires
            self.wf(),
            self.searchable(preds@),
            looked_at(self.recs(), cands).len() <= u32::MAX,
        ensures
            cat == NO_MATCH ==> out@.len() == 0,
            cat != NO_MATCH ==> drawings(out@) == self.selection(
                Window::of(x0 as int, y0 as int, x1 as int, y1 as int),
                zoom as int,
                cat,
                preds@,
                cands,
            ),
    {
        let mut out: Vec<OutFeature> = Vec::new();
        if cat == NO_MATCH {
            return out;
        }
        let top: i32 = self.config.max_zoom as i32;
        let z: i32 = if zoom < 0 {
            0
        } else if zoom > top {
            top
        } else {
            zoom
        };
        let (x0, x1) = if x1 < x0 {
            (x1, x0)
        } else {
            (x0, x1)
        };
        let (y0, y1) = if y1 < y0 {
            (y1, y0)
        } else {
            (y0, y1)
        };
        let ghost w = Window::of(x0 as int, y0 as int, x1 as int, y1 as int);
        let ghost recs = self.recs();
        let ghost q = matching(recs, cands, cat, preds@);
        let ghost m = markers(self.index.net(), q, z as int);
        let ghost gs = distinct(m, m.len() as int);
        let ghost (vx, vy) = (xs(recs, q), ys(recs, q));
        proof {
            let l = looked_at(recs, cands);
            lemma_hits(recs, l, cat, preds@, l.len() as int);
        }
        let v = self.visit_matches(cands, cat, preds);
        proof {
            assert forall|i: int| #![trigger v@[i]] 0 <= i < v@.len() implies v@[i] == q[i] && 0
                <= q[i] < self.devices.len() && self.recs()[q[i]].live() by {
                assert(v@[i] == q[i]);
            }
            assert forall|i: int| 0 <= i < q.len() implies 0 <= #[trigger] vx[i] <= PREC_I by {
                self.lemma_hit(q[i], z as int);
            }
            assert forall|i: int| 0 <= i < q.len() implies 0 <= #[trigger] vy[i] <= PREC_I by {
                self.lemma_hit(q[i], z as int);
            }
        }
        let groups = self.group(&v, z, Ghost(q));
        let mut j: usize = 0;
        while j < groups.len()
            invariant
                self.wf(),
                recs == self.recs(),
                q.len() == v@.len(),
                forall|i: int|
                    #![trigger q[i]]
                    0 <= i < q.len() ==> 0 <= q[i] < self.devices.len(),
                m == markers(self.index.net(), q, z as int),
                gs == distinct(m, m.len() as int),
                vx == xs(recs, q),
                vy == ys(recs, q),
                forall|i: int| 0 <= i < q.len() ==> 0 <= #[trigger] vx[i] <= PREC_I,
                forall|i: int| 0 <= i < q.len() ==> 0 <= #[trigger] vy[i] <= PREC_I,
                w == (Window { x0: x0 as int, y0: y0 as int, x1: x1 as int, y1: y1 as int }),
                j <= groups@.len(),
                groups@.len() == gs.len(),
                forall|j: int|
                    0 <= j < gs.len() ==> tells(
                        #[trigger] groups@[j],
                        recs,
                        q,
                        m,
                        gs[j],
                        m.len() as int,
                    ),
                drawings(out@) == gathered_all(recs, q, m, gs, w, j as int),
            decreases groups.len() - j,
        {
            let e = &groups[j];
            let ghost g = gs[j as int];
            let ghost was = out@;
            proof {
                assert(tells(groups@[j as int], recs, q, m, g, m.len() as int));
                lemma_summed(m, vx, g, m.len() as int);
                lemma_summed(m, vy, g, m.len() as int);
                assert(0 <= q[first_place(m, g, 0)] < self.devices.len());
            }
            let mx: i64 = e.sx / (e.count as i64);
            let my: i64 = e.sy / (e.count as i64);
            if mx >= x0 as i64 && mx <= x1 as i64 && my >= y0 as i64 && my <= y1 as i64 {
                let n = e.member as usize;
                proof {
                    assert(recs[n as int] == self.devices[n as int].record());
                }
                let (device, props): (Option<String>, Option<String>) = if e.count == 1 {
                    (
                        Some(self.devices[n].id.clone()),
                        match &self.devices[n].props {
                            Some(p) => Some(p.clone()),
                            None => None,
                        },
                    )
                } else {
                    (None, None)
                };
                out.push(
                    OutFeature {
                        sx: mx,
                        sy: my,
                        per: 1,
                        count: e.count,
                        device,
                        cluster_id: None,
                        props,
                    },
                );
                proof {
                    assert(drawings(out@) =~= drawings(was).push(out@[was.len() as int].drawn()));
                    assert(out@[was.len() as int].drawn() == gathered(recs, q, m, g));
                }
            } else {
                proof {
                    assert(!inside(w, gathered(recs, q, m, g)));
                }
            }
            j = j + 1;
        }
        out
    }

    /// What a search finds.
    pub open spec fn selection(
        &self,
        w: Window,
        zoom: int,
        cat: i32,
        preds: Seq<TextPred>,
        cands: Candidates,
    ) -> Seq<Drawn> {
        let top = self.config.max_zoom as int;
        let z = if zoom < 0 {
            0
        } else if zoom > top {
            top
        } else {
            zoom
        };
        let q = matching(self.recs(), cands, cat, preds);
        let m = markers(self.index.net(), q, z);
        let gs = distinct(m, m.len() as int);
        gathered_all(self.recs(), q, m, gs, w, gs.len() as int)
    }

    /// A search over the whole fleet.
    pub fn search(
        &self,
        x0: i32,
        y0: i32,
        x1: i32,
        y1: i32,
        zoom: i32,
        cat: i32,
        preds: &[TextPred],
    ) -> (out: Vec<OutFeature>)
        requires
            self.wf(),
            self.searchable(preds@),
            self.devices.len() <= u32::MAX,
        ensures
            cat == NO_MATCH ==> out@.len() == 0,
            cat != NO_MATCH ==> drawings(out@) == self.selection(
                Window::of(x0 as int, y0 as int, x1 as int, y1 as int),
                zoom as int,
                cat,
                preds@,
                Candidates::All,
            ),
    {
        self.select_clusters(x0, y0, x1, y1, zoom, cat, preds, Candidates::All)
    }

    /// Matching devices in a box, one feature each, never grouped: the requested page, and how
    /// many devices matched in total.
    ///
    /// The complement of [`Collection::select_clusters`]: a cluster of matches carries no handle,
    /// so there is no way to reach its members from the clustered answer at all.
    pub fn list_devices(
        &self,
        x0: i32,
        y0: i32,
        x1: i32,
        y1: i32,
        cat: i32,
        preds: &[TextPred],
        cands: Candidates<'_>,
        page: Page,
    ) -> (r: (Vec<OutFeature>, usize))
        requires
            self.wf(),
            self.searchable(preds@),
        ensures
            cat == NO_MATCH ==> r.0@.len() == 0 && r.1 == 0,
            cat != NO_MATCH ==> {
                let q = matching(self.recs(), cands, cat, preds@);
                let b = boxed(
                    self.recs(),
                    q,
                    Window::of(x0 as int, y0 as int, x1 as int, y1 as int),
                    q.len() as int,
                );
                r.1 == b.len() && drawings(r.0@) == paged(self.recs(), b, page)
            },
    {
        let mut out: Vec<OutFeature> = Vec::new();
        if cat == NO_MATCH {
            return (out, 0);
        }
        let (x0, x1) = if x1 < x0 {
            (x1, x0)
        } else {
            (x0, x1)
        };
        let (y0, y1) = if y1 < y0 {
            (y1, y0)
        } else {
            (y0, y1)
        };
        let ghost w = Window::of(x0 as int, y0 as int, x1 as int, y1 as int);
        let ghost recs = self.recs();
        let ghost q = matching(recs, cands, cat, preds@);
        proof {
            let l = looked_at(recs, cands);
            lemma_hits(recs, l, cat, preds@, l.len() as int);
        }
        let v = self.visit_matches(cands, cat, preds);
        let mut total: usize = 0;
        let mut i: usize = 0;
        proof {
            assert(drawings(out@) =~= paged(recs, boxed(recs, q, w, 0), page));
        }
        while i < v.len()
            invariant
                self.wf(),
                recs == self.recs(),
                q.len() == v@.len(),
                i <= v@.len(),
                forall|j: int|
                    #![trigger v@[j]]
                    0 <= j < v@.len() ==> v@[j] == q[j] && 0 <= q[j] < self.devices.len()
                        && recs[q[j]].live(),
                w == (Window { x0: x0 as int, y0: y0 as int, x1: x1 as int, y1: y1 as int }),
                total == boxed(recs, q, w, i as int).len(),
                total <= i,
                drawings(out@) == paged(recs, boxed(recs, q, w, i as int), page),
            decreases v.len() - i,
        {
            let n = v[i] as usize;
            let ghost b = boxed(recs, q, w, i as int);
            let ghost was = out@;
            proof {
                assert(recs[n as int] == self.devices[n as int].record());
                self.lemma_hit(q[i as int], 0);
            }
            let (x, y): (i32, i32) = match self.devices[n].position {
                Some((x, y)) => (x, y),
                None => (0, 0),
            };
            if x0 <= x && x <= x1 && y0 <= y && y <= y1 {
                proof {
                    assert(boxed(recs, q, w, i + 1) == b.push(n as int));
                }
                if total >= page.offset && out.len() < page.limit {
                    out.push(
                        OutFeature {
                            sx: x as i64,
                            sy: y as i64,
                            per: 1,
                            count: 1,
                            device: Some(self.devices[n].id.clone()),
                            cluster_id: None,
                            props: if page.with_props {
                                match &self.devices[n].props {
                                    Some(p) => Some(p.clone()),
                                    None => None,
                                }
                            } else {
                                None
                            },
                        },
                    );
                    proof {
                        assert(drawings(out@) =~= drawings(was).push(
                            out@[was.len() as int].drawn(),
                        ));
                        assert(out@[was.len() as int].drawn() == listed(
                            recs,
                            n as int,
                            page.with_props,
                        ));
                    }
                }
                proof {
                    assert(drawings(out@) =~= paged(recs, b.push(n as int), page));
                }
                total = total + 1;
            }
            i = i + 1;
        }
        (out, total)
    }
}

} // verus!
