//! What a caller can rely on of searches, whitelists and listings, told by the devices that are
//! there and the markers that come back.
use super::query::{Candidates, Drawn, Page, TextPred};
use super::select::{answers, boxed, distinct, first_place, gathered, gathered_all, hits, inside,
    lemma_absent, lemma_hits, lemma_summed, looked_at, marker, markers, matching, occurrences, paged,
    summed, xs, ys};
use super::{good_record, lemma_number, maybe, number_of, Collection, Record, NEVER};
use crate::clusters::Window;
use crate::feature::Feature;
use crate::geometry::PREC_I;
use crate::index::promises::{accounts, lemma_groups};
use crate::sums::total;
use vstd::prelude::*;

verus! {

/// A searchable field satisfies a predicate: the needle stands somewhere in it, or is all of it.
pub open spec fn field_says(t: Option<String>, p: TextPred) -> bool {
    match t {
        None => false,
        Some(s) => if p.contains {
            exists|a: Seq<char>, b: Seq<char>| s@ == #[trigger] (a + p.needle@ + b)
        } else {
            s@ == p.needle@
        },
    }
}

/// A device is live, in the filter cell if one is asked for, and satisfies every predicate.
pub open spec fn is_match(c: Collection, n: int, cat: i32, preds: Seq<TextPred>) -> bool {
    let d = c.devices[n];
    &&& d.last_seen != NEVER
    &&& cat >= 0 ==> exists|j: int| 0 <= j < d.cells@.len() && #[trigger] d.cells@[j] == cat
    &&& forall|i: int|
        0 <= i < preds.len() ==> field_says(d.text@[(#[trigger] preds[i]).field as int], preds[i])
}

/// How many places there are to look at: one for each device, or for each id that is named.
pub open spec fn places(c: Collection, cands: Candidates) -> int {
    match cands {
        Candidates::All => c.devices.len() as int,
        Candidates::Ids(ids) => ids@.len() as int,
    }
}

/// `dev` tells which device stands at each place; none if it is out of range.
pub open spec fn looks_up(c: Collection, cands: Candidates, dev: spec_fn(int) -> int) -> bool {
    match cands {
        Candidates::All => forall|i: int| 0 <= i < c.devices.len() ==> #[trigger] dev(i) == i,
        Candidates::Ids(ids) => forall|i: int|
            0 <= i < ids@.len() ==> if 0 <= #[trigger] dev(i) < c.devices.len() {
                c.devices[dev(i)].id@ == ids@[i]@
            } else {
                forall|n: int| 0 <= n < c.devices.len() ==> (#[trigger] c.devices[n]).id@ != ids@[i]@
            },
    }
}

/// The device at place `i` matches, and is filed under `k`.
pub open spec fn counted(
    c: Collection,
    cat: i32,
    preds: Seq<TextPred>,
    dev: spec_fn(int) -> int,
    f: spec_fn(int) -> int,
    k: int,
    i: int,
) -> bool {
    0 <= dev(i) < c.devices.len() && is_match(c, dev(i), cat, preds) && f(dev(i)) == k
}

/// How many matches are filed under `k`.
pub open spec fn crowd(
    c: Collection,
    n: int,
    cat: i32,
    preds: Seq<TextPred>,
    dev: spec_fn(int) -> int,
    f: spec_fn(int) -> int,
    k: int,
) -> int {
    total(
        n,
        |i: int|
            if counted(c, cat, preds, dev, f, k, i) {
                1int
            } else {
                0
            },
    )
}

pub open spec fn crowd_x(
    c: Collection,
    n: int,
    cat: i32,
    preds: Seq<TextPred>,
    dev: spec_fn(int) -> int,
    f: spec_fn(int) -> int,
    k: int,
) -> int {
    total(
        n,
        |i: int|
            if counted(c, cat, preds, dev, f, k, i) {
                (c.devices[dev(i)].position->0).0 as int
            } else {
                0
            },
    )
}

pub open spec fn crowd_y(
    c: Collection,
    n: int,
    cat: i32,
    preds: Seq<TextPred>,
    dev: spec_fn(int) -> int,
    f: spec_fn(int) -> int,
    k: int,
) -> int {
    total(
        n,
        |i: int|
            if counted(c, cat, preds, dev, f, k, i) {
                (c.devices[dev(i)].position->0).1 as int
            } else {
                0
            },
    )
}

/// `q` is `sum / n`, cut off below the point.
pub open spec fn is_mean(q: int, sum: int, n: int) -> bool {
    n > 0 && q * n <= sum < (q + 1) * n
}

/// The markers of a selection: one for each group of matches whose centroid lies in the box on
/// both axes, with the number of matches, the centroid, and what a lone match is.
pub open spec fn selects_right(
    c: Collection,
    out: Seq<Drawn>,
    keys: Seq<int>,
    n: int,
    cat: i32,
    preds: Seq<TextPred>,
    dev: spec_fn(int) -> int,
    f: spec_fn(int) -> int,
    x0: int,
    y0: int,
    x1: int,
    y1: int,
) -> bool {
    &&& keys.len() == out.len()
    &&& keys.no_duplicates()
    &&& forall|i: int|
        0 <= i < out.len() ==> {
            let (d, k) = (#[trigger] out[i], keys[i]);
            let m = crowd(c, n, cat, preds, dev, f, k);
            &&& d.count == m && d.per == 1 && d.cluster_id is None
            &&& is_mean(d.sx as int, crowd_x(c, n, cat, preds, dev, f, k), m)
            &&& is_mean(d.sy as int, crowd_y(c, n, cat, preds, dev, f, k), m)
            &&& x0 <= d.sx <= x1 && y0 <= d.sy <= y1
            &&& if m == 1 {
                exists|j: int|
                    0 <= j < n && #[trigger] counted(c, cat, preds, dev, f, k, j) && d.device
                        == Some(c.devices[dev(j)].id@) && d.props == maybe(c.devices[dev(j)].props)
            } else {
                d.device is None && d.props is None
            }
        }
    &&& forall|k: int, x: int, y: int|
        #![trigger is_mean(x, crowd_x(c, n, cat, preds, dev, f, k), crowd(c, n, cat, preds, dev, f, k)), is_mean(y, crowd_y(c, n, cat, preds, dev, f, k), crowd(c, n, cat, preds, dev, f, k))]
        is_mean(x, crowd_x(c, n, cat, preds, dev, f, k), crowd(c, n, cat, preds, dev, f, k))
            && is_mean(y, crowd_y(c, n, cat, preds, dev, f, k), crowd(c, n, cat, preds, dev, f, k))
            && x0 <= x <= x1 && y0 <= y <= y1 ==> keys.contains(k)
}

/// A device matches by its record.
proof fn lemma_answers(c: Collection, n: int, cat: i32, preds: Seq<TextPred>)
    requires
        c.sound(),
        c.searchable(preds),
        0 <= n < c.devices.len(),
    ensures
        answers(c.recs()[n], cat, preds) == is_match(c, n, cat, preds),
{
    let (d, r) = (c.devices[n], c.recs()[n]);
    assert(r == d.record());
    assert(good_record(d.record(), c.opts(), c.fields()));
    assert(r.text.len() == d.text@.len());
    assert forall|i: int| 0 <= i < preds.len() implies (#[trigger] preds[i]).passes(
        r.text[preds[i].field as int],
    ) == field_says(d.text@[preds[i].field as int], preds[i]) by {
        let p = preds[i];
        assert(p.field < c.fields());
        match d.text@[p.field as int] {
            None => {},
            Some(s) => {
                assert(r.text[p.field as int] == Some(s@));
                if p.contains {
                    let m = p.needle@;
                    if crate::text::found_in(s@, m) {
                        let k = choose|k: int|
                            0 <= k <= s@.len() - m.len() && #[trigger] s@.subrange(k, k + m.len()) == m;
                        let (a, b) = (s@.take(k), s@.skip(k + m.len()));
                        assert(s@ =~= a + m + b);
                        assert(field_says(d.text@[p.field as int], p));
                    }
                    if exists|a: Seq<char>, b: Seq<char>| s@ == #[trigger] (a + m + b) {
                        let (a, b) = choose|a: Seq<char>, b: Seq<char>| s@ == #[trigger] (a + m + b);
                        assert(s@.subrange(a.len() as int, (a.len() + m.len()) as int) =~= m);
                    }
                }
            },
        }
    }
    if is_match(c, n, cat, preds) && cat >= 0 {
        let j = choose|j: int| 0 <= j < d.cells@.len() && #[trigger] d.cells@[j] == cat;
        assert(r.cells[j] == cat as u32);
    }
    if answers(r, cat, preds) && cat >= 0 {
        let j = choose|j: int| 0 <= j < r.cells.len() && r.cells[j] == cat as u32;
        assert(d.cells@[j] == cat);
    }
    if answers(r, cat, preds) {
        assert forall|i: int| 0 <= i < preds.len() implies field_says(
            d.text@[(#[trigger] preds[i]).field as int],
            preds[i],
        ) by {
            assert(preds[i].passes(r.text[preds[i].field as int]));
        }
    }
    if is_match(c, n, cat, preds) {
        assert forall|i: int| 0 <= i < preds.len() implies (#[trigger] preds[i]).passes(
            r.text[preds[i].field as int],
        ) by {
            assert(field_says(d.text@[preds[i].field as int], preds[i]));
        }
    }
}

proof fn lemma_looks_up(c: Collection, cands: Candidates) -> (dev: spec_fn(int) -> int)
    requires
        c.sound(),
    ensures
        looks_up(c, cands, dev),
        looked_at(c.recs(), cands).len() == places(c, cands),
        forall|i: int| 0 <= i < places(c, cands) ==> #[trigger] looked_at(c.recs(), cands)[i] == dev(i),
{
    let q = looked_at(c.recs(), cands);
    let dev = |i: int| q[i];
    match cands {
        Candidates::All => {},
        Candidates::Ids(ids) => {
            assert forall|i: int| 0 <= i < ids@.len() implies if 0 <= #[trigger] dev(i)
                < c.devices.len() {
                c.devices[dev(i)].id@ == ids@[i]@
            } else {
                forall|n: int| 0 <= n < c.devices.len() ==> (#[trigger] c.devices[n]).id@ != ids@[i]@
            } by {
                lemma_number(c.recs(), ids@[i]@, 0);
                if dev(i) < c.devices.len() {
                    assert(c.recs()[dev(i)] == c.devices[dev(i)].record());
                } else {
                    assert forall|n: int| 0 <= n < c.devices.len() implies (#[trigger] c.devices[n]).id@
                        != ids@[i]@ by {
                        assert(c.recs()[n] == c.devices[n].record());
                    }
                }
            }
        },
    }
    dev
}

/// **Who matches**: the matches are the devices that are looked at, live, in the filter cell asked
/// for, and satisfy every predicate; nobody else.
pub proof fn law_matches(c: Collection, cands: Candidates, cat: i32, preds: Seq<TextPred>, n: int)
    requires
        c.sound(),
        c.searchable(preds),
    ensures
        matching(c.recs(), cands, cat, preds).contains(n) <==> 0 <= n < c.devices.len() && is_match(
            c,
            n,
            cat,
            preds,
        ) && (cands matches Candidates::Ids(ids) ==> exists|i: int|
            0 <= i < ids@.len() && #[trigger] ids@[i]@ == c.devices[n].id@),
{
    let q = looked_at(c.recs(), cands);
    lemma_hits_are(c.recs(), q, cat, preds, q.len() as int, n);
    if 0 <= n < c.devices.len() {
        lemma_answers(c, n, cat, preds);
        assert(c.recs()[n] == c.devices[n].record());
        c.lemma_numbered(c.devices[n].id@);
    }
    match cands {
        Candidates::All => {
            if 0 <= n < c.devices.len() {
                assert(q[n] == n);
            }
        },
        Candidates::Ids(ids) => {
            if q.contains(n) && 0 <= n < c.devices.len() {
                let i = q.index_of(n);
                lemma_number(c.recs(), ids@[i]@, 0);
                assert(ids@[i]@ == c.devices[n].id@);
            }
            if 0 <= n < c.devices.len() && exists|i: int|
                0 <= i < ids@.len() && #[trigger] ids@[i]@ == c.devices[n].id@ {
                let i = choose|i: int|
                    0 <= i < ids@.len() && #[trigger] ids@[i]@ == c.devices[n].id@;
                lemma_number(c.recs(), ids@[i]@, 0);
                let m = number_of(c.recs(), ids@[i]@);
                if m < n {
                    assert(c.recs()[m].id != c.recs()[n].id);
                }
                assert(q[i] == n);
            }
        },
    }
}

proof fn lemma_hits_are(
    recs: Seq<Record>,
    q: Seq<int>,
    cat: i32,
    preds: Seq<TextPred>,
    k: int,
    n: int,
)
    requires
        0 <= k <= q.len(),
    ensures
        hits(recs, q, cat, preds, k).contains(n) <==> 0 <= n < recs.len() && answers(
            recs[n],
            cat,
            preds,
        ) && exists|i: int| 0 <= i < k && #[trigger] q[i] == n,
    decreases k,
{
    if k > 0 {
        lemma_hits_are(recs, q, cat, preds, k - 1, n);
        let (s, t) = (hits(recs, q, cat, preds, k - 1), hits(recs, q, cat, preds, k));
        if t.contains(n) {
            let j = t.index_of(n);
            if j < s.len() {
                assert(s[j] == n);
                let i = choose|i: int| 0 <= i < k - 1 && #[trigger] q[i] == n;
                assert(0 <= i < k && q[i] == n);
            } else {
                assert(q[k - 1] == n);
            }
        }
        if 0 <= n < recs.len() && answers(recs[n], cat, preds) && exists|i: int|
            0 <= i < k && #[trigger] q[i] == n {
            let i = choose|i: int| 0 <= i < k && #[trigger] q[i] == n;
            if i < k - 1 {
                assert(0 <= i < k - 1 && q[i] == n);
                let j = s.index_of(n);
                assert(t[j] == n);
            } else {
                assert(t[s.len() as int] == n);
            }
        }
    }
}

/// Counting goes by what comes first.
proof fn lemma_count_prefix(a: Seq<int>, b: Seq<int>, v: Seq<int>, w: Seq<int>, g: int, k: int)
    requires
        0 <= k <= a.len(),
        k <= b.len(),
        v.len() == a.len(),
        w.len() == b.len(),
        forall|i: int| 0 <= i < k ==> #[trigger] a[i] == b[i],
        forall|i: int| 0 <= i < k ==> #[trigger] v[i] == w[i],
    ensures
        occurrences(a, g, k) == occurrences(b, g, k),
        summed(a, v, g, k) == summed(b, w, g, k),
    decreases k,
{
    if k > 0 {
        lemma_count_prefix(a, b, v, w, g, k - 1);
        assert(a[k - 1] == b[k - 1]);
        assert(v[k - 1] == w[k - 1]);
    }
}

/// What is counted under a marker, place by place.
proof fn lemma_crowd(
    c: Collection,
    l: Seq<int>,
    cat: i32,
    preds: Seq<TextPred>,
    dev: spec_fn(int) -> int,
    f: spec_fn(int) -> int,
    z: int,
    g: int,
    k: int,
)
    requires
        c.sound(),
        c.searchable(preds),
        0 <= k <= l.len(),
        forall|i: int| 0 <= i < l.len() ==> #[trigger] l[i] == dev(i),
        forall|n: int| #[trigger] f(n) == marker(c.index.net(), n, z),
    ensures
        ({
            let q = hits(c.recs(), l, cat, preds, k);
            let m = markers(c.index.net(), q, z);
            &&& occurrences(m, g, m.len() as int) == crowd(c, k, cat, preds, dev, f, g)
            &&& summed(m, xs(c.recs(), q), g, m.len() as int) == crowd_x(
                c,
                k,
                cat,
                preds,
                dev,
                f,
                g,
            )
            &&& summed(m, ys(c.recs(), q), g, m.len() as int) == crowd_y(
                c,
                k,
                cat,
                preds,
                dev,
                f,
                g,
            )
        }),
    decreases k,
{
    if k > 0 {
        lemma_crowd(c, l, cat, preds, dev, f, z, g, k - 1);
        let recs = c.recs();
        let (p, q) = (hits(recs, l, cat, preds, k - 1), hits(recs, l, cat, preds, k));
        let (a, b) = (markers(c.index.net(), p, z), markers(c.index.net(), q, z));
        let n = l[k - 1];
        assert(n == dev(k - 1));
        assert(f(n) == marker(c.index.net(), n, z));
        lemma_count_prefix(a, b, xs(recs, p), xs(recs, q), g, a.len() as int);
        lemma_count_prefix(a, b, ys(recs, p), ys(recs, q), g, a.len() as int);
        if 0 <= n < recs.len() {
            lemma_answers(c, n, cat, preds);
            assert(recs[n] == c.devices[n].record());
        }
        if 0 <= n < recs.len() && answers(recs[n], cat, preds) {
            assert(q == p.push(n));
            assert(b[a.len() as int] == f(n));
            assert(counted(c, cat, preds, dev, f, f(n), k - 1));
        } else {
            assert(!counted(c, cat, preds, dev, f, g, k - 1));
        }
    }
}

/// The markers that are in the box.
spec fn keys_in(
    recs: Seq<Record>,
    q: Seq<int>,
    m: Seq<int>,
    gs: Seq<int>,
    w: Window,
    k: int,
) -> Seq<int>
    decreases k,
{
    if k <= 0 {
        seq![]
    } else {
        let s = keys_in(recs, q, m, gs, w, k - 1);
        if inside(w, gathered(recs, q, m, gs[k - 1])) {
            s.push(gs[k - 1])
        } else {
            s
        }
    }
}

proof fn lemma_keys_in(recs: Seq<Record>, q: Seq<int>, m: Seq<int>, gs: Seq<int>, w: Window, k: int)
    requires
        0 <= k <= gs.len(),
        gs.no_duplicates(),
    ensures
        ({
            let (s, out) = (keys_in(recs, q, m, gs, w, k), gathered_all(recs, q, m, gs, w, k));
            &&& s.len() == out.len()
            &&& s.no_duplicates()
            &&& forall|i: int|
                0 <= i < s.len() ==> #[trigger] out[i] == gathered(recs, q, m, s[i]) && inside(
                    w,
                    out[i],
                ) && exists|j: int| 0 <= j < k && gs[j] == s[i]
            &&& forall|j: int|
                0 <= j < k && inside(w, gathered(recs, q, m, #[trigger] gs[j])) ==> s.contains(gs[j])
        }),
    decreases k,
{
    if k > 0 {
        lemma_keys_in(recs, q, m, gs, w, k - 1);
        let p = keys_in(recs, q, m, gs, w, k - 1);
        let s = keys_in(recs, q, m, gs, w, k);
        let g = gs[k - 1];
        let was = gathered_all(recs, q, m, gs, w, k - 1);
        let out = gathered_all(recs, q, m, gs, w, k);
        assert forall|i: int| 0 <= i < p.len() implies p[i] != g by {
            assert(was[i] == gathered(recs, q, m, p[i]));
            let j = choose|j: int| 0 <= j < k - 1 && gs[j] == p[i];
            assert(gs[j] != gs[k - 1]);
        }
        assert forall|i: int| 0 <= i < s.len() implies #[trigger] out[i] == gathered(
            recs,
            q,
            m,
            s[i],
        ) && inside(w, out[i]) && exists|j: int| 0 <= j < k && gs[j] == s[i] by {
            if i < p.len() {
                assert(was[i] == gathered(recs, q, m, p[i]));
                let j = choose|j: int| 0 <= j < k - 1 && gs[j] == p[i];
                assert(0 <= j < k && gs[j] == s[i]);
            } else {
                assert(gs[k - 1] == s[i]);
            }
        }
        assert forall|j: int|
            0 <= j < k && inside(w, gathered(recs, q, m, #[trigger] gs[j])) implies s.contains(
            gs[j],
        ) by {
            if j < k - 1 {
                let i = p.index_of(gs[j]);
                assert(p.contains(gs[j]));
                assert(s[i] == gs[j]);
            } else {
                assert(s[p.len() as int] == g);
            }
        }
    }
}

proof fn lemma_first(m: Seq<int>, g: int, i: int)
    requires
        0 <= i <= m.len(),
        exists|j: int| i <= j < m.len() && #[trigger] m[j] == g,
    ensures
        i <= first_place(m, g, i) < m.len(),
        m[first_place(m, g, i)] == g,
    decreases m.len() - i,
{
    if m[i] != g {
        let j = choose|j: int| i <= j < m.len() && #[trigger] m[j] == g;
        assert(i + 1 <= j < m.len() && m[j] == g);
        lemma_first(m, g, i + 1);
    }
}

proof fn lemma_quotient(sum: int, n: int, q: int)
    requires
        n > 0,
    ensures
        is_mean(sum / n, sum, n),
        is_mean(q, sum, n) ==> q == sum / n,
{
    vstd::arithmetic::div_mod::lemma_fundamental_div_mod(sum, n);
    let d = sum / n;
    let r = sum % n;
    assert(0 <= r < n);
    assert(n * d == d * n) by (nonlinear_arith);
    assert((d + 1) * n == d * n + n) by (nonlinear_arith);
    if is_mean(q, sum, n) {
        assert(q == d) by (nonlinear_arith)
            requires
                n > 0,
                q * n <= sum < (q + 1) * n,
                d * n <= sum < (d + 1) * n,
        ;
    }
}

/// **Markers of a selection**: a search or a whitelist draws exactly the groups of matches whose
/// centroid lies in the box, on both axes, each with its number of matches and its centroid; two
/// matches are in one group exactly if the map at that zoom counts them in one feature.
#[verifier::rlimit(40)]
pub proof fn law_selection(
    c: Collection,
    out: Seq<Drawn>,
    all: Seq<Feature>,
    cands: Candidates,
    zoom: int,
    cat: i32,
    preds: Seq<TextPred>,
    x0: int,
    y0: int,
    x1: int,
    y1: int,
)
    requires
        c.wf(),
        c.searchable(preds),
        places(c, cands) <= u32::MAX,
        x0 <= x1 && y0 <= y1,
        out == c.selection(Window::of(x0, y0, x1, y1), zoom, cat, preds, cands),
        c.index.sees(all, -1, zoom, Window::of(0, 0, PREC_I as int, PREC_I as int)),
    ensures
        exists|keys: Seq<int>, dev: spec_fn(int) -> int, f: spec_fn(int) -> int, g: spec_fn(int) -> int|
            {
                &&& looks_up(c, cands, dev)
                &&& #[trigger] selects_right(
                    c,
                    out,
                    keys,
                    places(c, cands),
                    cat,
                    preds,
                    dev,
                    f,
                    x0,
                    y0,
                    x1,
                    y1,
                )
                &&& #[trigger] accounts(c.index.net(), c.index.slots(), -1, all, g)
                &&& forall|a: u64, b: u64, p: int, r: int|
                    #![trigger c.index.net().named(p, a), c.index.net().named(r, b)]
                    c.index.net().named(p, a) && c.index.net().named(r, b) ==> (f(a as int) == f(
                        b as int,
                    ) <==> g(p) == g(r))
            },
{
    let w = Window::of(x0, y0, x1, y1);
    let net = c.index.net();
    let z = c.index.zoom_of(zoom);
    c.index.law_invariants();
    assert(c.config.max_zoom == c.index.opts().max_zoom && c.index.opts().min_zoom == 0);
    let recs = c.recs();
    let dev = lemma_looks_up(c, cands);
    let l = looked_at(recs, cands);
    let n = places(c, cands);
    let q = matching(recs, cands, cat, preds);
    let m = markers(net, q, z);
    let gs = distinct(m, m.len() as int);
    let f = |i: int| marker(net, i, z);
    lemma_hits(recs, l, cat, preds, l.len() as int);
    super::laws::law_selection_partition(m);
    lemma_keys_in(recs, q, m, gs, w, gs.len() as int);
    let keys = keys_in(recs, q, m, gs, w, gs.len() as int);
    assert forall|i: int| 0 <= i < q.len() implies 0 <= #[trigger] xs(recs, q)[i] <= PREC_I && 0
        <= #[trigger] ys(recs, q)[i] <= PREC_I by {
        assert(answers(recs[q[i]], cat, preds));
        c.lemma_hit(q[i], z);
    }
    assert forall|i: int| 0 <= i < out.len() implies {
        let (d, k) = (#[trigger] out[i], keys[i]);
        let cr = crowd(c, n, cat, preds, dev, f, k);
        &&& d.count == cr && d.per == 1 && d.cluster_id is None
        &&& is_mean(d.sx as int, crowd_x(c, n, cat, preds, dev, f, k), cr)
        &&& is_mean(d.sy as int, crowd_y(c, n, cat, preds, dev, f, k), cr)
        &&& x0 <= d.sx <= x1 && y0 <= d.sy <= y1
        &&& if cr == 1 {
            exists|j: int|
                0 <= j < n && #[trigger] counted(c, cat, preds, dev, f, k, j) && d.device == Some(
                    c.devices[dev(j)].id@,
                ) && d.props == maybe(c.devices[dev(j)].props)
        } else {
            d.device is None && d.props is None
        }
    } by {
        let k = keys[i];
        assert(out[i] == gathered(recs, q, m, k));
        let j = choose|j: int| 0 <= j < gs.len() && gs[j] == k;
        assert(gs.contains(k));
        lemma_distinct_from(m, m.len() as int, k);
        lemma_group_numbers(c, l, cat, preds, dev, f, z, k);
        if crowd(c, n, cat, preds, dev, f, k) == 1 {
            lemma_first(m, k, 0);
            let h = first_place(m, k, 0);
            assert(f(q[h]) == k);
            assert(answers(recs[q[h]], cat, preds));
            lemma_hits_are(recs, l, cat, preds, l.len() as int, q[h]);
            assert(q.contains(q[h]));
            let u = choose|u: int| 0 <= u < l.len() && #[trigger] l[u] == q[h];
            assert(dev(u) == q[h]);
            lemma_answers(c, q[h], cat, preds);
            assert(recs[q[h]] == c.devices[q[h]].record());
            assert(counted(c, cat, preds, dev, f, k, u));
        }
    }
    assert forall|k: int, x: int, y: int|
        #![trigger is_mean(x, crowd_x(c, n, cat, preds, dev, f, k), crowd(c, n, cat, preds, dev, f, k)), is_mean(y, crowd_y(c, n, cat, preds, dev, f, k), crowd(c, n, cat, preds, dev, f, k))]
        is_mean(x, crowd_x(c, n, cat, preds, dev, f, k), crowd(c, n, cat, preds, dev, f, k))
            && is_mean(y, crowd_y(c, n, cat, preds, dev, f, k), crowd(c, n, cat, preds, dev, f, k))
            && x0 <= x <= x1 && y0 <= y <= y1 implies keys.contains(k) by {
        lemma_crowd(c, l, cat, preds, dev, f, z, k, l.len() as int);
        if !gs.contains(k) {
            lemma_absent(m, xs(recs, q), k, m.len() as int);
        }
        lemma_distinct_from(m, m.len() as int, k);
        lemma_group_numbers(c, l, cat, preds, dev, f, z, k);
        lemma_quotient(crowd_x(c, n, cat, preds, dev, f, k), crowd(c, n, cat, preds, dev, f, k), x);
        lemma_quotient(crowd_y(c, n, cat, preds, dev, f, k), crowd(c, n, cat, preds, dev, f, k), y);
        let j = gs.index_of(k);
        assert(gs[j] == k);
        assert(inside(w, gathered(recs, q, m, gs[j])));
    }
    assert(selects_right(c, out, keys, n, cat, preds, dev, f, x0, y0, x1, y1));
    let g = lemma_groups(c.index, all, -1, zoom, Window::of(0, 0, PREC_I as int, PREC_I as int));
    assert forall|a: u64, b: u64, p: int, r: int|
        #![trigger net.named(p, a), net.named(r, b)]
        net.named(p, a) && net.named(r, b) implies (f(a as int) == f(b as int) <==> g(p) == g(r)) by {
        assert(net.named(net.holder(a), a));
        assert(net.named(net.holder(b), b));
        assert(net.pts[p].id == net.pts[net.holder(a)].id);
        assert(net.pts[r].id == net.pts[net.holder(b)].id);
        assert(p == net.holder(a) && r == net.holder(b));
    }
    assert(looks_up(c, cands, dev) && selects_right(
        c,
        out,
        keys,
        n,
        cat,
        preds,
        dev,
        f,
        x0,
        y0,
        x1,
        y1,
    ) && accounts(net, c.index.slots(), -1, all, g));
}

/// What is distinct in a list stands in it.
proof fn lemma_distinct_from(m: Seq<int>, k: int, g: int)
    requires
        0 <= k <= m.len(),
    ensures
        distinct(m, k).contains(g) ==> exists|i: int| 0 <= i < k && #[trigger] m[i] == g,
        distinct(m, k).contains(g) ==> occurrences(m, g, k) >= 1,
        occurrences(m, g, k) >= 0,
    decreases k,
{
    if k > 0 {
        lemma_distinct_from(m, k - 1, g);
        let (s, t) = (distinct(m, k - 1), distinct(m, k));
        if t.contains(g) {
            let j = t.index_of(g);
            if j < s.len() {
                assert(s[j] == g);
                let i = choose|i: int| 0 <= i < k - 1 && #[trigger] m[i] == g;
                assert(0 <= i < k && m[i] == g);
            } else {
                assert(m[k - 1] == g);
            }
        }
    }
}

/// The numbers of a group.
proof fn lemma_group_numbers(
    c: Collection,
    l: Seq<int>,
    cat: i32,
    preds: Seq<TextPred>,
    dev: spec_fn(int) -> int,
    f: spec_fn(int) -> int,
    z: int,
    g: int,
)
    requires
        c.wf(),
        c.searchable(preds),
        z >= 0,
        l.len() <= u32::MAX,
        forall|i: int| 0 <= i < l.len() ==> #[trigger] l[i] == dev(i),
        forall|n: int| #[trigger] f(n) == marker(c.index.net(), n, z),
        occurrences(
            markers(c.index.net(), hits(c.recs(), l, cat, preds, l.len() as int), z),
            g,
            hits(c.recs(), l, cat, preds, l.len() as int).len() as int,
        ) >= 1,
    ensures
        ({
            let q = hits(c.recs(), l, cat, preds, l.len() as int);
            let m = markers(c.index.net(), q, z);
            let d = gathered(c.recs(), q, m, g);
            let n = l.len() as int;
            let k = crowd(c, n, cat, preds, dev, f, g);
            &&& k == occurrences(m, g, m.len() as int)
            &&& d.count == k
            &&& d.sx == crowd_x(c, n, cat, preds, dev, f, g) / k
            &&& d.sy == crowd_y(c, n, cat, preds, dev, f, g) / k
            &&& is_mean(d.sx as int, crowd_x(c, n, cat, preds, dev, f, g), k)
            &&& is_mean(d.sy as int, crowd_y(c, n, cat, preds, dev, f, g), k)
        }),
{
    let recs = c.recs();
    let q = hits(recs, l, cat, preds, l.len() as int);
    let m = markers(c.index.net(), q, z);
    lemma_hits(recs, l, cat, preds, l.len() as int);
    lemma_crowd(c, l, cat, preds, dev, f, z, g, l.len() as int);
    assert forall|i: int| 0 <= i < q.len() implies 0 <= #[trigger] xs(recs, q)[i] <= PREC_I by {
        assert(answers(recs[q[i]], cat, preds));
        c.lemma_hit(q[i], z);
    }
    assert forall|i: int| 0 <= i < q.len() implies 0 <= #[trigger] ys(recs, q)[i] <= PREC_I by {
        assert(answers(recs[q[i]], cat, preds));
        c.lemma_hit(q[i], z);
    }
    lemma_summed(m, xs(recs, q), g, m.len() as int);
    lemma_summed(m, ys(recs, q), g, m.len() as int);
    let k = occurrences(m, g, m.len() as int);
    let (sx, sy) = (
        summed(m, xs(recs, q), g, m.len() as int),
        summed(m, ys(recs, q), g, m.len() as int),
    );
    lemma_quotient(sx, k, 0);
    lemma_quotient(sy, k, 0);
    assert(0 <= sx / k <= PREC_I) by (nonlinear_arith)
        requires
            k >= 1,
            0 <= sx <= k * PREC_I,
    ;
    assert(0 <= sy / k <= PREC_I) by (nonlinear_arith)
        requires
            k >= 1,
            0 <= sy <= k * PREC_I,
    ;
}

/// The device at place `i` matches and stands in the box, on both axes.
pub open spec fn stands_in(
    c: Collection,
    cat: i32,
    preds: Seq<TextPred>,
    dev: spec_fn(int) -> int,
    i: int,
    x0: int,
    y0: int,
    x1: int,
    y1: int,
) -> bool {
    &&& 0 <= dev(i) < c.devices.len()
    &&& is_match(c, dev(i), cat, preds)
    &&& c.devices[dev(i)].position matches Some((x, y)) && x0 <= x <= x1 && y0 <= y <= y1
}

/// The places, in order, whose device is listed.
spec fn listed_places(
    c: Collection,
    cat: i32,
    preds: Seq<TextPred>,
    dev: spec_fn(int) -> int,
    x0: int,
    y0: int,
    x1: int,
    y1: int,
    k: int,
) -> Seq<int>
    decreases k,
{
    if k <= 0 {
        seq![]
    } else {
        let s = listed_places(c, cat, preds, dev, x0, y0, x1, y1, k - 1);
        if stands_in(c, cat, preds, dev, k - 1, x0, y0, x1, y1) {
            s.push(k - 1)
        } else {
            s
        }
    }
}

proof fn lemma_boxed_prefix(recs: Seq<Record>, p: Seq<int>, q: Seq<int>, w: Window, k: int)
    requires
        0 <= k <= p.len() <= q.len(),
        forall|i: int| 0 <= i < p.len() ==> #[trigger] q[i] == p[i],
    ensures
        boxed(recs, p, w, k) == boxed(recs, q, w, k),
    decreases k,
{
    if k > 0 {
        lemma_boxed_prefix(recs, p, q, w, k - 1);
        assert(q[k - 1] == p[k - 1]);
    }
}

proof fn lemma_listed(
    c: Collection,
    l: Seq<int>,
    cat: i32,
    preds: Seq<TextPred>,
    dev: spec_fn(int) -> int,
    x0: int,
    y0: int,
    x1: int,
    y1: int,
    k: int,
)
    requires
        c.wf(),
        c.searchable(preds),
        x0 <= x1 && y0 <= y1,
        0 <= k <= l.len(),
        forall|i: int| 0 <= i < l.len() ==> #[trigger] l[i] == dev(i),
    ensures
        ({
            let q = hits(c.recs(), l, cat, preds, k);
            let b = boxed(c.recs(), q, Window::of(x0, y0, x1, y1), q.len() as int);
            let ks = listed_places(c, cat, preds, dev, x0, y0, x1, y1, k);
            &&& b.len() == ks.len()
            &&& forall|i: int| 0 <= i < ks.len() ==> #[trigger] b[i] == dev(ks[i])
            &&& forall|i: int| 0 <= i < ks.len() ==> 0 <= #[trigger] ks[i] < k && stands_in(
                c,
                cat,
                preds,
                dev,
                ks[i],
                x0,
                y0,
                x1,
                y1,
            )
            &&& forall|i: int, j: int| 0 <= i < j < ks.len() ==> #[trigger] ks[i] < #[trigger] ks[j]
            &&& forall|i: int|
                0 <= i < k && #[trigger] stands_in(c, cat, preds, dev, i, x0, y0, x1, y1)
                    ==> ks.contains(i)
        }),
    decreases k,
{
    if k > 0 {
        lemma_listed(c, l, cat, preds, dev, x0, y0, x1, y1, k - 1);
        let recs = c.recs();
        let w = Window::of(x0, y0, x1, y1);
        let (p, q) = (hits(recs, l, cat, preds, k - 1), hits(recs, l, cat, preds, k));
        let s = listed_places(c, cat, preds, dev, x0, y0, x1, y1, k - 1);
        let t = listed_places(c, cat, preds, dev, x0, y0, x1, y1, k);
        let n = l[k - 1];
        assert(n == dev(k - 1));
        lemma_boxed_prefix(recs, p, q, w, p.len() as int);
        if 0 <= n < recs.len() {
            lemma_answers(c, n, cat, preds);
            assert(recs[n] == c.devices[n].record());
            assert(good_record(c.devices[n].record(), c.opts(), c.fields()));
        }
        assert forall|i: int| 0 <= i < k && #[trigger] stands_in(
            c,
            cat,
            preds,
            dev,
            i,
            x0,
            y0,
            x1,
            y1,
        ) implies t.contains(i) by {
            if i < k - 1 {
                assert(s.contains(i));
                let j = s.index_of(i);
                assert(t[j] == i);
            } else {
                assert(t[s.len() as int] == i);
            }
        }
    }
}

/// A listing: the places of the devices listed, in order, and what each is listed as.
pub open spec fn lists_right(
    c: Collection,
    out: Seq<Drawn>,
    ks: Seq<int>,
    n: int,
    cat: i32,
    preds: Seq<TextPred>,
    dev: spec_fn(int) -> int,
    x0: int,
    y0: int,
    x1: int,
    y1: int,
    page: Page,
) -> bool {
    &&& forall|i: int, j: int| 0 <= i < j < ks.len() ==> #[trigger] ks[i] < #[trigger] ks[j]
    &&& forall|i: int|
        #![trigger stands_in(c, cat, preds, dev, i, x0, y0, x1, y1)]
        #![trigger ks.contains(i)]
        ks.contains(i) <==> 0 <= i < n && stands_in(c, cat, preds, dev, i, x0, y0, x1, y1)
    &&& out.len() <= page.limit
    &&& out.len() < page.limit ==> page.offset + out.len() >= ks.len()
    &&& out.len() > 0 ==> page.offset + out.len() <= ks.len()
    &&& forall|j: int|
        0 <= j < out.len() ==> {
            let (d, o) = (#[trigger] out[j], c.devices[dev(ks[page.offset + j])]);
            &&& d.device == Some(o.id@)
            &&& d.count == 1 && d.per == 1 && d.cluster_id is None
            &&& o.position == Some((d.sx as i32, d.sy as i32))
            &&& d.props == (if page.with_props {
                maybe(o.props)
            } else {
                None
            })
        }
}

/// **A listing lists every match in the box once, in order, page by page**: of all devices in the
/// order of their numbers, of a whitelist in the order in which it names them; the total is how
/// many there are on all pages together.
pub proof fn law_listing(
    c: Collection,
    out: Seq<Drawn>,
    all: int,
    cands: Candidates,
    cat: i32,
    preds: Seq<TextPred>,
    x0: int,
    y0: int,
    x1: int,
    y1: int,
    page: Page,
)
    requires
        c.wf(),
        c.searchable(preds),
        x0 <= x1 && y0 <= y1,
        ({
            let q = matching(c.recs(), cands, cat, preds);
            let b = boxed(c.recs(), q, Window::of(x0, y0, x1, y1), q.len() as int);
            all == b.len() && out == paged(c.recs(), b, page)
        }),
    ensures
        exists|ks: Seq<int>, dev: spec_fn(int) -> int|
            {
                &&& looks_up(c, cands, dev)
                &&& all == ks.len()
                &&& #[trigger] lists_right(
                    c,
                    out,
                    ks,
                    places(c, cands),
                    cat,
                    preds,
                    dev,
                    x0,
                    y0,
                    x1,
                    y1,
                    page,
                )
            },
{
    let recs = c.recs();
    let dev = lemma_looks_up(c, cands);
    let l = looked_at(recs, cands);
    let n = places(c, cands);
    lemma_listed(c, l, cat, preds, dev, x0, y0, x1, y1, n);
    let ks = listed_places(c, cat, preds, dev, x0, y0, x1, y1, n);
    let q = matching(recs, cands, cat, preds);
    let b = boxed(recs, q, Window::of(x0, y0, x1, y1), q.len() as int);
    assert forall|i: int|
        #![trigger stands_in(c, cat, preds, dev, i, x0, y0, x1, y1)]
        #![trigger ks.contains(i)]
        ks.contains(i) <==> 0 <= i < n && stands_in(c, cat, preds, dev, i, x0, y0, x1, y1) by {
        if ks.contains(i) {
            let j = ks.index_of(i);
            assert(ks[j] == i);
        }
    }
    assert forall|j: int| 0 <= j < out.len() implies {
        let (d, o) = (#[trigger] out[j], c.devices[dev(ks[page.offset + j])]);
        &&& d.device == Some(o.id@)
        &&& d.count == 1 && d.per == 1 && d.cluster_id is None
        &&& o.position == Some((d.sx as i32, d.sy as i32))
        &&& d.props == (if page.with_props {
            maybe(o.props)
        } else {
            None
        })
    } by {
        let k = page.offset + j;
        assert(b[k] == dev(ks[k]));
        assert(stands_in(c, cat, preds, dev, ks[k], x0, y0, x1, y1));
        assert(recs[b[k]] == c.devices[b[k]].record());
    }
    assert(lists_right(c, out, ks, n, cat, preds, dev, x0, y0, x1, y1, page));
}

/// **What a plain marker says**: one that stands for a single device names it, with its position
/// and its properties; one for several has their number, the sums of their coordinates to divide
/// by it, and a handle.
pub proof fn law_plain_markers(
    c: Collection,
    out: Seq<Drawn>,
    fs: Seq<Feature>,
    zoom: int,
    cat: int,
    x0: int,
    y0: int,
    x1: int,
    y1: int,
    i: int,
)
    requires
        c.wf(),
        x0 <= x1 && y0 <= y1,
        c.index.sees(fs, cat, zoom, Window::of(x0, y0, x1, y1)),
        out == super::query::pictured_all(c.recs(), fs),
        0 <= i < out.len(),
    ensures
        out.len() == fs.len(),
        x0 * out[i].count <= out[i].sx <= x1 * out[i].count,
        y0 * out[i].count <= out[i].sy <= y1 * out[i].count,
        out[i].per == out[i].count,
        out[i].count >= 1,
        match fs[i] {
            Feature::Point { id, x, y } => {
                &&& out[i].count == 1
                &&& out[i].cluster_id is None
                &&& id < c.devices.len()
                &&& c.devices[id as int].last_seen != NEVER
                &&& out[i].device == Some(c.devices[id as int].id@)
                &&& c.devices[id as int].position == Some((x, y))
                &&& out[i].sx == x && out[i].sy == y
                &&& out[i].props == maybe(c.devices[id as int].props)
            },
            Feature::Cluster { cluster_id, count, sx, sy } => {
                &&& out[i].count == count && count >= 2
                &&& out[i].sx == sx && out[i].sy == sy
                &&& out[i].cluster_id == Some(cluster_id)
                &&& out[i].device is None
                &&& out[i].props is None
            },
        },
{
    let nc = c.index;
    let (net, n, k, z) = (nc.net(), nc.slots(), nc.effective(cat), nc.zoom_of(zoom));
    let w = Window::of(x0, y0, x1, y1);
    let q = crate::order::sight(nc.lists(), net, n, k, z, w);
    nc.law_invariants();
    assert(net.shows(fs[i], n, k, q[i], z));
    assert(q.contains(q[i]));
    assert(net.drawn(n, k, q[i], z, w));
    crate::index::promises::lemma_mean(nc, fs[i], k, q[i], z, x0, y0, x1, y1);
    crate::laws::lemma_tally_bound(net, n, k, q[i], z);
    match fs[i] {
        Feature::Point { id, x, y } => {
            if net.tally(n, 0, k, q[i], z) == 1 {
                let m = choose|m: int| #[trigger]
                    net.member(m, q[i], z, k) && fs[i] == (Feature::Point {
                        id: net.pts[m].id,
                        x: net.pts[m].x as i32,
                        y: net.pts[m].y as i32,
                    });
                assert(net.has(m) && net.sound_point(m));
                assert(net.named(m, id));
                crate::register::lemma_register(net, m, id);
                assert(net.register().contains_key(id));
                assert(super::wanted(c.recs()).contains_key(id));
                assert(c.recs()[id as int] == c.devices[id as int].record());
                assert(good_record(c.devices[id as int].record(), c.opts(), c.fields()));
            }
        },
        Feature::Cluster { cluster_id, count, sx, sy } => {},
    }
}

} // verus!
