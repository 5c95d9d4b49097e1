//! What holds of a collection whatever is reported to it and asked of it.
use super::ingest::{reported, reported_all, searchable, stale, taken, taken_count, with_id, Rules,
    Told};
use super::persist::{existing, exported, kept, refiled, restored_all, revived, skipped_of,
    Restoring, Stored};
use super::query::{Candidates, Page, TextPred};
use super::select::{answers, distinct, hits, lemma_hits, looked_at, markers, matching, occurrences,
    paged, summed, xs, ys};
use super::upkeep::{fate, forgotten, patched, patched_all};
use super::{blank, ids_differ, lemma_number, number_of, wanted, Collection, Record, NEVER};
use crate::encoding::{resolved, resolved_all, resolved_dim};
use crate::json::json_valid;
use crate::schema::{answer, Dimension, Tables};
use crate::register::{lemma_register, spot};
use crate::sums::{lemma_sum_push, lemma_total_as_sum, lemma_total_change, lemma_total_ext, sum_over,
    total};
use crate::text::texts;
use vstd::prelude::*;

verus! {

/// **What is reported is read back**: after a report that was taken the device is registered, with
/// the position, the time, and all else that the report named.
pub proof fn law_report_is_read(c: Collection, n: Collection, t: Told, now: u64)
    requires
        c.wf(),
        now != NEVER,
        t.at is Some,
        c.takes(n, seq![t], now, Ok(1)),
    ensures
        n.wf(),
        n.has_device(t.id),
        ({
            let r = n.recs()[number_of(n.recs(), t.id)];
            &&& r.at == t.at
            &&& r.seen == now
            &&& t.version is Some ==> r.version == t.version
            &&& t.cells matches Some(q) ==> r.cells == q
            &&& t.props is Some ==> r.props == t.props
        }),
{
    let rules = c.rules(now);
    let q = seq![t];
    let (a, b) = (c.recs(), n.recs());
    reveal_with_fuel(reported_all, 2);
    reveal_with_fuel(taken_count, 2);
    assert(q[0] == t);
    assert(b == reported(a, t, rules));
    assert(taken(a, t, rules));
    lemma_number(a, t.id, 0);
    lemma_place(a, b, t.id);
}

/// **What is removed is gone**: once forgotten a device is not registered, and nobody else
/// changes.
pub proof fn law_removed_is_gone(recs: Seq<Record>, id: Seq<char>, m: int)
    requires
        number_of(recs, id) < recs.len(),
        0 <= m < recs.len(),
    ensures
        ({
            let n = number_of(recs, id);
            let b = forgotten(recs, n);
            &&& number_of(b, id) == n
            &&& !b[n].live()
            &&& m != n ==> b[m] == recs[m]
        }),
{
    lemma_number(recs, id, 0);
    lemma_place(recs, forgotten(recs, number_of(recs, id)), id);
}

/// **A stale report changes nothing** of a device that is known: a versioned device takes nothing
/// unversioned and nothing that is no newer, so a retry that comes late or twice is harmless.
pub proof fn law_stale_report(recs: Seq<Record>, t: Told, rules: Rules)
    requires
        number_of(recs, t.id) < recs.len(),
        stale(recs[number_of(recs, t.id)].version, t.version),
    ensures
        reported(recs, t, rules) == recs,
{
}

/// **A report is idempotent**: the same versioned report again, at any time, is refused.
pub proof fn law_report_once(recs: Seq<Record>, t: Told, rules: Rules, later: Rules)
    requires
        t.version is Some,
        later.names == rules.names,
    ensures
        reported(reported(recs, t, rules), t, later) == reported(recs, t, rules),
{
    lemma_number(recs, t.id, 0);
    let all = with_id(recs, t.id, rules.names.len() as int);
    let n = number_of(recs, t.id);
    let r = reported(recs, t, rules);
    lemma_place(recs, r, t.id);
    if taken(recs, t, rules) {
        assert(r[n].version == t.version);
    } else {
        assert(r == all);
    }
    assert(stale(r[n].version, t.version));
}

/// Where an id is found depends on the ids alone.
proof fn lemma_place(a: Seq<Record>, b: Seq<Record>, id: Seq<char>)
    requires
        a.len() <= b.len(),
        forall|i: int| 0 <= i < a.len() ==> (#[trigger] b[i]).id == a[i].id,
        number_of(a, id) >= a.len() ==> a.len() < b.len() && b[a.len() as int].id == id,
    ensures
        number_of(b, id) == number_of(a, id),
{
    lemma_number(a, id, 0);
    lemma_number(b, id, 0);
    let (n, m) = (number_of(a, id), number_of(b, id));
    if n < a.len() {
        assert(b[n].id == id);
        if m < n {
            assert(a[m].id == b[m].id);
        }
    } else {
        if m < n {
            assert(a[m].id == b[m].id);
        }
    }
}

/// **A bare position report keeps what it does not name**: a live device keeps its filter cells,
/// its properties and its searchable fields.
pub proof fn law_bare_report(recs: Seq<Record>, t: Told, rules: Rules)
    requires
        number_of(recs, t.id) < recs.len(),
        recs[number_of(recs, t.id)].live(),
        t.cells is None,
        t.props is None,
        taken(recs, t, rules),
    ensures
        reported(recs, t, rules)[number_of(recs, t.id)] == (Record {
            seen: rules.now,
            at: t.at,
            version: if t.version is Some {
                t.version
            } else {
                recs[number_of(recs, t.id)].version
            },
            ..recs[number_of(recs, t.id)]
        }),
{
    lemma_number(recs, t.id, 0);
}

/// **Reports touch only the devices they name**, and numbers are permanent: nobody changes place.
pub proof fn law_reports_frame(recs: Seq<Record>, q: Seq<Told>, rules: Rules, k: int, n: int)
    requires
        0 <= k <= q.len(),
        0 <= n < recs.len(),
    ensures
        recs.len() <= reported_all(recs, q, rules, k).len(),
        reported_all(recs, q, rules, k)[n].id == recs[n].id,
        (forall|i: int| 0 <= i < k ==> (#[trigger] q[i]).id != recs[n].id) ==> reported_all(
            recs,
            q,
            rules,
            k,
        )[n] == recs[n],
    decreases k,
{
    if k > 0 {
        law_reports_frame(recs, q, rules, k - 1, n);
        let before = reported_all(recs, q, rules, k - 1);
        lemma_number(before, q[k - 1].id, 0);
        if number_of(before, q[k - 1].id) == n {
            assert(q[k - 1].id == recs[n].id);
        }
    }
}

/// **Versions never go back** by reports.
pub proof fn law_versions_rise(recs: Seq<Record>, q: Seq<Told>, rules: Rules, k: int, n: int)
    requires
        0 <= k <= q.len(),
        0 <= n < recs.len(),
        recs[n].version is Some,
    ensures
        recs.len() <= reported_all(recs, q, rules, k).len(),
        reported_all(recs, q, rules, k)[n].version is Some,
        reported_all(recs, q, rules, k)[n].version->0 >= recs[n].version->0,
    decreases k,
{
    if k > 0 {
        law_versions_rise(recs, q, rules, k - 1, n);
        lemma_number(reported_all(recs, q, rules, k - 1), q[k - 1].id, 0);
    }
}

/// **A patch is not a heartbeat**, does not move a device and brings nobody back: whatever is
/// patched, ids, report times and positions stay, and a device that is not live stays as it is.
/// Nor do versions go back.
pub proof fn law_patch(recs: Seq<Record>, q: Seq<Told>, names: Seq<Seq<char>>, k: int, n: int)
    requires
        0 <= k <= q.len(),
        0 <= n < recs.len(),
    ensures
        patched_all(recs, q, names, k).len() == recs.len(),
        patched_all(recs, q, names, k)[n].id == recs[n].id,
        patched_all(recs, q, names, k)[n].seen == recs[n].seen,
        patched_all(recs, q, names, k)[n].at == recs[n].at,
        !recs[n].live() ==> patched_all(recs, q, names, k)[n] == recs[n],
        recs[n].version is Some ==> patched_all(recs, q, names, k)[n].version is Some
            && patched_all(recs, q, names, k)[n].version->0 >= recs[n].version->0,
    decreases k,
{
    if k > 0 {
        law_patch(recs, q, names, k - 1, n);
        lemma_number(patched_all(recs, q, names, k - 1), q[k - 1].id, 0);
    }
}

/// **A patch replaces whole what it names and leaves the rest**: where it names neither cells nor
/// properties, both stay.
pub proof fn law_patch_keeps(recs: Seq<Record>, t: Told, names: Seq<Seq<char>>)
    requires
        fate(recs, t) is Applied,
    ensures
        ({
            let n = number_of(recs, t.id);
            let r = patched(recs, t, names)[n];
            &&& 0 <= n < recs.len()
            &&& t.cells is None ==> r.cells == recs[n].cells
            &&& t.props is None ==> r.props == recs[n].props && r.text == recs[n].text
            &&& t.cells matches Some(q) ==> r.cells == q
            &&& t.props is Some ==> r.props == t.props
        }),
{
    lemma_number(recs, t.id, 0);
}

/// **A device that comes back does not inherit its previous life**: once forgotten, a bare report
/// files it where a new device goes, without properties.
pub proof fn law_no_inheritance(recs: Seq<Record>, id: Seq<char>, t: Told, rules: Rules)
    requires
        number_of(recs, id) < recs.len(),
        recs[number_of(recs, id)].text.len() == rules.names.len(),
        t.id == id,
        t.cells is None,
        t.props is None,
    ensures
        ({
            let n = number_of(recs, id);
            reported(forgotten(recs, n), t, rules)[n] == (Record {
                seen: rules.now,
                version: t.version,
                at: t.at,
                cells: rules.defaults,
                ..blank(id, rules.names.len() as int)
            })
        }),
{
    lemma_number(recs, id, 0);
    let gone = forgotten(recs, number_of(recs, id));
    lemma_place(recs, gone, id);
}

/// **Without a TTL nobody expires.**
pub proof fn law_no_ttl(c: Collection, n: int, now: u64)
    requires
        c.ttl == 0,
    ensures
        !c.silent(n, now),
{
}

/// **Whoever has just reported does not expire.**
pub proof fn law_fresh_report(c: Collection, n: int, now: u64)
    requires
        c.recs()[n].seen == now,
    ensures
        !c.silent(n, now),
{
}

/// The live records among the first `n`, in order.
pub open spec fn alive(recs: Seq<Record>, n: int) -> Seq<Record>
    decreases n,
{
    if n <= 0 {
        seq![]
    } else if recs[n - 1].live() {
        alive(recs, n - 1).push(recs[n - 1])
    } else {
        alive(recs, n - 1)
    }
}

/// A record that a restart gives back as it was: it is recent enough, its cells exist and are no
/// more than allowed, there is one at least (or there are none to file by), its properties are
/// JSON, and its searchable fields are those of its properties.
pub open spec fn survives(r: Record, rr: Restoring) -> bool {
    let none = blank(r.id, rr.names.len() as int).text;
    &&& r.at is Some
    &&& r.seen >= rr.limit
    &&& r.cells.len() <= rr.most
    &&& forall|j: int| 0 <= j < r.cells.len() ==> (#[trigger] r.cells[j]) < rr.cells
    &&& r.cells.len() == 0 ==> rr.defaults.len() == 0
    &&& r.props matches Some(p) ==> json_valid(p)
    &&& r.text == searchable(rr.names, r.props, none)
}

/// **A restart loses nothing and makes nothing up**: restoring what was exported gives back the
/// live records exactly, in order, and drops none. Coordinates do not drift, however often it is
/// done.
pub proof fn law_restart(recs: Seq<Record>, rr: Restoring)
    requires
        ids_differ(recs),
        forall|i: int|
            0 <= i < recs.len() && (#[trigger] recs[i]).live() ==> survives(recs[i], rr),
    ensures
        ({
            let q = exported(recs, recs.len() as int);
            &&& restored_all(q, rr, q.len() as int) == alive(recs, recs.len() as int)
            &&& skipped_of(q, rr, q.len() as int) == 0
        }),
{
    lemma_restart(recs, rr, recs.len() as int);
}

proof fn lemma_restart(recs: Seq<Record>, rr: Restoring, n: int)
    requires
        0 <= n <= recs.len(),
        ids_differ(recs),
        forall|i: int|
            0 <= i < recs.len() && (#[trigger] recs[i]).live() ==> survives(recs[i], rr),
    ensures
        ({
            let q = exported(recs, n);
            &&& restored_all(q, rr, q.len() as int) == alive(recs, n)
            &&& skipped_of(q, rr, q.len() as int) == 0
        }),
    decreases n,
{
    if n > 0 {
        lemma_restart(recs, rr, n - 1);
        let r = recs[n - 1];
        if r.live() {
            let q = exported(recs, n - 1);
            let p = q.push(kept(r));
            lemma_prefix(q, p, rr, q.len() as int);
            let a = alive(recs, n - 1);
            lemma_alive(recs, n - 1);
            lemma_number(a, r.id, 0);
            let m = number_of(a, r.id);
            if m < a.len() {
                let i = choose|i: int| 0 <= i < n - 1 && a[m] == #[trigger] recs[i];
                assert(recs[i].id != recs[n - 1].id);
            }
            assert(survives(r, rr));
            lemma_existing_all(r.cells, rr.cells, r.cells.len() as int);
            assert(r.cells.take(r.cells.len() as int) =~= r.cells);
            if r.cells.len() == 0 {
                assert(r.cells =~= rr.defaults);
            }
            assert(refiled(r.cells, rr) == r.cells);
            let fresh = blank(r.id, rr.names.len() as int);
            assert(r.at == Some(((r.at->0).0, (r.at->0).1)));
            assert(revived(fresh, kept(r), rr) == r);
            let all = a.push(fresh);
            assert(all.update(m, r) =~= a.push(r));
        }
    }
}

/// What is alive stands among the records.
proof fn lemma_alive(recs: Seq<Record>, n: int)
    requires
        0 <= n <= recs.len(),
    ensures
        forall|j: int|
            0 <= j < alive(recs, n).len() ==> exists|i: int|
                0 <= i < n && #[trigger] alive(recs, n)[j] == #[trigger] recs[i],
    decreases n,
{
    if n > 0 {
        lemma_alive(recs, n - 1);
        let a = alive(recs, n - 1);
        assert forall|j: int| 0 <= j < alive(recs, n).len() implies exists|i: int|
            0 <= i < n && #[trigger] alive(recs, n)[j] == #[trigger] recs[i] by {
            if j < a.len() {
                assert(alive(recs, n)[j] == a[j]);
                let i = choose|i: int| 0 <= i < n - 1 && a[j] == #[trigger] recs[i];
                assert(alive(recs, n)[j] == recs[i]);
            } else {
                assert(alive(recs, n)[j] == recs[n - 1]);
            }
        }
    }
}

/// What is restored first does not depend on what comes after.
proof fn lemma_prefix(q: Seq<Stored>, p: Seq<Stored>, rr: Restoring, k: int)
    requires
        0 <= k <= q.len() <= p.len(),
        forall|i: int| 0 <= i < q.len() ==> #[trigger] p[i] == q[i],
    ensures
        restored_all(p, rr, k) == restored_all(q, rr, k),
        skipped_of(p, rr, k) == skipped_of(q, rr, k),
    decreases k,
{
    if k > 0 {
        lemma_prefix(q, p, rr, k - 1);
        assert(p[k - 1] == q[k - 1]);
    }
}

proof fn lemma_existing_all(q: Seq<u32>, cells: int, n: int)
    requires
        0 <= n <= q.len(),
        forall|j: int| 0 <= j < q.len() ==> (#[trigger] q[j]) < cells,
    ensures
        existing(q, cells, n) == q.take(n),
    decreases n,
{
    if n > 0 {
        lemma_existing_all(q, cells, n - 1);
        assert(q[n - 1] < cells);
        assert(q.take(n - 1).push(q[n - 1]) =~= q.take(n));
    } else {
        assert(q.take(0) =~= seq![]);
    }
}

/// **An empty whitelist means nothing**, not everything.
pub proof fn law_empty_whitelist(recs: Seq<Record>, cands: Candidates, cat: i32, preds: Seq<TextPred>)
    requires
        cands matches Candidates::Ids(ids) && ids@.len() == 0,
    ensures
        matching(recs, cands, cat, preds).len() == 0,
{
}

/// **Paging misses nothing and shows nothing twice**: a page, and the page that begins where it
/// ends, are one longer page.
pub proof fn law_paging(recs: Seq<Record>, q: Seq<int>, a: usize, b: usize, from: usize, props: bool)
    requires
        from + a <= usize::MAX,
        a + b <= usize::MAX,
    ensures
        paged(recs, q, Page { limit: a, offset: from, with_props: props }) + paged(
            recs,
            q,
            Page { limit: b, offset: (from + a) as usize, with_props: props },
        ) == paged(recs, q, Page { limit: (a + b) as usize, offset: from, with_props: props }),
{
    let x = paged(recs, q, Page { limit: a, offset: from, with_props: props });
    let y = paged(recs, q, Page { limit: b, offset: (from + a) as usize, with_props: props });
    let z = paged(recs, q, Page { limit: (a + b) as usize, offset: from, with_props: props });
    assert(x + y =~= z);
}

/// Each marker stands once.
proof fn lemma_distinct(m: Seq<int>, k: int)
    requires
        0 <= k <= m.len(),
    ensures
        distinct(m, k).no_duplicates(),
        forall|i: int| 0 <= i < k ==> distinct(m, k).contains(#[trigger] m[i]),
    decreases k,
{
    if k > 0 {
        lemma_distinct(m, k - 1);
        let s = distinct(m, k - 1);
        let t = distinct(m, k);
        assert forall|i: int| 0 <= i < k implies t.contains(#[trigger] m[i]) by {
            if !s.contains(m[k - 1]) {
                assert(t == s.push(m[k - 1]));
                assert(t[s.len() as int] == m[k - 1]);
                if i < k - 1 {
                    let j = choose|j: int| 0 <= j < s.len() && s[j] == m[i];
                    assert(t[j] == m[i]);
                }
            }
        }
    }
}

/// **Every match is counted in one marker**: no marker stands twice, every match has one, and
/// the counts of all markers add up to the number of matches.
pub proof fn law_selection_partition(m: Seq<int>)
    ensures
        distinct(m, m.len() as int).no_duplicates(),
        forall|i: int| 0 <= i < m.len() ==> distinct(m, m.len() as int).contains(#[trigger] m[i]),
        total(
            distinct(m, m.len() as int).len() as int,
            |j: int| occurrences(m, distinct(m, m.len() as int)[j], m.len() as int),
        ) == m.len(),
{
    lemma_distinct(m, m.len() as int);
    lemma_counts(m, m.len() as int);
}

proof fn lemma_counts(m: Seq<int>, k: int)
    requires
        0 <= k <= m.len(),
    ensures
        total(
            distinct(m, k).len() as int,
            |j: int| occurrences(m, distinct(m, k)[j], k),
        ) == k,
    decreases k,
{
    if k > 0 {
        lemma_counts(m, k - 1);
        lemma_distinct(m, k - 1);
        lemma_distinct(m, k);
        let s = distinct(m, k - 1);
        let t = distinct(m, k);
        let f = |j: int| occurrences(m, s[j], k - 1);
        let g = |j: int| occurrences(m, t[j], k);
        let x = m[k - 1];
        if s.contains(x) {
            let i = choose|i: int| 0 <= i < s.len() && s[i] == x;
            assert forall|j: int| 0 <= j < s.len() && j != i implies #[trigger] f(j) == g(j) by {
                assert(s[j] != s[i]);
            }
            lemma_total_change(s.len() as int, f, g, i);
        } else {
            let n = s.len() as int;
            assert forall|j: int| 0 <= j < n implies #[trigger] f(j) == g(j) by {
                assert(t[j] == s[j]);
                assert(s.contains(s[j]));
            }
            lemma_total_ext(n, f, g);
            assert(t[n] == x);
            super::select::lemma_absent(m, m, x, k - 1);
            assert(g(n) == 1);
        }
    }
}

/// Everything that is interned in `a` is interned in `b`, at the same index.
pub open spec fn extends(a: Tables, b: Tables) -> bool {
    &&& a.len() == b.len()
    &&& forall|d: int, v: Seq<char>|
        0 <= d < a.len() && #[trigger] a[d].contains_key(v) ==> b[d].contains_key(v) && b[d][v]
            == a[d][v]
}

/// **An index, once given to a value, stays its own**, whatever is reported after. A snapshot, or
/// a cell that was resolved before, does not change its meaning.
pub proof fn law_indices_are_permanent(
    dims: Seq<Dimension>,
    t: Tables,
    learns: bool,
    vals: Map<Seq<char>, Vec<String>>,
    n: int,
)
    requires
        t.len() == dims.len(),
        0 <= n <= dims.len(),
    ensures
        extends(t, resolved_all(dims, t, learns, vals, n).1),
    decreases n,
{
    if n > 0 {
        law_indices_are_permanent(dims, t, learns, vals, n - 1);
        let before = resolved_all(dims, t, learns, vals, n - 1);
        if before.0 is Ok {
            let name = dims[n - 1].name@;
            if vals.contains_key(name) {
                lemma_resolved_extends(dims, before.1, learns, n - 1, texts(vals[name]@));
            }
            let after = resolved_dim(dims, before.1, learns, vals, n - 1).1;
            lemma_extends(t, before.1, after);
        }
    }
}

proof fn lemma_extends(a: Tables, b: Tables, c: Tables)
    requires
        extends(a, b),
        extends(b, c),
    ensures
        extends(a, c),
{
    assert forall|d: int, v: Seq<char>|
        0 <= d < a.len() && #[trigger] a[d].contains_key(v) implies c[d].contains_key(v) && c[d][v]
        == a[d][v] by {
        assert(b[d].contains_key(v));
    }
}

proof fn lemma_resolved_extends(
    dims: Seq<Dimension>,
    t: Tables,
    learns: bool,
    d: int,
    list: Seq<Seq<char>>,
)
    requires
        t.len() == dims.len(),
        0 <= d < dims.len(),
    ensures
        extends(t, resolved(dims, t, learns, d, list).1),
    decreases list.len(),
{
    if list.len() > 0 {
        lemma_resolved_extends(dims, t, learns, d, list.drop_last());
        let before = resolved(dims, t, learns, d, list.drop_last());
        if before.0 is Ok {
            let a = answer(dims, before.1, learns, d, list.last()).1;
            assert(extends(before.1, a));
            lemma_extends(t, before.1, a);
        }
    }
}

/// The searchable fields of a record are those of its properties.
pub open spec fn fields_follow(r: Record, names: Seq<Seq<char>>) -> bool {
    r.text == searchable(names, r.props, blank(r.id, names.len() as int).text)
}

/// **Searchable fields follow the properties they came from**: a report or a patch that can be
/// read replaces both or leaves both alone, and so do all later ones.
pub proof fn law_fields_follow_props(recs: Seq<Record>, t: Told, rules: Rules, n: int)
    requires
        super::ingest::reading_fault(rules.names, t.id, t.props) is None,
        0 <= n < recs.len(),
        fields_follow(recs[n], rules.names),
    ensures
        fields_follow(reported(recs, t, rules)[n], rules.names),
        fields_follow(patched(recs, t, rules.names)[n], rules.names),
{
    lemma_number(recs, t.id, 0);
}

/// The matches over the whole fleet are in order of their numbers.
proof fn lemma_hits_rise(recs: Seq<Record>, cat: i32, k: int)
    requires
        0 <= k <= recs.len(),
    ensures
        ({
            let q = hits(recs, looked_at(recs, Candidates::All), cat, seq![], k);
            &&& forall|i: int, j: int| 0 <= i < j < q.len() ==> #[trigger] q[i] < #[trigger] q[j]
            &&& forall|i: int| 0 <= i < q.len() ==> 0 <= #[trigger] q[i] < k
            &&& forall|n: int|
                0 <= n < k && answers(#[trigger] recs[n], cat, seq![]) ==> q.contains(n)
        }),
    decreases k,
{
    if k > 0 {
        lemma_hits_rise(recs, cat, k - 1);
        let l = looked_at(recs, Candidates::All);
        let p = hits(recs, l, cat, seq![], k - 1);
        let q = hits(recs, l, cat, seq![], k);
        assert(l[k - 1] == k - 1);
        assert forall|n: int|
            0 <= n < k && answers(#[trigger] recs[n], cat, seq![]) implies q.contains(n) by {
            if n < k - 1 {
                let i = choose|i: int| 0 <= i < p.len() && p[i] == n;
                assert(q[i] == n);
            } else {
                assert(q[p.len() as int] == n);
            }
        }
    }
}

/// **A search that asks for nothing in particular sees the map**: looking at every device, in a
/// filter cell or in all, each marker has the size and the coordinate sums of the cluster that
/// the ordinary query draws there.
#[verifier::rlimit(40)]
pub proof fn law_search_sees_the_map(c: Collection, cat: i32, z: int, g: int)
    requires
        c.wf(),
        z >= 0,
        cat == -1 || (0 <= cat && c.opts().cells_in_force() > 0),
    ensures
        ({
            let q = matching(c.recs(), Candidates::All, cat, seq![]);
            let m = markers(c.index.net(), q, z);
            let k = m.len() as int;
            &&& occurrences(m, g, k) == c.index.net().tally(c.index.slots(), 0, cat as int, g, z)
            &&& summed(m, xs(c.recs(), q), g, k) == c.index.net().tally(
                c.index.slots(),
                1,
                cat as int,
                g,
                z,
            )
            &&& summed(m, ys(c.recs(), q), g, k) == c.index.net().tally(
                c.index.slots(),
                2,
                cat as int,
                g,
                z,
            )
        }),
{
    let recs = c.recs();
    let net = c.index.net();
    let n = c.index.slots();
    let cc = cat as int;
    let q = matching(recs, Candidates::All, cat, seq![]);
    let m = markers(net, q, z);
    let l = looked_at(recs, Candidates::All);
    c.index.law_invariants();
    lemma_hits_rise(recs, cat, recs.len() as int);
    lemma_hits(recs, l, cat, seq![], l.len() as int);
    let hs = Seq::new(q.len(), |i: int| net.holder(q[i] as u64));
    assert forall|i: int| 0 <= i < q.len() implies net.named(#[trigger] hs[i], q[i] as u64)
        && spot(net.pts[hs[i]]) == super::spot_of(recs[q[i]]) && 0 <= hs[i] < n && net.in_cell(
        hs[i],
        cc,
    ) by {
        let id = q[i] as u64;
        assert(answers(recs[q[i]], cat, seq![]));
        assert(wanted(recs).contains_key(id));
        assert(net.register().contains_key(id));
        assert(net.knows(id));
        assert(net.named(net.holder(id), id));
        lemma_register(net, hs[i], id);
        if cat >= 0 {
            let j = choose|j: int|
                0 <= j < recs[q[i]].cells.len() && recs[q[i]].cells[j] == cat as u32;
            assert(net.pts[hs[i]].cells[j] == cc);
        }
    }
    assert(hs.no_duplicates()) by {
        assert forall|i: int, j: int| 0 <= i < hs.len() && 0 <= j < hs.len() && i != j implies hs[i]
            != hs[j] by {
            assert(net.named(hs[i], q[i] as u64) && net.named(hs[j], q[j] as u64));
            if i < j {
                assert(q[i] < q[j]);
            } else {
                assert(q[j] < q[i]);
            }
        }
    }
    assert forall|a: int| 0 <= a <= 2 implies total(n, #[trigger] net.tally_at(a, cc, g, z))
        == sum_over(hs, net.tally_at(a, cc, g, z)) by {
        let f = net.tally_at(a, cc, g, z);
        assert forall|p: int| 0 <= p < n && !hs.contains(p) implies #[trigger] f(p) == 0 by {
            if net.has(p) && net.in_cell(p, cc) {
                let id = net.pts[p].id;
                assert(net.named(p, id));
                lemma_register(net, p, id);
                assert(wanted(recs).contains_key(id));
                if cat >= 0 {
                    let j = choose|j: int|
                        0 <= j < net.pts[p].cells.len() && #[trigger] net.pts[p].cells[j] == cc;
                    assert(recs[id as int].cells[j] == cat as u32);
                }
                assert(answers(recs[id as int], cat, seq![]));
                let i = choose|i: int| 0 <= i < q.len() && q[i] == id as int;
                assert(hs[i] == p);
            }
        }
        lemma_total_as_sum(n, hs, f);
    }
    lemma_marker_sums(c, q, hs, cc, g, z, q.len() as int);
    assert(hs.take(hs.len() as int) =~= hs);
    assert(total(n, net.tally_at(0, cc, g, z)) == sum_over(hs, net.tally_at(0, cc, g, z)));
    assert(total(n, net.tally_at(1, cc, g, z)) == sum_over(hs, net.tally_at(1, cc, g, z)));
    assert(total(n, net.tally_at(2, cc, g, z)) == sum_over(hs, net.tally_at(2, cc, g, z)));
}

proof fn lemma_marker_sums(
    c: Collection,
    q: Seq<int>,
    hs: Seq<int>,
    cc: int,
    g: int,
    z: int,
    k: int,
)
    requires
        0 <= k <= q.len(),
        hs == Seq::new(q.len(), |i: int| c.index.net().holder(q[i] as u64)),
        forall|i: int|
            0 <= i < q.len() ==> c.index.net().named(#[trigger] hs[i], q[i] as u64) && spot(
                c.index.net().pts[hs[i]],
            ) == super::spot_of(c.recs()[q[i]]) && c.index.net().in_cell(hs[i], cc)
                && c.recs()[q[i]].at is Some,
    ensures
        ({
            let net = c.index.net();
            let m = markers(net, q, z);
            &&& occurrences(m, g, k) == sum_over(hs.take(k), net.tally_at(0, cc, g, z))
            &&& summed(m, xs(c.recs(), q), g, k) == sum_over(
                hs.take(k),
                net.tally_at(1, cc, g, z),
            )
            &&& summed(m, ys(c.recs(), q), g, k) == sum_over(
                hs.take(k),
                net.tally_at(2, cc, g, z),
            )
        }),
    decreases k,
{
    if k > 0 {
        lemma_marker_sums(c, q, hs, cc, g, z, k - 1);
        let net = c.index.net();
        let i = k - 1;
        assert(net.named(hs[i], q[i] as u64));
        lemma_sum_push(hs, i, net.tally_at(0, cc, g, z));
        lemma_sum_push(hs, i, net.tally_at(1, cc, g, z));
        lemma_sum_push(hs, i, net.tally_at(2, cc, g, z));
        assert(xs(c.recs(), q)[i] == net.pts[hs[i]].x);
        assert(ys(c.recs(), q)[i] == net.pts[hs[i]].y);
    }
}

} // verus!
