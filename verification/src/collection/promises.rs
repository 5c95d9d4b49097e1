//! What a caller can rely on, told by what goes in and what comes out: reports, patches, expiry and
//! restarts.
use super::ingest::{batch_fault, cell_fault, cells_fault, props_fault, reading_fault, report_fault,
    reported, reported_all, taken_count, with_id, Rules, Told};
use super::persist::{refiled, restored_all, restored_one, skipped_of, Restoring, Stored};
use super::upkeep::{outcome, patch_fault, patched, patched_all, PatchOutcome};
use super::{blank, good_record, ids_differ, lemma_number, maybe, number_of, wanted, Collection,
    Record, NEVER};
use crate::config::Config;
use crate::json::{json_members, json_valid};
use crate::schema::first_fault;
use crate::sums::{lemma_total_ext, total};
use crate::text::{first_solid, texts};
use vstd::utf8::encode_utf8;
use vstd::prelude::*;

verus! {

/// The version a record has for an id; none where there is no such record.
spec fn version_at(recs: Seq<Record>, id: Seq<char>) -> Option<u64> {
    let n = number_of(recs, id);
    if n < recs.len() {
        recs[n].version
    } else {
        None
    }
}

/// Where an id is found does not change with what is reported.
proof fn lemma_reported_place(recs: Seq<Record>, t: Told, rules: Rules, id: Seq<char>)
    ensures
        ({
            let b = reported(recs, t, rules);
            let n = number_of(recs, id);
            &&& recs.len() <= b.len()
            &&& forall|i: int| 0 <= i < recs.len() ==> (#[trigger] b[i]).id == recs[i].id
            &&& n < recs.len() ==> number_of(b, id) == n
            &&& n >= recs.len() && t.id == id ==> number_of(b, id) == recs.len() && b.len()
                == recs.len() + 1
            &&& n >= recs.len() && t.id != id ==> number_of(b, id) >= b.len()
        }),
{
    let b = reported(recs, t, rules);
    lemma_number(recs, id, 0);
    lemma_number(recs, t.id, 0);
    lemma_number(b, id, 0);
    let (n, m) = (number_of(recs, id), number_of(b, id));
    if n < recs.len() {
        assert(b[n].id == id);
        if m < n {
            assert(b[m].id == recs[m].id);
        }
    } else {
        if m < recs.len() {
            assert(b[m].id == recs[m].id);
        }
        if t.id == id {
            assert(b[recs.len() as int].id == id);
        }
    }
}

/// What the newest report of a device leaves behind, and what stands before it is taken.
proof fn lemma_newest(recs: Seq<Record>, q: Seq<Told>, rules: Rules, i: int, k: int)
    requires
        0 <= i < q.len(),
        0 <= k <= q.len(),
        q[i].version is Some,
        version_at(recs, q[i].id) matches Some(v) ==> v < q[i].version->0,
        forall|j: int|
            0 <= j < q.len() && j != i && (#[trigger] q[j]).id == q[i].id ==> (q[j].version matches Some(
                v,
            ) ==> v < q[i].version->0),
    ensures
        ({
            let b = reported_all(recs, q, rules, k);
            let n = number_of(b, q[i].id);
            &&& k <= i ==> (version_at(b, q[i].id) matches Some(v) ==> v < q[i].version->0)
            &&& i < k ==> n < b.len() && b[n].at == q[i].at && b[n].version == q[i].version
                && b[n].seen == rules.now && (q[i].cells is Some ==> b[n].cells == q[i].cells->0) && (
            q[i].props is Some ==> b[n].props == q[i].props)
        }),
    decreases k,
{
    if k > 0 {
        lemma_newest(recs, q, rules, i, k - 1);
        let a = reported_all(recs, q, rules, k - 1);
        let t = q[k - 1];
        lemma_reported_place(a, t, rules, q[i].id);
        lemma_number(a, t.id, 0);
        lemma_number(a, q[i].id, 0);
        let all = with_id(a, t.id, rules.names.len() as int);
        if t.id == q[i].id {
            assert(number_of(a, t.id) == number_of(a, q[i].id));
        } else if number_of(a, q[i].id) < a.len() && number_of(a, t.id) < a.len() {
            assert(a[number_of(a, q[i].id)].id != a[number_of(a, t.id)].id);
        }
    }
}

/// **A newer report is always taken**: of the reports of a device in a batch, the one with the
/// greatest version, if it is greater than the device's own, leaves its position, its version, its
/// time, and the cells and properties that it names, in whatever order they come. How much newer it
/// is does not matter.
pub proof fn law_newest_report_stands(
    c: Collection,
    n: Collection,
    q: Seq<Told>,
    now: u64,
    r: usize,
    i: int,
    d: int,
)
    requires
        now != NEVER,
        c.takes(n, q, now, Ok(r)),
        0 <= i < q.len(),
        q[i].version is Some,
        forall|m: int|
            0 <= m < c.devices.len() && (#[trigger] c.devices[m]).id@ == q[i].id ==> (
            c.devices[m].last_update matches Some(v) ==> v < q[i].version->0),
        forall|j: int|
            0 <= j < q.len() && j != i && (#[trigger] q[j]).id == q[i].id ==> (q[j].version matches Some(
                v,
            ) ==> v < q[i].version->0),
    ensures
        exists|m: int| 0 <= m < n.devices.len() && (#[trigger] n.devices[m]).id@ == q[i].id,
        0 <= d < n.devices.len() && n.devices[d].id@ == q[i].id ==> {
            &&& n.devices[d].position == q[i].at
            &&& n.devices[d].last_update == q[i].version
            &&& n.devices[d].last_seen == now
            &&& q[i].cells matches Some(v) ==> n.devices[d].cells@ == v
            &&& q[i].props is Some ==> maybe(n.devices[d].props) == q[i].props
            &&& c.agrees() ==> n.index.net().register().contains_key(d as u64)
        },
{
    let rules = c.rules(now);
    let (a, b) = (c.recs(), n.recs());
    let id = q[i].id;
    lemma_number(a, id, 0);
    if number_of(a, id) < a.len() {
        assert(c.devices[number_of(a, id)].id@ == id);
    }
    lemma_newest(a, q, rules, i, q.len() as int);
    let m = number_of(b, id);
    lemma_number(b, id, 0);
    assert(n.devices[m].id@ == id);
    if 0 <= d < n.devices.len() && n.devices[d].id@ == id {
        n.lemma_numbered(id);
        assert(d == m) by {
            if d < m {
                assert(b[d].id != b[m].id);
            } else if m < d {
                assert(b[m].id != b[d].id);
            }
        }
        assert(b[m] == n.devices[m].record());
        if c.agrees() {
            assert(wanted(b).contains_key(m as u64));
        }
    }
}

/// Each id is found where it stands.
pub proof fn lemma_own_place(recs: Seq<Record>, n: int)
    requires
        ids_differ(recs),
        0 <= n < recs.len(),
    ensures
        number_of(recs, recs[n].id) == n,
{
    lemma_number(recs, recs[n].id, 0);
    let m = number_of(recs, recs[n].id);
    if m < n {
        assert(recs[m].id != recs[n].id);
    }
}

proof fn lemma_late(recs: Seq<Record>, q: Seq<Told>, rules: Rules, n: int, k: int)
    requires
        ids_differ(recs),
        0 <= n < recs.len(),
        0 <= k <= q.len(),
        recs[n].version is Some,
        forall|j: int|
            0 <= j < q.len() && (#[trigger] q[j]).id == recs[n].id ==> (q[j].version matches Some(v)
                ==> v <= recs[n].version->0),
    ensures
        reported_all(recs, q, rules, k).len() >= recs.len(),
        reported_all(recs, q, rules, k)[n] == recs[n],
        number_of(reported_all(recs, q, rules, k), recs[n].id) == n,
    decreases k,
{
    lemma_own_place(recs, n);
    if k > 0 {
        lemma_late(recs, q, rules, n, k - 1);
        let a = reported_all(recs, q, rules, k - 1);
        let t = q[k - 1];
        lemma_reported_place(a, t, rules, recs[n].id);
        lemma_number(a, t.id, 0);
        if t.id == recs[n].id {
            assert(number_of(a, t.id) == n);
        } else if number_of(a, t.id) == n {
            assert(a[n].id == t.id);
        }
    }
}

/// **A late report changes nothing**: once a device has a version, reports without one, or with
/// one that is no greater, leave it as it was, however many there are.
pub proof fn law_late_reports_change_nothing(
    c: Collection,
    n: Collection,
    q: Seq<Told>,
    now: u64,
    r: usize,
    d: int,
)
    requires
        c.sound(),
        c.takes(n, q, now, Ok(r)),
        0 <= d < c.devices.len(),
        c.devices[d].last_update is Some,
        forall|j: int|
            0 <= j < q.len() && (#[trigger] q[j]).id == c.devices[d].id@ ==> (
            q[j].version matches Some(v) ==> v <= c.devices[d].last_update->0),
    ensures
        d < n.devices.len(),
        n.devices[d].record() == c.devices[d].record(),
{
    c.lemma_numbered(c.devices[d].id@);
    assert(c.recs()[d] == c.devices[d].record());
    lemma_late(c.recs(), q, c.rules(now), d, q.len() as int);
    assert(n.recs()[d] == n.devices[d].record());
}

proof fn lemma_last(recs: Seq<Record>, q: Seq<Told>, rules: Rules, i: int, k: int)
    requires
        0 <= i < q.len(),
        0 <= k <= q.len(),
        version_at(recs, q[i].id) is None,
        forall|j: int| 0 <= j < q.len() && (#[trigger] q[j]).id == q[i].id ==> q[j].version is None,
        forall|j: int| i < j < q.len() ==> (#[trigger] q[j]).id != q[i].id,
    ensures
        ({
            let b = reported_all(recs, q, rules, k);
            let n = number_of(b, q[i].id);
            &&& version_at(b, q[i].id) is None
            &&& i < k ==> n < b.len() && b[n].at == q[i].at && b[n].seen == rules.now && (q[i].cells
                is Some ==> b[n].cells == q[i].cells->0) && (q[i].props is Some ==> b[n].props
                == q[i].props)
        }),
    decreases k,
{
    if k > 0 {
        lemma_last(recs, q, rules, i, k - 1);
        let a = reported_all(recs, q, rules, k - 1);
        let t = q[k - 1];
        lemma_reported_place(a, t, rules, q[i].id);
        lemma_number(a, t.id, 0);
        lemma_number(a, q[i].id, 0);
        if t.id == q[i].id {
            assert(number_of(a, t.id) == number_of(a, q[i].id));
        } else if number_of(a, q[i].id) < a.len() && number_of(a, t.id) < a.len() {
            assert(a[number_of(a, q[i].id)].id != a[number_of(a, t.id)].id);
        }
    }
}

/// **Without versions the last report stands**: a device that has none takes what comes, in the
/// order in which it comes.
pub proof fn law_last_report_stands(
    c: Collection,
    n: Collection,
    q: Seq<Told>,
    now: u64,
    r: usize,
    i: int,
    d: int,
)
    requires
        c.takes(n, q, now, Ok(r)),
        0 <= i < q.len(),
        forall|m: int|
            0 <= m < c.devices.len() && (#[trigger] c.devices[m]).id@ == q[i].id
                ==> c.devices[m].last_update is None,
        forall|j: int| 0 <= j < q.len() && (#[trigger] q[j]).id == q[i].id ==> q[j].version is None,
        forall|j: int| i < j < q.len() ==> (#[trigger] q[j]).id != q[i].id,
    ensures
        exists|m: int| 0 <= m < n.devices.len() && (#[trigger] n.devices[m]).id@ == q[i].id,
        0 <= d < n.devices.len() && n.devices[d].id@ == q[i].id ==> {
            &&& n.devices[d].position == q[i].at
            &&& n.devices[d].last_update is None
            &&& n.devices[d].last_seen == now
            &&& q[i].cells matches Some(v) ==> n.devices[d].cells@ == v
            &&& q[i].props is Some ==> maybe(n.devices[d].props) == q[i].props
        },
{
    let (a, b) = (c.recs(), n.recs());
    let id = q[i].id;
    lemma_number(a, id, 0);
    if number_of(a, id) < a.len() {
        assert(c.devices[number_of(a, id)].id@ == id);
    }
    lemma_last(a, q, c.rules(now), i, q.len() as int);
    let m = number_of(b, id);
    lemma_number(b, id, 0);
    assert(n.devices[m].id@ == id);
    if 0 <= d < n.devices.len() && n.devices[d].id@ == id {
        n.lemma_numbered(id);
        lemma_own_place(b, d);
        assert(b[m] == n.devices[m].record());
    }
}

/// **One report, from end to end**: it is taken unless the device has a version that the report's
/// own is not greater than; what it leaves of the device is what it names, and of what it does
/// not name what a live device had. A device that was not live goes where a new one goes.
pub proof fn law_one_report(c: Collection, n: Collection, t: Told, now: u64, r: usize, d: int)
    requires
        c.sound(),
        now != NEVER,
        c.takes(n, seq![t], now, Ok(r)),
        0 <= d < n.devices.len(),
        n.devices[d].id@ == t.id,
    ensures
        d < c.devices.len() ==> c.devices[d].id@ == t.id,
        ({
            let known = d < c.devices.len();
            let live = known && c.devices[d].last_seen != NEVER;
            let fresh = !known || c.devices[d].last_update is None || (t.version is Some
                && t.version->0 > c.devices[d].last_update->0);
            let e = n.devices[d];
            &&& r == (if fresh {
                1int
            } else {
                0
            })
            &&& !fresh ==> n.recs() == c.recs()
            &&& fresh ==> {
                &&& e.position == t.at
                &&& e.last_seen == now
                &&& e.last_update == (if t.version is Some {
                    t.version
                } else {
                    None
                })
                &&& e.cells@ == (if t.cells is Some {
                    t.cells->0
                } else if live {
                    c.devices[d].cells@
                } else {
                    c.default_cells@
                })
                &&& maybe(e.props) == (if t.props is Some {
                    t.props
                } else if live {
                    maybe(c.devices[d].props)
                } else {
                    None
                })
            }
        }),
        forall|m: int|
            0 <= m < c.devices.len() && m != d ==> (#[trigger] n.recs()[m]) == c.recs()[m],
{
    let q = seq![t];
    let rules = c.rules(now);
    let (a, b) = (c.recs(), n.recs());
    reveal_with_fuel(reported_all, 2);
    reveal_with_fuel(taken_count, 2);
    assert(q[0] == t);
    lemma_number(a, t.id, 0);
    lemma_reported_place(a, t, rules, t.id);
    n.lemma_numbered(t.id);
    lemma_own_place(b, d);
    assert(b[d] == n.devices[d].record());
    if d < a.len() {
        assert(a[d] == c.devices[d].record());
        assert(b[d].id == a[d].id);
        assert(good_record(c.devices[d].record(), c.opts(), c.fields()));
    }
}

proof fn lemma_first_fault(i: int, n: int, f: spec_fn(int) -> Option<Seq<char>>)
    ensures
        first_fault(i, n, f) is Some <==> exists|j: int| i <= j < n && #[trigger] f(j) is Some,
    decreases n - i,
{
    if i < n && f(i) is None {
        lemma_first_fault(i + 1, n, f);
        if first_fault(i + 1, n, f) is Some {
            let j = choose|j: int| i + 1 <= j < n && #[trigger] f(j) is Some;
            assert(i <= j < n && f(j) is Some);
        }
        if exists|j: int| i <= j < n && #[trigger] f(j) is Some {
            let j = choose|j: int| i <= j < n && #[trigger] f(j) is Some;
            assert(i + 1 <= j < n && f(j) is Some);
        }
    } else if i < n {
        assert(i <= i < n && f(i) is Some);
    }
}

/// The cells and properties that a report or a patch may bring: no more cells than allowed, all of
/// them existing; an object within the limit, and readable where fields are searched.
pub open spec fn in_order(c: Collection, cells: Option<Seq<u32>>, props: Option<Seq<char>>) -> bool {
    &&& cells matches Some(q) ==> q.len() <= c.schema.max_cells_per_device && forall|j: int|
        0 <= j < q.len() ==> (#[trigger] q[j]) < c.schema.cells
    &&& props matches Some(p) ==> {
        &&& first_solid(p) == Some('{')
        &&& 0 < c.props_limit
        &&& encode_utf8(p).len() <= c.props_limit
        &&& c.config.text.len() > 0 ==> json_members(p) is Ok
    }
}

proof fn lemma_in_order(c: Collection, id: Seq<char>, cells: Option<Seq<u32>>, props: Option<Seq<char>>)
    ensures
        in_order(c, cells, props) <==> cells_fault(c.schema, id, cells) is None && props_fault(
            c.props_limit,
            id,
            props,
        ) is None && reading_fault(texts(c.config.text@), id, props) is None,
{
    match cells {
        Some(q) => {
            let f = |j: int| cell_fault(c.schema, id, q, j);
            lemma_first_fault(0, q.len() as int, f);
            if first_fault(0, q.len() as int, f) is None {
                assert forall|j: int| 0 <= j < q.len() implies (#[trigger] q[j]) < c.schema.cells by {
                    assert(f(j) is None);
                }
            }
        },
        None => {},
    }
}

/// A batch has no fault exactly if all of it is in order.
pub proof fn lemma_batch_fault(c: Collection, q: Seq<Told>)
    ensures
        batch_fault(c.schema, c.props_limit, texts(c.config.text@), q) is None <==> forall|i: int|
            0 <= i < q.len() ==> (#[trigger] q[i]).at is Some && in_order(c, q[i].cells, q[i].props),
{
    let names = texts(c.config.text@);
    let f = |i: int| report_fault(c.schema, c.props_limit, q[i]);
    let g = |i: int| reading_fault(names, q[i].id, q[i].props);
    lemma_first_fault(0, q.len() as int, f);
    lemma_first_fault(0, q.len() as int, g);
    assert(batch_fault(c.schema, c.props_limit, names, q) is None <==> first_fault(
        0,
        q.len() as int,
        f,
    ) is None && first_fault(0, q.len() as int, g) is None);
    assert forall|i: int| 0 <= i < q.len() implies ((#[trigger] q[i]).at is Some && in_order(
        c,
        q[i].cells,
        q[i].props,
    ) <==> f(i) is None && g(i) is None) by {
        lemma_in_order(c, q[i].id, q[i].cells, q[i].props);
    }
    if batch_fault(c.schema, c.props_limit, names, q) is None {
        assert forall|i: int| 0 <= i < q.len() implies (#[trigger] q[i]).at is Some && in_order(
            c,
            q[i].cells,
            q[i].props,
        ) by {
            assert(f(i) is None && g(i) is None);
        }
    }
}

/// **A batch is refused whole or taken whole**: it is refused exactly if a report in it has no
/// finite position, cells that do not exist or are too many, or properties that are no object,
/// over the limit, or unreadable where they have to be read; then nothing changes.
pub proof fn law_batch_refused(
    c: Collection,
    n: Collection,
    q: Seq<Told>,
    now: u64,
    r: Result<usize, String>,
)
    requires
        c.takes(n, q, now, r),
    ensures
        r is Ok <==> forall|i: int|
            0 <= i < q.len() ==> (#[trigger] q[i]).at is Some && in_order(c, q[i].cells, q[i].props),
        r is Err ==> n == c,
{
    lemma_batch_fault(c, q);
}

proof fn lemma_taken_bound(recs: Seq<Record>, q: Seq<Told>, rules: Rules, k: int)
    requires
        0 <= k,
    ensures
        0 <= taken_count(recs, q, rules, k) <= k,
    decreases k,
{
    if k > 0 {
        lemma_taken_bound(recs, q, rules, k - 1);
    }
}

/// **Every report is counted once**, as taken or as late.
pub proof fn law_reports_are_counted(
    c: Collection,
    n: Collection,
    q: Seq<Told>,
    now: u64,
    r: usize,
)
    requires
        c.takes(n, q, now, Ok(r)),
        c.ingested + q.len() <= u64::MAX,
        c.stale_reports + q.len() <= u64::MAX,
    ensures
        n.ingested == c.ingested + r,
        n.stale_reports - c.stale_reports + (n.ingested - c.ingested) == q.len(),
        n.expired == c.expired,
        n.patched == c.patched,
{
    lemma_taken_bound(c.recs(), q, c.rules(now), q.len() as int);
}

proof fn lemma_patched_frame(recs: Seq<Record>, t: Told, names: Seq<Seq<char>>, n: int)
    requires
        ids_differ(recs),
        0 <= n < recs.len(),
    ensures
        ids_differ(patched(recs, t, names)),
        patched(recs, t, names).len() == recs.len(),
        patched(recs, t, names)[n].id == recs[n].id,
        patched(recs, t, names)[n].seen == recs[n].seen,
        t.id != recs[n].id ==> patched(recs, t, names)[n] == recs[n],
        number_of(recs, recs[n].id) == n,
{
    lemma_own_place(recs, n);
    lemma_number(recs, t.id, 0);
    let b = patched(recs, t, names);
    assert forall|i: int, j: int| 0 <= i < j < b.len() implies (#[trigger] b[i]).id != (#[trigger] b[j]).id by {
        assert(b[i].id == recs[i].id && b[j].id == recs[j].id);
    }
}

proof fn lemma_newest_patch(
    recs: Seq<Record>,
    q: Seq<Told>,
    names: Seq<Seq<char>>,
    n: int,
    i: int,
    k: int,
)
    requires
        ids_differ(recs),
        0 <= n < recs.len(),
        recs[n].live(),
        0 <= i < q.len(),
        0 <= k <= q.len(),
        q[i].id == recs[n].id,
        q[i].version is Some,
        recs[n].version matches Some(v) ==> v < q[i].version->0,
        forall|j: int|
            0 <= j < q.len() && j != i && (#[trigger] q[j]).id == recs[n].id ==> (
            q[j].version matches Some(v) ==> v < q[i].version->0),
    ensures
        ({
            let b = patched_all(recs, q, names, k);
            &&& ids_differ(b)
            &&& b.len() == recs.len()
            &&& b[n].id == recs[n].id
            &&& b[n].live()
            &&& k <= i ==> (b[n].version matches Some(v) ==> v < q[i].version->0)
            &&& i < k ==> b[n].version == q[i].version && (q[i].cells is Some ==> b[n].cells
                == q[i].cells->0) && (q[i].props is Some ==> b[n].props == q[i].props)
        }),
    decreases k,
{
    if k > 0 {
        lemma_newest_patch(recs, q, names, n, i, k - 1);
        lemma_patched_frame(patched_all(recs, q, names, k - 1), q[k - 1], names, n);
    }
}

/// **A newer patch is always taken**: of the patches of a live device, the one with the greatest
/// version, if it is greater than the device's own, leaves its version, its cells and its
/// properties, in whatever order they come.
pub proof fn law_newest_patch_stands(
    c: Collection,
    n: Collection,
    q: Seq<Told>,
    r: PatchOutcome,
    i: int,
    d: int,
)
    requires
        c.sound(),
        c.retouches(n, q, Ok(r)),
        0 <= d < c.devices.len(),
        c.devices[d].last_seen != NEVER,
        0 <= i < q.len(),
        q[i].id == c.devices[d].id@,
        q[i].version is Some,
        c.devices[d].last_update matches Some(v) ==> v < q[i].version->0,
        forall|j: int|
            0 <= j < q.len() && j != i && (#[trigger] q[j]).id == q[i].id ==> (q[j].version matches Some(
                v,
            ) ==> v < q[i].version->0),
    ensures
        n.devices.len() == c.devices.len(),
        n.devices[d].id@ == c.devices[d].id@,
        n.devices[d].last_update == q[i].version,
        q[i].cells matches Some(v) ==> n.devices[d].cells@ == v,
        q[i].props is Some ==> maybe(n.devices[d].props) == q[i].props,
        n.devices[d].last_seen == c.devices[d].last_seen,
        n.devices[d].position == c.devices[d].position,
{
    c.lemma_numbered(c.devices[d].id@);
    let names = texts(c.config.text@);
    assert(c.recs()[d] == c.devices[d].record());
    lemma_newest_patch(c.recs(), q, names, d, i, q.len() as int);
    super::laws::law_patch(c.recs(), q, names, q.len() as int, d);
    assert(n.recs()[d] == n.devices[d].record());
}

/// **One patch, from end to end**: it is applied to a live device unless that has a version that
/// the patch's own is not greater than; it replaces what it names and leaves the rest. A device
/// that is not live is named as unknown.
pub proof fn law_one_patch(c: Collection, n: Collection, t: Told, r: PatchOutcome)
    requires
        c.sound(),
        c.retouches(n, seq![t], Ok(r)),
    ensures
        n.devices.len() == c.devices.len(),
        forall|m: int|
            0 <= m < c.devices.len() && (#[trigger] c.devices[m]).id@ != t.id ==> n.recs()[m]
                == c.recs()[m],
        (forall|m: int|
            0 <= m < c.devices.len() && (#[trigger] c.devices[m]).id@ == t.id
                ==> c.devices[m].last_seen == NEVER) ==> {
            &&& r.applied == 0 && r.stale == 0
            &&& texts(r.unknown@) == seq![t.id]
            &&& n.recs() == c.recs()
        },
        forall|d: int|
            0 <= d < c.devices.len() && (#[trigger] c.devices[d]).id@ == t.id && c.devices[d].last_seen
                != NEVER ==> {
                let (o, e) = (c.devices[d], n.devices[d]);
                let fresh = o.last_update is None || (t.version is Some && t.version->0
                    > o.last_update->0);
                &&& r.unknown@.len() == 0
                &&& r.applied == (if fresh {
                    1int
                } else {
                    0
                })
                &&& r.stale == 1 - r.applied
                &&& !fresh ==> n.recs() == c.recs()
                &&& fresh ==> {
                    &&& e.last_seen == o.last_seen && e.position == o.position
                    &&& e.last_update == (if t.version is Some {
                        t.version
                    } else {
                        None
                    })
                    &&& e.cells@ == (if t.cells is Some {
                        t.cells->0
                    } else {
                        o.cells@
                    })
                    &&& maybe(e.props) == (if t.props is Some {
                        t.props
                    } else {
                        maybe(o.props)
                    })
                }
            },
{
    let q = seq![t];
    let names = texts(c.config.text@);
    let (a, b) = (c.recs(), n.recs());
    reveal_with_fuel(patched_all, 2);
    reveal_with_fuel(outcome, 2);
    assert(q[0] == t);
    c.lemma_numbered(t.id);
    lemma_number(a, t.id, 0);
    assert(b == patched(a, t, names));
    assert(b.len() == n.devices.len() && a.len() == c.devices.len());
    let k = number_of(a, t.id);
    if k < a.len() {
        assert(c.devices[k].id@ == t.id);
        assert(a[k] == c.devices[k].record());
    }
    assert forall|m: int| 0 <= m < c.devices.len() && (#[trigger] c.devices[m]).id@ != t.id implies b[m]
        == a[m] by {
        assert(a[m] == c.devices[m].record());
    }
    assert(texts(r.unknown@).len() == r.unknown@.len());
    assert(seq![].push(t.id) =~= seq![t.id]);
    assert forall|d: int|
        0 <= d < c.devices.len() && (#[trigger] c.devices[d]).id@ == t.id implies d == k && a[d]
        == c.devices[d].record() && b[d] == n.devices[d].record() by {
        assert(a[d] == c.devices[d].record());
        lemma_own_place(a, d);
    }
}

/// A batch of patches has no fault exactly if all of it is in order.
pub proof fn lemma_patch_fault(c: Collection, q: Seq<Told>)
    ensures
        patch_fault(c.schema, c.props_limit, texts(c.config.text@), q) is None <==> forall|i: int|
            0 <= i < q.len() ==> in_order(c, (#[trigger] q[i]).cells, q[i].props),
{
    let names = texts(c.config.text@);
    let f = |i: int|
        match cells_fault(c.schema, q[i].id, q[i].cells) {
            Some(e) => Some(e),
            None => props_fault(c.props_limit, q[i].id, q[i].props),
        };
    let g = |i: int| reading_fault(names, q[i].id, q[i].props);
    lemma_first_fault(0, q.len() as int, f);
    lemma_first_fault(0, q.len() as int, g);
    assert(patch_fault(c.schema, c.props_limit, names, q) is None <==> first_fault(
        0,
        q.len() as int,
        f,
    ) is None && first_fault(0, q.len() as int, g) is None);
    assert forall|i: int| 0 <= i < q.len() implies (in_order(c, (#[trigger] q[i]).cells, q[i].props) <==> f(
        i,
    ) is None && g(i) is None) by {
        lemma_in_order(c, q[i].id, q[i].cells, q[i].props);
    }
    if patch_fault(c.schema, c.props_limit, names, q) is None {
        assert forall|i: int| 0 <= i < q.len() implies in_order(c, (#[trigger] q[i]).cells, q[i].props) by {
            assert(f(i) is None && g(i) is None);
        }
    }
}

/// **A batch of patches is refused whole or taken whole**, by the rules for reports.
pub proof fn law_patches_refused(
    c: Collection,
    n: Collection,
    q: Seq<Told>,
    r: Result<PatchOutcome, String>,
)
    requires
        c.retouches(n, q, r),
    ensures
        r is Ok <==> forall|i: int|
            0 <= i < q.len() ==> in_order(c, (#[trigger] q[i]).cells, q[i].props),
        r is Err ==> n == c,
{
    lemma_patch_fault(c, q);
}

/// **A device expires when its TTL has passed, and not before**: a sweep drops a live device
/// exactly if there is a TTL and more than that many seconds have gone by since its last report;
/// whoever stays is as before, and of the others nothing is kept but their ids.
pub proof fn law_expiry(c: Collection, n: Collection, now: u64, dropped: usize, i: int)
    requires
        c.wf(),
        c.sheds(n, now, dropped),
        0 <= i < c.devices.len(),
    ensures
        n.devices.len() == c.devices.len(),
        n.devices[i].id@ == c.devices[i].id@,
        n.devices[i].last_seen != NEVER <==> c.devices[i].last_seen != NEVER && !(c.ttl > 0 && now
            - c.devices[i].last_seen > c.ttl * 1000),
        n.devices[i].last_seen != NEVER ==> n.devices[i].record() == c.devices[i].record(),
        n.devices[i].last_seen == NEVER ==> n.devices[i].position is None && n.devices[i].props
            is None && n.devices[i].cells@.len() == 0 && n.devices[i].last_update is None,
        n.index.net().register().contains_key(i as u64) <==> n.devices[i].last_seen != NEVER,
{
    assert(c.recs()[i] == c.devices[i].record());
    assert(n.recs()[i] == n.devices[i].record());
    assert(n.recs()[i] == (if c.silent(i, now) {
        blank(c.recs()[i].id, c.fields())
    } else {
        c.recs()[i]
    }));
    assert(n.index.net().register() == wanted(n.recs()));
    assert(wanted(n.recs()).contains_key(i as u64) <==> n.recs()[i].live());
    assert(good_record(c.devices[i].record(), c.opts(), c.fields()));
}

/// **A sweep says how many it dropped**: those that were live before and are not any more.
pub proof fn law_expiry_is_counted(c: Collection, n: Collection, now: u64, dropped: usize)
    requires
        c.wf(),
        c.sheds(n, now, dropped),
    ensures
        dropped == total(
            c.devices.len() as int,
            |i: int|
                if c.devices[i].last_seen != NEVER && n.devices[i].last_seen == NEVER {
                    1int
                } else {
                    0
                },
        ),
        c.expired + dropped <= u64::MAX ==> n.expired == c.expired + dropped,
{
    let f = |i: int|
        if c.silent(i, now) {
            1int
        } else {
            0
        };
    let g = |i: int|
        if c.devices[i].last_seen != NEVER && n.devices[i].last_seen == NEVER {
            1int
        } else {
            0
        };
    assert forall|i: int| 0 <= i < c.devices.len() implies #[trigger] f(i) == g(i) by {
        law_expiry(c, n, now, dropped, i);
        assert(c.recs()[i] == c.devices[i].record());
    }
    lemma_total_ext(c.devices.len() as int, f, g);
}

proof fn lemma_restored_place(recs: Seq<Record>, t: Stored, rr: Restoring, id: Seq<char>)
    ensures
        ({
            let b = restored_one(recs, t, rr);
            let n = number_of(recs, id);
            &&& recs.len() <= b.len()
            &&& forall|i: int| 0 <= i < recs.len() ==> (#[trigger] b[i]).id == recs[i].id
            &&& n < recs.len() ==> number_of(b, id) == n
            &&& n >= recs.len() && (t.id != id || t.seen < rr.limit) ==> number_of(b, id) >= b.len()
            &&& n >= recs.len() && t.id == id && t.seen >= rr.limit ==> number_of(b, id)
                == recs.len() && b.len() == recs.len() + 1
        }),
{
    let b = restored_one(recs, t, rr);
    lemma_number(recs, id, 0);
    lemma_number(recs, t.id, 0);
    lemma_number(b, id, 0);
    let (n, m) = (number_of(recs, id), number_of(b, id));
    if n < recs.len() {
        assert(b[n].id == id);
        if m < n {
            assert(b[m].id == recs[m].id);
        }
    } else {
        if m < recs.len() {
            assert(b[m].id == recs[m].id);
        }
        if t.id == id && t.seen >= rr.limit {
            assert(b[recs.len() as int].id == id);
        }
    }
}

proof fn lemma_comes_back(q: Seq<Stored>, rr: Restoring, i: int, k: int)
    requires
        0 <= i < q.len(),
        0 <= k <= q.len(),
        forall|j: int| 0 <= j < q.len() && j != i ==> (#[trigger] q[j]).id != q[i].id,
    ensures
        ({
            let b = restored_all(q, rr, k);
            let n = number_of(b, q[i].id);
            &&& k <= i || q[i].seen < rr.limit ==> n >= b.len()
            &&& k > i && q[i].seen >= rr.limit ==> {
                &&& n < b.len()
                &&& b[n].at == Some((q[i].x, q[i].y))
                &&& b[n].seen == q[i].seen
                &&& b[n].version == q[i].version
                &&& b[n].cells == refiled(q[i].cells, rr)
                &&& b[n].props == (if q[i].props is Some && json_valid(q[i].props->0) {
                    q[i].props
                } else {
                    None
                })
            }
        }),
    decreases k,
{
    if k > 0 {
        lemma_comes_back(q, rr, i, k - 1);
        let a = restored_all(q, rr, k - 1);
        let t = q[k - 1];
        lemma_restored_place(a, t, rr, q[i].id);
        lemma_number(a, t.id, 0);
        lemma_number(a, q[i].id, 0);
        if t.id != q[i].id && number_of(a, q[i].id) < a.len() && number_of(a, t.id) < a.len() {
            assert(a[number_of(a, q[i].id)].id != a[number_of(a, t.id)].id);
        }
    }
}

/// **A restart drops whom the TTL would have dropped, and nobody else**: a stored device comes
/// back exactly if there is no TTL or no more than that many seconds have gone by since its last
/// report, with its position, its time, its version, and its properties if they are JSON.
pub proof fn law_restart_by_ttl(
    c: Collection,
    name: Seq<char>,
    config: Config,
    labels: Seq<Vec<String>>,
    q: Seq<Stored>,
    now: u64,
    skipped: int,
    i: int,
    d: int,
)
    requires
        c.rebuilt(name, config, labels, q, now, skipped),
        0 <= i < q.len(),
        forall|j: int| 0 <= j < q.len() && j != i ==> (#[trigger] q[j]).id != q[i].id,
    ensures
        (exists|m: int| 0 <= m < c.devices.len() && (#[trigger] c.devices[m]).id@ == q[i].id) <==> !(
        config.ttl_seconds > 0 && now - q[i].seen > config.ttl_seconds * 1000),
        0 <= d < c.devices.len() && c.devices[d].id@ == q[i].id ==> {
            &&& c.devices[d].position == Some((q[i].x, q[i].y))
            &&& c.devices[d].last_seen == q[i].seen
            &&& c.devices[d].last_update == q[i].version
            &&& maybe(c.devices[d].props) == (if q[i].props is Some && json_valid(q[i].props->0) {
                q[i].props
            } else {
                None
            })
        },
{
    let rr = c.restoring(now);
    let b = c.recs();
    lemma_comes_back(q, rr, i, q.len() as int);
    lemma_number(b, q[i].id, 0);
    let n = number_of(b, q[i].id);
    assert(b[n] == c.devices[n].record() || n >= b.len());
    if n < b.len() {
        assert(c.devices[n].id@ == q[i].id);
    } else {
        assert forall|m: int| 0 <= m < c.devices.len() implies (#[trigger] c.devices[m]).id@ != q[i].id by {
            assert(b[m] == c.devices[m].record());
        }
    }
    if 0 <= d < c.devices.len() && c.devices[d].id@ == q[i].id {
        c.lemma_numbered(q[i].id);
        assert(b[d] == c.devices[d].record());
        lemma_own_place(b, d);
    }
}

/// **A restart keeps the cells**: a device comes back into its own, if they all exist and are not
/// too many; into the default ones if none of them exists.
pub proof fn law_restart_keeps_cells(
    c: Collection,
    name: Seq<char>,
    config: Config,
    labels: Seq<Vec<String>>,
    q: Seq<Stored>,
    now: u64,
    skipped: int,
    i: int,
    d: int,
)
    requires
        c.rebuilt(name, config, labels, q, now, skipped),
        0 <= i < q.len(),
        forall|j: int| 0 <= j < q.len() && j != i ==> (#[trigger] q[j]).id != q[i].id,
        0 <= d < c.devices.len(),
        c.devices[d].id@ == q[i].id,
    ensures
        0 < q[i].cells.len() <= c.schema.max_cells_per_device && (forall|j: int|
            0 <= j < q[i].cells.len() ==> (#[trigger] q[i].cells[j]) < c.schema.cells)
            ==> c.devices[d].cells@ == q[i].cells,
        (forall|j: int| 0 <= j < q[i].cells.len() ==> (#[trigger] q[i].cells[j]) >= c.schema.cells)
            ==> c.devices[d].cells@ == c.default_cells@,
{
    let rr = c.restoring(now);
    let b = c.recs();
    lemma_comes_back(q, rr, i, q.len() as int);
    lemma_number(b, q[i].id, 0);
    let n = number_of(b, q[i].id);
    c.lemma_numbered(q[i].id);
    assert(b[d] == c.devices[d].record());
    lemma_own_place(b, d);
    crate::keeping::law_restored_cells(q[i].cells, rr);
    assert(c.devices[d].cells@ == b[d].cells);
}

/// **A restart says how many it left out**: those whose TTL has passed.
pub proof fn law_restart_is_counted(
    c: Collection,
    name: Seq<char>,
    config: Config,
    labels: Seq<Vec<String>>,
    q: Seq<Stored>,
    now: u64,
    skipped: int,
)
    requires
        c.rebuilt(name, config, labels, q, now, skipped),
    ensures
        skipped == total(
            q.len() as int,
            |i: int|
                if config.ttl_seconds > 0 && now - q[i].seen > config.ttl_seconds * 1000 {
                    1int
                } else {
                    0
                },
        ),
{
    let f = |i: int|
        if config.ttl_seconds > 0 && now - q[i].seen > config.ttl_seconds * 1000 {
            1int
        } else {
            0
        };
    lemma_skipped(q, c.restoring(now), config.ttl_seconds, now, f, q.len() as int);
}

proof fn lemma_skipped(
    q: Seq<Stored>,
    rr: Restoring,
    ttl: u64,
    now: u64,
    f: spec_fn(int) -> int,
    k: int,
)
    requires
        0 <= k <= q.len(),
        rr.limit == super::upkeep::cutoff(now, ttl),
        forall|i: int|
            0 <= i < q.len() ==> #[trigger] f(i) == (if ttl > 0 && now - q[i].seen > ttl * 1000 {
                1int
            } else {
                0
            }),
    ensures
        skipped_of(q, rr, k) == total(k, f),
    decreases k,
{
    if k > 0 {
        lemma_skipped(q, rr, ttl, now, f, k - 1);
        assert(f(k - 1) == (if ttl > 0 && now - q[k - 1].seen > ttl * 1000 {
            1int
        } else {
            0
        }));
    }
}

} // verus!
