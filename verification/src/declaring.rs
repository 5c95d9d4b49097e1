//! What declaring a collection means, told by the two declarations: which are the same collection,
//! what is adopted, what the index is built with; and what the metrics say.
use crate::admin::{all_lines, conflict_refusal, line, lines};
use crate::collection::figures::{adopted, CollectionStats};
use crate::collection::Collection;
use crate::config::Config;
use crate::geometry::Options;
use crate::schema::{Dimension, Schema};
use crate::text::{number, quoted, texts};
use vstd::prelude::*;

verus! {

/// Two declarations of a dimension say the same.
pub open spec fn same_dimension(a: Dimension, b: Dimension) -> bool {
    &&& a.name@ == b.name@
    &&& texts(a.values@) == texts(b.values@)
    &&& a.capacity == b.capacity
    &&& a.multi == b.multi
}

/// Two lists of dimensions say the same, in the same order.
pub open spec fn alike_dimensions(a: Seq<Dimension>, b: Seq<Dimension>) -> bool {
    &&& a.len() == b.len()
    &&& forall|i: int| 0 <= i < a.len() ==> same_dimension(#[trigger] a[i], b[i])
}

/// Two lists of filters name the same dimensions, in the same order.
pub open spec fn alike_filters(a: Seq<Vec<String>>, b: Seq<Vec<String>>) -> bool {
    &&& a.len() == b.len()
    &&& forall|i: int| 0 <= i < a.len() ==> texts((#[trigger] a[i])@) == texts(b[i]@)
}

/// **What is frozen**: two declarations can be of the same collection exactly if they differ in
/// nothing but the TTL and the size of the properties; and a conflict names a field that differs.
pub proof fn law_conflict(a: Config, b: Config)
    ensures
        a.conflict(b) is None <==> {
            &&& a.max_zoom == b.max_zoom
            &&& a.radius == b.radius
            &&& a.extent == b.extent
            &&& a.hysteresis == b.hysteresis
            &&& texts(a.categories@) == texts(b.categories@)
            &&& alike_dimensions(a.dimensions@, b.dimensions@)
            &&& alike_filters(a.filters@, b.filters@)
            &&& texts(a.text@) == texts(b.text@)
        },
        a.conflict(b) matches Some(t) ==> {
            ||| t == "max_zoom"@ && a.max_zoom != b.max_zoom
            ||| t == "radius"@ && a.radius != b.radius
            ||| t == "extent"@ && a.extent != b.extent
            ||| t == "hysteresis"@ && a.hysteresis != b.hysteresis
            ||| t == "categories"@ && texts(a.categories@) != texts(b.categories@)
            ||| t == "dimensions"@ && !alike_dimensions(a.dimensions@, b.dimensions@)
            ||| t == "filters"@ && !alike_filters(a.filters@, b.filters@)
            ||| t == "text"@ && texts(a.text@) != texts(b.text@)
        },
        a.conflict(b) is None <==> b.conflict(a) is None,
{
    let (p, q) = (a.dimensions@, b.dimensions@);
    assert(alike_dimensions(p, q) == crate::config::same_dimensions(p, q)) by {
        if p.len() == q.len() {
            assert forall|i: int| 0 <= i < p.len() implies same_dimension(#[trigger] p[i], q[i])
                == p[i].like(q[i]) by {}
        }
    }
    assert(crate::config::same_dimensions(p, q) == crate::config::same_dimensions(q, p)) by {
        if p.len() == q.len() {
            assert forall|i: int| 0 <= i < p.len() implies p[i].like(q[i]) == q[i].like(p[i]) by {}
        }
    }
    let (f, g) = (a.filters@, b.filters@);
    assert(alike_filters(f, g) == crate::config::same_filters(f, g));
    assert(crate::config::same_filters(f, g) == crate::config::same_filters(g, f));
}

/// **What is adopted is named**: the TTL exactly if it changes, the size of the properties exactly
/// if it changes, and nothing else.
pub proof fn law_adopted(c: Collection, cfg: Config)
    ensures
        adopted(c, cfg).contains("ttl_seconds"@) <==> c.ttl != cfg.ttl_seconds,
        adopted(c, cfg).contains("max_props_bytes"@) <==> c.props_limit != cfg.max_props_bytes,
        adopted(c, cfg).no_duplicates(),
        forall|i: int|
            0 <= i < adopted(c, cfg).len() ==> (#[trigger] adopted(c, cfg)[i]) == "ttl_seconds"@
                || adopted(c, cfg)[i] == "max_props_bytes"@,
        c.ttl == cfg.ttl_seconds && c.props_limit == cfg.max_props_bytes ==> adopted(c, cfg).len()
            == 0,
{
    reveal_strlit("ttl_seconds");
    reveal_strlit("max_props_bytes");
    let (t, p) = ("ttl_seconds"@, "max_props_bytes"@);
    assert(t.len() != p.len());
    let v = adopted(c, cfg);
    if c.ttl != cfg.ttl_seconds {
        assert(v[0] == t);
    }
    if c.props_limit != cfg.max_props_bytes {
        assert(v[v.len() - 1] == p);
    }
}

/// **What a declaration declares**: its dimensions as they stand; a list of categories as the one
/// dimension `cat`, of one value each; without either, none. Categories and dimensions do not go
/// together, nor filters without dimensions.
pub proof fn law_declared(c: Config, s: Schema)
    requires
        c.built_of(s),
    ensures
        c.categories.len() == 0 || c.dimensions.len() == 0,
        c.filters.len() == 0 || c.dimensions.len() > 0,
        c.dimensions.len() > 0 ==> alike_dimensions(s.dims@, c.dimensions@),
        c.categories.len() > 0 ==> {
            &&& s.dims.len() == 1
            &&& s.dims[0].name@ == "cat"@
            &&& texts(s.dims[0].values@) == texts(c.categories@)
            &&& s.dims[0].capacity is None
            &&& !s.dims[0].multi
        },
        c.dimensions.len() == 0 && c.categories.len() == 0 ==> s.dims.len() == 0,
{
    if c.dimensions.len() > 0 {
        assert forall|i: int| 0 <= i < s.dims.len() implies same_dimension(
            #[trigger] s.dims@[i],
            c.dimensions@[i],
        ) by {
            assert(s.dims@[i].like(c.dimensions@[i]));
        }
    }
}

/// **What the index is built with**: the zooms from 0 to the declared one, the declared radius,
/// extent and hysteresis, and the cells of the filters.
pub proof fn law_options(c: Config, o: Options, cells: usize, most: usize)
    requires
        o == c.options_for(cells, most),
    ensures
        o.min_zoom == 0 && o.max_zoom == c.max_zoom,
        o.radius == c.radius && o.extent == c.extent && o.hysteresis == c.hysteresis,
        o.cells == cells && o.max_cells_per_device == most,
        o.cells_in_force() == cells,
{
}

/// A text holds a line.
pub open spec fn has_line(s: Seq<char>, l: Seq<char>) -> bool {
    exists|p: int| 0 <= p && p + l.len() <= s.len() && #[trigger] s.subrange(p, p + l.len()) == l
}

/// The line of a figure of a collection.
pub open spec fn figure_line(metric: Seq<char>, name: Seq<char>, value: Seq<char>) -> Seq<char> {
    metric + "{collection=\""@ + name + "\"} "@ + value + "\n"@
}

proof fn lemma_within(a: Seq<char>, l: Seq<char>, b: Seq<char>)
    ensures
        has_line(a + l + b, l),
{
    let s = a + l + b;
    let p = a.len() as int;
    assert(s.subrange(p, p + l.len()) =~= l);
}

proof fn lemma_wider(a: Seq<char>, s: Seq<char>, b: Seq<char>, l: Seq<char>)
    requires
        has_line(s, l),
    ensures
        has_line(a + s + b, l),
{
    let p = choose|p: int|
        0 <= p && p + l.len() <= s.len() && #[trigger] s.subrange(p, p + l.len()) == l;
    let t = a + s + b;
    let q = a.len() + p;
    assert(t.subrange(q, q + l.len()) =~= s.subrange(p, p + l.len()));
}

/// Ten texts in a row hold each of them.
proof fn lemma_ten(v: Seq<Seq<char>>, s: Seq<char>, i: int)
    requires
        v.len() == 10,
        s == v[0] + v[1] + v[2] + v[3] + v[4] + v[5] + v[6] + v[7] + v[8] + v[9],
        0 <= i < 10,
    ensures
        has_line(s, v[i]),
{
    let e = Seq::<char>::empty();
    if i == 0 {
        lemma_within(e, v[0], e);
        assert(e + v[0] + e =~= v[0]);
    }
    let t1 = v[0] + v[1];
    let t2 = t1 + v[2];
    let t3 = t2 + v[3];
    let t4 = t3 + v[4];
    let t5 = t4 + v[5];
    let t6 = t5 + v[6];
    let t7 = t6 + v[7];
    let t8 = t7 + v[8];
    let t9 = t8 + v[9];
    lemma_next(v[0], v[1], v[i], i, 1);
    lemma_next(t1, v[2], v[i], i, 2);
    lemma_next(t2, v[3], v[i], i, 3);
    lemma_next(t3, v[4], v[i], i, 4);
    lemma_next(t4, v[5], v[i], i, 5);
    lemma_next(t5, v[6], v[i], i, 6);
    lemma_next(t6, v[7], v[i], i, 7);
    lemma_next(t7, v[8], v[i], i, 8);
    lemma_next(t8, v[9], v[i], i, 9);
}

proof fn lemma_next(t: Seq<char>, n: Seq<char>, l: Seq<char>, i: int, k: int)
    requires
        i < k ==> has_line(t, l),
        i == k ==> l == n,
    ensures
        i <= k ==> has_line(t + n, l),
{
    let e = Seq::<char>::empty();
    if i < k {
        lemma_wider(e, t, n, l);
        assert(e + t + n =~= t + n);
    } else if i == k {
        lemma_within(t, n, e);
        assert(t + n + e =~= t + n);
    }
}

/// The lines of one collection stand in the lines of all.
proof fn lemma_all_lines(v: Seq<(CollectionStats, String)>, k: int, i: int, l: Seq<char>)
    requires
        0 <= i < k <= v.len(),
        has_line(lines(v[i].0, v[i].1@), l),
    ensures
        has_line(all_lines(v, k), l),
    decreases k,
{
    let e = Seq::<char>::empty();
    let (a, b) = (all_lines(v, k - 1), lines(v[k - 1].0, v[k - 1].1@));
    if i == k - 1 {
        lemma_wider(a, b, e, l);
        assert(a + b + e =~= a + b);
    } else {
        lemma_all_lines(v, k - 1, i, l);
        lemma_wider(e, a, b, l);
        assert(e + a + b =~= a + b);
    }
}

/// **What the metrics say**: of every collection ten lines, each with the figure it names, and how
/// many requests there were.
pub proof fn law_metrics(
    v: Seq<(CollectionStats, String)>,
    requests: u64,
    s: Seq<char>,
    head: Seq<char>,
    i: int,
)
    requires
        s == head + all_lines(v, v.len() as int) + "netcluster_requests_total "@ + number(
            requests as int,
        ) + "\n"@,
        0 <= i < v.len(),
    ensures
        ({
            let (f, n) = (v[i].0, v[i].0.name@);
            &&& has_line(s, figure_line("netcluster_devices"@, n, number(f.devices as int)))
            &&& has_line(s, figure_line("netcluster_reports_total"@, n, number(f.ingested as int)))
            &&& has_line(s, figure_line("netcluster_queries_total"@, n, number(f.queries as int)))
            &&& has_line(s, figure_line("netcluster_expired_total"@, n, number(f.expired as int)))
            &&& has_line(
                s,
                figure_line("netcluster_memory_bytes"@, n, number(f.memory_bytes as int)),
            )
            &&& has_line(s, figure_line("netcluster_fast_move_ratio"@, n, v[i].1@))
            &&& has_line(
                s,
                figure_line(
                    "netcluster_snapshot_last_success_timestamp"@,
                    n,
                    number(f.last_snapshot_ms as int / 1000),
                ),
            )
            &&& has_line(
                s,
                figure_line("netcluster_snapshot_bytes"@, n, number(f.last_snapshot_bytes as int)),
            )
            &&& has_line(
                s,
                figure_line(
                    "netcluster_snapshot_failures_total"@,
                    n,
                    number(f.snapshot_failures as int),
                ),
            )
            &&& has_line(
                s,
                figure_line("netcluster_restored_devices"@, n, number(f.restored as int)),
            )
        }),
        has_line(s, "netcluster_requests_total "@ + number(requests as int) + "\n"@),
{
    let f = v[i].0;
    let n = f.name@;
    let w = seq![
        line("netcluster_devices"@, n, number(f.devices as int)),
        line("netcluster_reports_total"@, n, number(f.ingested as int)),
        line("netcluster_queries_total"@, n, number(f.queries as int)),
        line("netcluster_expired_total"@, n, number(f.expired as int)),
        line("netcluster_memory_bytes"@, n, number(f.memory_bytes as int)),
        line("netcluster_fast_move_ratio"@, n, v[i].1@),
        line(
            "netcluster_snapshot_last_success_timestamp"@,
            n,
            number(f.last_snapshot_ms as int / 1000),
        ),
        line("netcluster_snapshot_bytes"@, n, number(f.last_snapshot_bytes as int)),
        line("netcluster_snapshot_failures_total"@, n, number(f.snapshot_failures as int)),
        line("netcluster_restored_devices"@, n, number(f.restored as int)),
    ];
    let a = all_lines(v, v.len() as int);
    let (t, r) = ("netcluster_requests_total "@, number(requests as int));
    let b = t + r + "\n"@;
    assert(s =~= head + a + b);
    assert(s =~= (head + a) + b + Seq::<char>::empty());
    lemma_within(head + a, b, Seq::<char>::empty());
    assert forall|k: int| 0 <= k < 10 implies has_line(s, #[trigger] w[k]) by {
        lemma_ten(w, lines(f, v[i].1@), k);
        lemma_all_lines(v, v.len() as int, i, w[k]);
        lemma_wider(head, a, b, w[k]);
    }
    assert(has_line(s, w[0]) && has_line(s, w[1]) && has_line(s, w[2]) && has_line(s, w[3])
        && has_line(s, w[4]) && has_line(s, w[5]) && has_line(s, w[6]) && has_line(s, w[7])
        && has_line(s, w[8]) && has_line(s, w[9]));
}

/// **A conflict is told**: as one, with the name of the collection and of the field.
pub proof fn law_conflict_is_told(name: Seq<char>, field: Seq<char>)
    ensures
        conflict_refusal(name, field).status == 409,
        conflict_refusal(name, field).code == "config_conflict"@,
        has_line(conflict_refusal(name, field).message, quoted(name)),
        has_line(conflict_refusal(name, field).message, field),
{
    let m = conflict_refusal(name, field).message;
    let (a, b, c) = (
        "collection "@,
        " already exists with a different "@,
        "; drop it or use another name"@,
    );
    lemma_within(a, quoted(name), b + field + c);
    assert(m =~= a + quoted(name) + (b + field + c));
    lemma_within(a + quoted(name) + b, field, c);
    assert(m =~= (a + quoted(name) + b) + field + c);
}

} // verus!
