//! What a caller can rely on of filters: which declarations are accepted, which index a value has,
//! and which queries are answered.
use crate::encoding::{filter_fault, resolved, resolved_dim, sel_names, sel_value, selected, shape_for};
use crate::geometry::MAX_CELLS;
use crate::schema::{answer, block, blocks, chosen, declared, dim_fault, first_fault, ints,
    name_fault, names, repeats, schema_fault, shape_dims, shape_fault, size_fault, sound_dim,
    tables_ok, value_fault, worst, worst_of, Dimension, Schema, Tables};
use crate::text::{parsed, texts};
use vstd::prelude::*;

verus! {

/// Some place has a fault exactly if the first one is found.
pub proof fn lemma_any_fault(i: int, n: int, f: spec_fn(int) -> Option<Seq<char>>)
    ensures
        first_fault(i, n, f) is Some <==> exists|j: int| i <= j < n && #[trigger] f(j) is Some,
    decreases n - i,
{
    if i < n && f(i) is None {
        lemma_any_fault(i + 1, n, f);
        if first_fault(i + 1, n, f) is Some {
            let j = choose|j: int| i + 1 <= j < n && #[trigger] f(j) is Some;
            assert(i <= j < n && f(j) is Some);
        }
        if exists|j: int| i <= j < n && #[trigger] f(j) is Some {
            let j = choose|j: int| i <= j < n && #[trigger] f(j) is Some;
            assert(i + 1 <= j < n && f(j) is Some);
        }
    } else if i < n {
        assert(i <= i < n && f(i) is Some);
    }
}

/// **A declared value has the index of its place**: a label stands for its place in the list, a
/// numeral that is no label for that place; anything else is refused.
pub proof fn law_declared_value(
    dims: Seq<Dimension>,
    t: Tables,
    learns: bool,
    d: int,
    v: Seq<char>,
    i: int,
)
    requires
        dims[d].capacity is None,
        sound_dim(dims[d]),
        dims[d].values.len() <= u32::MAX,
    ensures
        answer(dims, t, learns, d, v).1 == t,
        answer(dims, t, learns, d, v).0 != Ok::<Option<u32>, Seq<char>>(None),
        0 <= i < dims[d].values.len() && dims[d].values[i]@ == v ==> answer(dims, t, learns, d, v).0
            == Ok::<Option<u32>, Seq<char>>(Some(i as u32)),
        (forall|j: int| 0 <= j < dims[d].values.len() ==> (#[trigger] dims[d].values[j])@ != v) ==> {
            &&& parsed(v) == Some(i) && i < dims[d].values.len() ==> answer(dims, t, learns, d, v).0
                == Ok::<Option<u32>, Seq<char>>(Some(i as u32))
            &&& (parsed(v) is None || parsed(v)->0 >= dims[d].values.len()) ==> answer(
                dims,
                t,
                learns,
                d,
                v,
            ).0 is Err
        },
{
    let q = texts(dims[d].values@);
    if 0 <= i < q.len() && q[i] == v {
        assert(q.contains(v));
        assert(q[q.index_of(v)] == v);
    }
    if q.contains(v) {
        let j = q.index_of(v);
        assert(dims[d].values[j]@ == v);
    }
}

/// **A learned value has an index of its own**: one that was seen keeps it; one that was not is
/// nothing to a query, and gets the next index from a report, as long as there is room.
pub proof fn law_learned_value(dims: Seq<Dimension>, t: Tables, d: int, v: Seq<char>)
    requires
        dims[d].capacity is Some,
        0 <= d < dims.len(),
        tables_ok(dims, t),
        t[d].len() <= u32::MAX,
    ensures
        forall|learns: bool|
            t[d].contains_key(v) ==> #[trigger] answer(dims, t, learns, d, v) == (
                Ok::<Option<u32>, Seq<char>>(Some(t[d][v])),
                t,
            ),
        !t[d].contains_key(v) ==> answer(dims, t, false, d, v) == (
            Ok::<Option<u32>, Seq<char>>(None),
            t,
        ),
        !t[d].contains_key(v) && t[d].len() >= dims[d].capacity->0 ==> answer(dims, t, true, d, v).0
            is Err && answer(dims, t, true, d, v).1 == t,
        !t[d].contains_key(v) && t[d].len() < dims[d].capacity->0 ==> {
            let a = answer(dims, t, true, d, v);
            &&& a.0 == Ok::<Option<u32>, Seq<char>>(Some(t[d].len() as u32))
            &&& a.1[d].contains_key(v) && a.1[d][v] == t[d].len()
            &&& forall|w: Seq<char>|
                w != v ==> (#[trigger] a.1[d].contains_key(w) <==> t[d].contains_key(w)) && (
                t[d].contains_key(w) ==> a.1[d][w] == t[d][w])
            &&& forall|e: int| 0 <= e < t.len() && e != d ==> #[trigger] a.1[e] == t[e]
        },
{
}

/// A dimension declares labels, all different, or a capacity above 0, not both.
pub open spec fn dim_in_order(d: Dimension) -> bool {
    &&& if d.values.len() > 0 {
        d.capacity is None
    } else {
        d.capacity matches Some(n) && n > 0
    }
    &&& forall|i: int, j: int|
        0 <= i < j < d.values.len() ==> (#[trigger] d.values[i])@ != (#[trigger] d.values[j])@
}

/// A filter names dimensions: one at least, all declared, none twice.
pub open spec fn filter_in_order(dims: Seq<Dimension>, f: Seq<Seq<char>>) -> bool {
    &&& f.len() > 0
    &&& f.no_duplicates()
    &&& forall|j: int| 0 <= j < f.len() ==> names(dims).contains(#[trigger] f[j])
}

/// Two filters name the same dimensions.
pub open spec fn same_filter(dims: Seq<Dimension>, f: Seq<Seq<char>>, g: Seq<Seq<char>>) -> bool {
    forall|d: int|
        0 <= d < dims.len() ==> (f.contains(#[trigger] dims[d].name@) <==> g.contains(dims[d].name@))
}

/// Which dimensions are chosen, in order.
pub proof fn lemma_chosen(dims: Seq<Dimension>, f: Seq<Seq<char>>, n: int)
    requires
        0 <= n <= dims.len(),
    ensures
        forall|d: int| #[trigger]
            chosen(dims, f, n).contains(d) <==> 0 <= d < n && f.contains(dims[d].name@),
        forall|i: int, j: int|
            0 <= i < j < chosen(dims, f, n).len() ==> #[trigger] chosen(dims, f, n)[i]
                < #[trigger] chosen(dims, f, n)[j],
    decreases n,
{
    if n > 0 {
        lemma_chosen(dims, f, n - 1);
        let (p, q) = (chosen(dims, f, n - 1), chosen(dims, f, n));
        assert forall|d: int| #[trigger] q.contains(d) <==> 0 <= d < n && f.contains(
            dims[d].name@,
        ) by {
            if p.contains(d) {
                let j = p.index_of(d);
                assert(q[j] == d);
            }
            if q.contains(d) {
                let j = q.index_of(d);
                if j < p.len() {
                    assert(p[j] == d);
                }
            }
            if d == n - 1 && f.contains(dims[d].name@) {
                assert(q[p.len() as int] == d);
            }
        }
        assert forall|i: int, j: int| 0 <= i < j < q.len() implies #[trigger] q[i] < #[trigger] q[j] by {
            if j == p.len() {
                assert(p.contains(p[i]));
            }
        }
    } else {
        assert(chosen(dims, f, n) =~= seq![]);
    }
}

/// Lists in order are one where they hold the same.
proof fn lemma_one_list(p: Seq<int>, q: Seq<int>)
    requires
        forall|i: int, j: int| 0 <= i < j < p.len() ==> #[trigger] p[i] < #[trigger] p[j],
        forall|i: int, j: int| 0 <= i < j < q.len() ==> #[trigger] q[i] < #[trigger] q[j],
        forall|d: int| #[trigger] p.contains(d) <==> q.contains(d),
    ensures
        p == q,
    decreases p.len(),
{
    if p.len() == 0 {
        if q.len() > 0 {
            assert(q.contains(q[0]));
            assert(p.contains(q[0]));
        }
        assert(p =~= q);
    } else {
        assert(p.contains(p.last()));
        assert(q.contains(p.last()));
        assert(q.contains(q.last()));
        assert(p.contains(q.last()));
        let (i, j) = (q.index_of(p.last()), p.index_of(q.last()));
        assert(p.last() == q.last()) by {
            if i < q.len() - 1 {
                assert(q[i] < q[q.len() - 1]);
            }
            if j < p.len() - 1 {
                assert(p[j] < p[p.len() - 1]);
            }
        }
        let (a, b) = (p.drop_last(), q.drop_last());
        assert forall|d: int| #[trigger] a.contains(d) <==> b.contains(d) by {
            if a.contains(d) {
                let k = a.index_of(d);
                assert(p[k] == d);
                assert(p.contains(d));
                let l = q.index_of(d);
                assert(p[k] < p[p.len() - 1]);
                assert(b[l] == d);
            }
            if b.contains(d) {
                let k = b.index_of(d);
                assert(q[k] == d);
                assert(q.contains(d));
                assert(p.contains(d));
                let l = p.index_of(d);
                assert(q[k] < q[q.len() - 1]);
                assert(a[l] == d);
            }
        }
        lemma_one_list(a, b);
        assert(p =~= a.push(p.last()));
        assert(q =~= b.push(q.last()));
    }
}

proof fn lemma_same_filter(dims: Seq<Dimension>, f: Seq<Seq<char>>, g: Seq<Seq<char>>)
    ensures
        same_filter(dims, f, g) <==> chosen(dims, f, dims.len() as int) == chosen(
            dims,
            g,
            dims.len() as int,
        ),
{
    let n = dims.len() as int;
    lemma_chosen(dims, f, n);
    lemma_chosen(dims, g, n);
    let (p, q) = (chosen(dims, f, n), chosen(dims, g, n));
    if same_filter(dims, f, g) {
        assert forall|d: int| #[trigger] p.contains(d) <==> q.contains(d) by {
            if 0 <= d < n {
                assert(f.contains(dims[d].name@) <==> g.contains(dims[d].name@));
            }
        }
        lemma_one_list(p, q);
    }
    if p == q {
        assert forall|d: int| 0 <= d < dims.len() implies (f.contains(#[trigger] dims[d].name@)
            <==> g.contains(dims[d].name@)) by {
            assert(p.contains(d) <==> f.contains(dims[d].name@));
            assert(q.contains(d) <==> g.contains(dims[d].name@));
        }
    }
}

/// **Which declarations of filters are accepted**: those whose dimensions are in order and have
/// different names, whose filters are in order and name different dimensions, and that need no
/// more cells than there can be; a filter needs as many as its dimensions have combinations of
/// values.
pub proof fn law_accepted_filters(dims: Seq<Dimension>, filters: Seq<Vec<String>>)
    ensures
        ({
            let raw = declared(dims, filters);
            schema_fault(dims, filters) is None <==> {
                &&& forall|i: int| 0 <= i < dims.len() ==> dim_in_order(#[trigger] dims[i])
                &&& names(dims).no_duplicates()
                &&& forall|i: int| 0 <= i < raw.len() ==> filter_in_order(dims, #[trigger] raw[i])
                &&& forall|i: int, j: int|
                    0 <= i < j < raw.len() ==> !same_filter(dims, #[trigger] raw[i], #[trigger] raw[j])
                &&& forall|i: int|
                    0 <= i < raw.len() ==> #[trigger] block(dims, shape_dims(dims, raw, i), 0)
                        <= 0x100_0000
                &&& blocks(dims, raw, raw.len() as int) <= 0x100_0000
            }
        }),
{
    let raw = declared(dims, filters);
    let (n, m) = (dims.len() as int, raw.len() as int);
    let f = |i: int| dim_fault(dims, i);
    let g = |i: int| shape_fault(dims, raw, i);
    let h = |i: int| size_fault(dims, raw, i);
    lemma_any_fault(0, n, f);
    lemma_any_fault(0, m, g);
    lemma_any_fault(0, m, h);
    assert forall|i: int| 0 <= i < n implies (#[trigger] f(i) is None <==> dim_in_order(dims[i])
        && !repeats(names(dims), i)) by {
        lemma_dim(dims, i);
    }
    assert forall|i: int| 0 <= i < m implies (#[trigger] g(i) is None <==> filter_in_order(
        dims,
        raw[i],
    ) && forall|e: int| 0 <= e < i ==> !same_filter(dims, #[trigger] raw[e], raw[i])) by {
        lemma_shape(dims, raw, i);
    }
    let ok = schema_fault(dims, filters) is None;
    assert(ok <==> first_fault(0, n, f) is None && first_fault(0, m, g) is None && first_fault(0, m, h)
        is None && blocks(dims, raw, m) <= MAX_CELLS);
    if ok {
        assert forall|i: int| 0 <= i < n implies dim_in_order(#[trigger] dims[i]) by {
            assert(f(i) is None);
        }
        assert(names(dims).no_duplicates()) by {
            assert forall|i: int, j: int| 0 <= i < n && 0 <= j < n && i != j implies names(dims)[i]
                != names(dims)[j] by {
                assert(f(i) is None && f(j) is None);
            }
        }
        assert forall|i: int| 0 <= i < m implies filter_in_order(dims, #[trigger] raw[i]) by {
            assert(g(i) is None);
        }
        assert forall|i: int, j: int| 0 <= i < j < m implies !same_filter(
            dims,
            #[trigger] raw[i],
            #[trigger] raw[j],
        ) by {
            assert(g(j) is None);
        }
        assert forall|i: int| 0 <= i < m implies #[trigger] block(dims, shape_dims(dims, raw, i), 0)
            <= 0x100_0000 by {
            assert(h(i) is None);
        }
    }
    if !ok {
        if first_fault(0, n, f) is Some {
            let i = choose|i: int| 0 <= i < n && #[trigger] f(i) is Some;
            if dim_in_order(dims[i]) && repeats(names(dims), i) {
                let j = choose|j: int| 0 <= j < i && #[trigger] names(dims)[j] == names(dims)[i];
                assert(names(dims)[j] == names(dims)[i]);
            }
        } else if first_fault(0, m, g) is Some {
            let i = choose|i: int| 0 <= i < m && #[trigger] g(i) is Some;
        } else if first_fault(0, m, h) is Some {
            let i = choose|i: int| 0 <= i < m && #[trigger] h(i) is Some;
            assert(block(dims, shape_dims(dims, raw, i), 0) > MAX_CELLS);
        }
    }
}

proof fn lemma_dim(dims: Seq<Dimension>, i: int)
    requires
        0 <= i < dims.len(),
    ensures
        dim_fault(dims, i) is None <==> dim_in_order(dims[i]) && !repeats(names(dims), i),
{
    let d = dims[i];
    let f = |j: int| value_fault(d, j);
    let q = texts(d.values@);
    lemma_any_fault(0, d.values.len() as int, f);
    if first_fault(0, d.values.len() as int, f) is None {
        assert forall|a: int, b: int| 0 <= a < b < d.values.len() implies (#[trigger] d.values[a])@ != (
        #[trigger] d.values[b])@ by {
            assert(f(b) is None);
            assert(q[a] != q[b]);
        }
    } else {
        let b = choose|j: int| 0 <= j < d.values.len() && #[trigger] f(j) is Some;
        let a = choose|j: int| 0 <= j < b && #[trigger] q[j] == q[b];
        assert(d.values[a]@ == d.values[b]@);
    }
}

proof fn lemma_shape(dims: Seq<Dimension>, raw: Seq<Seq<Seq<char>>>, i: int)
    requires
        0 <= i < raw.len(),
    ensures
        shape_fault(dims, raw, i) is None <==> filter_in_order(dims, raw[i]) && forall|e: int|
            0 <= e < i ==> !same_filter(dims, #[trigger] raw[e], raw[i]),
{
    let q = raw[i];
    let f = |j: int| name_fault(dims, q, j);
    lemma_any_fault(0, q.len() as int, f);
    if first_fault(0, q.len() as int, f) is None {
        assert forall|j: int| 0 <= j < q.len() implies names(dims).contains(#[trigger] q[j]) by {
            assert(f(j) is None);
        }
    } else {
        let j = choose|j: int| 0 <= j < q.len() && #[trigger] f(j) is Some;
        assert(!names(dims).contains(q[j]));
    }
    let twice = exists|j: int| 0 <= j < q.len() && #[trigger] repeats(q, j);
    if twice {
        let j = choose|j: int| 0 <= j < q.len() && #[trigger] repeats(q, j);
        let k = choose|k: int| 0 <= k < j && #[trigger] q[k] == q[j];
        assert(q[k] == q[j]);
    } else {
        assert(q.no_duplicates()) by {
            assert forall|a: int, b: int| 0 <= a < q.len() && 0 <= b < q.len() && a != b implies q[a]
                != q[b] by {
                assert(!repeats(q, a) && !repeats(q, b));
            }
        }
    }
    assert forall|e: int| 0 <= e < i implies (same_filter(dims, #[trigger] raw[e], q) <==> chosen(
        dims,
        raw[e],
        dims.len() as int,
    ) == chosen(dims, q, dims.len() as int)) by {
        lemma_same_filter(dims, raw[e], q);
    }
}

/// A value that a query names is known.
pub open spec fn value_known(dims: Seq<Dimension>, t: Tables, d: int, v: Seq<char>) -> bool {
    answer(dims, t, false, d, v).0 matches Ok(Some(_))
}

/// What is chosen first under a name.
pub proof fn lemma_sel_value(sel: Seq<(String, String)>, j: int)
    requires
        sel_names(sel).no_duplicates(),
        0 <= j < sel.len(),
    ensures
        sel_value(sel, sel[j].0@) == sel[j].1@,
    decreases sel.len(),
{
    if j > 0 {
        let r = sel.skip(1);
        assert(sel_names(sel)[0] != sel_names(sel)[j]);
        assert(sel_names(r).no_duplicates()) by {
            assert forall|a: int, b: int|
                0 <= a < r.len() && 0 <= b < r.len() && a != b implies sel_names(r)[a] != sel_names(
                r,
            )[b] by {
                assert(sel_names(sel)[a + 1] != sel_names(sel)[b + 1]);
            }
        }
        assert(r[j - 1] == sel[j]);
        lemma_sel_value(r, j - 1);
    }
}

proof fn lemma_selected(
    dims: Seq<Dimension>,
    t: Tables,
    sh: crate::schema::Shape,
    sel: Seq<(String, String)>,
    n: int,
)
    requires
        0 <= n <= sh.dims.len(),
    ensures
        selected(dims, t, false, sh, sel, n).1 == t,
        selected(dims, t, false, sh, sel, n).0 matches Ok(Some(_)) <==> forall|k: int|
            0 <= k < n ==> value_known(
                dims,
                t,
                (#[trigger] sh.dims[k]) as int,
                sel_value(sel, dims[sh.dims[k] as int].name@),
            ),
    decreases n,
{
    if n > 0 {
        lemma_selected(dims, t, sh, sel, n - 1);
        let d = sh.dims[n - 1] as int;
        let a = answer(dims, t, false, d, sel_value(sel, dims[d].name@));
        assert(a.1 == t);
        if selected(dims, t, false, sh, sel, n).0 matches Ok(Some(_)) {
            assert forall|k: int| 0 <= k < n implies value_known(
                dims,
                t,
                (#[trigger] sh.dims[k]) as int,
                sel_value(sel, dims[sh.dims[k] as int].name@),
            ) by {}
        }
    }
}

proof fn lemma_shape_for(shapes: Seq<crate::schema::Shape>, q: Seq<int>, i: int)
    requires
        0 <= i <= shapes.len(),
    ensures
        shape_for(shapes, q, i) >= 0 <==> exists|k: int|
            i <= k < shapes.len() && ints((#[trigger] shapes[k]).dims@) == q,
        shape_for(shapes, q, i) >= 0 ==> i <= shape_for(shapes, q, i) < shapes.len() && ints(
            shapes[shape_for(shapes, q, i)].dims@,
        ) == q,
    decreases shapes.len() - i,
{
    if i < shapes.len() && ints(shapes[i].dims@) != q {
        lemma_shape_for(shapes, q, i + 1);
        if exists|k: int| i <= k < shapes.len() && ints((#[trigger] shapes[k]).dims@) == q {
            let k = choose|k: int| i <= k < shapes.len() && ints((#[trigger] shapes[k]).dims@) == q;
            assert(i + 1 <= k < shapes.len() && ints(shapes[k].dims@) == q);
        }
    } else if i < shapes.len() {
        assert(i <= i < shapes.len() && ints(shapes[i].dims@) == q);
    }
}

/// A declared filter is over exactly the dimensions that a query names.
pub open spec fn filter_fits(s: Schema, i: int, sel: Seq<(String, String)>) -> bool {
    forall|d: int|
        0 <= d < s.dims.len() ==> (ints(s.shapes[i].dims@).contains(d) <==> sel_names(sel).contains(
            (#[trigger] s.dims[d]).name@,
        ))
}

/// **Which queries are answered**: a query that names nothing asks for everything. Any other is
/// answered with a cell exactly if every name is a dimension, a declared filter is over exactly
/// those dimensions, and every value is known; it is refused if a name is none, or no filter fits.
pub proof fn law_answered_queries(s: Schema, t: Tables, sel: Seq<(String, String)>)
    requires
        s.wf(),
        sel_names(sel).no_duplicates(),
    ensures
        ({
            let r = s.queried(t, false, sel).0;
            let named = forall|j: int|
                0 <= j < sel.len() ==> names(s.dims@).contains((#[trigger] sel[j]).0@);
            let fits = exists|i: int| 0 <= i < s.shapes.len() && #[trigger] filter_fits(s, i, sel);
            let known = forall|j: int, d: int|
                #![trigger sel[j], s.dims[d]]
                0 <= j < sel.len() && 0 <= d < s.dims.len() && s.dims[d].name@ == sel[j].0@
                    ==> value_known(s.dims@, t, d, sel[j].1@);
            &&& s.queried(t, false, sel).1 == t
            &&& sel.len() == 0 ==> r == Ok::<Option<i32>, Seq<char>>(Some(-1i32))
            &&& sel.len() > 0 ==> ((r matches Ok(Some(_))) <==> named && fits && known)
            &&& sel.len() > 0 && !(named && fits) ==> r is Err
        }),
{
    if sel.len() > 0 {
        let dims = s.dims@;
        let f = |j: int| filter_fault(dims, sel, j);
        let n = sel.len() as int;
        lemma_any_fault(0, n, f);
        let named = forall|j: int| 0 <= j < sel.len() ==> names(dims).contains((#[trigger] sel[j]).0@);
        if named {
            if first_fault(0, n, f) is Some {
                let j = choose|j: int| 0 <= j < n && #[trigger] f(j) is Some;
                assert(names(dims).contains(sel[j].0@));
            }
        } else {
            let j = choose|j: int| 0 <= j < sel.len() && !names(dims).contains((#[trigger] sel[j]).0@);
            assert(f(j) is Some);
        }
        let q = chosen(dims, sel_names(sel), dims.len() as int);
        lemma_chosen(dims, sel_names(sel), dims.len() as int);
        lemma_shape_for(s.shapes@, q, 0);
        let si = shape_for(s.shapes@, q, 0);
        assert forall|i: int| 0 <= i < s.shapes.len() implies (#[trigger] filter_fits(s, i, sel) <==> ints(
            s.shapes[i].dims@,
        ) == q) by {
            lemma_fits(s, i, sel);
        }
        if si >= 0 {
            assert(filter_fits(s, si, sel));
            let sh = s.shapes[si];
            lemma_selected(dims, t, sh, sel, sh.dims.len() as int);
            let known = forall|j: int, d: int|
                #![trigger sel[j], s.dims[d]]
                0 <= j < sel.len() && 0 <= d < s.dims.len() && s.dims[d].name@ == sel[j].0@
                    ==> value_known(dims, t, d, sel[j].1@);
            let all = forall|k: int|
                0 <= k < sh.dims.len() ==> value_known(
                    dims,
                    t,
                    (#[trigger] sh.dims[k]) as int,
                    sel_value(sel, dims[sh.dims[k] as int].name@),
                );
            if named && all {
                assert forall|j: int, d: int|
                    #![trigger sel[j], s.dims[d]]
                    0 <= j < sel.len() && 0 <= d < s.dims.len() && s.dims[d].name@ == sel[j].0@
                        implies value_known(dims, t, d, sel[j].1@) by {
                    lemma_sel_value(sel, j);
                    assert(sel_names(sel)[j] == s.dims[d].name@);
                    assert(sel_names(sel).contains(dims[d].name@));
                    assert(q.contains(d));
                    let k = q.index_of(d);
                    assert(ints(sh.dims@)[k] == d);
                    assert(sh.dims[k] == d);
                }
            }
            if named && known {
                assert forall|k: int| 0 <= k < sh.dims.len() implies value_known(
                    dims,
                    t,
                    (#[trigger] sh.dims[k]) as int,
                    sel_value(sel, dims[sh.dims[k] as int].name@),
                ) by {
                    let d = sh.dims[k] as int;
                    assert(ints(sh.dims@)[k] == d);
                    assert(q.contains(d));
                    let j = sel_names(sel).index_of(dims[d].name@);
                    assert(sel_names(sel)[j] == dims[d].name@);
                    lemma_sel_value(sel, j);
                    assert(sel[j].0@ == s.dims[d].name@);
                }
            }
        } else {
            assert forall|i: int| 0 <= i < s.shapes.len() implies !#[trigger] filter_fits(s, i, sel) by {
                if filter_fits(s, i, sel) {
                    assert(ints(s.shapes[i].dims@) == q);
                }
            }
        }
    }
}

proof fn lemma_fits(s: Schema, i: int, sel: Seq<(String, String)>)
    requires
        s.wf(),
        0 <= i < s.shapes.len(),
    ensures
        filter_fits(s, i, sel) <==> ints(s.shapes[i].dims@) == chosen(
            s.dims@,
            sel_names(sel),
            s.dims.len() as int,
        ),
{
    let dims = s.dims@;
    let q = chosen(dims, sel_names(sel), dims.len() as int);
    let p = ints(s.shapes[i].dims@);
    lemma_chosen(dims, sel_names(sel), dims.len() as int);
    assert(s.shape_ok(i));
    assert forall|k: int, l: int| 0 <= k < l < p.len() implies #[trigger] p[k] < #[trigger] p[l] by {
        assert(s.shapes[i].dims[k] < s.shapes[i].dims[l]);
    }
    if filter_fits(s, i, sel) {
        assert forall|d: int| #[trigger] p.contains(d) <==> q.contains(d) by {
            if p.contains(d) {
                let k = p.index_of(d);
                assert(s.shapes[i].dims[k] < s.dims.len());
                assert(0 <= d < s.dims.len());
                assert(s.dims[d].name@ == dims[d].name@);
            }
            if q.contains(d) {
                assert(s.dims[d].name@ == dims[d].name@);
            }
        }
        lemma_one_list(p, q);
    }
    if p == q {
        assert forall|d: int| 0 <= d < s.dims.len() implies (p.contains(d) <==> sel_names(sel).contains(
            (#[trigger] s.dims[d]).name@,
        )) by {
            assert(q.contains(d) <==> sel_names(sel).contains(dims[d].name@));
        }
    }
}

/// **A filter is over the dimensions it was declared with**, in the order of declaration; without
/// declared filters each dimension is one.
pub proof fn law_declared_filter(s: Schema, dims: Seq<Dimension>, filters: Seq<Vec<String>>, i: int, d: int)
    requires
        s.wf(),
        s.built(dims, filters),
        0 <= i < s.shapes.len(),
        0 <= d < dims.len(),
    ensures
        filters.len() > 0 ==> s.shapes.len() == filters.len() && (ints(s.shapes[i].dims@).contains(d)
            <==> texts(filters[i]@).contains(dims[d].name@)),
        filters.len() == 0 ==> s.shapes.len() == dims.len() && (ints(s.shapes[i].dims@).contains(d)
            <==> d == i),
{
    let raw = declared(dims, filters);
    lemma_chosen(dims, raw[i], dims.len() as int);
    assert(ints(s.shapes[i].dims@) == shape_dims(dims, raw, i));
    if filters.len() == 0 {
        assert(raw[i] == seq![dims[i].name@]);
        assert(names(dims)[i] == dims[i].name@ && names(dims)[d] == dims[d].name@);
        assert(raw[i][0] == dims[i].name@);
        if d != i {
            assert(names(dims)[i] != names(dims)[d]);
        }
    }
}

/// One of the values stands for index `k`.
pub open spec fn stands_for(
    dims: Seq<Dimension>,
    t: Tables,
    learns: bool,
    d: int,
    list: Seq<Seq<char>>,
    k: u32,
) -> bool {
    exists|j: int|
        0 <= j < list.len() && answer(dims, t, learns, d, #[trigger] list[j]).0 == Ok::<
            Option<u32>,
            Seq<char>,
        >(Some(k))
}

proof fn lemma_values(
    dims: Seq<Dimension>,
    t: Tables,
    learns: bool,
    d: int,
    list: Seq<Seq<char>>,
)
    requires
        dims[d].capacity is None,
        sound_dim(dims[d]),
        dims[d].values.len() <= u32::MAX,
    ensures
        ({
            let r = resolved(dims, t, learns, d, list);
            &&& r.1 == t
            &&& r.0 is Ok <==> forall|j: int|
                0 <= j < list.len() ==> answer(dims, t, learns, d, #[trigger] list[j]).0 is Ok
            &&& r.0 matches Ok(q) ==> q.no_duplicates() && forall|k: u32| #[trigger]
                q.contains(k) <==> stands_for(dims, t, learns, d, list, k)
        }),
    decreases list.len(),
{
    if list.len() > 0 {
        let (r, v) = (list.drop_last(), list.last());
        let n = list.len() - 1;
        assert(list[n] == v);
        lemma_values(dims, t, learns, d, r);
        law_declared_value(dims, t, learns, d, v, 0);
        let (old, new) = (resolved(dims, t, learns, d, r), resolved(dims, t, learns, d, list));
        let a = answer(dims, t, learns, d, v);
        assert forall|j: int| 0 <= j < r.len() implies #[trigger] r[j] == list[j] by {}
        if old.0 is Err {
            let j = choose|j: int|
                0 <= j < r.len() && !(answer(dims, t, learns, d, #[trigger] r[j]).0 is Ok);
            assert(!(answer(dims, t, learns, d, list[j]).0 is Ok));
        } else if a.0 is Err {
            assert(!(answer(dims, t, learns, d, list[n]).0 is Ok));
        } else {
            let i = a.0->Ok_0->0;
            let (p, q) = (old.0->Ok_0, new.0->Ok_0);
            assert(q == if p.contains(i) {
                p
            } else {
                p.push(i)
            });
            assert forall|j: int| 0 <= j < list.len() implies answer(
                dims,
                t,
                learns,
                d,
                #[trigger] list[j],
            ).0 is Ok by {
                if j < n {
                    assert(r[j] == list[j]);
                }
            }
            assert forall|k: u32| #[trigger] q.contains(k) <==> stands_for(dims, t, learns, d, list, k) by {
                if q.contains(k) {
                    let x = choose|x: int| 0 <= x < q.len() && q[x] == k;
                    if k == i {
                        assert(answer(dims, t, learns, d, list[n]).0 == a.0);
                    } else {
                        assert(p[x] == k);
                        assert(p.contains(k));
                        let j = choose|j: int|
                            0 <= j < r.len() && answer(dims, t, learns, d, #[trigger] r[j]).0 == Ok::<
                                Option<u32>,
                                Seq<char>,
                            >(Some(k));
                        assert(list[j] == r[j]);
                    }
                }
                if stands_for(dims, t, learns, d, list, k) {
                    let j = choose|j: int|
                        0 <= j < list.len() && answer(dims, t, learns, d, #[trigger] list[j]).0 == Ok::<
                            Option<u32>,
                            Seq<char>,
                        >(Some(k));
                    if j < n {
                        assert(r[j] == list[j]);
                        assert(stands_for(dims, t, learns, d, r, k));
                        assert(p.contains(k));
                        let x = choose|x: int| 0 <= x < p.len() && p[x] == k;
                        assert(q[x] == k);
                    } else {
                        assert(k == i);
                        if p.contains(i) {
                            assert(q.contains(k));
                        } else {
                            assert(q[q.len() - 1] == k);
                        }
                    }
                }
            }
        }
    }
}

/// **What a report says of a dimension**: value 0 where it does not name it; a refusal where it names
/// several values and a device may hold only one; else, where the values are declared, what they
/// stand for, each once, and a refusal if one of them stands for nothing.
pub proof fn law_named_values(
    dims: Seq<Dimension>,
    t: Tables,
    learns: bool,
    vals: Map<Seq<char>, Vec<String>>,
    d: int,
)
    requires
        0 <= d < dims.len(),
        sound_dim(dims[d]),
        dims[d].values.len() <= u32::MAX,
    ensures
        ({
            let name = dims[d].name@;
            let list = texts(vals[name]@);
            let r = resolved_dim(dims, t, learns, vals, d);
            let named = vals.contains_key(name) && vals[name].len() > 0;
            let one = dims[d].multi || vals[name].len() == 1;
            &&& !named ==> r.0 == Ok::<Seq<u32>, Seq<char>>(seq![0u32]) && r.1 == t
            &&& named && !one ==> r.0 is Err && r.1 == t
            &&& named && one && dims[d].capacity is None ==> {
                &&& r.1 == t
                &&& r.0 is Ok <==> forall|j: int|
                    0 <= j < list.len() ==> answer(dims, t, learns, d, #[trigger] list[j]).0 is Ok
                &&& r.0 matches Ok(q) ==> q.no_duplicates() && forall|k: u32| #[trigger]
                    q.contains(k) <==> stands_for(dims, t, learns, d, list, k)
            }
        }),
{
    if dims[d].capacity is None {
        lemma_values(dims, t, learns, d, texts(vals[dims[d].name@]@));
    }
}

/// In how many cells of one filter a device may be: four for each dimension that it may hold several
/// values of, multiplied.
pub open spec fn share(dims: Seq<Dimension>, q: Seq<int>, k: int) -> int
    decreases k,
{
    if k <= 0 {
        1
    } else if dims[q[k - 1]].multi {
        4 * share(dims, q, k - 1)
    } else {
        share(dims, q, k - 1)
    }
}

/// The shares of the first `n` filters, added up.
pub open spec fn shares(s: Schema, n: int) -> int
    decreases n,
{
    if n <= 0 {
        0
    } else {
        shares(s, n - 1) + share(s.dims@, ints(s.shapes[n - 1].dims@), s.shapes[n - 1].dims.len() as int)
    }
}

proof fn lemma_share(dims: Seq<Dimension>, q: Seq<int>, k: int)
    ensures
        worst_of(dims, q, k) == share(dims, q, k),
    decreases k,
{
    if k > 0 {
        lemma_share(dims, q, k - 1);
    }
}

proof fn lemma_shares(s: Schema, n: int)
    ensures
        worst(s.dims@, s.shapes@, n) == shares(s, n),
    decreases n,
{
    if n > 0 {
        lemma_shares(s, n - 1);
        lemma_share(s.dims@, ints(s.shapes[n - 1].dims@), s.shapes[n - 1].dims.len() as int);
    }
}

/// **In how many cells a device may be**: over all filters, one in each, and four times as many for
/// each of its dimensions that a device may hold several values of.
pub proof fn law_cell_budget(s: Schema, dims: Seq<Dimension>, filters: Seq<Vec<String>>)
    requires
        s.built(dims, filters),
        s.shapes.len() > 0,
        shares(s, s.shapes.len() as int) <= usize::MAX,
    ensures
        s.max_cells_per_device == shares(s, s.shapes.len() as int),
{
    lemma_shares(s, s.shapes.len() as int);
}

} // verus!
