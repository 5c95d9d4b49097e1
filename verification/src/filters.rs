//! What a filter query finds: the devices whose reports carry the values it names.
use crate::encoding::{lemma_resolved, lemma_resolved_all, offset, resolved, resolved_all, resolved_dim,
    sel_names, sel_value, selected, shape_for};
use crate::schema::{answer, chosen, compact, ints, label_list, law_labels, law_restored, lemma_answer,
    lemma_chosen, refilled, tables_ok, Dimension, Schema, Shape, Tables};
use crate::text::texts;
use vstd::prelude::*;

verus! {

/// What is interned in `a` is interned alike in `b`.
pub open spec fn kept_in(a: Tables, b: Tables) -> bool {
    &&& a.len() == b.len()
    &&& forall|d: int, v: Seq<char>|
        #![trigger a[d].contains_key(v)]
        0 <= d < a.len() && a[d].contains_key(v) ==> b[d].contains_key(v) && b[d][v] == a[d][v]
}

/// Value `v` of dimension `d` has index `i`.
pub open spec fn indexed(dims: Seq<Dimension>, t: Tables, d: int, v: Seq<char>, i: u32) -> bool {
    answer(dims, t, false, d, v).0 == Ok::<Option<u32>, Seq<char>>(Some(i))
}

/// A report carries the value of dimension `d` that has index `i`: it names it, or it names no
/// value of the dimension and the index is 0.
pub open spec fn carries(
    dims: Seq<Dimension>,
    t: Tables,
    vals: Map<Seq<char>, Vec<String>>,
    d: int,
    i: u32,
) -> bool {
    let name = dims[d].name@;
    if !vals.contains_key(name) || vals[name].len() == 0 {
        i == 0
    } else {
        exists|v: Seq<char>| #[trigger]
            texts(vals[name]@).contains(v) && indexed(dims, t, d, v, i)
    }
}

/// A report carries value `v` of dimension `d`.
pub open spec fn carries_value(
    dims: Seq<Dimension>,
    t: Tables,
    vals: Map<Seq<char>, Vec<String>>,
    d: int,
    v: Seq<char>,
) -> bool {
    exists|i: u32| #[trigger] indexed(dims, t, d, v, i) && carries(dims, t, vals, d, i)
}

/// A report carries every value that a selection names.
pub open spec fn matches_all(
    dims: Seq<Dimension>,
    t: Tables,
    vals: Map<Seq<char>, Vec<String>>,
    sel: Seq<(String, String)>,
) -> bool {
    forall|d: int|
        0 <= d < dims.len() && sel_names(sel).contains(#[trigger] dims[d].name@) ==> carries_value(
            dims,
            t,
            vals,
            d,
            sel_value(sel, dims[d].name@),
        )
}

/// Interning only adds, and a value has from then on the index that it was given.
proof fn lemma_learned(dims: Seq<Dimension>, t: Tables, d: int, v: Seq<char>)
    requires
        tables_ok(dims, t),
        0 <= d < dims.len(),
    ensures
        kept_in(t, answer(dims, t, true, d, v).1),
        forall|u: Tables, i: u32|
            kept_in(answer(dims, t, true, d, v).1, u) && answer(dims, t, true, d, v).0 == Ok::<
                Option<u32>,
                Seq<char>,
            >(Some(i)) ==> #[trigger] indexed(dims, u, d, v, i),
{
    let a = answer(dims, t, true, d, v);
    assert forall|u: Tables, i: u32|
        kept_in(a.1, u) && a.0 == Ok::<Option<u32>, Seq<char>>(Some(i)) implies #[trigger] indexed(
        dims,
        u,
        d,
        v,
        i,
    ) by {
        if dims[d].capacity is Some {
            assert(a.1[d].contains_key(v));
        }
    }
}

proof fn lemma_kept_through(a: Tables, b: Tables, c: Tables)
    requires
        kept_in(a, b),
        kept_in(b, c),
    ensures
        kept_in(a, c),
{
    assert forall|d: int, v: Seq<char>|
        #![trigger a[d].contains_key(v)]
        0 <= d < a.len() && a[d].contains_key(v) implies c[d].contains_key(v) && c[d][v]
        == a[d][v] by {
        assert(b[d].contains_key(v));
    }
}

/// The indices that a list of values resolves to are those of the values, in every later table.
proof fn lemma_listed(dims: Seq<Dimension>, t: Tables, d: int, list: Seq<Seq<char>>, u: Tables)
    requires
        tables_ok(dims, t),
        0 <= d < dims.len(),
    ensures
        kept_in(t, resolved(dims, t, true, d, list).1),
        kept_in(resolved(dims, t, true, d, list).1, u) ==> (resolved(dims, t, true, d, list).0
            matches Ok(q) ==> forall|i: u32| #[trigger]
            q.contains(i) <==> exists|v: Seq<char>| #[trigger]
                list.contains(v) && indexed(dims, u, d, v, i)),
    decreases list.len(),
{
    let r = resolved(dims, t, true, d, list);
    if list.len() > 0 {
        let (rest, last) = (list.drop_last(), list.last());
        let before = resolved(dims, t, true, d, rest);
        lemma_listed(dims, t, d, rest, u);
        lemma_resolved(dims, t, true, d, rest);
        if before.0 is Ok {
            let p = before.0->Ok_0;
            let a = answer(dims, before.1, true, d, last);
            lemma_learned(dims, before.1, d, last);
            lemma_kept_through(t, before.1, a.1);
            if kept_in(r.1, u) && r.0 is Ok {
                lemma_kept_through(before.1, a.1, u);
                let q = r.0->Ok_0;
                let n = a.0->Ok_0->0;
                assert(indexed(dims, u, d, last, n));
                assert(list.contains(last)) by {
                    assert(list[list.len() - 1] == last);
                }
                assert forall|i: u32| #[trigger] q.contains(i) <==> exists|v: Seq<char>| #[trigger]
                    list.contains(v) && indexed(dims, u, d, v, i) by {
                    assert(q.contains(i) <==> p.contains(i) || i == n) by {
                        if !p.contains(n) {
                            assert(q == p.push(n));
                            assert(q[p.len() as int] == n);
                            if p.contains(i) {
                                assert(q[p.index_of(i)] == i);
                            }
                            if q.contains(i) && i != n {
                                assert(p[q.index_of(i)] == i);
                            }
                        }
                    }
                    if p.contains(i) {
                        let v = choose|v: Seq<char>| #[trigger]
                            rest.contains(v) && indexed(dims, u, d, v, i);
                        assert(list[rest.index_of(v)] == v);
                        assert(list.contains(v));
                    }
                    if exists|v: Seq<char>| #[trigger]
                        list.contains(v) && indexed(dims, u, d, v, i) {
                        let v = choose|v: Seq<char>| #[trigger]
                            list.contains(v) && indexed(dims, u, d, v, i);
                        let j = list.index_of(v);
                        if j < rest.len() {
                            assert(rest[j] == v);
                            assert(rest.contains(v));
                        } else {
                            assert(v == last);
                        }
                    }
                }
            }
        }
    } else if r.0 is Ok {
        assert forall|i: u32| #[trigger] (r.0->Ok_0).contains(i) <==> exists|v: Seq<char>| #[trigger]
            list.contains(v) && indexed(dims, u, d, v, i) by {}
    }
}

/// What a report resolves to, dimension by dimension, is what it carries, in every later table.
proof fn lemma_carried(
    dims: Seq<Dimension>,
    t: Tables,
    vals: Map<Seq<char>, Vec<String>>,
    n: int,
    u: Tables,
)
    requires
        tables_ok(dims, t),
        0 <= n <= dims.len(),
        forall|d: int| 0 <= d < dims.len() ==> (#[trigger] dims[d]).width() > 0,
    ensures
        kept_in(t, resolved_all(dims, t, true, vals, n).1),
        kept_in(resolved_all(dims, t, true, vals, n).1, u) ==> (resolved_all(dims, t, true, vals, n).0
            matches Ok(q) ==> q.len() == n && forall|d: int, i: u32|
            0 <= d < n ==> (#[trigger] q[d].contains(i) <==> carries(dims, u, vals, d, i))),
    decreases n,
{
    if n > 0 {
        let r = resolved_all(dims, t, true, vals, n);
        let before = resolved_all(dims, t, true, vals, n - 1);
        let e = n - 1;
        lemma_carried(dims, t, vals, e, u);
        lemma_resolved_all(dims, t, true, vals, e);
        if before.0 is Ok {
            let name = dims[e].name@;
            let one = resolved_dim(dims, before.1, true, vals, e);
            if vals.contains_key(name) {
                lemma_listed(dims, before.1, e, texts(vals[name]@), u);
            }
            assert(kept_in(before.1, one.1));
            lemma_kept_through(t, before.1, one.1);
            if kept_in(r.1, u) && r.0 is Ok {
                lemma_kept_through(before.1, one.1, u);
                let (p, q) = (before.0->Ok_0, r.0->Ok_0);
                assert(q == p.push(one.0->Ok_0));
                assert forall|d: int, i: u32| 0 <= d < n implies (#[trigger] q[d].contains(i)
                    <==> carries(dims, u, vals, d, i)) by {
                    if d < e {
                        assert(q[d] == p[d]);
                        assert(p[d].contains(i) <==> carries(dims, u, vals, d, i));
                    } else {
                        assert(q[d] == one.0->Ok_0);
                        if !vals.contains_key(name) || vals[name].len() == 0 {
                            assert(q[d] =~= seq![0u32]);
                            assert(q[d][0] == 0);
                        }
                    }
                }
            }
        }
    }
}

/// What a selection picks of the dimensions of a shape: the indices of its values, or nothing
/// where one of them has none.
proof fn lemma_selected(dims: Seq<Dimension>, t: Tables, sh: Shape, sel: Seq<(String, String)>, n: int)
    requires
        tables_ok(dims, t),
        0 <= n <= sh.dims.len(),
        forall|k: int| 0 <= k < sh.dims.len() ==> #[trigger] sh.dims[k] < dims.len(),
    ensures
        selected(dims, t, false, sh, sel, n).1 == t,
        selected(dims, t, false, sh, sel, n).0 matches Ok(Some(vs)) ==> vs.len() == n && forall|
            k: int,
        |
            0 <= k < n ==> indexed(
                dims,
                t,
                sh.dims[k] as int,
                sel_value(sel, dims[sh.dims[k] as int].name@),
                #[trigger] vs[k],
            ) && vs[k] < dims[sh.dims[k] as int].width(),
        selected(dims, t, false, sh, sel, n).0 == Ok::<Option<Seq<u32>>, Seq<char>>(None)
            ==> exists|k: int|
            0 <= k < n && answer(
                dims,
                t,
                false,
                (#[trigger] sh.dims[k]) as int,
                sel_value(sel, dims[sh.dims[k] as int].name@),
            ).0 == Ok::<Option<u32>, Seq<char>>(None),
    decreases n,
{
    if n > 0 {
        lemma_selected(dims, t, sh, sel, n - 1);
        let d = sh.dims[n - 1] as int;
        lemma_answer(dims, t, false, d, sel_value(sel, dims[d].name@));
    }
}

proof fn lemma_shape_for(shapes: Seq<Shape>, q: Seq<int>, i: int)
    requires
        0 <= i,
    ensures
        shape_for(shapes, q, i) >= 0 ==> i <= shape_for(shapes, q, i) < shapes.len() && ints(
            shapes[shape_for(shapes, q, i)].dims@,
        ) == q,
    decreases shapes.len() - i,
{
    if i < shapes.len() {
        lemma_shape_for(shapes, q, i + 1);
    }
}

impl Schema {
    /// **What a filter query finds.** A device files a report, which may teach the tables new
    /// values. Any time later a query is looked up, which teaches nothing. If the query selects a
    /// cell, the device is in it exactly if its report carries every value that the query names;
    /// if the query selects nothing, no report carries them all.
    pub proof fn law_query_finds(
        &self,
        t: Tables,
        vals: Map<Seq<char>, Vec<String>>,
        later: Tables,
        sel: Seq<(String, String)>,
    )
        requires
            self.wf(),
            tables_ok(self.dims@, t),
            tables_ok(self.dims@, later),
            kept_in(resolved_all(self.dims@, t, true, vals, self.dims.len() as int).1, later),
            self.filed(t, true, vals) is Ok,
            sel.len() > 0,
        ensures
            self.queried(later, false, sel).0 matches Ok(Some(c)) ==> (self.filed(
                t,
                true,
                vals,
            )->Ok_0.contains(c as u32) <==> matches_all(self.dims@, later, vals, sel)),
            self.queried(later, false, sel).0 == Ok::<Option<i32>, Seq<char>>(None)
                ==> !matches_all(self.dims@, later, vals, sel),
    {
        let dims = self.dims@;
        let n = dims.len() as int;
        assert forall|d: int| 0 <= d < dims.len() implies (#[trigger] dims[d]).width() > 0 by {
            assert(self.labelled(d));
        }
        lemma_carried(dims, t, vals, n, later);
        lemma_resolved_all(dims, t, true, vals, n);
        assert(dims.take(n) =~= dims);
        let lists = resolved_all(dims, t, true, vals, n).0->Ok_0;
        if self.queried(later, false, sel).0 is Ok {
            let f = sel_names(sel);
            let q = chosen(dims, f, n);
            let si = shape_for(self.shapes@, q, 0);
            lemma_shape_for(self.shapes@, q, 0);
            assert(si >= 0);
            lemma_chosen(dims, f, n);
            let sh = self.shapes[si];
            assert(self.shape_ok(si));
            assert forall|k: int| 0 <= k < sh.dims.len() implies #[trigger] sh.dims[k]
                < dims.len() && q[k] == sh.dims[k] by {
                assert(ints(sh.dims@)[k] == sh.dims[k]);
            }
            lemma_selected(dims, later, sh, sel, sh.dims.len() as int);
            match selected(dims, later, false, sh, sel, sh.dims.len() as int).0 {
                Ok(Some(vs)) => {
                    self.law_filter(lists, si, vs);
                    let c = (sh.base + offset(sh, vs, 0)) as i32;
                    if matches_all(dims, later, vals, sel) {
                        assert forall|k: int| 0 <= k < vs.len() implies lists[sh.dims[k] as int].contains(
                            #[trigger] vs[k],
                        ) by {
                            let d = sh.dims[k] as int;
                            assert(q.contains(q[k]));
                            assert(f.contains(dims[d].name@));
                            let i = choose|i: u32| #[trigger]
                                indexed(dims, later, d, sel_value(sel, dims[d].name@), i) && carries(
                                    dims,
                                    later,
                                    vals,
                                    d,
                                    i,
                                );
                            assert(i == vs[k]);
                        }
                    }
                    if forall|k: int|
                        0 <= k < vs.len() ==> lists[sh.dims[k] as int].contains(#[trigger] vs[k]) {
                        assert forall|d: int|
                            0 <= d < dims.len() && f.contains(
                                #[trigger] dims[d].name@,
                            ) implies carries_value(
                            dims,
                            later,
                            vals,
                            d,
                            sel_value(sel, dims[d].name@),
                        ) by {
                            assert(q.contains(d));
                            let k = q.index_of(d);
                            assert(sh.dims[k] == d);
                            assert(lists[sh.dims[k] as int].contains(vs[k]));
                            assert(indexed(dims, later, d, sel_value(sel, dims[d].name@), vs[k]));
                        }
                    }
                },
                Ok(None) => {
                    let k = choose|k: int|
                        0 <= k < sh.dims.len() && answer(
                            dims,
                            later,
                            false,
                            (#[trigger] sh.dims[k]) as int,
                            sel_value(sel, dims[sh.dims[k] as int].name@),
                        ).0 == Ok::<Option<u32>, Seq<char>>(None);
                    let d = sh.dims[k] as int;
                    assert(q.contains(q[k]));
                    assert(f.contains(dims[d].name@));
                    assert(!carries_value(dims, later, vals, d, sel_value(sel, dims[d].name@)));
                },
                Err(_) => {},
            }
        }
    }
}

/// **A value of a dynamic dimension is its text**: where each has its own index, two that have
/// the same are the same.
pub proof fn law_one_text(dims: Seq<Dimension>, t: Tables, d: int, v: Seq<char>, w: Seq<char>, i: u32)
    requires
        dims[d].capacity is Some,
        compact(t[d]),
        indexed(dims, t, d, v, i),
        indexed(dims, t, d, w, i),
    ensures
        v == w,
{
}

/// **Interning keeps the tables compact**: a new value gets an index of its own.
pub proof fn law_interning_is_compact(dims: Seq<Dimension>, t: Tables, d: int, v: Seq<char>, e: int)
    requires
        tables_ok(dims, t),
        0 <= d < dims.len(),
        0 <= e < dims.len(),
        t[d].len() <= u32::MAX,
        compact(t[e]),
    ensures
        compact(answer(dims, t, true, d, v).1[e]),
{
    let a = answer(dims, t, true, d, v).1;
    if e == d && dims[d].capacity is Some && !t[d].contains_key(v) && t[d].len()
        < dims[d].width() {
        assert(a[e] == t[d].insert(v, t[d].len() as u32));
        assert forall|x: Seq<char>, y: Seq<char>|
            #![trigger a[e].contains_key(x), a[e].contains_key(y)]
            a[e].contains_key(x) && a[e].contains_key(y) && a[e][x] == a[e][y] implies x == y by {
            if x != v {
                assert(t[e].contains_key(x));
            }
            if y != v {
                assert(t[e].contains_key(y));
            }
        }
    }
}

/// What is interned after the first `k` of some values, each of a dimension, have been reported.
pub open spec fn learned(
    dims: Seq<Dimension>,
    t: Tables,
    told: Seq<(int, Seq<char>)>,
    k: int,
) -> Tables
    decreases k,
{
    if k <= 0 {
        t
    } else {
        answer(dims, learned(dims, t, told, k - 1), true, told[k - 1].0, told[k - 1].1).1
    }
}

/// Nothing is interned.
pub open spec fn nothing_learned(dims: Seq<Dimension>) -> Tables {
    Seq::new(dims.len(), |d: int| Map::<Seq<char>, u32>::empty())
}

/// The values of dimension `d` among the first `k`, each where it was first seen, as many as
/// there is room for.
pub open spec fn first_seen(told: Seq<(int, Seq<char>)>, d: int, room: int, k: int) -> Seq<
    Seq<char>,
>
    decreases k,
{
    if k <= 0 {
        seq![]
    } else {
        let q = first_seen(told, d, room, k - 1);
        let (e, v) = told[k - 1];
        if e == d && !q.contains(v) && q.len() < room {
            q.push(v)
        } else {
            q
        }
    }
}

proof fn lemma_first_seen(told: Seq<(int, Seq<char>)>, d: int, room: int, k: int)
    requires
        0 <= k,
        0 <= room,
    ensures
        first_seen(told, d, room, k).no_duplicates(),
        first_seen(told, d, room, k).len() <= k,
        first_seen(told, d, room, k).len() <= room,
    decreases k,
{
    if k > 0 {
        lemma_first_seen(told, d, room, k - 1);
    }
}

/// Filling a table from a longer list fills it from the shorter one first.
proof fn lemma_refilled_prefix(q: Seq<Seq<char>>, v: Seq<char>, room: int, n: int)
    requires
        0 <= n <= q.len(),
    ensures
        refilled(q.push(v), room, n) == refilled(q, room, n),
    decreases n,
{
    if n > 0 {
        lemma_refilled_prefix(q, v, room, n - 1);
        assert(q.push(v)[n - 1] == q[n - 1]);
    }
}

/// **Values are numbered as they are first seen**: starting from nothing, a dynamic dimension's
/// table has the values reported, each with its place among the first occurrences; a declared
/// dimension's has none.
pub proof fn law_first_seen(dims: Seq<Dimension>, told: Seq<(int, Seq<char>)>, k: int, d: int)
    requires
        0 <= k <= told.len() <= 0x1_0000_0000,
        forall|i: int| 0 <= i < told.len() ==> 0 <= (#[trigger] told[i]).0 < dims.len(),
        0 <= d < dims.len(),
    ensures
        learned(dims, nothing_learned(dims), told, k).len() == dims.len(),
        learned(dims, nothing_learned(dims), told, k)[d] == (if dims[d].capacity is Some {
            let q = first_seen(told, d, dims[d].width(), k);
            refilled(q, dims[d].width(), q.len() as int)
        } else {
            Map::empty()
        }),
    decreases k,
{
    let none = nothing_learned(dims);
    let room = dims[d].width();
    if k > 0 {
        law_first_seen(dims, told, k - 1, d);
        let t = learned(dims, none, told, k - 1);
        let (e, v) = told[k - 1];
        let q = first_seen(told, d, room, k - 1);
        if e == d && dims[d].capacity is Some {
            lemma_first_seen(told, d, room, k - 1);
            law_restored(q, room, q.len() as int);
            assert(q.take(q.len() as int) =~= q);
            assert(t[d].contains_key(v) <==> q.contains(v)) by {
                if q.contains(v) {
                    assert(t[d].contains_key(q[q.index_of(v)]));
                }
            }
            if !q.contains(v) && q.len() < room {
                lemma_refilled_prefix(q, v, room, q.len() as int);
                assert(q.push(v)[q.len() as int] == v);
            }
        }
    } else {
        assert(none[d] == Map::<Seq<char>, u32>::empty());
    }
}

/// **Labels and back**: after any run of reports, the labels of a dynamic dimension are its
/// values as they were first seen, those of a declared one are none, and what is restored from
/// them is the table.
pub proof fn law_round_trip(
    dims: Seq<Dimension>,
    told: Seq<(int, Seq<char>)>,
    d: int,
    labels: Seq<Seq<char>>,
)
    requires
        told.len() <= 0x1_0000_0000,
        forall|i: int| 0 <= i < told.len() ==> 0 <= (#[trigger] told[i]).0 < dims.len(),
        0 <= d < dims.len(),
        label_list(learned(dims, nothing_learned(dims), told, told.len() as int)[d], labels),
    ensures
        labels == (if dims[d].capacity is Some {
            first_seen(told, d, dims[d].width(), told.len() as int)
        } else {
            seq![]
        }),
        refilled(labels, dims[d].width(), labels.len() as int) == learned(
            dims,
            nothing_learned(dims),
            told,
            told.len() as int,
        )[d],
{
    let k = told.len() as int;
    let m = learned(dims, nothing_learned(dims), told, k)[d];
    let room = dims[d].width();
    law_first_seen(dims, told, k, d);
    if dims[d].capacity is Some {
        let q = first_seen(told, d, room, k);
        lemma_first_seen(told, d, room, k);
        law_restored(q, room, q.len() as int);
        law_labels(m, labels, room);
        assert forall|i: int| 0 <= i < q.len() implies q[i] == labels[i] by {
            assert(m.contains_key(q[i]) && m[q[i]] == i);
            assert(m.contains_key(labels[i]) && m[labels[i]] == i);
        }
        assert(labels =~= q);
    } else {
        assert(m.len() == 0);
        law_labels(m, labels, room);
        assert(labels =~= seq![]);
    }
}

} // verus!
