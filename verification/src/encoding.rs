//! The cell encoding of a schema: which cells a device is in, and which one a query selects.
use crate::geometry::MAX_CELLS;
use crate::schema::{answer, chosen, choose_dims, dim_names, first_fault, ints, named, names,
    names_of, same_dims, tables_ok, Dimension, Schema, Shape, Tables, Values};
use crate::text::{join, joined, number, push_number, quote, quoted, texts};
use vstd::hash_map::StringHashMap;
use vstd::prelude::*;
use vstd::string::StringExecFns;

verus! {

/// The cells of one shape that the values `lists`, a list per dimension, lie in: one for each
/// way to pick a value for the dimensions `k..`, from `acc` on.
pub open spec fn spread(sh: Shape, lists: Seq<Seq<u32>>, k: int, acc: int) -> Seq<u32>
    decreases sh.dims.len() - k, lists[sh.dims[k] as int].len() + 1,
{
    if k < 0 || k >= sh.dims.len() {
        seq![acc as u32]
    } else {
        fan(sh, lists, k, acc, lists[sh.dims[k] as int].len() as int)
    }
}

/// The part of [`spread`] for the first `n` values of dimension `k`.
pub open spec fn fan(sh: Shape, lists: Seq<Seq<u32>>, k: int, acc: int, n: int) -> Seq<u32>
    decreases sh.dims.len() - k, n,
{
    if n <= 0 || k < 0 || k >= sh.dims.len() {
        seq![]
    } else {
        fan(sh, lists, k, acc, n - 1) + spread(
            sh,
            lists,
            k + 1,
            acc + lists[sh.dims[k] as int][n - 1] * sh.strides[k],
        )
    }
}

/// The cells of the first `n` shapes.
pub open spec fn all_cells(shapes: Seq<Shape>, lists: Seq<Seq<u32>>, n: int) -> Seq<u32>
    decreases n,
{
    if n <= 0 {
        seq![]
    } else {
        all_cells(shapes, lists, n - 1) + spread(shapes[n - 1], lists, 0, shapes[n - 1].base as int)
    }
}

/// The values are ones that the dimensions have.
pub open spec fn in_range(dims: Seq<Dimension>, lists: Seq<Seq<u32>>) -> bool {
    &&& lists.len() == dims.len()
    &&& forall|d: int, j: int|
        #![trigger lists[d][j]]
        0 <= d < lists.len() && 0 <= j < lists[d].len() ==> lists[d][j] < dims[d].width()
}

/// Where the values `vs` of the dimensions `k..` of a shape lead, counted from its base.
pub open spec fn offset(sh: Shape, vs: Seq<u32>, k: int) -> int
    decreases sh.dims.len() - k,
{
    if k < 0 || k >= sh.dims.len() {
        0
    } else {
        vs[k] * sh.strides[k] + offset(sh, vs, k + 1)
    }
}

/// The digits of `r` in the mixed radix of a shape are values out of `lists`.
pub open spec fn picked(sh: Shape, lists: Seq<Seq<u32>>, k: int, r: int) -> bool
    decreases sh.dims.len() - k,
{
    if k < 0 || k >= sh.dims.len() {
        r == 0
    } else {
        exists|j: int|
            0 <= j < lists[sh.dims[k] as int].len() && #[trigger] lists[sh.dims[k] as int][j] == r
                / sh.strides[k] as int && picked(sh, lists, k + 1, r % sh.strides[k] as int)
    }
}

impl Schema {
    /// Shape `i` in numbers, as [`Schema::shape_ok`] has it.
    proof fn lemma_shape(&self, i: int, k: int)
        requires
            self.wf(),
            0 <= i < self.shapes.len(),
            0 <= k <= self.shapes[i].dims.len(),
        ensures
            self.block_of(i, k) >= 1,
            self.block_of(i, k) <= self.block_of(i, 0) <= MAX_CELLS,
            k < self.shapes[i].dims.len() ==> {
                let sh = self.shapes[i];
                &&& sh.dims[k] < self.dims.len()
                &&& sh.strides[k] == self.block_of(i, k + 1)
                &&& sh.strides[k] >= 1
                &&& self.block_of(i, k) == self.dims[sh.dims[k] as int].width() * sh.strides[k]
            },
            self.shapes[i].base + self.block_of(i, 0) <= self.cells,
    {
        assert(self.shape_ok(i));
        let q = ints(self.shapes[i].dims@);
        assert forall|j: int| 0 <= j < q.len() implies 0 <= #[trigger] q[j] < self.dims.len() by {
            assert(self.shapes[i].dims[j] < self.dims.len());
        }
        assert forall|d: int| 0 <= d < self.dims.len() implies (#[trigger] self.dims[d]).width()
            > 0 by {
            assert(self.labelled(d));
        }
        crate::schema::lemma_block(self.dims@, q, k);
        crate::schema::lemma_block(self.dims@, q, 0);
        self.lemma_bases(i);
        if k < q.len() {
            assert(q[k] == self.shapes[i].dims[k]);
            crate::schema::lemma_block(self.dims@, q, k + 1);
        }
    }

    /// Blocks follow one another.
    proof fn lemma_bases(&self, i: int)
        requires
            self.wf(),
            0 <= i < self.shapes.len(),
        ensures
            self.shapes[i].base + self.block_of(i, 0) <= self.cells,
            forall|j: int|
                0 <= j < i ==> (#[trigger] self.shapes[j]).base + self.block_of(j, 0)
                    <= self.shapes[i].base,
        decreases self.shapes.len() - i,
    {
        self.lemma_base_up(i);
        if i + 1 < self.shapes.len() {
            self.lemma_bases(i + 1);
            assert(self.shape_ok(i));
            assert(self.shapes[i].base + self.block_of(i, 0) <= self.shapes[i + 1].base);
            let q = ints(self.shapes[i + 1].dims@);
            self.lemma_width(i + 1);
        } else {
            assert(self.shape_ok(i));
        }
    }

    proof fn lemma_width(&self, i: int)
        requires
            self.wf(),
            0 <= i < self.shapes.len(),
        ensures
            self.block_of(i, 0) >= 1,
    {
        assert(self.shape_ok(i));
        let q = ints(self.shapes[i].dims@);
        assert forall|j: int| 0 <= j < q.len() implies 0 <= #[trigger] q[j] < self.dims.len() by {
            assert(self.shapes[i].dims[j] < self.dims.len());
        }
        assert forall|d: int| 0 <= d < self.dims.len() implies (#[trigger] self.dims[d]).width()
            > 0 by {
            assert(self.labelled(d));
        }
        crate::schema::lemma_block(self.dims@, q, 0);
    }

    proof fn lemma_base_up(&self, i: int)
        requires
            self.wf(),
            0 <= i < self.shapes.len(),
        ensures
            forall|j: int|
                0 <= j < i ==> (#[trigger] self.shapes[j]).base + self.block_of(j, 0)
                    <= self.shapes[i].base,
        decreases i,
    {
        if i > 0 {
            self.lemma_base_up(i - 1);
            assert(self.shape_ok(i - 1));
            self.lemma_width(i - 1);
        }
    }

    /// What [`spread`] holds: the cells whose digits are values, each of them once.
    proof fn lemma_spread(&self, i: int, lists: Seq<Seq<u32>>, k: int, acc: int)
        requires
            self.wf(),
            0 <= i < self.shapes.len(),
            in_range(self.dims@, lists),
            0 <= k <= self.shapes[i].dims.len(),
            0 <= acc,
            acc + self.block_of(i, k) <= MAX_CELLS,
        ensures
            forall|c: u32| #[trigger]
                spread(self.shapes[i], lists, k, acc).contains(c) <==> acc <= c < acc
                    + self.block_of(i, k) && picked(self.shapes[i], lists, k, c - acc),
            (forall|d: int|
                0 <= d < lists.len() ==> (#[trigger] lists[d]).no_duplicates()) ==> spread(
                self.shapes[i],
                lists,
                k,
                acc,
            ).no_duplicates(),
        decreases self.shapes[i].dims.len() - k, lists[self.shapes[i].dims[k] as int].len() + 1,
    {
        let sh = self.shapes[i];
        self.lemma_shape(i, k);
        if k == sh.dims.len() {
            let q = spread(sh, lists, k, acc);
            assert(q =~= seq![acc as u32]);
            assert(q[0] == acc);
            assert forall|c: u32| #[trigger] q.contains(c) <==> acc <= c < acc + self.block_of(i, k)
                && picked(sh, lists, k, c - acc) by {
                if c == acc {
                    assert(q[0] == c);
                }
            }
        } else {
            let list = lists[sh.dims[k] as int];
            self.lemma_fan(i, lists, k, acc, list.len() as int);
            let q = spread(sh, lists, k, acc);
            let whole = fan(sh, lists, k, acc, list.len() as int);
            assert(q == whole);
            assert forall|c: u32| #[trigger] q.contains(c) <==> acc <= c < acc + self.block_of(i, k)
                && picked(sh, lists, k, c - acc) by {
                let r = c - acc;
                assert(whole.contains(c) <==> acc <= c < acc + self.block_of(i, k) && among(
                    sh,
                    lists,
                    k,
                    r,
                    list.len() as int,
                ));
                if picked(sh, lists, k, r) {
                    let j = choose|j: int|
                        0 <= j < lists[sh.dims[k] as int].len()
                            && #[trigger] lists[sh.dims[k] as int][j] == r / sh.strides[k] as int
                            && picked(sh, lists, k + 1, r % sh.strides[k] as int);
                    assert(list[j] == lists[sh.dims[k] as int][j]);
                    assert(among(sh, lists, k, r, list.len() as int));
                }
                if among(sh, lists, k, r, list.len() as int) {
                    let j = choose|j: int|
                        0 <= j < list.len() && #[trigger] lists[sh.dims[k] as int][j] == r
                            / sh.strides[k] as int && picked(
                            sh,
                            lists,
                            k + 1,
                            r % sh.strides[k] as int,
                        );
                    assert(lists[sh.dims[k] as int][j] == r / sh.strides[k] as int);
                    assert(picked(sh, lists, k, r));
                }
            }
        }
    }

    proof fn lemma_fan(&self, i: int, lists: Seq<Seq<u32>>, k: int, acc: int, n: int)
        requires
            self.wf(),
            0 <= i < self.shapes.len(),
            in_range(self.dims@, lists),
            0 <= k < self.shapes[i].dims.len(),
            0 <= n <= lists[self.shapes[i].dims[k] as int].len(),
            0 <= acc,
            acc + self.block_of(i, k) <= MAX_CELLS,
        ensures
            forall|c: u32| #[trigger]
                fan(self.shapes[i], lists, k, acc, n).contains(c) <==> acc <= c < acc
                    + self.block_of(i, k) && among(self.shapes[i], lists, k, c - acc, n),
            (forall|d: int|
                0 <= d < lists.len() ==> (#[trigger] lists[d]).no_duplicates()) ==> fan(
                self.shapes[i],
                lists,
                k,
                acc,
                n,
            ).no_duplicates(),
        decreases self.shapes[i].dims.len() - k, n,
    {
        let sh = self.shapes[i];
        let list = lists[sh.dims[k] as int];
        let q = fan(sh, lists, k, acc, n);
        self.lemma_shape(i, k);
        self.lemma_shape(i, k + 1);
        if n == 0 {
            assert forall|c: u32| #[trigger] q.contains(c) <==> acc <= c < acc + self.block_of(i, k)
                && among(sh, lists, k, c - acc, n) by {}
        } else {
            self.lemma_fan(i, lists, k, acc, n - 1);
            let v = list[n - 1];
            let s = sh.strides[k] as int;
            let w = self.dims[sh.dims[k] as int].width();
            assert(lists[sh.dims[k] as int][n - 1] < w);
            assert(v * s + s <= w * s && v * s >= 0) by (nonlinear_arith)
                requires
                    0 <= v < w,
                    s >= 1,
            ;
            let at = acc + v * s;
            self.lemma_spread(i, lists, k + 1, at);
            let p = fan(sh, lists, k, acc, n - 1);
            let r = spread(sh, lists, k + 1, at);
            assert(q == p + r);
            assert forall|c: u32| #[trigger] q.contains(c) <==> acc <= c < acc + self.block_of(i, k)
                && among(sh, lists, k, c - acc, n) by {
                lemma_in_sum(p, r, c);
                lemma_digit(c - acc, v as int, s);
                if among(sh, lists, k, c - acc, n) && acc <= c < acc + self.block_of(i, k) {
                    let j = choose|j: int|
                        0 <= j < n && #[trigger] list[j] == (c - acc) / s && picked(
                            sh,
                            lists,
                            k + 1,
                            (c - acc) % s,
                        );
                    if j < n - 1 {
                        assert(among(sh, lists, k, c - acc, n - 1));
                        assert(p.contains(c));
                    } else {
                        assert(r.contains(c));
                    }
                }
                if p.contains(c) {
                    let j = choose|j: int|
                        0 <= j < n - 1 && #[trigger] list[j] == (c - acc) / s && picked(
                            sh,
                            lists,
                            k + 1,
                            (c - acc) % s,
                        );
                    assert(among(sh, lists, k, c - acc, n));
                }
                if r.contains(c) {
                    assert(list[n - 1] == (c - acc) / s);
                    assert(among(sh, lists, k, c - acc, n));
                }
            }
            if forall|d: int| 0 <= d < lists.len() ==> (#[trigger] lists[d]).no_duplicates() {
                assert forall|x: int, y: int| 0 <= x < p.len() && 0 <= y < r.len() implies p[x]
                    != r[y] by {
                    let c = p[x];
                    if c == r[y] {
                        assert(p.contains(c) && r.contains(c));
                        let j = choose|j: int|
                            0 <= j < n - 1 && #[trigger] list[j] == (c - acc) / s && picked(
                                sh,
                                lists,
                                k + 1,
                                (c - acc) % s,
                            );
                        lemma_digit(c - acc, v as int, s);
                        assert(list[j] == list[n - 1]);
                        assert(list.no_duplicates());
                    }
                }
            }
        }
    }

    /// **What a query selects.** A device that holds `lists` is in the cell of a query exactly
    /// if it holds each of the queried values; and every cell exists.
    pub proof fn law_filter(&self, lists: Seq<Seq<u32>>, i: int, vs: Seq<u32>)
        requires
            self.wf(),
            in_range(self.dims@, lists),
            0 <= i < self.shapes.len(),
            vs.len() == self.shapes[i].dims.len(),
            forall|k: int|
                0 <= k < vs.len() ==> (#[trigger] vs[k]) < self.dims[self.shapes[i].dims[k] as int].width(),
        ensures
            0 <= self.shapes[i].base + offset(self.shapes[i], vs, 0) < self.cells,
            all_cells(self.shapes@, lists, self.shapes.len() as int).contains(
                (self.shapes[i].base + offset(self.shapes[i], vs, 0)) as u32,
            ) <==> forall|k: int|
                0 <= k < vs.len() ==> lists[self.shapes[i].dims[k] as int].contains(
                    #[trigger] vs[k],
                ),
    {
        let sh = self.shapes[i];
        let c = (sh.base + offset(sh, vs, 0)) as u32;
        self.lemma_offset(i, vs, 0);
        self.lemma_shape(i, 0);
        self.lemma_spread(i, lists, 0, sh.base as int);
        self.lemma_digits(i, lists, vs, 0);
        self.lemma_all(lists, self.shapes.len() as int);
        let q = all_cells(self.shapes@, lists, self.shapes.len() as int);
        if q.contains(c) {
            let j = choose|j: int|
                0 <= j < self.shapes.len() && #[trigger] spread(
                    self.shapes[j],
                    lists,
                    0,
                    self.shapes[j].base as int,
                ).contains(c);
            self.lemma_shape(j, 0);
            self.lemma_spread(j, lists, 0, self.shapes[j].base as int);
            if j < i {
                self.lemma_bases(i);
            } else if i < j {
                self.lemma_bases(j);
            }
            assert(i == j);
        }
        if forall|k: int|
            0 <= k < vs.len() ==> lists[self.shapes[i].dims[k] as int].contains(#[trigger] vs[k]) {
            assert forall|k: int| 0 <= k < vs.len() implies lists[self.shapes[i].dims[k] as int].contains(
                #[trigger] vs[k],
            ) by {}
            assert(picked(sh, lists, 0, c - sh.base));
            assert(spread(sh, lists, 0, sh.base as int).contains(c));
        }
    }

    /// Values below their dimensions' sizes lead into the block.
    proof fn lemma_offset(&self, i: int, vs: Seq<u32>, k: int)
        requires
            self.wf(),
            0 <= i < self.shapes.len(),
            vs.len() == self.shapes[i].dims.len(),
            0 <= k <= vs.len(),
            forall|k: int|
                0 <= k < vs.len() ==> (#[trigger] vs[k]) < self.dims[self.shapes[i].dims[k] as int].width(),
        ensures
            0 <= offset(self.shapes[i], vs, k) < self.block_of(i, k),
        decreases vs.len() - k,
    {
        self.lemma_shape(i, k);
        if k < vs.len() {
            self.lemma_offset(i, vs, k + 1);
            let sh = self.shapes[i];
            let v = vs[k] as int;
            let w = self.dims[sh.dims[k] as int].width();
            let s = sh.strides[k] as int;
            assert(v * s + s <= w * s && v * s >= 0) by (nonlinear_arith)
                requires
                    0 <= v < w,
                    s >= 1,
            ;
        }
    }

    proof fn lemma_digits(&self, i: int, lists: Seq<Seq<u32>>, vs: Seq<u32>, k: int)
        requires
            self.wf(),
            0 <= i < self.shapes.len(),
            vs.len() == self.shapes[i].dims.len(),
            0 <= k <= vs.len(),
            forall|k: int|
                0 <= k < vs.len() ==> (#[trigger] vs[k]) < self.dims[self.shapes[i].dims[k] as int].width(),
        ensures
            picked(self.shapes[i], lists, k, offset(self.shapes[i], vs, k)) <==> forall|l: int|
                k <= l < vs.len() ==> lists[self.shapes[i].dims[l] as int].contains(
                    #[trigger] vs[l],
                ),
        decreases vs.len() - k,
    {
        let sh = self.shapes[i];
        if k < vs.len() {
            self.lemma_digits(i, lists, vs, k + 1);
            self.lemma_offset(i, vs, k + 1);
            self.lemma_shape(i, k);
            let s = sh.strides[k] as int;
            let r = offset(sh, vs, k);
            let rest = offset(sh, vs, k + 1);
            lemma_digit(r, vs[k] as int, s);
            assert(r == vs[k] * s + rest);
            assert(r / s == vs[k] && r % s == rest);
            let list = lists[sh.dims[k] as int];
            if picked(sh, lists, k, r) {
                let j = choose|j: int|
                    0 <= j < list.len() && #[trigger] list[j] == r / s && picked(
                        sh,
                        lists,
                        k + 1,
                        r % s,
                    );
                assert(list.contains(vs[k]));
                assert forall|l: int| k <= l < vs.len() implies lists[sh.dims[l] as int].contains(
                    #[trigger] vs[l],
                ) by {}
            }
            if forall|l: int|
                k <= l < vs.len() ==> lists[sh.dims[l] as int].contains(#[trigger] vs[l]) {
                assert(lists[sh.dims[k] as int].contains(vs[k]));
                let j = choose|j: int| 0 <= j < list.len() && list[j] == vs[k];
                assert(list[j] == r / s);
                assert(picked(sh, lists, k, r));
            }
        }
    }

    /// The cells of all shapes: they exist, they are those of some shape, and each comes once.
    proof fn lemma_all(&self, lists: Seq<Seq<u32>>, n: int)
        requires
            self.wf(),
            in_range(self.dims@, lists),
            0 <= n <= self.shapes.len(),
        ensures
            forall|c: u32| #[trigger]
                all_cells(self.shapes@, lists, n).contains(c) <==> exists|j: int|
                    0 <= j < n && #[trigger] spread(
                        self.shapes[j],
                        lists,
                        0,
                        self.shapes[j].base as int,
                    ).contains(c),
            (forall|d: int|
                0 <= d < lists.len() ==> (#[trigger] lists[d]).no_duplicates()) ==> all_cells(
                self.shapes@,
                lists,
                n,
            ).no_duplicates(),
        decreases n,
    {
        let q = all_cells(self.shapes@, lists, n);
        if n > 0 {
            self.lemma_all(lists, n - 1);
            let p = all_cells(self.shapes@, lists, n - 1);
            let sh = self.shapes[n - 1];
            let r = spread(sh, lists, 0, sh.base as int);
            assert(q == p + r);
            assert forall|c: u32| #[trigger] q.contains(c) <==> exists|j: int|
                0 <= j < n && #[trigger] spread(
                    self.shapes[j],
                    lists,
                    0,
                    self.shapes[j].base as int,
                ).contains(c) by {
                lemma_in_sum(p, r, c);
            }
            self.lemma_shape(n - 1, 0);
            self.lemma_spread(n - 1, lists, 0, sh.base as int);
            if forall|d: int| 0 <= d < lists.len() ==> (#[trigger] lists[d]).no_duplicates() {
                assert forall|x: int, y: int| 0 <= x < p.len() && 0 <= y < r.len() implies p[x]
                    != r[y] by {
                    let c = p[x];
                    if c == r[y] {
                        assert(p.contains(c) && r.contains(c));
                        let j = choose|j: int|
                            0 <= j < n - 1 && #[trigger] spread(
                                self.shapes[j],
                                lists,
                                0,
                                self.shapes[j].base as int,
                            ).contains(c);
                        self.lemma_shape(j, 0);
                        self.lemma_spread(j, lists, 0, self.shapes[j].base as int);
                        self.lemma_bases(n - 1);
                    }
                }
            }
        }
    }

    /// Every cell that a device is in exists, and none comes twice.
    pub proof fn law_cells(&self, lists: Seq<Seq<u32>>)
        requires
            self.wf(),
            in_range(self.dims@, lists),
        ensures
            forall|j: int|
                0 <= j < all_cells(self.shapes@, lists, self.shapes.len() as int).len()
                    ==> #[trigger] all_cells(self.shapes@, lists, self.shapes.len() as int)[j]
                    < self.cells,
            (forall|d: int|
                0 <= d < lists.len() ==> (#[trigger] lists[d]).no_duplicates()) ==> all_cells(
                self.shapes@,
                lists,
                self.shapes.len() as int,
            ).no_duplicates(),
    {
        let n = self.shapes.len() as int;
        let q = all_cells(self.shapes@, lists, n);
        self.lemma_all(lists, n);
        assert forall|j: int| 0 <= j < q.len() implies #[trigger] q[j] < self.cells by {
            assert(q.contains(q[j]));
            let i = choose|i: int|
                0 <= i < n && #[trigger] spread(
                    self.shapes[i],
                    lists,
                    0,
                    self.shapes[i].base as int,
                ).contains(q[j]);
            self.lemma_shape(i, 0);
            self.lemma_spread(i, lists, 0, self.shapes[i].base as int);
        }
    }
}

/// [`picked`] with the digit of dimension `k` among the first `n` values.
spec fn among(sh: Shape, lists: Seq<Seq<u32>>, k: int, r: int, n: int) -> bool {
    exists|j: int|
        0 <= j < n && #[trigger] lists[sh.dims[k] as int][j] == r / sh.strides[k] as int && picked(
            sh,
            lists,
            k + 1,
            r % sh.strides[k] as int,
        )
}

proof fn lemma_in_sum(p: Seq<u32>, r: Seq<u32>, c: u32)
    ensures
        (p + r).contains(c) <==> p.contains(c) || r.contains(c),
{
    let q = p + r;
    if p.contains(c) {
        let i = choose|i: int| 0 <= i < p.len() && p[i] == c;
        assert(q[i] == c);
    }
    if r.contains(c) {
        let i = choose|i: int| 0 <= i < r.len() && r[i] == c;
        assert(q[p.len() + i] == c);
    }
    if q.contains(c) {
        let i = choose|i: int| 0 <= i < q.len() && q[i] == c;
        if i < p.len() {
            assert(p[i] == c);
        } else {
            assert(r[i - p.len()] == c);
        }
    }
}

/// Leading digit and rest.
proof fn lemma_digit(r: int, v: int, s: int)
    requires
        s >= 1,
        v >= 0,
    ensures
        v * s <= r < v * s + s <==> r / s == v,
        r / s == v ==> r % s == r - v * s,
{
    vstd::arithmetic::div_mod::lemma_fundamental_div_mod(r, s);
    let d = r / s;
    let m = r % s;
    assert(r == s * d + m);
    assert(0 <= m < s);
    assert(v * s <= r < v * s + s <==> d == v) by (nonlinear_arith)
        requires
            r == s * d + m,
            0 <= m < s,
            s >= 1,
    ;
    if d == v {
        assert(s * d == v * s) by (nonlinear_arith)
            requires
                d == v,
        ;
    }
}

/// The indices of some values of dimension `d`, each once, and what is interned then.
pub open spec fn resolved(
    dims: Seq<Dimension>,
    t: Tables,
    learns: bool,
    d: int,
    list: Seq<Seq<char>>,
) -> (Result<Seq<u32>, Seq<char>>, Tables)
    decreases list.len(),
{
    if list.len() == 0 {
        (Ok(seq![]), t)
    } else {
        let before = resolved(dims, t, learns, d, list.drop_last());
        match before.0 {
            Err(e) => before,
            Ok(q) => {
                let a = answer(dims, before.1, learns, d, list.last());
                match a.0 {
                    Err(e) => (Err(e), a.1),
                    Ok(None) => (
                        Err(
                            "value "@ + quoted(list.last()) + " for "@ + quoted(dims[d].name@)
                                + " could not be resolved"@,
                        ),
                        a.1,
                    ),
                    Ok(Some(i)) => (
                        Ok(
                            if q.contains(i) {
                                q
                            } else {
                                q.push(i)
                            },
                        ),
                        a.1,
                    ),
                }
            },
        }
    }
}

/// The values of dimension `d` that `vals` gives. Absent ones are value 0.
pub open spec fn resolved_dim(
    dims: Seq<Dimension>,
    t: Tables,
    learns: bool,
    vals: Map<Seq<char>, Vec<String>>,
    d: int,
) -> (Result<Seq<u32>, Seq<char>>, Tables) {
    let name = dims[d].name@;
    if !vals.contains_key(name) || vals[name].len() == 0 {
        (Ok(seq![0u32]), t)
    } else if !dims[d].multi && vals[name].len() > 1 {
        (
            Err(
                quoted(name) + " got "@ + number(vals[name].len() as int)
                    + " values but is not declared multi"@,
            ),
            t,
        )
    } else {
        resolved(dims, t, learns, d, texts(vals[name]@))
    }
}

/// The values of the first `n` dimensions that `vals` gives.
pub open spec fn resolved_all(
    dims: Seq<Dimension>,
    t: Tables,
    learns: bool,
    vals: Map<Seq<char>, Vec<String>>,
    n: int,
) -> (Result<Seq<Seq<u32>>, Seq<char>>, Tables)
    decreases n,
{
    if n <= 0 {
        (Ok(seq![]), t)
    } else {
        let before = resolved_all(dims, t, learns, vals, n - 1);
        match before.0 {
            Err(e) => before,
            Ok(q) => {
                let r = resolved_dim(dims, before.1, learns, vals, n - 1);
                match r.0 {
                    Err(e) => (Err(e), r.1),
                    Ok(list) => (Ok(q.push(list)), r.1),
                }
            },
        }
    }
}

/// Lists of lists, by their contents.
pub open spec fn views(v: Seq<Vec<u32>>) -> Seq<Seq<u32>> {
    Seq::new(v.len(), |i: int| v[i]@)
}

impl Schema {
    /// The cells that the values reported lead to, however many; none if a value is refused.
    pub open spec fn reached(
        &self,
        t: Tables,
        learns: bool,
        vals: Map<Seq<char>, Vec<String>>,
    ) -> Seq<u32> {
        match resolved_all(self.dims@, t, learns, vals, self.dims.len() as int).0 {
            Err(_) => seq![],
            Ok(lists) => if self.dims.len() == 0 {
                seq![]
            } else {
                all_cells(self.shapes@, lists, self.shapes.len() as int)
            },
        }
    }

    /// The cells of a device that reports `vals`, or why it is refused.
    pub open spec fn filed(
        &self,
        t: Tables,
        learns: bool,
        vals: Map<Seq<char>, Vec<String>>,
    ) -> Result<Seq<u32>, Seq<char>> {
        match resolved_all(self.dims@, t, learns, vals, self.dims.len() as int).0 {
            Err(e) => Err(e),
            Ok(lists) => {
                let q = all_cells(self.shapes@, lists, self.shapes.len() as int);
                if self.dims.len() == 0 {
                    Ok(seq![])
                } else if q.len() > self.max_cells_per_device {
                    Err(
                        "lands in "@ + number(q.len() as int) + " filter cells, over the "@
                            + number(self.max_cells_per_device as int)
                            + " this collection allows"@,
                    )
                } else {
                    Ok(q)
                }
            },
        }
    }
}

/// Resolved values are in range and distinct, and what was interned stays in range.
pub proof fn lemma_resolved(
    dims: Seq<Dimension>,
    t: Tables,
    learns: bool,
    d: int,
    list: Seq<Seq<char>>,
)
    requires
        tables_ok(dims, t),
        0 <= d < dims.len(),
    ensures
        tables_ok(dims, resolved(dims, t, learns, d, list).1),
        !learns ==> resolved(dims, t, learns, d, list).1 == t,
        resolved(dims, t, learns, d, list).0 matches Ok(q) ==> q.no_duplicates() && forall|j: int|
            0 <= j < q.len() ==> #[trigger] q[j] < dims[d].width(),
    decreases list.len(),
{
    if list.len() > 0 {
        lemma_resolved(dims, t, learns, d, list.drop_last());
        let before = resolved(dims, t, learns, d, list.drop_last());
        if before.0 is Ok {
            crate::schema::lemma_answer(dims, before.1, learns, d, list.last());
        }
    }
}

pub proof fn lemma_resolved_all(
    dims: Seq<Dimension>,
    t: Tables,
    learns: bool,
    vals: Map<Seq<char>, Vec<String>>,
    n: int,
)
    requires
        tables_ok(dims, t),
        0 <= n <= dims.len(),
        forall|d: int| 0 <= d < dims.len() ==> (#[trigger] dims[d]).width() > 0,
    ensures
        tables_ok(dims, resolved_all(dims, t, learns, vals, n).1),
        !learns ==> resolved_all(dims, t, learns, vals, n).1 == t,
        resolved_all(dims, t, learns, vals, n).0 matches Ok(q) ==> {
            &&& q.len() == n
            &&& in_range(dims.take(n), q)
            &&& forall|d: int| 0 <= d < n ==> (#[trigger] q[d]).no_duplicates()
        },
    decreases n,
{
    if n > 0 {
        lemma_resolved_all(dims, t, learns, vals, n - 1);
        let before = resolved_all(dims, t, learns, vals, n - 1);
        if before.0 is Ok {
            let name = dims[n - 1].name@;
            if vals.contains_key(name) {
                lemma_resolved(dims, before.1, learns, n - 1, texts(vals[name]@));
            }
            let r = resolved_dim(dims, before.1, learns, vals, n - 1);
            if r.0 is Ok {
                let p = before.0->Ok_0;
                let q = p.push(r.0->Ok_0);
                assert forall|d: int, j: int|
                    #![trigger q[d][j]]
                    0 <= d < q.len() && 0 <= j < q[d].len() implies q[d][j] < dims.take(
                    n,
                )[d].width() by {
                    if d < n - 1 {
                        assert(p[d][j] < dims.take(n - 1)[d].width());
                    } else {
                        assert(q[d] == r.0->Ok_0);
                    }
                }
            }
        }
    }
}

impl Schema {
    fn emit(&self, i: usize, lists: &Vec<Vec<u32>>, k: usize, acc: u32, out: &mut Vec<u32>)
        requires
            self.wf(),
            i < self.shapes.len(),
            in_range(self.dims@, views(lists@)),
            k <= self.shapes[i as int].dims.len(),
            acc + self.block_of(i as int, k as int) <= MAX_CELLS,
        ensures
            final(out)@ == old(out)@ + spread(
                self.shapes[i as int],
                views(lists@),
                k as int,
                acc as int,
            ),
        decreases self.shapes[i as int].dims.len() - k,
    {
        let sh = &self.shapes[i];
        let ghost lv = views(lists@);
        let ghost was = out@;
        proof {
            self.lemma_shape(i as int, k as int);
            assert(self.shape_ok(i as int));
        }
        if k == sh.dims.len() {
            out.push(acc);
            proof {
                assert(out@ =~= was + spread(*sh, lv, k as int, acc as int));
            }
            return;
        }
        let list = &lists[sh.dims[k]];
        let stride = sh.strides[k];
        let mut j: usize = 0;
        proof {
            self.lemma_shape(i as int, k + 1);
            assert(lv[sh.dims[k as int] as int] == list@);
            assert(out@ =~= was + fan(*sh, lv, k as int, acc as int, 0));
        }
        while j < list.len()
            invariant
                self.wf(),
                i < self.shapes.len(),
                *sh == self.shapes[i as int],
                lv == views(lists@),
                in_range(self.dims@, lv),
                k < sh.dims.len(),
                sh.dims[k as int] < self.dims.len(),
                list == &lists[sh.dims[k as int] as int],
                lv[sh.dims[k as int] as int] == list@,
                stride == sh.strides[k as int],
                stride == self.block_of(i as int, k + 1),
                stride >= 1,
                self.block_of(i as int, k as int) == self.dims[sh.dims[k as int] as int].width()
                    * stride,
                acc + self.block_of(i as int, k as int) <= MAX_CELLS,
                j <= list.len(),
                out@ == was + fan(*sh, lv, k as int, acc as int, j as int),
            decreases list.len() - j,
        {
            let v = list[j];
            proof {
                assert(lv[sh.dims[k as int] as int][j as int] == v);
                let w = self.dims[sh.dims[k as int] as int].width();
                assert(v * stride + stride <= w * stride && v * stride >= 0) by (nonlinear_arith)
                    requires
                        v < w,
                        stride >= 1,
                ;
            }
            let ghost mid = out@;
            self.emit(i, lists, k + 1, acc + v * stride, out);
            proof {
                assert(out@ =~= was + fan(*sh, lv, k as int, acc as int, j + 1));
            }
            j = j + 1;
        }
    }

    /// The values that a report gives for one dimension.
    fn resolve<V: Values>(&self, d: usize, list: &Vec<String>, res: &mut V) -> (r: Result<
        Vec<u32>,
        String,
    >)
        requires
            self.wf(),
            old(res).ready(),
            old(res).dims() == self.dims@,
            d < self.dims.len(),
        ensures
            final(res).ready(),
            final(res).dims() == self.dims@,
            final(res).learns() == old(res).learns(),
            ({
                let a = resolved(
                    self.dims@,
                    old(res).tables(),
                    old(res).learns(),
                    d as int,
                    texts(list@),
                );
                &&& final(res).tables() == a.1
                &&& match r {
                    Ok(v) => a.0 == Ok::<Seq<u32>, Seq<char>>(v@),
                    Err(e) => a.0 == Err::<Seq<u32>, Seq<char>>(e@),
                }
            }),
    {
        let mut out: Vec<u32> = Vec::new();
        let ghost q = texts(list@);
        let ghost t0 = res.tables();
        let ghost learns = res.learns();
        let mut j: usize = 0;
        proof {
            assert(out@ =~= seq![]);
        }
        while j < list.len()
            invariant
                j <= list.len(),
                q == texts(list@),
                d < self.dims.len(),
                t0 == old(res).tables(),
                learns == old(res).learns(),
                res.ready(),
                res.dims() == self.dims@,
                res.learns() == learns,
                resolved(self.dims@, t0, learns, d as int, q.take(j as int)) == (
                    Ok::<Seq<u32>, Seq<char>>(out@),
                    res.tables(),
                ),
            decreases list.len() - j,
        {
            let x = list[j].as_str();
            proof {
                assert(q.take(j + 1).drop_last() =~= q.take(j as int));
                assert(q.take(j + 1).last() == x@);
            }
            match res.get(d, x) {
                Err(e) => {
                    proof {
                        lemma_stuck(self.dims@, t0, learns, d as int, q, j + 1, q.len() as int);
                        assert(q.take(q.len() as int) =~= q);
                    }
                    return Err(e);
                },
                Ok(None) => {
                    let mut t = String::from_str("value ");
                    t.append(quote(x).as_str());
                    t.append(" for ");
                    t.append(quote(self.dims[d].name.as_str()).as_str());
                    t.append(" could not be resolved");
                    proof {
                        lemma_stuck(self.dims@, t0, learns, d as int, q, j + 1, q.len() as int);
                        assert(q.take(q.len() as int) =~= q);
                    }
                    return Err(t);
                },
                Ok(Some(i)) => {
                    if !has_index(&out, i) {
                        out.push(i);
                    }
                },
            }
            j = j + 1;
        }
        proof {
            assert(q.take(q.len() as int) =~= q);
        }
        Ok(out)
    }
}

fn zero_row() -> (r: Vec<u32>)
    ensures
        r@ == seq![0u32],
{
    let mut r: Vec<u32> = Vec::new();
    r.push(0);
    proof {
        assert(r@ =~= seq![0u32]);
    }
    r
}

fn has_index(v: &Vec<u32>, x: u32) -> (r: bool)
    ensures
        r == v@.contains(x),
{
    let mut i: usize = 0;
    while i < v.len()
        invariant
            i <= v@.len(),
            forall|j: int| 0 <= j < i ==> #[trigger] v@[j] != x,
        decreases v@.len() - i,
    {
        if v[i] == x {
            return true;
        }
        i = i + 1;
    }
    false
}

/// Once resolving has failed it has failed.
proof fn lemma_stuck(
    dims: Seq<Dimension>,
    t: Tables,
    learns: bool,
    d: int,
    q: Seq<Seq<char>>,
    j: int,
    n: int,
)
    requires
        0 <= j <= n <= q.len(),
        resolved(dims, t, learns, d, q.take(j)).0 is Err,
    ensures
        resolved(dims, t, learns, d, q.take(n)) == resolved(dims, t, learns, d, q.take(j)),
    decreases n - j,
{
    if j < n {
        lemma_stuck(dims, t, learns, d, q, j, n - 1);
        assert(q.take(n).drop_last() =~= q.take(n - 1));
    }
}

impl Schema {
    /// The values a report gives, per dimension.
    fn resolve_all<V: Values>(&self, vals: &StringHashMap<Vec<String>>, res: &mut V) -> (r: Result<
        Vec<Vec<u32>>,
        String,
    >)
        requires
            self.wf(),
            old(res).ready(),
            old(res).dims() == self.dims@,
        ensures
            final(res).ready(),
            final(res).dims() == self.dims@,
            final(res).learns() == old(res).learns(),
            ({
                let a = resolved_all(
                    self.dims@,
                    old(res).tables(),
                    old(res).learns(),
                    vals@,
                    self.dims.len() as int,
                );
                &&& final(res).tables() == a.1
                &&& match r {
                    Ok(v) => a.0 == Ok::<Seq<Seq<u32>>, Seq<char>>(views(v@)),
                    Err(e) => a.0 == Err::<Seq<Seq<u32>>, Seq<char>>(e@),
                }
            }),
    {
        let ghost t0 = res.tables();
        let ghost learns = res.learns();
        let mut out: Vec<Vec<u32>> = Vec::new();
        let mut d: usize = 0;
        proof {
            assert(views(out@) =~= seq![]);
        }
        while d < self.dims.len()
            invariant
                d <= self.dims.len(),
                self.wf(),
                t0 == old(res).tables(),
                learns == old(res).learns(),
                res.ready(),
                res.dims() == self.dims@,
                res.learns() == learns,
                resolved_all(self.dims@, t0, learns, vals@, d as int) == (
                    Ok::<Seq<Seq<u32>>, Seq<char>>(views(out@)),
                    res.tables(),
                ),
            decreases self.dims.len() - d,
        {
            let dim = &self.dims[d];
            let ghost before = out@;
            let ghost a = resolved_dim(self.dims@, res.tables(), learns, vals@, d as int);
            let row = match vals.get(dim.name.as_str()) {
                None => zero_row(),
                Some(given) => {
                    if given.len() == 0 {
                        zero_row()
                    } else if !dim.multi && given.len() > 1 {
                        let mut t = quote(dim.name.as_str());
                        t.append(" got ");
                        push_number(&mut t, given.len() as u64);
                        t.append(" values but is not declared multi");
                        proof {
                            lemma_stuck_all(
                                self.dims@,
                                t0,
                                learns,
                                vals@,
                                d + 1,
                                self.dims.len() as int,
                            );
                        }
                        return Err(t);
                    } else {
                        match self.resolve(d, given, res) {
                            Ok(v) => v,
                            Err(t) => {
                                proof {
                                    lemma_stuck_all(
                                        self.dims@,
                                        t0,
                                        learns,
                                        vals@,
                                        d + 1,
                                        self.dims.len() as int,
                                    );
                                }
                                return Err(t);
                            },
                        }
                    }
                },
            };
            proof {
                assert(a == (Ok::<Seq<u32>, Seq<char>>(row@), res.tables()));
            }
            out.push(row);
            proof {
                assert(views(out@) =~= views(before).push(row@));
            }
            d = d + 1;
        }
        Ok(out)
    }

    /// Every cell a device holding `vals` belongs to.
    ///
    /// A dimension absent from `vals` takes value 0, which is what a missing `category` has
    /// always meant. Declare an explicit "unassigned" label if that matters.
    pub fn cells_for<V: Values>(
        &self,
        vals: &StringHashMap<Vec<String>>,
        out: &mut Vec<u32>,
        res: &mut V,
    ) -> (r: Result<(), String>)
        requires
            self.wf(),
            old(res).ready(),
            old(res).dims() == self.dims@,
        ensures
            final(res).ready(),
            final(res).dims() == self.dims@,
            final(res).learns() == old(res).learns(),
            final(res).tables() == resolved_all(
                self.dims@,
                old(res).tables(),
                old(res).learns(),
                vals@,
                self.dims.len() as int,
            ).1,
            match r {
                Ok(_) => {
                    &&& self.filed(old(res).tables(), old(res).learns(), vals@) == Ok::<
                        Seq<u32>,
                        Seq<char>,
                    >(final(out)@)
                    &&& final(out)@.no_duplicates()
                    &&& final(out)@.len() <= self.max_cells_per_device
                    &&& forall|j: int|
                        0 <= j < final(out)@.len() ==> #[trigger] final(out)@[j] < self.cells
                },
                Err(e) => self.filed(old(res).tables(), old(res).learns(), vals@) == Err::<
                    Seq<u32>,
                    Seq<char>,
                >(e@),
            },
            final(out)@ == self.reached(old(res).tables(), old(res).learns(), vals@),
    {
        let ghost t0 = res.tables();
        let ghost learns = res.learns();
        out.clear();
        if !self.enabled() {
            return Ok(());
        }
        let lists = match self.resolve_all(vals, res) {
            Ok(v) => v,
            Err(t) => {
                return Err(t);
            },
        };
        let ghost lv = views(lists@);
        proof {
            assert forall|d: int| 0 <= d < self.dims.len() implies (
            #[trigger] self.dims[d]).width() > 0 by {
                assert(self.labelled(d));
            }
            old(res).lemma_ready();
            lemma_resolved_all(self.dims@, t0, learns, vals@, self.dims.len() as int);
            assert(self.dims@.take(self.dims.len() as int) =~= self.dims@);
            assert(in_range(self.dims@, lv));
        }
        let mut i: usize = 0;
        while i < self.shapes.len()
            invariant
                i <= self.shapes.len(),
                self.wf(),
                lv == views(lists@),
                in_range(self.dims@, lv),
                out@ == all_cells(self.shapes@, lv, i as int),
            decreases self.shapes.len() - i,
        {
            proof {
                self.lemma_shape(i as int, 0);
            }
            self.emit(i, &lists, 0, self.shapes[i].base, out);
            i = i + 1;
        }
        proof {
            self.law_cells(lv);
        }
        if out.len() > self.max_cells_per_device {
            let mut t = String::from_str("lands in ");
            push_number(&mut t, out.len() as u64);
            t.append(" filter cells, over the ");
            push_number(&mut t, self.max_cells_per_device as u64);
            t.append(" this collection allows");
            return Err(t);
        }
        Ok(())
    }
}

/// Once resolving has failed it has failed.
proof fn lemma_stuck_all(
    dims: Seq<Dimension>,
    t: Tables,
    learns: bool,
    vals: Map<Seq<char>, Vec<String>>,
    j: int,
    n: int,
)
    requires
        0 <= j <= n,
        resolved_all(dims, t, learns, vals, j).0 is Err,
    ensures
        resolved_all(dims, t, learns, vals, n) == resolved_all(dims, t, learns, vals, j),
    decreases n - j,
{
    if j < n {
        lemma_stuck_all(dims, t, learns, vals, j, n - 1);
    }
}

/// The shapes that may be queried, in words.
pub open spec fn described(dims: Seq<Dimension>, shapes: Seq<Shape>) -> Seq<char> {
    joined(
        Seq::new(
            shapes.len(),
            |i: int| "["@ + joined(named(dims, ints(shapes[i].dims@)), ", "@) + "]"@,
        ),
        ", "@,
    )
}

/// The names that a selection gives values for.
pub open spec fn sel_names(sel: Seq<(String, String)>) -> Seq<Seq<char>> {
    Seq::new(sel.len(), |j: int| sel[j].0@)
}

/// The value that a selection gives `name`.
pub open spec fn sel_value(sel: Seq<(String, String)>, name: Seq<char>) -> Seq<char>
    decreases sel.len(),
{
    if sel.len() == 0 {
        seq![]
    } else if sel[0].0@ == name {
        sel[0].1@
    } else {
        sel_value(sel.skip(1), name)
    }
}

/// The first shape from `i` on that has exactly the dimensions `q`.
pub open spec fn shape_for(shapes: Seq<Shape>, q: Seq<int>, i: int) -> int
    decreases shapes.len() - i,
{
    if i >= shapes.len() {
        -1
    } else if ints(shapes[i].dims@) == q {
        i
    } else {
        shape_for(shapes, q, i + 1)
    }
}

/// The values a selection picks for the first `n` dimensions of a shape; none if nothing ever
/// had one of them.
pub open spec fn selected(
    dims: Seq<Dimension>,
    t: Tables,
    learns: bool,
    sh: Shape,
    sel: Seq<(String, String)>,
    n: int,
) -> (Result<Option<Seq<u32>>, Seq<char>>, Tables)
    decreases n,
{
    if n <= 0 {
        (Ok(Some(seq![])), t)
    } else {
        let before = selected(dims, t, learns, sh, sel, n - 1);
        match before.0 {
            Ok(Some(vs)) => {
                let d = sh.dims[n - 1] as int;
                let a = answer(dims, before.1, learns, d, sel_value(sel, dims[d].name@));
                match a.0 {
                    Err(e) => (Err(e), a.1),
                    Ok(None) => (Ok(None), a.1),
                    Ok(Some(i)) => (Ok(Some(vs.push(i))), a.1),
                }
            },
            _ => before,
        }
    }
}

/// What is wrong with the `j`-th name of a selection.
pub open spec fn filter_fault(dims: Seq<Dimension>, sel: Seq<(String, String)>, j: int) -> Option<
    Seq<char>,
> {
    if names(dims).contains(sel[j].0@) {
        None
    } else {
        Some(
            "unknown filter "@ + quoted(sel[j].0@) + "; this collection has "@ + joined(
                names(dims),
                ", "@,
            ),
        )
    }
}

impl Schema {
    /// The cell that a selection picks, -1 for everything, nothing if no device can match; and
    /// what is interned then.
    pub open spec fn queried(&self, t: Tables, learns: bool, sel: Seq<(String, String)>) -> (
        Result<Option<i32>, Seq<char>>,
        Tables,
    ) {
        if sel.len() == 0 {
            (Ok(Some(-1 as i32)), t)
        } else {
            let dims = self.dims@;
            match first_fault(0, sel.len() as int, |j: int| filter_fault(dims, sel, j)) {
                Some(e) => (Err(e), t),
                None => {
                    let q = chosen(dims, sel_names(sel), dims.len() as int);
                    let si = shape_for(self.shapes@, q, 0);
                    if si < 0 {
                        (
                            Err(
                                "no declared filter combines ["@ + joined(named(dims, q), ", "@)
                                    + "]; this collection allows "@ + described(
                                    dims,
                                    self.shapes@,
                                ),
                            ),
                            t,
                        )
                    } else {
                        let sh = self.shapes[si];
                        let r = selected(dims, t, learns, sh, sel, sh.dims.len() as int);
                        match r.0 {
                            Err(e) => (Err(e), r.1),
                            Ok(None) => (Ok(None), r.1),
                            Ok(Some(vs)) => (Ok(Some((sh.base + offset(sh, vs, 0)) as i32)), r.1),
                        }
                    }
                },
            }
        }
    }

    pub fn describe_shapes(&self) -> (s: String)
        requires
            self.wf(),
        ensures
            s@ == described(self.dims@, self.shapes@),
    {
        let mut parts: Vec<String> = Vec::new();
        let mut i: usize = 0;
        while i < self.shapes.len()
            invariant
                i <= self.shapes.len(),
                self.wf(),
                parts@.len() == i,
                forall|j: int|
                    0 <= j < i ==> #[trigger] parts@[j]@ == "["@ + joined(
                        named(self.dims@, ints(self.shapes[j].dims@)),
                        ", "@,
                    ) + "]"@,
            decreases self.shapes.len() - i,
        {
            proof {
                assert(self.shape_ok(i as int));
            }
            let mut t = String::from_str("[");
            t.append(join(&names_of(&self.dims, &self.shapes[i].dims), ", ").as_str());
            t.append("]");
            parts.push(t);
            i = i + 1;
        }
        proof {
            let ghost dims = self.dims@;
            let ghost shapes = self.shapes@;
            assert(texts(parts@) =~= Seq::new(
                shapes.len(),
                |i: int| "["@ + joined(named(dims, ints(shapes[i].dims@)), ", "@) + "]"@,
            ));
        }
        join(&parts, ", ")
    }

    fn pick<'s>(&self, sel: &'s Vec<(String, String)>, name: &str) -> (r: Option<&'s str>)
        ensures
            match r {
                Some(v) => sel_names(sel@).contains(name@) && v@ == sel_value(sel@, name@),
                None => !sel_names(sel@).contains(name@),
            },
    {
        let mut j: usize = 0;
        proof {
            assert(sel@.skip(0) =~= sel@);
        }
        while j < sel.len()
            invariant
                j <= sel.len(),
                forall|i: int| 0 <= i < j ==> (#[trigger] sel@[i]).0@ != name@,
                sel_value(sel@, name@) == sel_value(sel@.skip(j as int), name@),
            decreases sel.len() - j,
        {
            proof {
                assert(sel@.skip(j as int).skip(1) =~= sel@.skip(j + 1));
                assert(sel@.skip(j as int)[0] == sel@[j as int]);
            }
            if *sel[j].0.as_str() == *name {
                proof {
                    assert(sel_names(sel@)[j as int] == name@);
                }
                return Some(sel[j].1.as_str());
            }
            j = j + 1;
        }
        None
    }

    /// The single cell a query selects, or -1 for "everything".
    ///
    /// `sel` must name exactly the dimensions of a declared shape; anything else is an error
    /// rather than a slow path, so a filter can never quietly become a scan of the viewport.
    pub fn query_cell<V: Values>(&self, sel: &Vec<(String, String)>, res: &mut V) -> (r: Result<
        Option<i32>,
        String,
    >)
        requires
            self.wf(),
            old(res).ready(),
            old(res).dims() == self.dims@,
            sel_names(sel@).no_duplicates(),
        ensures
            final(res).ready(),
            final(res).dims() == self.dims@,
            final(res).learns() == old(res).learns(),
            final(res).tables() == self.queried(old(res).tables(), old(res).learns(), sel@).1,
            match r {
                Ok(c) => {
                    &&& self.queried(old(res).tables(), old(res).learns(), sel@).0 == Ok::<
                        Option<i32>,
                        Seq<char>,
                    >(c)
                    &&& c matches Some(c) ==> -1 <= c < self.cells as int && (c == -1 <==> sel.len()
                        == 0)
                },
                Err(e) => self.queried(old(res).tables(), old(res).learns(), sel@).0 == Err::<
                    Option<i32>,
                    Seq<char>,
                >(e@),
            },
    {
        if sel.len() == 0 {
            return Ok(Some(-1));
        }
        let ghost dims = self.dims@;
        let ghost f = |j: int| filter_fault(dims, sel@, j);
        let ghost t0 = res.tables();
        let ghost learns = res.learns();
        let mut wanted: Vec<String> = Vec::new();
        let mut j: usize = 0;
        while j < sel.len()
            invariant
                j <= sel.len(),
                sel.len() > 0,
                self.wf(),
                dims == self.dims@,
                f == (|j: int| filter_fault(dims, sel@, j)),
                first_fault(0, sel.len() as int, f) == first_fault(j as int, sel.len() as int, f),
                wanted@.len() == j,
                forall|i: int| 0 <= i < j ==> #[trigger] wanted@[i]@ == sel@[i].0@,
                t0 == old(res).tables(),
                learns == old(res).learns(),
                *res == *old(res),
                res.ready(),
                res.dims() == self.dims@,
            decreases sel.len() - j,
        {
            let name = sel[j].0.as_str();
            if !self.by_name.contains_key(name) {
                let mut t = String::from_str("unknown filter ");
                t.append(quote(name).as_str());
                t.append("; this collection has ");
                t.append(join(&dim_names(&self.dims), ", ").as_str());
                proof {
                    if names(dims).contains(name@) {
                        let d = choose|d: int| 0 <= d < names(dims).len() && names(dims)[d] == name@;
                        assert(self.by_name@.contains_key(self.dims[d].name@));
                    }
                    assert(f(j as int) == Some(t@));
                }
                return Err(t);
            }
            proof {
                assert(f(j as int) is None);
            }
            wanted.push(sel[j].0.clone());
            j = j + 1;
        }
        proof {
            assert(texts(wanted@) =~= sel_names(sel@));
        }
        let q = choose_dims(&self.dims, &wanted);
        let mut i: usize = 0;
        while i < self.shapes.len() && !same_dims(&self.shapes[i].dims, &q)
            invariant
                i <= self.shapes.len(),
                shape_for(self.shapes@, ints(q@), 0) == shape_for(
                    self.shapes@,
                    ints(q@),
                    i as int,
                ),
            decreases self.shapes.len() - i,
        {
            i = i + 1;
        }
        if i == self.shapes.len() {
            let mut t = String::from_str("no declared filter combines [");
            t.append(join(&names_of(&self.dims, &q), ", ").as_str());
            t.append("]; this collection allows ");
            t.append(self.describe_shapes().as_str());
            return Err(t);
        }
        let sh = &self.shapes[i];
        proof {
            assert(self.shape_ok(i as int));
            assert(ints(sh.dims@) == ints(q@));
            assert(sh.dims@.len() == ints(q@).len());
            assert forall|k: int| 0 <= k < q@.len() implies sh.dims@[k] == q@[k] by {
                assert(ints(sh.dims@)[k] == ints(q@)[k]);
            }
            assert(sh.dims@ =~= q@);
        }
        let mut vs: Vec<u32> = Vec::new();
        let mut k: usize = 0;
        proof {
            assert(vs@ =~= seq![]);
        }
        while k < sh.dims.len()
            invariant
                k <= sh.dims.len(),
                self.wf(),
                i < self.shapes.len(),
                *sh == self.shapes[i as int],
                sh.dims@ == q@,
                dims == self.dims@,
                forall|k: int| 0 <= k < q@.len() ==> #[trigger] q@[k] < self.dims.len(),
                forall|k: int|
                    0 <= k < q@.len() ==> texts(wanted@).contains(
                        self.dims[(#[trigger] q@[k]) as int].name@,
                    ),
                texts(wanted@) == sel_names(sel@),
                sel.len() > 0,
                f == (|j: int| filter_fault(dims, sel@, j)),
                first_fault(0, sel.len() as int, f) is None,
                ints(q@) == chosen(dims, sel_names(sel@), dims.len() as int),
                shape_for(self.shapes@, ints(q@), 0) == i,
                t0 == old(res).tables(),
                learns == old(res).learns(),
                res.ready(),
                res.dims() == self.dims@,
                res.learns() == learns,
                vs@.len() == k,
                forall|l: int|
                    0 <= l < k ==> (#[trigger] vs@[l]) < self.dims[sh.dims[l] as int].width(),
                selected(dims, t0, learns, *sh, sel@, k as int) == (
                    Ok::<Option<Seq<u32>>, Seq<char>>(Some(vs@)),
                    res.tables(),
                ),
            decreases sh.dims.len() - k,
        {
            let d = sh.dims[k];
            proof {
                assert(q@[k as int] < self.dims.len());
                res.lemma_ready();
            }
            let v = match self.pick(sel, self.dims[d].name.as_str()) {
                Some(v) => v,
                None => {
                    proof {
                        assert(texts(wanted@).contains(self.dims[q@[k as int] as int].name@));
                    }
                    ""
                },
            };
            proof {
                crate::schema::lemma_answer(dims, res.tables(), learns, d as int, v@);
                if selected(dims, t0, learns, *sh, sel@, k + 1).0 is Err || selected(
                    dims,
                    t0,
                    learns,
                    *sh,
                    sel@,
                    k + 1,
                ).0 == Ok::<Option<Seq<u32>>, Seq<char>>(None) {
                    lemma_stuck_query(
                        dims,
                        t0,
                        learns,
                        *sh,
                        sel@,
                        k + 1,
                        sh.dims.len() as int,
                    );
                }
            }
            match res.get(d, v) {
                Err(e) => {
                    return Err(e);
                },
                Ok(None) => {
                    return Ok(None);
                },
                Ok(Some(x)) => {
                    vs.push(x);
                },
            }
            k = k + 1;
        }
        proof {
            self.lemma_shape(i as int, 0);
            self.lemma_offset(i as int, vs@, 0);
        }
        let mut at: u32 = 0;
        k = vs.len();
        while k > 0
            invariant
                k <= vs@.len(),
                self.wf(),
                i < self.shapes.len(),
                *sh == self.shapes[i as int],
                sh.strides.len() == sh.dims.len(),
                vs@.len() == sh.dims.len(),
                forall|l: int|
                    0 <= l < vs@.len() ==> (#[trigger] vs@[l]) < self.dims[sh.dims[l] as int].width(),
                at == offset(*sh, vs@, k as int),
            decreases k,
        {
            k = k - 1;
            proof {
                self.lemma_offset(i as int, vs@, k as int);
                self.lemma_shape(i as int, k as int);
                assert(at >= 0);
                let (a, b) = (vs@[k as int], sh.strides@[k as int]);
                assert(a * b >= 0) by (nonlinear_arith);
            }
            at = at + vs[k] * sh.strides[k];
        }
        Ok(Some((sh.base + at) as i32))
    }
}

/// Once a selection has failed, or picked nothing, it stays so.
proof fn lemma_stuck_query(
    dims: Seq<Dimension>,
    t: Tables,
    learns: bool,
    sh: Shape,
    sel: Seq<(String, String)>,
    j: int,
    n: int,
)
    requires
        0 <= j <= n,
        !(selected(dims, t, learns, sh, sel, j).0 matches Ok(Some(_))),
    ensures
        selected(dims, t, learns, sh, sel, n) == selected(dims, t, learns, sh, sel, j),
    decreases n - j,
{
    if j < n {
        lemma_stuck_query(dims, t, learns, sh, sel, j, n - 1);
    }
}

} // verus!
