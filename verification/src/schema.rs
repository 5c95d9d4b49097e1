//! Filter schema: dimensions, query shapes, and the cell encoding.
//!
//! A *dimension* is a property to filter on (`client`, `status`). A *shape* is a combination that
//! may be queried (`["client", "status"]`). A *cell* is one concrete assignment of values to the
//! dimensions of one shape. The index itself deals only in cell integers; naming lives here.
//!
//! Shapes are declared rather than inferred because they are what costs memory: a device
//! contributes one aggregate entry per shape per tree level. A query must name exactly the
//! dimensions of some declared shape, which keeps a filtered query at one lookup per node.
use crate::geometry::MAX_CELLS;
use crate::text::{copy_texts, join, joined, list, listing, number, parse_number, parsed, push_big,
    push_number, quote, quoted, texts};
use vstd::hash_map::StringHashMap;
use vstd::prelude::*;
use vstd::string::StringExecFns;

verus! {

/// One filterable property.
///
/// Give it either `values` (the labels, when they are known) or `capacity` (how many distinct
/// ones may exist, when they are not). With `capacity` the values are *interned*: each one seen
/// for the first time takes the next free index, so the ceiling is how many can coexist rather
/// than how large an id may get.
#[derive(Clone, Debug)]
pub struct Dimension {
    pub name: String,
    /// Value labels; a label's position in this list is its value index.
    pub values: Vec<String>,
    /// How many distinct values may exist, when they are not known up front. Mutually exclusive
    /// with `values`.
    pub capacity: Option<usize>,
    /// May one device hold several of these values at once?
    pub multi: bool,
}

impl Dimension {
    /// How many values there can be.
    pub open spec fn width(&self) -> int {
        match self.capacity {
            Some(n) => n as int,
            None => self.values.len() as int,
        }
    }

    /// How many values this dimension can take: its declared list, or its cap.
    pub fn size(&self) -> (n: usize)
        ensures
            n == self.width(),
    {
        match self.capacity {
            Some(n) => n,
            None => self.values.len(),
        }
    }

    pub fn is_dynamic(&self) -> (r: bool)
        ensures
            r == (self.capacity is Some),
    {
        self.capacity.is_some()
    }

    /// The same declaration.
    pub open spec fn like(&self, o: Dimension) -> bool {
        &&& self.name@ == o.name@
        &&& texts(self.values@) == texts(o.values@)
        &&& self.capacity == o.capacity
        &&& self.multi == o.multi
    }
}

/// The first fault that `f` finds at `i..n`.
pub open spec fn first_fault(i: int, n: int, f: spec_fn(int) -> Option<Seq<char>>) -> Option<
    Seq<char>,
>
    decreases n - i,
{
    if i >= n {
        None
    } else if f(i) is Some {
        f(i)
    } else {
        first_fault(i + 1, n, f)
    }
}

/// The names of the dimensions, in order.
pub open spec fn names(dims: Seq<Dimension>) -> Seq<Seq<char>> {
    Seq::new(dims.len(), |i: int| dims[i].name@)
}

/// `q[i]` occurs earlier in `q`.
pub open spec fn repeats(q: Seq<Seq<char>>, i: int) -> bool {
    exists|j: int| 0 <= j < i && #[trigger] q[j] == q[i]
}

/// What is wrong with the `i`-th value of a dimension.
pub open spec fn value_fault(d: Dimension, i: int) -> Option<Seq<char>> {
    if repeats(texts(d.values@), i) {
        Some("dimension "@ + quoted(d.name@) + " repeats the value "@ + quoted(d.values[i]@))
    } else {
        None
    }
}

/// What is wrong with the `i`-th dimension.
pub open spec fn dim_fault(dims: Seq<Dimension>, i: int) -> Option<Seq<char>> {
    let d = dims[i];
    let named = "dimension "@ + quoted(d.name@);
    if d.values.len() == 0 && d.capacity is None {
        Some(named + " declares neither `values` nor `capacity`"@)
    } else if d.values.len() > 0 && d.capacity is Some {
        Some(
            named
                + " declares both `values` and `capacity`; list the labels or give a ceiling, not both"@,
        )
    } else if d.capacity == Some(0usize) {
        Some(named + " has capacity 0"@)
    } else {
        match first_fault(0, d.values.len() as int, |j: int| value_fault(d, j)) {
            Some(t) => Some(t),
            None => if repeats(names(dims), i) {
                Some("duplicate dimension "@ + quoted(d.name@))
            } else {
                None
            },
        }
    }
}

/// The shapes that are declared: each dimension on its own if none is given.
pub open spec fn declared(dims: Seq<Dimension>, filters: Seq<Vec<String>>) -> Seq<Seq<Seq<char>>> {
    if filters.len() == 0 {
        Seq::new(dims.len(), |i: int| seq![dims[i].name@])
    } else {
        Seq::new(filters.len(), |i: int| texts(filters[i]@))
    }
}

/// Which of the first `n` dimensions `f` names, in declaration order.
pub open spec fn chosen(dims: Seq<Dimension>, f: Seq<Seq<char>>, n: int) -> Seq<int>
    decreases n,
{
    if n <= 0 {
        seq![]
    } else if f.contains(dims[n - 1].name@) {
        chosen(dims, f, n - 1).push(n - 1)
    } else {
        chosen(dims, f, n - 1)
    }
}

/// What is wrong with the `j`-th name of a shape.
pub open spec fn name_fault(dims: Seq<Dimension>, f: Seq<Seq<char>>, j: int) -> Option<Seq<char>> {
    if names(dims).contains(f[j]) {
        None
    } else {
        Some(
            "filter shape names "@ + quoted(f[j])
                + ", which is not a declared dimension (have: "@ + joined(names(dims), ", "@)
                + ")"@,
        )
    }
}

/// What is wrong with the `i`-th shape.
pub open spec fn shape_fault(dims: Seq<Dimension>, raw: Seq<Seq<Seq<char>>>, i: int) -> Option<
    Seq<char>,
> {
    let f = raw[i];
    if f.len() == 0 {
        Some("a filter shape must name at least one dimension"@)
    } else {
        match first_fault(0, f.len() as int, |j: int| name_fault(dims, f, j)) {
            Some(t) => Some(t),
            None => if exists|j: int| 0 <= j < f.len() && #[trigger] repeats(f, j) {
                Some("filter shape "@ + listing(f) + " repeats a dimension"@)
            } else if exists|e: int|
                0 <= e < i && chosen(dims, #[trigger] raw[e], dims.len() as int) == chosen(
                    dims,
                    f,
                    dims.len() as int,
                ) {
                Some("duplicate filter shape "@ + listing(f))
            } else {
                None
            },
        }
    }
}

/// How many cells the dimensions `q[k..]` multiply to.
pub open spec fn block(dims: Seq<Dimension>, q: Seq<int>, k: int) -> int
    decreases q.len() - k,
{
    if k >= q.len() {
        1
    } else {
        dims[q[k]].width() * block(dims, q, k + 1)
    }
}

/// The dimensions of the `i`-th shape.
pub open spec fn shape_dims(dims: Seq<Dimension>, raw: Seq<Seq<Seq<char>>>, i: int) -> Seq<int> {
    chosen(dims, raw[i], dims.len() as int)
}

/// How many cells the first `n` shapes have.
pub open spec fn blocks(dims: Seq<Dimension>, raw: Seq<Seq<Seq<char>>>, n: int) -> int
    decreases n,
{
    if n <= 0 {
        0
    } else {
        blocks(dims, raw, n - 1) + block(dims, shape_dims(dims, raw, n - 1), 0)
    }
}

/// The names of some dimensions.
pub open spec fn named(dims: Seq<Dimension>, q: Seq<int>) -> Seq<Seq<char>> {
    Seq::new(q.len(), |k: int| dims[q[k]].name@)
}

/// A shape that has too many cells.
pub open spec fn size_fault(dims: Seq<Dimension>, raw: Seq<Seq<Seq<char>>>, i: int) -> Option<
    Seq<char>,
> {
    let q = shape_dims(dims, raw, i);
    if block(dims, q, 0) > MAX_CELLS {
        Some(
            "filter shape "@ + listing(named(dims, q)) + " needs more than the "@ + number(
                MAX_CELLS as int,
            ) + " cells available; a shape costs the product of its dimensions"@,
        )
    } else {
        None
    }
}

/// Why no schema can be built, if none can.
pub open spec fn schema_fault(dims: Seq<Dimension>, filters: Seq<Vec<String>>) -> Option<
    Seq<char>,
> {
    let raw = declared(dims, filters);
    match first_fault(0, dims.len() as int, |i: int| dim_fault(dims, i)) {
        Some(t) => Some(t),
        None => match first_fault(0, raw.len() as int, |i: int| shape_fault(dims, raw, i)) {
            Some(t) => Some(t),
            None => match first_fault(0, raw.len() as int, |i: int| size_fault(dims, raw, i)) {
                Some(t) => Some(t),
                None => if blocks(dims, raw, raw.len() as int) > MAX_CELLS {
                    Some(
                        "the declared filters need "@ + number(
                            blocks(dims, raw, raw.len() as int),
                        ) + " cells, over the "@ + number(MAX_CELLS as int) + " limit"@,
                    )
                } else {
                    None
                },
            },
        },
    }
}

#[derive(Clone, Debug)]
pub struct Shape {
    /// The dimensions, in declaration order.
    pub dims: Vec<usize>,
    /// The first cell of the shape.
    pub base: u32,
    /// Per dimension, how far apart the cells of neighbouring values are.
    pub strides: Vec<u32>,
}

/// Indices as numbers.
pub open spec fn ints(q: Seq<usize>) -> Seq<int> {
    Seq::new(q.len(), |i: int| q[i] as int)
}

pub struct Schema {
    pub dims: Vec<Dimension>,
    pub shapes: Vec<Shape>,
    /// How many cells there are.
    pub cells: usize,
    /// How many cells one device may be in.
    pub max_cells_per_device: usize,
    /// The index of each dimension.
    pub by_name: StringHashMap<usize>,
    /// Label to index for declared dimensions; empty for dynamic ones.
    pub labels: Vec<StringHashMap<u32>>,
}

/// The most cells a device can be in, by the declaration: one per shape, four for each
/// dimension of it that may hold several values.
pub open spec fn worst_of(dims: Seq<Dimension>, q: Seq<int>, k: int) -> int
    decreases k,
{
    if k <= 0 {
        1
    } else {
        worst_of(dims, q, k - 1) * (if dims[q[k - 1]].multi {
            4int
        } else {
            1int
        })
    }
}

pub open spec fn worst(dims: Seq<Dimension>, shapes: Seq<Shape>, n: int) -> int
    decreases n,
{
    if n <= 0 {
        0
    } else {
        worst(dims, shapes, n - 1) + worst_of(
            dims,
            ints(shapes[n - 1].dims@),
            shapes[n - 1].dims.len() as int,
        )
    }
}

/// A number, or the most that fits.
pub open spec fn capped(n: int) -> int {
    if n > usize::MAX {
        usize::MAX as int
    } else {
        n
    }
}

/// A dimension that can be filtered on.
pub open spec fn sound_dim(d: Dimension) -> bool {
    &&& d.width() > 0
    &&& d.values.len() == 0 <==> d.capacity is Some
    &&& texts(d.values@).no_duplicates()
}

impl Schema {
    /// How many cells the dimensions `k..` of shape `i` multiply to.
    pub open spec fn block_of(&self, i: int, k: int) -> int {
        block(self.dims@, ints(self.shapes[i].dims@), k)
    }

    /// Shape `i` is laid out: a block of its own, in mixed radix.
    pub open spec fn shape_ok(&self, i: int) -> bool {
        let sh = self.shapes[i];
        &&& sh.dims.len() > 0
        &&& sh.strides.len() == sh.dims.len()
        &&& forall|k: int| 0 <= k < sh.dims.len() ==> #[trigger] sh.dims[k] < self.dims.len()
        &&& forall|k: int, l: int|
            0 <= k < l < sh.dims.len() ==> #[trigger] sh.dims[k] < #[trigger] sh.dims[l]
        &&& forall|k: int|
            0 <= k < sh.dims.len() ==> #[trigger] sh.strides[k] == self.block_of(i, k + 1)
        &&& sh.base + self.block_of(i, 0) == (if i + 1 < self.shapes.len() {
            self.shapes[i + 1].base as int
        } else {
            self.cells as int
        })
    }

    /// The labels of dimension `d` lead to their positions.
    pub open spec fn labelled(&self, d: int) -> bool {
        leads(self.labels[d]@, self.dims[d])
    }

    pub open spec fn wf(&self) -> bool {
        &&& self.labels.len() == self.dims.len()
        &&& forall|d: int|
            0 <= d < self.dims.len() ==> #[trigger] self.labelled(d) && sound_dim(self.dims[d])
        &&& names(self.dims@).no_duplicates()
        &&& forall|d: int|
            0 <= d < self.dims.len() ==> self.by_name@.contains_key(#[trigger] self.dims[d].name@)
                && self.by_name@[self.dims[d].name@] == d
        &&& forall|v: Seq<char>| #[trigger]
            self.by_name@.contains_key(v) ==> names(self.dims@).contains(v)
        &&& forall|i: int| 0 <= i < self.shapes.len() ==> #[trigger] self.shape_ok(i)
        &&& self.shapes.len() > 0 ==> self.shapes[0].base == 0
        &&& self.shapes.len() == 0 ==> self.cells == 0
        &&& self.dims.len() > 0 ==> self.shapes.len() > 0
        &&& self.dims.len() == 0 ==> self.shapes.len() == 0
        &&& self.cells <= MAX_CELLS
        &&& self.max_cells_per_device > 0
        &&& self.max_cells_per_device >= self.shapes.len()
    }

    /// The schema is what was declared.
    pub open spec fn built(&self, dims: Seq<Dimension>, filters: Seq<Vec<String>>) -> bool {
        let raw = declared(dims, filters);
        &&& self.dims@ == dims
        &&& self.shapes.len() == raw.len()
        &&& forall|i: int|
            0 <= i < raw.len() ==> ints(#[trigger] self.shapes[i].dims@) == shape_dims(dims, raw, i)
        &&& self.cells == blocks(dims, raw, raw.len() as int)
        &&& self.max_cells_per_device == (if raw.len() == 0 {
            1
        } else {
            capped(worst(dims, self.shapes@, raw.len() as int))
        })
    }
}

/// Whether a text is in a list.
fn has_text(v: &Vec<String>, t: &str) -> (r: bool)
    ensures
        r == texts(v@).contains(t@),
{
    let mut i: usize = 0;
    while i < v.len()
        invariant
            i <= v@.len(),
            forall|j: int| 0 <= j < i ==> #[trigger] texts(v@)[j] != t@,
        decreases v@.len() - i,
    {
        if *v[i].as_str() == *t {
            proof {
                assert(texts(v@)[i as int] == t@);
            }
            return true;
        }
        i = i + 1;
    }
    false
}

/// Whether a text occurs twice in a list.
fn has_repeat(v: &Vec<String>) -> (r: bool)
    ensures
        r == exists|j: int| 0 <= j < v@.len() && #[trigger] repeats(texts(v@), j),
{
    let ghost q = texts(v@);
    let mut i: usize = 0;
    while i < v.len()
        invariant
            i <= v@.len(),
            q == texts(v@),
            forall|j: int| 0 <= j < i ==> !#[trigger] repeats(q, j),
        decreases v@.len() - i,
    {
        let mut k: usize = 0;
        while k < i
            invariant
                k <= i < v@.len(),
                q == texts(v@),
                forall|j: int| 0 <= j < k ==> #[trigger] q[j] != q[i as int],
            decreases i - k,
        {
            if *v[k].as_str() == *v[i].as_str() {
                proof {
                    assert(q[k as int] == q[i as int]);
                    assert(repeats(q, i as int));
                }
                return true;
            }
            k = k + 1;
        }
        i = i + 1;
    }
    false
}

/// The labels of a dimension, each with its position.
fn label_map(d: &Dimension) -> (r: Result<StringHashMap<u32>, String>)
    ensures
        match r {
            Ok(m) => {
                &&& first_fault(0, d.values.len() as int, |j: int| value_fault(*d, j)) is None
                &&& texts(d.values@).no_duplicates()
                &&& forall|j: int|
                    0 <= j < d.values.len() ==> m@.contains_key(#[trigger] texts(d.values@)[j])
                        && m@[texts(d.values@)[j]] == j as u32
                &&& forall|v: Seq<char>| #[trigger]
                    m@.contains_key(v) ==> texts(d.values@).contains(v)
            },
            Err(e) => first_fault(0, d.values.len() as int, |j: int| value_fault(*d, j)) == Some(
                e@,
            ),
        },
{
    let ghost q = texts(d.values@);
    let ghost f = |j: int| value_fault(*d, j);
    let mut m: StringHashMap<u32> = StringHashMap::new();
    let mut i: usize = 0;
    while i < d.values.len()
        invariant
            i <= d.values@.len(),
            q == texts(d.values@),
            f == (|j: int| value_fault(*d, j)),
            first_fault(0, d.values.len() as int, f) == first_fault(
                i as int,
                d.values.len() as int,
                f,
            ),
            forall|j: int|
                0 <= j < i ==> m@.contains_key(#[trigger] q[j]) && m@[q[j]] == j as u32,
            forall|v: Seq<char>| #[trigger]
                m@.contains_key(v) ==> exists|j: int| 0 <= j < i && #[trigger] q[j] == v,
            forall|j: int, k: int| 0 <= j < k < i ==> #[trigger] q[j] != #[trigger] q[k],
        decreases d.values@.len() - i,
    {
        let v = d.values[i].as_str();
        proof {
            assert(q[i as int] == v@);
        }
        if m.contains_key(v) {
            let mut t = String::from_str("dimension ");
            t.append(quote(d.name.as_str()).as_str());
            t.append(" repeats the value ");
            t.append(quote(v).as_str());
            proof {
                let j = choose|j: int| 0 <= j < i && #[trigger] q[j] == v@;
                assert(repeats(q, i as int));
                assert(f(i as int) == Some(t@));
            }
            return Err(t);
        }
        proof {
            assert(!repeats(q, i as int));
            assert(f(i as int) is None);
        }
        let ghost before = m@;
        m.insert(v.to_owned(), i as u32);
        proof {
            assert forall|w: Seq<char>| #[trigger] m@.contains_key(w) implies exists|j: int|
                0 <= j < i + 1 && #[trigger] q[j] == w by {
                if w == v@ {
                    assert(q[i as int] == w);
                } else {
                    assert(before.contains_key(w));
                }
            }
        }
        i = i + 1;
    }
    Ok(m)
}

/// What a dimension is refused for, but for its name.
fn check_dim(d: &Dimension) -> (r: Option<String>)
    ensures
        r is None ==> d.width() > 0 && (d.values.len() == 0 <==> d.capacity is Some),
        r matches Some(t) ==> forall|dims: Seq<Dimension>, i: int|
            dims[i] == *d ==> #[trigger] dim_fault(dims, i) == Some(t@),
{
    let tail = if d.values.len() == 0 && d.capacity.is_none() {
        " declares neither `values` nor `capacity`"
    } else if d.values.len() > 0 && d.capacity.is_some() {
        " declares both `values` and `capacity`; list the labels or give a ceiling, not both"
    } else if d.values.len() == 0 && d.size() == 0 {
        " has capacity 0"
    } else {
        return None;
    };
    let mut t = String::from_str("dimension ");
    t.append(quote(d.name.as_str()).as_str());
    t.append(tail);
    Some(t)
}

/// The labels of all dimensions, and the dimensions by name.
fn check_dims(dims: &Vec<Dimension>) -> (r: Result<
    (Vec<StringHashMap<u32>>, StringHashMap<usize>),
    String,
>)
    ensures
        match r {
            Ok((labels, by_name)) => {
                &&& first_fault(0, dims.len() as int, |i: int| dim_fault(dims@, i)) is None
                &&& names(dims@).no_duplicates()
                &&& labels.len() == dims.len()
                &&& forall|d: int|
                    0 <= d < dims.len() ==> leads(#[trigger] labels@[d]@, dims[d]) && sound_dim(
                        dims[d],
                    )
                &&& forall|d: int|
                    0 <= d < dims.len() ==> by_name@.contains_key(#[trigger] dims[d].name@)
                        && by_name@[dims[d].name@] == d
                &&& forall|v: Seq<char>| #[trigger]
                    by_name@.contains_key(v) ==> names(dims@).contains(v)
            },
            Err(e) => first_fault(0, dims.len() as int, |i: int| dim_fault(dims@, i)) == Some(e@),
        },
{
    let ghost f = |i: int| dim_fault(dims@, i);
    let ghost q = names(dims@);
    let mut labels: Vec<StringHashMap<u32>> = Vec::new();
    let mut by_name: StringHashMap<usize> = StringHashMap::new();
    let mut i: usize = 0;
    while i < dims.len()
        invariant
            i <= dims@.len(),
            q == names(dims@),
            f == (|i: int| dim_fault(dims@, i)),
            first_fault(0, dims.len() as int, f) == first_fault(i as int, dims.len() as int, f),
            labels.len() == i,
            forall|d: int|
                0 <= d < i ==> leads(#[trigger] labels@[d]@, dims[d]) && sound_dim(dims[d]),
            forall|d: int|
                0 <= d < i ==> by_name@.contains_key(#[trigger] q[d]) && by_name@[q[d]] == d,
            forall|v: Seq<char>| #[trigger]
                by_name@.contains_key(v) ==> exists|d: int| 0 <= d < i && #[trigger] q[d] == v,
            forall|j: int, k: int| 0 <= j < k < i ==> #[trigger] q[j] != #[trigger] q[k],
        decreases dims@.len() - i,
    {
        let d = &dims[i];
        proof {
            assert(q[i as int] == d.name@);
            assert(f(i as int) == dim_fault(dims@, i as int));
        }
        match check_dim(d) {
            Some(t) => {
                return Err(t);
            },
            None => {},
        }
        let m = match label_map(d) {
            Ok(m) => m,
            Err(t) => {
                return Err(t);
            },
        };
        if by_name.contains_key(d.name.as_str()) {
            let mut t = String::from_str("duplicate dimension ");
            t.append(quote(d.name.as_str()).as_str());
            proof {
                let j = choose|j: int| 0 <= j < i && #[trigger] q[j] == d.name@;
                assert(repeats(q, i as int));
                assert(f(i as int) == Some(t@));
            }
            return Err(t);
        }
        proof {
            assert(!repeats(q, i as int));
            assert(f(i as int) is None);
        }
        let ghost before = by_name@;
        by_name.insert(d.name.clone(), i);
        labels.push(m);
        proof {
            assert forall|w: Seq<char>| #[trigger] by_name@.contains_key(w) implies exists|j: int|
                0 <= j < i + 1 && #[trigger] q[j] == w by {
                if w == d.name@ {
                    assert(q[i as int] == w);
                } else {
                    assert(before.contains_key(w));
                }
            }
        }
        i = i + 1;
    }
    proof {
        assert forall|d: int| 0 <= d < dims.len() implies by_name@.contains_key(
            #[trigger] dims[d].name@,
        ) && by_name@[dims[d].name@] == d by {
            assert(q[d] == dims[d].name@);
        }
    }
    Ok((labels, by_name))
}

/// The labels of `d` lead to their positions.
pub open spec fn leads(m: Map<Seq<char>, u32>, d: Dimension) -> bool {
    let q = texts(d.values@);
    &&& forall|j: int|
        0 <= j < q.len() ==> m.contains_key(#[trigger] q[j]) && m[q[j]] == j as u32
    &&& forall|v: Seq<char>| #[trigger] m.contains_key(v) ==> q.contains(v)
}

/// The shapes that are declared.
fn declare(dims: &Vec<Dimension>, filters: &Vec<Vec<String>>) -> (r: Vec<Vec<String>>)
    ensures
        r@.len() == declared(dims@, filters@).len(),
        forall|i: int|
            0 <= i < r@.len() ==> texts(#[trigger] r@[i]@) == declared(dims@, filters@)[i],
{
    let mut r: Vec<Vec<String>> = Vec::new();
    if filters.len() == 0 {
        let mut i: usize = 0;
        while i < dims.len()
            invariant
                i <= dims@.len(),
                r@.len() == i,
                filters@.len() == 0,
                forall|j: int|
                    0 <= j < i ==> texts(#[trigger] r@[j]@) == declared(dims@, filters@)[j],
            decreases dims@.len() - i,
        {
            let mut one: Vec<String> = Vec::new();
            one.push(dims[i].name.clone());
            proof {
                assert(texts(one@) =~= seq![dims[i as int].name@]);
            }
            r.push(one);
            i = i + 1;
        }
    } else {
        let mut i: usize = 0;
        while i < filters.len()
            invariant
                i <= filters@.len(),
                r@.len() == i,
                filters@.len() > 0,
                forall|j: int|
                    0 <= j < i ==> texts(#[trigger] r@[j]@) == declared(dims@, filters@)[j],
            decreases filters@.len() - i,
        {
            r.push(copy_texts(&filters[i]));
            i = i + 1;
        }
    }
    r
}

pub fn dim_names(dims: &Vec<Dimension>) -> (r: Vec<String>)
    ensures
        texts(r@) == names(dims@),
{
    let mut r: Vec<String> = Vec::new();
    let mut i: usize = 0;
    while i < dims.len()
        invariant
            i <= dims@.len(),
            r@.len() == i,
            forall|j: int| 0 <= j < i ==> #[trigger] r@[j]@ == dims@[j].name@,
        decreases dims@.len() - i,
    {
        r.push(dims[i].name.clone());
        i = i + 1;
    }
    proof {
        assert(texts(r@) =~= names(dims@));
    }
    r
}

pub fn names_of(dims: &Vec<Dimension>, q: &Vec<usize>) -> (r: Vec<String>)
    requires
        forall|k: int| 0 <= k < q.len() ==> #[trigger] q[k] < dims.len(),
    ensures
        texts(r@) == named(dims@, ints(q@)),
{
    let mut r: Vec<String> = Vec::new();
    let mut i: usize = 0;
    while i < q.len()
        invariant
            i <= q@.len(),
            r@.len() == i,
            forall|k: int| 0 <= k < q.len() ==> #[trigger] q[k] < dims.len(),
            forall|j: int| 0 <= j < i ==> #[trigger] r@[j]@ == dims@[q@[j] as int].name@,
        decreases q@.len() - i,
    {
        r.push(dims[q[i]].name.clone());
        i = i + 1;
    }
    proof {
        assert(texts(r@) =~= named(dims@, ints(q@)));
    }
    r
}

/// Which dimensions a list names.
pub fn choose_dims(dims: &Vec<Dimension>, f: &Vec<String>) -> (r: Vec<usize>)
    ensures
        ints(r@) == chosen(dims@, texts(f@), dims.len() as int),
        forall|k: int| 0 <= k < r@.len() ==> #[trigger] r@[k] < dims.len(),
        forall|k: int, l: int| 0 <= k < l < r@.len() ==> #[trigger] r@[k] < #[trigger] r@[l],
        forall|k: int|
            0 <= k < r@.len() ==> texts(f@).contains(dims[(#[trigger] r@[k]) as int].name@),
{
    let mut r: Vec<usize> = Vec::new();
    let mut d: usize = 0;
    proof {
        assert(ints(r@) =~= chosen(dims@, texts(f@), 0));
    }
    while d < dims.len()
        invariant
            d <= dims@.len(),
            ints(r@) == chosen(dims@, texts(f@), d as int),
            forall|k: int| 0 <= k < r@.len() ==> #[trigger] r@[k] < d,
            forall|k: int, l: int| 0 <= k < l < r@.len() ==> #[trigger] r@[k] < #[trigger] r@[l],
            forall|k: int|
                0 <= k < r@.len() ==> texts(f@).contains(dims[(#[trigger] r@[k]) as int].name@),
        decreases dims@.len() - d,
    {
        let ghost before = r@;
        if has_text(f, dims[d].name.as_str()) {
            r.push(d);
            proof {
                assert(ints(r@) =~= ints(before).push(d as int));
            }
        }
        d = d + 1;
    }
    r
}

/// What names dimensions chooses some.
pub proof fn lemma_chosen(dims: Seq<Dimension>, f: Seq<Seq<char>>, n: int)
    requires
        0 <= n <= dims.len(),
    ensures
        forall|d: int|
            0 <= d < n && f.contains(#[trigger] dims[d].name@) ==> chosen(dims, f, n).contains(d),
        forall|d: int| #[trigger]
            chosen(dims, f, n).contains(d) ==> 0 <= d < n && f.contains(dims[d].name@),
    decreases n,
{
    if n > 0 {
        lemma_chosen(dims, f, n - 1);
        let q = chosen(dims, f, n - 1);
        if f.contains(dims[n - 1].name@) {
            let r = q.push(n - 1);
            assert forall|d: int| 0 <= d < n && f.contains(#[trigger] dims[d].name@) implies r.contains(
                d,
            ) by {
                if d < n - 1 {
                    let i = choose|i: int| 0 <= i < q.len() && q[i] == d;
                    assert(r[i] == d);
                } else {
                    assert(r[q.len() as int] == d);
                }
            }
            assert forall|d: int| #[trigger] r.contains(d) implies 0 <= d < n && f.contains(
                dims[d].name@,
            ) by {
                let i = choose|i: int| 0 <= i < r.len() && r[i] == d;
                if i < q.len() {
                    assert(q[i] == d);
                    assert(q.contains(d));
                }
            }
        }
    }
}

pub fn same_dims(a: &Vec<usize>, b: &Vec<usize>) -> (r: bool)
    ensures
        r == (ints(a@) == ints(b@)),
{
    if a.len() != b.len() {
        proof {
            assert(ints(a@).len() != ints(b@).len());
        }
        return false;
    }
    let mut i: usize = 0;
    while i < a.len()
        invariant
            i <= a@.len(),
            a@.len() == b@.len(),
            forall|j: int| 0 <= j < i ==> #[trigger] a@[j] == b@[j],
        decreases a@.len() - i,
    {
        if a[i] != b[i] {
            proof {
                assert(ints(a@)[i as int] != ints(b@)[i as int]);
            }
            return false;
        }
        i = i + 1;
    }
    proof {
        assert(ints(a@) =~= ints(b@));
    }
    true
}

/// The dimensions of the shape that is declared next, after `before`.
fn check_shape(
    dims: &Vec<Dimension>,
    by_name: &StringHashMap<usize>,
    f: &Vec<String>,
    before: &Vec<Vec<usize>>,
    Ghost(raw): Ghost<Seq<Seq<Seq<char>>>>,
) -> (r: Result<Vec<usize>, String>)
    requires
        before.len() < raw.len(),
        texts(f@) == raw[before.len() as int],
        forall|i: int|
            0 <= i < before.len() ==> ints(#[trigger] before[i]@) == shape_dims(dims@, raw, i),
        forall|v: Seq<char>| #[trigger]
            by_name@.contains_key(v) <==> names(dims@).contains(v),
    ensures
        match r {
            Ok(q) => {
                &&& shape_fault(dims@, raw, before.len() as int) is None
                &&& ints(q@) == shape_dims(dims@, raw, before.len() as int)
                &&& q.len() > 0
                &&& forall|k: int| 0 <= k < q.len() ==> #[trigger] q[k] < dims.len()
                &&& forall|k: int, l: int|
                    0 <= k < l < q.len() ==> #[trigger] q[k] < #[trigger] q[l]
            },
            Err(t) => shape_fault(dims@, raw, before.len() as int) == Some(t@),
        },
{
    let ghost here = before.len() as int;
    let ghost ff = raw[here];
    let ghost g = |j: int| name_fault(dims@, ff, j);
    if f.len() == 0 {
        return Err(String::from_str("a filter shape must name at least one dimension"));
    }
    let mut j: usize = 0;
    while j < f.len()
        invariant
            j <= f@.len(),
            ff == texts(f@),
            g == (|j: int| name_fault(dims@, ff, j)),
            first_fault(0, f.len() as int, g) == first_fault(j as int, f.len() as int, g),
            forall|v: Seq<char>| #[trigger]
                by_name@.contains_key(v) <==> names(dims@).contains(v),
            here == before.len(),
            ff == raw[here],
            ff.len() > 0,
        decreases f@.len() - j,
    {
        proof {
            assert(ff[j as int] == f@[j as int]@);
        }
        if !by_name.contains_key(f[j].as_str()) {
            let mut t = String::from_str("filter shape names ");
            t.append(quote(f[j].as_str()).as_str());
            t.append(", which is not a declared dimension (have: ");
            t.append(join(&dim_names(dims), ", ").as_str());
            t.append(")");
            proof {
                assert(g(j as int) == Some(t@));
            }
            return Err(t);
        }
        proof {
            assert(g(j as int) is None);
        }
        j = j + 1;
    }
    if has_repeat(f) {
        let mut t = String::from_str("filter shape ");
        t.append(list(f).as_str());
        t.append(" repeats a dimension");
        return Err(t);
    }
    let q = choose_dims(dims, f);
    let mut e: usize = 0;
    while e < before.len()
        invariant
            e <= before@.len(),
            here == before.len(),
            here < raw.len(),
            ints(q@) == shape_dims(dims@, raw, here),
            forall|i: int|
                0 <= i < before.len() ==> ints(#[trigger] before[i]@) == shape_dims(dims@, raw, i),
            forall|i: int|
                0 <= i < e ==> chosen(dims@, #[trigger] raw[i], dims.len() as int) != chosen(
                    dims@,
                    raw[here],
                    dims.len() as int,
                ),
            ff == raw[here],
            ff == texts(f@),
            ff.len() > 0,
            g == (|j: int| name_fault(dims@, ff, j)),
            first_fault(0, f.len() as int, g) is None,
            !exists|j: int| 0 <= j < ff.len() && #[trigger] repeats(ff, j),
        decreases before@.len() - e,
    {
        if same_dims(&before[e], &q) {
            let mut t = String::from_str("duplicate filter shape ");
            t.append(list(f).as_str());
            proof {
                assert(ints(before[e as int]@) == shape_dims(dims@, raw, e as int));
                assert(chosen(dims@, raw[e as int], dims.len() as int) == chosen(
                    dims@,
                    raw[here],
                    dims.len() as int,
                ));
            }
            return Err(t);
        }
        e = e + 1;
    }
    proof {
        if q.len() == 0 {
            assert(g(0) is None) by {
                reveal_with_fuel(first_fault, 2);
            }
            assert(names(dims@).contains(ff[0]));
            let d = choose|d: int| 0 <= d < names(dims@).len() && names(dims@)[d] == ff[0];
            lemma_chosen(dims@, ff, dims.len() as int);
            assert(ff.contains(dims[d].name@));
            assert(chosen(dims@, ff, dims.len() as int).contains(d));
        }
    }
    Ok(q)
}

/// Blocks of non-empty dimensions are not empty, and no part exceeds the whole.
pub proof fn lemma_block(dims: Seq<Dimension>, q: Seq<int>, k: int)
    requires
        0 <= k <= q.len(),
        forall|j: int| 0 <= j < q.len() ==> 0 <= #[trigger] q[j] < dims.len(),
        forall|d: int| 0 <= d < dims.len() ==> (#[trigger] dims[d]).width() > 0,
    ensures
        1 <= block(dims, q, k) <= block(dims, q, 0),
    decreases q.len() - k,
{
    lemma_block_one(dims, q, k);
    lemma_block_above(dims, q, k);
}

proof fn lemma_block_one(dims: Seq<Dimension>, q: Seq<int>, k: int)
    requires
        0 <= k <= q.len(),
        forall|j: int| 0 <= j < q.len() ==> 0 <= #[trigger] q[j] < dims.len(),
        forall|d: int| 0 <= d < dims.len() ==> (#[trigger] dims[d]).width() > 0,
    ensures
        1 <= block(dims, q, k),
    decreases q.len() - k,
{
    if k < q.len() {
        lemma_block_one(dims, q, k + 1);
        let w = dims[q[k]].width();
        let b = block(dims, q, k + 1);
        assert(w * b >= 1) by (nonlinear_arith)
            requires
                w >= 1,
                b >= 1,
        ;
    }
}

proof fn lemma_block_above(dims: Seq<Dimension>, q: Seq<int>, k: int)
    requires
        0 <= k <= q.len(),
        forall|j: int| 0 <= j < q.len() ==> 0 <= #[trigger] q[j] < dims.len(),
        forall|d: int| 0 <= d < dims.len() ==> (#[trigger] dims[d]).width() > 0,
    ensures
        block(dims, q, k) <= block(dims, q, 0),
    decreases k,
{
    if k > 0 {
        lemma_block_above(dims, q, k - 1);
        lemma_block_one(dims, q, k);
        let w = dims[q[k - 1]].width();
        let b = block(dims, q, k);
        assert(w * b >= b) by (nonlinear_arith)
            requires
                w >= 1,
                b >= 1,
        ;
    }
}

/// The strides of a shape and how many cells it has, unless they are too many.
fn lay_out(dims: &Vec<Dimension>, q: &Vec<usize>) -> (r: Option<(Vec<u32>, u32)>)
    requires
        forall|k: int| 0 <= k < q.len() ==> #[trigger] q[k] < dims.len(),
        forall|d: int| 0 <= d < dims.len() ==> (#[trigger] dims[d]).width() > 0,
    ensures
        match r {
            Some((strides, cells)) => {
                &&& cells == block(dims@, ints(q@), 0)
                &&& cells <= MAX_CELLS
                &&& strides.len() == q.len()
                &&& forall|k: int|
                    0 <= k < q.len() ==> #[trigger] strides[k] == block(dims@, ints(q@), k + 1)
            },
            None => block(dims@, ints(q@), 0) > MAX_CELLS,
        },
{
    let ghost qq = ints(q@);
    let mut strides: Vec<u32> = Vec::new();
    let mut i: usize = 0;
    while i < q.len()
        invariant
            i <= q@.len(),
            strides@.len() == i,
        decreases q@.len() - i,
    {
        strides.push(0);
        i = i + 1;
    }
    let mut stride: u32 = 1;
    let mut k = q.len();
    while k > 0
        invariant
            k <= q@.len(),
            qq == ints(q@),
            stride <= MAX_CELLS,
            stride == block(dims@, qq, k as int),
            strides@.len() == q@.len(),
            forall|j: int| k <= j < q.len() ==> #[trigger] strides@[j] == block(dims@, qq, j + 1),
            forall|j: int| 0 <= j < q.len() ==> #[trigger] q[j] < dims.len(),
            forall|d: int| 0 <= d < dims.len() ==> (#[trigger] dims[d]).width() > 0,
        decreases k,
    {
        k = k - 1;
        strides.set(k, stride);
        let size = dims[q[k]].size();
        proof {
            assert(qq[k as int] == q[k as int]);
            assert(size as u128 * stride as u128 <= 0xffff_ffff_ffff_ffff * 0x100_0000)
                by (nonlinear_arith)
                requires
                    size as int <= 0xffff_ffff_ffff_ffff,
                    stride <= 0x100_0000,
            ;
        }
        let next: u128 = size as u128 * stride as u128;
        proof {
            assert(next == block(dims@, qq, k as int));
        }
        if next > MAX_CELLS as u128 {
            proof {
                lemma_block(dims@, qq, k as int);
            }
            return None;
        }
        stride = next as u32;
    }
    Some((strides, stride))
}

fn worst_shape(dims: &Vec<Dimension>, q: &Vec<usize>) -> (n: usize)
    requires
        forall|k: int| 0 <= k < q.len() ==> #[trigger] q[k] < dims.len(),
    ensures
        n == capped(worst_of(dims@, ints(q@), q.len() as int)),
        worst_of(dims@, ints(q@), q.len() as int) > 0,
{
    let ghost qq = ints(q@);
    let mut n: usize = 1;
    let mut k: usize = 0;
    while k < q.len()
        invariant
            k <= q@.len(),
            qq == ints(q@),
            n == capped(worst_of(dims@, qq, k as int)),
            worst_of(dims@, qq, k as int) > 0,
            forall|j: int| 0 <= j < q.len() ==> #[trigger] q[j] < dims.len(),
        decreases q@.len() - k,
    {
        proof {
            assert(qq[k as int] == q[k as int]);
        }
        if dims[q[k]].multi {
            n = if n > usize::MAX / 4 {
                usize::MAX
            } else {
                4 * n
            };
        }
        k = k + 1;
    }
    n
}

impl Schema {
    /// Build from declared dimensions and shapes.
    ///
    /// `filters` empty means "each dimension on its own", which reproduces a single category
    /// both in behaviour and in cost.
    pub fn new(dims: Vec<Dimension>, filters: &Vec<Vec<String>>) -> (r: Result<Self, String>)
        ensures
            match r {
                Ok(s) => schema_fault(dims@, filters@) is None && s.wf() && s.built(
                    dims@,
                    filters@,
                ),
                Err(t) => schema_fault(dims@, filters@) == Some(t@),
            },
    {
        let ghost raw = declared(dims@, filters@);
        let (labels, by_name) = match check_dims(&dims) {
            Ok(p) => p,
            Err(t) => {
                return Err(t);
            },
        };
        proof {
            assert forall|v: Seq<char>| #[trigger] by_name@.contains_key(v) <==> names(
                dims@,
            ).contains(v) by {
                if names(dims@).contains(v) {
                    let d = choose|d: int| 0 <= d < names(dims@).len() && names(dims@)[d] == v;
                    assert(dims[d].name@ == v);
                }
            }
        }
        proof {
            assert forall|d: int| 0 <= d < dims.len() implies sound_dim(#[trigger] dims[d]) by {
                assert(leads(labels@[d]@, dims[d]));
            }
        }
        let ghost df = |i: int| dim_fault(dims@, i);
        let lists = declare(&dims, filters);
        let n = lists.len();
        let ghost sf = |i: int| shape_fault(dims@, raw, i);
        let mut chosen_dims: Vec<Vec<usize>> = Vec::new();
        let mut i: usize = 0;
        while i < n
            invariant
                i <= n,
                n == lists@.len(),
                n == raw.len(),
                forall|j: int| 0 <= j < n ==> texts(#[trigger] lists@[j]@) == raw[j],
                forall|v: Seq<char>| #[trigger]
                    by_name@.contains_key(v) <==> names(dims@).contains(v),
                raw == declared(dims@, filters@),
                df == (|i: int| dim_fault(dims@, i)),
                first_fault(0, dims.len() as int, df) is None,
                sf == (|i: int| shape_fault(dims@, raw, i)),
                first_fault(0, n as int, sf) == first_fault(i as int, n as int, sf),
                chosen_dims@.len() == i,
                forall|j: int| 0 <= j < i ==> shape_listed(dims@, raw, j, #[trigger] chosen_dims@[j]@),
            decreases n - i,
        {
            match check_shape(&dims, &by_name, &lists[i], &chosen_dims, Ghost(raw)) {
                Ok(q) => {
                    proof {
                        assert(sf(i as int) is None);
                    }
                    chosen_dims.push(q);
                },
                Err(t) => {
                    proof {
                        assert(sf(i as int) == Some(t@));
                    }
                    return Err(t);
                },
            }
            i = i + 1;
        }
        let ghost zf = |i: int| size_fault(dims@, raw, i);
        let mut sizes: Vec<(Vec<u32>, u32)> = Vec::new();
        let mut cells: u128 = 0;
        let mut most: usize = 0;
        i = 0;
        while i < n
            invariant
                i <= n,
                n == raw.len(),
                chosen_dims@.len() == n,
                forall|j: int| 0 <= j < n ==> shape_listed(dims@, raw, j, #[trigger] chosen_dims@[j]@),
                forall|d: int| 0 <= d < dims.len() ==> sound_dim(#[trigger] dims[d]),
                raw == declared(dims@, filters@),
                df == (|i: int| dim_fault(dims@, i)),
                first_fault(0, dims.len() as int, df) is None,
                sf == (|i: int| shape_fault(dims@, raw, i)),
                first_fault(0, n as int, sf) is None,
                zf == (|i: int| size_fault(dims@, raw, i)),
                first_fault(0, n as int, zf) == first_fault(i as int, n as int, zf),
                sizes@.len() == i,
                forall|j: int|
                    0 <= j < i ==> sized(
                        dims@,
                        chosen_dims@[j]@,
                        (#[trigger] sizes@[j]).0@,
                        sizes@[j].1,
                    ),
                cells == blocks(dims@, raw, i as int),
                cells <= i * 0x100_0000,
                most == capped(most_cells(dims@, chosen_dims@, i as int)),
                most_cells(dims@, chosen_dims@, i as int) >= i,
                i == 0 ==> most_cells(dims@, chosen_dims@, i as int) == 0,
            decreases n - i,
        {
            proof {
                assert(shape_listed(dims@, raw, i as int, chosen_dims@[i as int]@));
            }
            match lay_out(&dims, &chosen_dims[i]) {
                Some(p) => {
                    proof {
                        assert(zf(i as int) is None);
                    }
                    cells = cells + p.1 as u128;
                    sizes.push(p);
                },
                None => {
                    let mut t = String::from_str("filter shape ");
                    t.append(list(&names_of(&dims, &chosen_dims[i])).as_str());
                    t.append(" needs more than the ");
                    push_number(&mut t, MAX_CELLS as u64);
                    t.append(" cells available; a shape costs the product of its dimensions");
                    proof {
                        assert(zf(i as int) == Some(t@));
                    }
                    return Err(t);
                },
            }
            let w = worst_shape(&dims, &chosen_dims[i]);
            most = if most > usize::MAX - w {
                usize::MAX
            } else {
                most + w
            };
            i = i + 1;
        }
        if cells > MAX_CELLS as u128 {
            let mut t = String::from_str("the declared filters need ");
            push_big(&mut t, cells);
            t.append(" cells, over the ");
            push_number(&mut t, MAX_CELLS as u64);
            t.append(" limit");
            return Err(t);
        }
        let mut shapes: Vec<Shape> = Vec::new();
        let mut base: u32 = 0;
        i = 0;
        while i < n
            invariant
                i <= n,
                n == raw.len(),
                chosen_dims@.len() == n,
                sizes@.len() == n,
                forall|j: int| 0 <= j < n ==> shape_listed(dims@, raw, j, #[trigger] chosen_dims@[j]@),
                forall|j: int|
                    0 <= j < n ==> sized(
                        dims@,
                        chosen_dims@[j]@,
                        (#[trigger] sizes@[j]).0@,
                        sizes@[j].1,
                    ),
                blocks(dims@, raw, n as int) <= MAX_CELLS,
                base == blocks(dims@, raw, i as int),
                forall|d: int| 0 <= d < dims.len() ==> sound_dim(#[trigger] dims[d]),
                shapes@.len() == i,
                forall|j: int|
                    0 <= j < i ==> (#[trigger] shapes@[j]).dims@ == chosen_dims@[j]@
                        && shapes@[j].strides@ == sizes@[j].0@ && shapes@[j].base == blocks(
                        dims@,
                        raw,
                        j,
                    ),
            decreases n - i,
        {
            proof {
                lemma_blocks(dims@, raw, i + 1, n as int, chosen_dims@);
                assert(sized(
                    dims@,
                    chosen_dims@[i as int]@,
                    sizes@[i as int].0@,
                    sizes@[i as int].1,
                ));
                assert(shape_listed(dims@, raw, i as int, chosen_dims@[i as int]@));
            }
            let next = base + sizes[i].1;
            shapes.push(
                Shape { dims: copy_indices(&chosen_dims[i]), base, strides: copy_strides(&sizes[i].0) },
            );
            base = next;
            i = i + 1;
        }
        let s = Schema {
            dims,
            shapes,
            cells: cells as usize,
            max_cells_per_device: if most == 0 {
                1
            } else {
                most
            },
            by_name,
            labels,
        };
        proof {
            assert forall|i: int| 0 <= i < s.shapes.len() implies #[trigger] s.shape_ok(i) by {
                assert(shape_listed(dims@, raw, i, chosen_dims@[i]@));
                assert(sized(dims@, chosen_dims@[i]@, sizes@[i].0@, sizes@[i].1));
                if i + 1 < s.shapes.len() {
                    assert(s.shapes@[i + 1].base == blocks(dims@, raw, i + 1));
                }
                assert(s.shapes@[i].base == blocks(dims@, raw, i));
            }
            lemma_same_worst(dims@, s.shapes@, chosen_dims@, n as int);
            if dims@.len() == 0 && filters@.len() > 0 {
                assert(texts(lists@[0]@) == raw[0]);
                let q = shape_dims(dims@, raw, 0);
                assert(shape_listed(dims@, raw, 0, chosen_dims@[0]@));
                assert(q.len() == 0);
            }
        }
        Ok(s)
    }
}

/// `q` lists the dimensions of the `i`-th shape.
spec fn shape_listed(dims: Seq<Dimension>, raw: Seq<Seq<Seq<char>>>, i: int, q: Seq<usize>) -> bool {
    &&& ints(q) == shape_dims(dims, raw, i)
    &&& q.len() > 0
    &&& forall|k: int| 0 <= k < q.len() ==> #[trigger] q[k] < dims.len()
    &&& forall|k: int, l: int| 0 <= k < l < q.len() ==> #[trigger] q[k] < #[trigger] q[l]
}

/// The layout of a shape.
spec fn sized(dims: Seq<Dimension>, q: Seq<usize>, strides: Seq<u32>, cells: u32) -> bool {
    &&& cells == block(dims, ints(q), 0)
    &&& cells <= MAX_CELLS
    &&& strides.len() == q.len()
    &&& forall|k: int|
        0 <= k < q.len() ==> #[trigger] strides[k] == block(dims, ints(q), k + 1)
}

spec fn most_cells(dims: Seq<Dimension>, lists: Seq<Vec<usize>>, n: int) -> int
    decreases n,
{
    if n <= 0 {
        0
    } else {
        most_cells(dims, lists, n - 1) + worst_of(
            dims,
            ints(lists[n - 1]@),
            lists[n - 1].len() as int,
        )
    }
}

proof fn lemma_same_worst(
    dims: Seq<Dimension>,
    shapes: Seq<Shape>,
    lists: Seq<Vec<usize>>,
    n: int,
)
    requires
        n <= shapes.len(),
        n <= lists.len(),
        forall|i: int| 0 <= i < n ==> (#[trigger] shapes[i]).dims@ == lists[i]@,
    ensures
        worst(dims, shapes, n) == most_cells(dims, lists, n),
    decreases n,
{
    if n > 0 {
        lemma_same_worst(dims, shapes, lists, n - 1);
        assert(shapes[n - 1].dims@ == lists[n - 1]@);
    }
}

/// Blocks only add up.
proof fn lemma_blocks(
    dims: Seq<Dimension>,
    raw: Seq<Seq<Seq<char>>>,
    i: int,
    n: int,
    lists: Seq<Vec<usize>>,
)
    requires
        0 <= i <= n,
        n == lists.len(),
        n == raw.len(),
        forall|j: int| 0 <= j < n ==> shape_listed(dims, raw, j, #[trigger] lists[j]@),
        forall|d: int| 0 <= d < dims.len() ==> sound_dim(#[trigger] dims[d]),
    ensures
        blocks(dims, raw, i) <= blocks(dims, raw, n),
    decreases n - i,
{
    lemma_blocks_to(dims, raw, i, n, lists);
}

proof fn lemma_blocks_to(
    dims: Seq<Dimension>,
    raw: Seq<Seq<Seq<char>>>,
    i: int,
    n: int,
    lists: Seq<Vec<usize>>,
)
    requires
        0 <= i <= n,
        n <= lists.len(),
        n <= raw.len(),
        forall|j: int| 0 <= j < n ==> shape_listed(dims, raw, j, #[trigger] lists[j]@),
        forall|d: int| 0 <= d < dims.len() ==> sound_dim(#[trigger] dims[d]),
    ensures
        blocks(dims, raw, i) <= blocks(dims, raw, n),
    decreases n,
{
    if i < n {
        lemma_blocks_to(dims, raw, i, n - 1, lists);
        let q = lists[n - 1]@;
        assert(shape_listed(dims, raw, n - 1, q));
        assert forall|j: int| 0 <= j < ints(q).len() implies 0 <= #[trigger] ints(q)[j]
            < dims.len() by {
            assert(q[j] < dims.len());
        }
        assert forall|d: int| 0 <= d < dims.len() implies (#[trigger] dims[d]).width() > 0 by {
            assert(sound_dim(dims[d]));
        }
        lemma_block_one(dims, ints(q), 0);
    }
}

fn copy_indices(v: &Vec<usize>) -> (r: Vec<usize>)
    ensures
        r@ == v@,
{
    let mut r: Vec<usize> = Vec::new();
    let mut i: usize = 0;
    while i < v.len()
        invariant
            i <= v@.len(),
            r@ == v@.take(i as int),
        decreases v@.len() - i,
    {
        r.push(v[i]);
        proof {
            assert(v@.take(i + 1) =~= v@.take(i as int).push(v@[i as int]));
        }
        i = i + 1;
    }
    proof {
        assert(v@.take(v@.len() as int) =~= v@);
    }
    r
}

fn copy_strides(v: &Vec<u32>) -> (r: Vec<u32>)
    ensures
        r@ == v@,
{
    crate::index::update::copy_cells(v)
}

/// What the declared dimension `d` makes of a value: a label, or else a position in the list.
pub open spec fn static_answer(d: Dimension, v: Seq<char>) -> Result<u32, Seq<char>> {
    let q = texts(d.values@);
    if q.contains(v) {
        Ok(q.index_of(v) as u32)
    } else {
        match parsed(v) {
            Some(n) if n < q.len() => Ok(n as u32),
            _ => Err(
                "unknown value "@ + quoted(v) + " for "@ + quoted(d.name@)
                    + "; this collection has "@ + listing(q),
            ),
        }
    }
}

/// What has been interned, per dimension.
pub type Tables = Seq<Map<Seq<char>, u32>>;

/// What becomes of value `v` of dimension `d`: its index, and what is interned then.
///
/// `Ok(None)` means "legal, but nothing has ever had this value": a real answer for a dynamic
/// dimension.
pub open spec fn answer(
    dims: Seq<Dimension>,
    t: Tables,
    learns: bool,
    d: int,
    v: Seq<char>,
) -> (Result<Option<u32>, Seq<char>>, Tables) {
    if dims[d].capacity is None {
        match static_answer(dims[d], v) {
            Ok(i) => (Ok(Some(i)), t),
            Err(e) => (Err(e), t),
        }
    } else if t[d].contains_key(v) {
        (Ok(Some(t[d][v])), t)
    } else if !learns {
        (Ok(None), t)
    } else if t[d].len() >= dims[d].width() {
        (
            Err(
                quoted(dims[d].name@) + " already holds "@ + number(dims[d].width())
                    + " distinct values, its declared capacity; "@ + quoted(v)
                    + " would be one more"@,
            ),
            t,
        )
    } else {
        (Ok(Some(t[d].len() as u32)), t.update(d, t[d].insert(v, t[d].len() as u32)))
    }
}

/// Every index is one that its dimension has.
pub open spec fn tables_ok(dims: Seq<Dimension>, t: Tables) -> bool {
    &&& t.len() == dims.len()
    &&& forall|d: int, v: Seq<char>|
        #![trigger t[d].contains_key(v)]
        0 <= d < t.len() && t[d].contains_key(v) ==> t[d][v] < dims[d].width()
    &&& forall|d: int| 0 <= d < t.len() ==> (#[trigger] t[d]).dom().finite()
}

/// What resolves is an index that the dimension has.
pub proof fn lemma_answer(dims: Seq<Dimension>, t: Tables, learns: bool, d: int, v: Seq<char>)
    requires
        tables_ok(dims, t),
        0 <= d < dims.len(),
    ensures
        tables_ok(dims, answer(dims, t, learns, d, v).1),
        !learns ==> answer(dims, t, learns, d, v).1 == t,
        answer(dims, t, learns, d, v).0 matches Ok(Some(i)) ==> i < dims[d].width(),
{
    let a = answer(dims, t, learns, d, v);
    let q = texts(dims[d].values@);
    if dims[d].capacity is None {
        if q.contains(v) {
            lemma_truncated(q.index_of(v));
        } else if parsed(v) is Some && parsed(v)->0 < q.len() {
            crate::text::lemma_parsed(v);
            lemma_truncated(parsed(v)->0);
        }
    } else if !t[d].contains_key(v) && learns && t[d].len() < dims[d].width() {
        lemma_truncated(t[d].len() as int);
        let u = t[d].insert(v, t[d].len() as u32);
        assert(a.1 == t.update(d, u));
        assert forall|e: int, w: Seq<char>|
            #![trigger a.1[e].contains_key(w)]
            0 <= e < a.1.len() && a.1[e].contains_key(w) implies a.1[e][w] < dims[e].width() by {
            if e == d && w != v {
                assert(t[d].contains_key(w));
            } else if e != d {
                assert(t[e].contains_key(w));
            }
        }
    }
}

/// Cutting a length down to size does not make it larger.
proof fn lemma_truncated(n: int)
    requires
        0 <= n <= usize::MAX,
    ensures
        n as u32 <= n,
        n <= u32::MAX ==> n as u32 == n,
{
    let x = n as u64;
    assert(x as u32 <= x) by (bit_vector);
    assert(n == x);
}

/// Resolves a value to its index. Reporting may create one; querying may not.
pub trait Values {
    /// The dimensions whose values are resolved.
    spec fn dims(&self) -> Seq<Dimension>;

    /// What has been interned.
    spec fn tables(&self) -> Tables;

    /// Whether an unseen value is interned.
    spec fn learns(&self) -> bool;

    spec fn ready(&self) -> bool;

    /// `Ok(None)` means "legal, but nothing has ever had this value", which a query must treat
    /// as an empty result rather than an error.
    fn get(&mut self, d: usize, v: &str) -> (r: Result<Option<u32>, String>)
        requires
            old(self).ready(),
            d < old(self).dims().len(),
        ensures
            final(self).ready(),
            final(self).dims() == old(self).dims(),
            final(self).learns() == old(self).learns(),
            answered(
                answer(
                    old(self).dims(),
                    old(self).tables(),
                    old(self).learns(),
                    d as int,
                    v@,
                ),
                r,
                final(self).tables(),
            ),
    ;

    proof fn lemma_ready(&self)
        requires
            self.ready(),
        ensures
            tables_ok(self.dims(), self.tables()),
    ;
}

/// The answer was given.
pub open spec fn answered(
    a: (Result<Option<u32>, Seq<char>>, Tables),
    r: Result<Option<u32>, String>,
    t: Tables,
) -> bool {
    &&& a.1 == t
    &&& match r {
        Ok(i) => a.0 == Ok::<Option<u32>, Seq<char>>(i),
        Err(e) => a.0 == Err::<Option<u32>, Seq<char>>(e@),
    }
}

/// Value indices of one dimension, in the order they were given out.
pub struct Table {
    pub at: StringHashMap<u32>,
    pub order: Vec<(String, u32)>,
}

impl Table {
    pub open spec fn wf(&self) -> bool {
        &&& self.at@.dom().finite()
        &&& self.at@.len() == self.order.len()
        &&& forall|j: int|
            0 <= j < self.order.len() ==> self.at@.contains_key((#[trigger] self.order[j]).0@)
                && self.at@[self.order[j].0@] == self.order[j].1
        &&& forall|v: Seq<char>| #[trigger]
            self.at@.contains_key(v) ==> exists|j: int|
                0 <= j < self.order.len() && (#[trigger] self.order[j]).0@ == v
    }

    fn new() -> (t: Self)
        ensures
            t.wf(),
            t.at@ == Map::<Seq<char>, u32>::empty(),
    {
        Table { at: StringHashMap::new(), order: Vec::new() }
    }

    /// Give a new value an index.
    fn put(&mut self, v: &str, i: u32)
        requires
            old(self).wf(),
            !old(self).at@.contains_key(v@),
        ensures
            final(self).wf(),
            final(self).at@ == old(self).at@.insert(v@, i),
    {
        let ghost o = *self;
        self.at.insert(v.to_owned(), i);
        self.order.push((v.to_owned(), i));
        proof {
            assert forall|j: int| 0 <= j < self.order.len() implies self.at@.contains_key(
                (#[trigger] self.order[j]).0@,
            ) && self.at@[self.order[j].0@] == self.order[j].1 by {
                if j < o.order.len() {
                    assert(o.order[j] == self.order[j]);
                    assert(o.at@.contains_key(o.order[j].0@));
                }
            }
            assert forall|w: Seq<char>| #[trigger] self.at@.contains_key(w) implies exists|j: int|
                0 <= j < self.order.len() && (#[trigger] self.order[j]).0@ == w by {
                if w == v@ {
                    assert(self.order[o.order.len() as int].0@ == w);
                } else {
                    assert(o.at@.contains_key(w));
                    let j = choose|j: int| 0 <= j < o.order.len() && (#[trigger] o.order[j]).0@ == w;
                    assert(self.order[j].0@ == w);
                }
            }
        }
    }

    /// The index a value was given last.
    fn set(&mut self, v: &str, i: u32)
        requires
            old(self).wf(),
        ensures
            final(self).wf(),
            final(self).at@ == old(self).at@.insert(v@, i),
    {
        if !self.at.contains_key(v) {
            self.put(v, i);
            return;
        }
        let ghost o = *self;
        let mut k: usize = 0;
        while k < self.order.len()
            invariant
                k <= self.order.len(),
                self.at@ == o.at@,
                o.wf(),
                o.at@.contains_key(v@),
                self.order.len() == o.order.len(),
                forall|j: int|
                    0 <= j < self.order.len() ==> (#[trigger] self.order[j]).0@ == o.order[j].0@,
                forall|j: int|
                    0 <= j < self.order.len() ==> (#[trigger] self.order[j]).1 == (if j < k
                        && o.order[j].0@ == v@ {
                        i
                    } else {
                        o.order[j].1
                    }),
            decreases self.order.len() - k,
        {
            if *self.order[k].0.as_str() == *v {
                let name = self.order[k].0.clone();
                self.order.set(k, (name, i));
            }
            k = k + 1;
        }
        self.at.insert(v.to_owned(), i);
        proof {
            assert(self.at@.dom() =~= o.at@.dom());
            assert forall|j: int| 0 <= j < self.order.len() implies self.at@.contains_key(
                (#[trigger] self.order[j]).0@,
            ) && self.at@[self.order[j].0@] == self.order[j].1 by {
                assert(o.at@.contains_key(o.order[j].0@));
                assert(o.at@[o.order[j].0@] == o.order[j].1);
            }
            assert forall|w: Seq<char>| #[trigger] self.at@.contains_key(w) implies exists|j: int|
                0 <= j < self.order.len() && (#[trigger] self.order[j]).0@ == w by {
                assert(o.at@.contains_key(w));
                let j = choose|j: int| 0 <= j < o.order.len() && (#[trigger] o.order[j]).0@ == w;
                assert(self.order[j].0@ == w);
            }
        }
    }

    /// The values by index; nothing where no value has the index.
    fn labels(&self) -> (out: Vec<String>)
        requires
            self.wf(),
        ensures
            label_list(self.at@, texts(out@)),
    {
        let mut n: u64 = self.order.len() as u64;
        let mut k: usize = 0;
        while k < self.order.len()
            invariant
                k <= self.order.len(),
                self.wf(),
                n >= self.order.len(),
                forall|j: int| 0 <= j < k ==> (#[trigger] self.order[j]).1 < n,
                n > self.order.len() ==> exists|j: int|
                    0 <= j < k && n == (#[trigger] self.order[j]).1 + 1,
            decreases self.order.len() - k,
        {
            proof {
                assert(self.at@.contains_key(self.order[k as int].0@));
            }
            let i = self.order[k].1 as u64;
            if i >= n {
                n = i + 1;
                proof {
                    assert(n == self.order[k as int].1 + 1);
                }
            }
            k = k + 1;
        }
        let mut out: Vec<String> = Vec::new();
        let mut m: u64 = 0;
        while m < n
            invariant
                m <= n,
                out@.len() == m,
                forall|i: int| 0 <= i < m ==> (#[trigger] out@[i])@.len() == 0,
            decreases n - m,
        {
            out.push(String::new());
            m = m + 1;
        }
        k = 0;
        while k < self.order.len()
            invariant
                k <= self.order.len(),
                self.wf(),
                out@.len() == n,
                forall|j: int| 0 <= j < self.order.len() ==> (#[trigger] self.order[j]).1 < n,
                forall|j: int|
                    0 <= j < k ==> self.at@.contains_key(
                        out@[(#[trigger] self.order[j]).1 as int]@,
                    ) && self.at@[out@[self.order[j].1 as int]@] == self.order[j].1,
                forall|i: int|
                    0 <= i < n ==> (#[trigger] out@[i])@.len() == 0 || exists|j: int|
                        0 <= j < k && (#[trigger] self.order[j]).1 == i,
            decreases self.order.len() - k,
        {
            let i = self.order[k].1 as usize;
            let ghost before = out@;
            out.set(i, self.order[k].0.clone());
            proof {
                assert(self.at@.contains_key(self.order[k as int].0@));
                assert(self.at@[self.order[k as int].0@] == self.order[k as int].1);
                assert forall|l: int| 0 <= l < n implies (#[trigger] out@[l])@.len() == 0 || exists|
                    j: int,
                |
                    0 <= j < k + 1 && (#[trigger] self.order[j]).1 == l by {
                    if l == i {
                        assert(self.order[k as int].1 == l);
                    } else {
                        assert(out@[l] == before[l]);
                    }
                }
            }
            k = k + 1;
        }
        proof {
            let q = texts(out@);
            let m = self.at@;
            assert forall|v: Seq<char>| #[trigger] m.contains_key(v) implies m[v] < q.len()
                && m.contains_key(q[m[v] as int]) && m[q[m[v] as int]] == m[v] by {
                let j = choose|j: int| 0 <= j < self.order.len() && (#[trigger] self.order[j]).0@ == v;
                assert(self.order[j].1 == m[v]);
            }
            assert forall|i: int|
                0 <= i < q.len() && (forall|v: Seq<char>| #[trigger] m.contains_key(v) ==> m[v]
                    != i) implies (#[trigger] q[i]).len() == 0 by {
                if out@[i]@.len() != 0 {
                    let j = choose|j: int| 0 <= j < self.order.len() && (#[trigger] self.order[j]).1 == i;
                    assert(m.contains_key(self.order[j].0@));
                }
            }
            if q.len() > m.len() {
                let j = choose|j: int|
                    0 <= j < self.order.len() && n == (#[trigger] self.order[j]).1 + 1;
                let v = self.order[j].0@;
                assert(m.contains_key(v) && m[v] + 1 == q.len());
            }
        }
        out
    }
}

/// `q` lists what has been interned by index. Where several values share an index one of them
/// stands there, and where none has it nothing does.
pub open spec fn label_list(m: Map<Seq<char>, u32>, q: Seq<Seq<char>>) -> bool {
    &&& forall|v: Seq<char>| #[trigger]
        m.contains_key(v) ==> m[v] < q.len() && m.contains_key(q[m[v] as int]) && m[q[m[v] as int]]
            == m[v]
    &&& forall|i: int|
        0 <= i < q.len() && (forall|v: Seq<char>| #[trigger] m.contains_key(v) ==> m[v] != i) ==> (
        #[trigger] q[i]).len() == 0
    &&& q.len() >= m.len()
    &&& q.len() > m.len() ==> exists|v: Seq<char>| #[trigger]
        m.contains_key(v) && m[v] + 1 == q.len()
}

/// Value indices for dimensions whose values are not known up front.
///
/// One table per dimension; declared dimensions have an empty one and never touch it. Assignment
/// is arrival order, which means two replicas fed the same stream may give the same client
/// different indices: harmless, because a name is resolved against the same table that answers
/// the query.
pub struct Interner {
    pub tables: Vec<Table>,
}

impl Interner {
    /// What has been interned.
    pub open spec fn view(&self) -> Tables {
        Seq::new(self.tables.len() as nat, |d: int| self.tables[d].at@)
    }

    pub open spec fn tables_wf(&self) -> bool {
        forall|d: int| 0 <= d < self.tables.len() ==> (#[trigger] self.tables[d]).wf()
    }

    pub open spec fn wf(&self, dims: Seq<Dimension>) -> bool {
        self.tables_wf() && tables_ok(dims, self@)
    }

    pub fn new(schema: &Schema) -> (me: Self)
        ensures
            me.wf(schema.dims@),
            me@ == Seq::new(schema.dims.len() as nat, |d: int| Map::<Seq<char>, u32>::empty()),
    {
        let mut tables: Vec<Table> = Vec::new();
        let mut d: usize = 0;
        while d < schema.dims.len()
            invariant
                d <= schema.dims.len(),
                tables@.len() == d,
                forall|e: int|
                    0 <= e < d ==> (#[trigger] tables@[e]).wf() && tables@[e].at@ == Map::<
                        Seq<char>,
                        u32,
                    >::empty(),
            decreases schema.dims.len() - d,
        {
            tables.push(Table::new());
            d = d + 1;
        }
        let me = Interner { tables };
        proof {
            assert(me@ =~= Seq::new(
                schema.dims.len() as nat,
                |d: int| Map::<Seq<char>, u32>::empty(),
            ));
        }
        me
    }

    /// index -> value per dimension, for the snapshot. Without this a restore would keep the
    /// cells and lose what they meant.
    pub fn labels(&self) -> (out: Vec<Vec<String>>)
        requires
            self.tables_wf(),
        ensures
            out@.len() == self@.len(),
            forall|d: int|
                0 <= d < out@.len() ==> label_list(self@[d], texts((#[trigger] out@[d])@)),
    {
        let mut out: Vec<Vec<String>> = Vec::new();
        let mut d: usize = 0;
        while d < self.tables.len()
            invariant
                d <= self.tables.len(),
                self.tables_wf(),
                out@.len() == d,
                forall|e: int|
                    0 <= e < d ==> label_list(self@[e], texts((#[trigger] out@[e])@)),
            decreases self.tables.len() - d,
        {
            proof {
                assert(self@[d as int] == self.tables[d as int].at@);
            }
            out.push(self.tables[d].labels());
            d = d + 1;
        }
        out
    }

    pub fn len(&self, d: usize) -> (n: usize)
        requires
            d < self@.len(),
        ensures
            n == self@[d as int].len(),
    {
        self.tables[d].at.len()
    }
}

/// A table filled from a list: each value its position, as far as there is room.
pub open spec fn refilled(q: Seq<Seq<char>>, room: int, n: int) -> Map<Seq<char>, u32>
    decreases n,
{
    if n <= 0 {
        Map::empty()
    } else {
        let m = refilled(q, room, n - 1);
        if n - 1 < room {
            m.insert(q[n - 1], (n - 1) as u32)
        } else {
            m
        }
    }
}

/// The values have the indices from 0 on, each its own.
pub open spec fn compact(m: Map<Seq<char>, u32>) -> bool {
    &&& m.dom().finite()
    &&& forall|v: Seq<char>| #[trigger] m.contains_key(v) ==> m[v] < m.len()
    &&& forall|v: Seq<char>, w: Seq<char>|
        #![trigger m.contains_key(v), m.contains_key(w)]
        m.contains_key(v) && m.contains_key(w) && m[v] == m[w] ==> v == w
}

/// **Restored**: a table filled from distinct values has each, a blank one too, exactly where it
/// stood, and no other; the next new value gets an index that is not given out.
pub proof fn law_restored(q: Seq<Seq<char>>, room: int, n: int)
    requires
        q.no_duplicates(),
        0 <= n <= q.len(),
        n <= room,
        n <= 0x1_0000_0000,
    ensures
        compact(refilled(q, room, n)),
        refilled(q, room, n).len() == n,
        forall|i: int|
            0 <= i < n ==> refilled(q, room, n).contains_key(#[trigger] q[i]) && refilled(
                q,
                room,
                n,
            )[q[i]] == i,
        forall|v: Seq<char>| #[trigger]
            refilled(q, room, n).contains_key(v) ==> q.take(n).contains(v),
    decreases n,
{
    let m = refilled(q, room, n);
    if n > 0 {
        law_restored(q, room, n - 1);
        let p = refilled(q, room, n - 1);
        let v = q[n - 1];
        if p.contains_key(v) {
            let i = choose|i: int| 0 <= i < n - 1 && #[trigger] q.take(n - 1)[i] == v;
            assert(q[i] == q[n - 1]);
        }
        assert(m == p.insert(v, (n - 1) as u32));
        assert forall|i: int| 0 <= i < n implies m.contains_key(#[trigger] q[i]) && m[q[i]]
            == i by {}
        assert forall|w: Seq<char>| #[trigger] m.contains_key(w) implies q.take(n).contains(w) by {
            if w == v {
                assert(q.take(n)[n - 1] == v);
            } else {
                assert(p.contains_key(w));
                let i = choose|i: int| 0 <= i < n - 1 && #[trigger] q.take(n - 1)[i] == w;
                assert(q.take(n)[i] == w);
            }
        }
        assert forall|w: Seq<char>| #[trigger] m.contains_key(w) implies m[w] < m.len() by {
            if w != v {
                assert(p.contains_key(w));
            }
        }
        assert forall|w: Seq<char>, u: Seq<char>|
            #![trigger m.contains_key(w), m.contains_key(u)]
            m.contains_key(w) && m.contains_key(u) && m[w] == m[u] implies w == u by {
            if w != v {
                assert(p.contains_key(w));
            }
            if u != v {
                assert(p.contains_key(u));
            }
        }
    }
}

/// **Labels**: what is filled from a table's list of labels is the table.
pub proof fn law_labels(m: Map<Seq<char>, u32>, q: Seq<Seq<char>>, room: int)
    requires
        compact(m),
        label_list(m, q),
        m.len() <= room,
    ensures
        refilled(q, room, q.len() as int) == m,
        q.no_duplicates(),
        q.len() == m.len(),
        forall|i: int|
            0 <= i < q.len() ==> m.contains_key(#[trigger] q[i]) && m[q[i]] == i,
{
    let n = q.len() as int;
    if m.len() > 0x1_0000_0000 {
        let v = lemma_has_index(m, 0x1_0000_0000);
    }
    if q.len() > m.len() {
        let v = choose|v: Seq<char>| #[trigger] m.contains_key(v) && m[v] + 1 == q.len();
        assert(m[v] < m.len());
    }
    assert forall|i: int| 0 <= i < n implies m.contains_key(#[trigger] q[i]) && m[q[i]] == i by {
        let v = lemma_has_index(m, i);
        assert(m.contains_key(v) && m[v] == i);
    }
    assert forall|i: int, j: int| 0 <= i < n && 0 <= j < n && i != j implies q[i] != q[j] by {
        assert(m[q[i]] == i && m[q[j]] == j);
    }
    law_restored(q, room, n);
    let r = refilled(q, room, n);
    assert forall|v: Seq<char>| r.contains_key(v) <==> m.contains_key(v) by {
        if r.contains_key(v) {
            let i = choose|i: int| 0 <= i < n && #[trigger] q.take(n)[i] == v;
            assert(q[i] == v);
        }
        if m.contains_key(v) {
            let i = m[v] as int;
            assert(m.contains_key(q[i]) && m[q[i]] == i);
            assert(q[i] == v);
        }
    }
    assert forall|v: Seq<char>| #[trigger] r.contains_key(v) implies r[v] == m[v] by {
        let i = choose|i: int| 0 <= i < n && #[trigger] q.take(n)[i] == v;
        assert(q[i] == v);
    }
    assert(r =~= m);
}

/// Every index below the number of values is given out.
proof fn lemma_has_index(m: Map<Seq<char>, u32>, i: int) -> (v: Seq<char>)
    requires
        compact(m),
        0 <= i < m.len(),
    ensures
        m.contains_key(v),
        m[v] == i,
{
    if forall|v: Seq<char>| #[trigger] m.contains_key(v) ==> m[v] != i {
        let d = m.dom();
        let f = |v: Seq<char>| m[v] as int;
        let img = d.map(f);
        assert(img.len() == d.len()) by {
            assert(vstd::relations::injective_on(f, d)) by {
                assert forall|v: Seq<char>, w: Seq<char>|
                    d.contains(v) && d.contains(w) && #[trigger] f(v) == #[trigger] f(w) implies v
                    == w by {
                    assert(m.contains_key(v) && m.contains_key(w));
                }
            }
            vstd::set_lib::lemma_map_size(d, img, f);
        }
        let all = vstd::set_lib::set_int_range(0, m.len() as int);
        vstd::set_lib::lemma_int_range(0, m.len() as int);
        assert(img.subset_of(all.remove(i))) by {
            assert forall|k: int| img.contains(k) implies all.remove(i).contains(k) by {
                let v = choose|v: Seq<char>| d.contains(v) && f(v) == k;
                assert(m.contains_key(v));
            }
        }
        vstd::set_lib::lemma_len_subset(img, all.remove(i));
        assert(false);
        arbitrary()
    } else {
        choose|v: Seq<char>| #[trigger] m.contains_key(v) && m[v] == i
    }
}

impl Interner {
    /// Rebuild from a snapshot, keeping every index exactly where it was.
    pub fn restore(schema: &Schema, labels: &Vec<Vec<String>>) -> (me: Self)
        ensures
            me.wf(schema.dims@),
            forall|d: int|
                0 <= d < schema.dims.len() ==> #[trigger] me@[d] == (if d < labels.len()
                    && schema.dims[d].capacity is Some {
                    refilled(
                        texts(labels[d]@),
                        schema.dims[d].width(),
                        labels[d].len() as int,
                    )
                } else {
                    Map::empty()
                }),
    {
        let mut tables: Vec<Table> = Vec::new();
        let mut d: usize = 0;
        while d < schema.dims.len()
            invariant
                d <= schema.dims.len(),
                tables@.len() == d,
                forall|e: int|
                    0 <= e < d ==> (#[trigger] tables@[e]).wf() && tables@[e].at@ == (if e
                        < labels.len() && schema.dims[e].capacity is Some {
                        refilled(
                            texts(labels[e]@),
                            schema.dims[e].width(),
                            labels[e].len() as int,
                        )
                    } else {
                        Map::empty()
                    }),
                forall|e: int, v: Seq<char>|
                    0 <= e < d && #[trigger] tables@[e].at@.contains_key(v) ==> tables@[e].at@[v]
                        < schema.dims[e].width(),
            decreases schema.dims.len() - d,
        {
            let mut t = Table::new();
            if d < labels.len() && schema.dims[d].is_dynamic() {
                let room = schema.dims[d].size();
                let ghost q = texts(labels[d as int]@);
                let mut i: usize = 0;
                while i < labels[d].len()
                    invariant
                        d < labels.len(),
                        q == texts(labels[d as int]@),
                        i <= labels[d as int].len(),
                        t.wf(),
                        t.at@ == refilled(q, room as int, i as int),
                        forall|v: Seq<char>| #[trigger]
                            t.at@.contains_key(v) ==> t.at@[v] < room,
                    decreases labels[d as int].len() - i,
                {
                    let v = labels[d][i].as_str();
                    proof {
                        assert(q[i as int] == v@);
                        lemma_truncated(i as int);
                    }
                    if i < room {
                        t.set(v, i as u32);
                    }
                    i = i + 1;
                }
            }
            tables.push(t);
            d = d + 1;
        }
        let me = Interner { tables };
        proof {
            assert forall|d: int, v: Seq<char>|
                #![trigger me@[d].contains_key(v)]
                0 <= d < me@.len() && me@[d].contains_key(v) implies me@[d][v]
                < schema.dims[d].width() by {
                assert(me.tables[d].at@.contains_key(v));
            }
            assert forall|d: int| 0 <= d < me@.len() implies (#[trigger] me@[d]).dom().finite() by {
                assert(me.tables[d].wf());
            }
        }
        me
    }
}

impl Schema {
    pub fn enabled(&self) -> (r: bool)
        ensures
            r == (self.dims.len() > 0),
    {
        self.dims.len() > 0
    }

    /// Resolve a value on a *declared* dimension. Dynamic ones are the interner's business.
    pub fn static_value(&self, d: usize, v: &str) -> (r: Result<u32, String>)
        requires
            self.wf(),
            d < self.dims.len(),
        ensures
            match r {
                Ok(i) => static_answer(self.dims[d as int], v@) == Ok::<u32, Seq<char>>(i),
                Err(e) => static_answer(self.dims[d as int], v@) == Err::<u32, Seq<char>>(e@),
            },
    {
        let dim = &self.dims[d];
        let ghost q = texts(dim.values@);
        proof {
            assert(self.labelled(d as int));
        }
        match self.labels[d].get(v) {
            Some(i) => {
                proof {
                    assert(q.contains(v@));
                    let j = q.index_of(v@);
                    assert(q[j] == v@);
                }
                return Ok(*i);
            },
            None => {},
        }
        proof {
            if q.contains(v@) {
                let j = choose|j: int| 0 <= j < q.len() && q[j] == v@;
                assert(self.labels[d as int]@.contains_key(q[j]));
            }
        }
        match parse_number(v) {
            Some(n) => {
                if n < dim.values.len() as u64 {
                    return Ok(n as u32);
                }
            },
            None => {},
        }
        let mut t = String::from_str("unknown value ");
        t.append(quote(v).as_str());
        t.append(" for ");
        t.append(quote(dim.name.as_str()).as_str());
        t.append("; this collection has ");
        t.append(list(&dim.values).as_str());
        Err(t)
    }
}

/// Reporting: an unseen value takes the next free index.
pub struct Interning<'a> {
    pub schema: &'a Schema,
    pub interner: Interner,
}

impl Values for Interning<'_> {
    open spec fn dims(&self) -> Seq<Dimension> {
        self.schema.dims@
    }

    open spec fn tables(&self) -> Tables {
        self.interner@
    }

    open spec fn learns(&self) -> bool {
        true
    }

    open spec fn ready(&self) -> bool {
        self.schema.wf() && self.interner.wf(self.schema.dims@)
    }

    proof fn lemma_ready(&self) {
    }

    fn get(&mut self, d: usize, v: &str) -> (r: Result<Option<u32>, String>)
        ensures
            final(self).schema == old(self).schema,
    {
        let ghost o = *self;
        proof {
            lemma_answer(self.schema.dims@, self.interner@, true, d as int, v@);
        }
        if !self.schema.dims[d].is_dynamic() {
            return match self.schema.static_value(d, v) {
                Ok(i) => Ok(Some(i)),
                Err(e) => Err(e),
            };
        }
        proof {
            assert(self.interner@[d as int] == self.interner.tables[d as int].at@);
            assert(self.interner.tables[d as int].wf());
        }
        match self.interner.tables[d].at.get(v) {
            Some(i) => {
                return Ok(Some(*i));
            },
            None => {},
        }
        let next = self.interner.tables[d].at.len();
        let size = self.schema.dims[d].size();
        if next >= size {
            let mut t = quote(self.schema.dims[d].name.as_str());
            t.append(" already holds ");
            push_number(&mut t, size as u64);
            t.append(" distinct values, its declared capacity; ");
            t.append(quote(v).as_str());
            t.append(" would be one more");
            return Err(t);
        }
        self.interner.tables[d].put(v, next as u32);
        proof {
            assert(self.interner@ =~= o.interner@.update(
                d as int,
                o.interner@[d as int].insert(v@, next as u32),
            ));
            assert forall|e: int| 0 <= e < self.interner.tables.len() implies (
            #[trigger] self.interner.tables[e]).wf() by {
                if e != d {
                    assert(self.interner.tables[e] == o.interner.tables[e]);
                }
            }
        }
        Ok(Some(next as u32))
    }
}

/// Querying: an unseen value resolves to nothing, and creates nothing.
pub struct Looking<'a> {
    pub schema: &'a Schema,
    pub interner: &'a Interner,
}

impl Values for Looking<'_> {
    open spec fn dims(&self) -> Seq<Dimension> {
        self.schema.dims@
    }

    open spec fn tables(&self) -> Tables {
        self.interner@
    }

    open spec fn learns(&self) -> bool {
        false
    }

    open spec fn ready(&self) -> bool {
        self.schema.wf() && self.interner.wf(self.schema.dims@)
    }

    proof fn lemma_ready(&self) {
    }

    fn get(&mut self, d: usize, v: &str) -> (r: Result<Option<u32>, String>)
    {
        if !self.schema.dims[d].is_dynamic() {
            return match self.schema.static_value(d, v) {
                Ok(i) => Ok(Some(i)),
                Err(e) => Err(e),
            };
        }
        proof {
            assert(self.interner@[d as int] == self.interner.tables[d as int].at@);
        }
        match self.interner.tables[d].at.get(v) {
            Some(i) => Ok(Some(*i)),
            None => Ok(None),
        }
    }
}

} // verus!
