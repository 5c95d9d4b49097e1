//! What a collection is declared as.
use crate::geometry::{Options, MAX_ZOOM};
use crate::schema::{block, blocks, chosen, declared, dim_fault, first_fault, ints, name_fault,
    named, names, schema_fault, shape_dims, shape_fault, size_fault, value_fault, worst, worst_of,
    Dimension, Schema, Shape};
use crate::text::{copy_texts, texts};
use vstd::prelude::*;
use vstd::string::StringExecFns;

verus! {

/// What a collection is declared as.
#[derive(Clone, Debug)]
pub struct Config {
    pub max_zoom: u8,
    /// Cluster radius, in thousandths of a pixel.
    pub radius: u32,
    /// Tile extent, in thousandths of a pixel.
    pub extent: u32,
    /// Covering slack, in thousandths.
    pub hysteresis: u32,
    /// Category labels. The index of a label *is* its category, so a query can say
    /// `?cat=delivering` instead of `?cat=2`.
    ///
    /// A shorthand for a single dimension named `cat`. Set this or `dimensions`, never both.
    pub categories: Vec<String>,
    /// Properties this collection can filter on. Each declares its possible values, and `multi`
    /// lets one device hold several at once.
    pub dimensions: Vec<Dimension>,
    /// Which combinations of dimensions a query may name. Empty means each dimension on its own.
    pub filters: Vec<Vec<String>>,
    /// Largest per-device properties blob accepted, in bytes. 0 refuses properties entirely.
    ///
    /// Memory is bounded by devices times this number, so it is a real limit and not a
    /// formality.
    pub max_props_bytes: usize,
    /// Property fields that can be searched with `?where=`.
    pub text: Vec<String>,
    /// Drop a device that has not reported for this long. 0 disables expiry.
    ///
    /// A vehicle that stops reporting does not stop existing in the index, and clusters quietly
    /// fill with ghosts.
    pub ttl_seconds: u64,
}

impl Default for Config {
    fn default() -> (c: Self)
        ensures
            c.max_zoom == 16,
            c.radius == 40_000,
            c.extent == 512_000,
            c.hysteresis == 250,
            c.categories.len() == 0,
            c.dimensions.len() == 0,
            c.filters.len() == 0,
            c.text.len() == 0,
            c.max_props_bytes == 1024,
            c.ttl_seconds == 300,
    {
        Config {
            max_zoom: 16,
            radius: 40_000,
            extent: 512_000,
            hysteresis: 250,
            categories: Vec::new(),
            dimensions: Vec::new(),
            filters: Vec::new(),
            max_props_bytes: 1024,
            text: Vec::new(),
            ttl_seconds: 300,
        }
    }
}

/// Whether two lists hold the same texts.
pub fn same_texts(a: &Vec<String>, b: &Vec<String>) -> (r: bool)
    ensures
        r == (texts(a@) == texts(b@)),
{
    if a.len() != b.len() {
        proof {
            assert(texts(a@).len() != texts(b@).len());
        }
        return false;
    }
    let mut i: usize = 0;
    while i < a.len()
        invariant
            i <= a.len(),
            a.len() == b.len(),
            forall|j: int| 0 <= j < i ==> #[trigger] a@[j]@ == b@[j]@,
        decreases a.len() - i,
    {
        if *a[i].as_str() != *b[i].as_str() {
            proof {
                assert(texts(a@)[i as int] != texts(b@)[i as int]);
            }
            return false;
        }
        i = i + 1;
    }
    proof {
        assert(texts(a@) =~= texts(b@));
    }
    true
}

/// The same dimensions, in the same order.
pub open spec fn same_dimensions(a: Seq<Dimension>, b: Seq<Dimension>) -> bool {
    a.len() == b.len() && forall|i: int| 0 <= i < a.len() ==> (#[trigger] a[i]).like(b[i])
}

/// The same shapes, in the same order.
pub open spec fn same_filters(a: Seq<Vec<String>>, b: Seq<Vec<String>>) -> bool {
    a.len() == b.len() && forall|i: int| 0 <= i < a.len() ==> texts((#[trigger] a[i])@) == texts(b[i]@)
}

fn equal_dimensions(a: &Vec<Dimension>, b: &Vec<Dimension>) -> (r: bool)
    ensures
        r == same_dimensions(a@, b@),
{
    if a.len() != b.len() {
        return false;
    }
    let mut i: usize = 0;
    while i < a.len()
        invariant
            i <= a.len(),
            a.len() == b.len(),
            forall|j: int| 0 <= j < i ==> (#[trigger] a@[j]).like(b@[j]),
        decreases a.len() - i,
    {
        let (x, y) = (&a[i], &b[i]);
        let same = *x.name.as_str() == *y.name.as_str() && same_texts(&x.values, &y.values)
            && match (x.capacity, y.capacity) {
            (Some(m), Some(n)) => m == n,
            (None, None) => true,
            _ => false,
        } && x.multi == y.multi;
        if !same {
            proof {
                assert(!a@[i as int].like(b@[i as int]));
            }
            return false;
        }
        i = i + 1;
    }
    true
}

fn equal_filters(a: &Vec<Vec<String>>, b: &Vec<Vec<String>>) -> (r: bool)
    ensures
        r == same_filters(a@, b@),
{
    if a.len() != b.len() {
        return false;
    }
    let mut i: usize = 0;
    while i < a.len()
        invariant
            i <= a.len(),
            a.len() == b.len(),
            forall|j: int| 0 <= j < i ==> texts((#[trigger] a@[j])@) == texts(b@[j]@),
        decreases a.len() - i,
    {
        if !same_texts(&a[i], &b[i]) {
            proof {
                assert(texts(a@[i as int]@) != texts(b@[i as int]@));
            }
            return false;
        }
        i = i + 1;
    }
    true
}

fn copy_dimension(d: &Dimension) -> (r: Dimension)
    ensures
        r.like(*d),
{
    Dimension {
        name: d.name.clone(),
        values: copy_texts(&d.values),
        capacity: d.capacity,
        multi: d.multi,
    }
}

pub fn copy_dimensions(v: &Vec<Dimension>) -> (r: Vec<Dimension>)
    ensures
        same_dimensions(r@, v@),
{
    let mut r: Vec<Dimension> = Vec::new();
    let mut i: usize = 0;
    while i < v.len()
        invariant
            i <= v@.len(),
            r@.len() == i,
            forall|j: int| 0 <= j < i ==> (#[trigger] r@[j]).like(v@[j]),
        decreases v@.len() - i,
    {
        r.push(copy_dimension(&v[i]));
        i = i + 1;
    }
    r
}

pub fn copy_filters(v: &Vec<Vec<String>>) -> (r: Vec<Vec<String>>)
    ensures
        same_filters(r@, v@),
{
    let mut r: Vec<Vec<String>> = Vec::new();
    let mut i: usize = 0;
    while i < v.len()
        invariant
            i <= v@.len(),
            r@.len() == i,
            forall|j: int| 0 <= j < i ==> texts((#[trigger] r@[j])@) == texts(v@[j]@),
        decreases v@.len() - i,
    {
        r.push(copy_texts(&v[i]));
        i = i + 1;
    }
    r
}

impl Config {
    /// The first thing a live collection with this configuration cannot become to match `o`.
    pub open spec fn conflict(&self, o: Config) -> Option<Seq<char>> {
        if self.max_zoom != o.max_zoom {
            Some("max_zoom"@)
        } else if self.radius != o.radius {
            Some("radius"@)
        } else if self.extent != o.extent {
            Some("extent"@)
        } else if self.hysteresis != o.hysteresis {
            Some("hysteresis"@)
        } else if texts(self.categories@) != texts(o.categories@) {
            Some("categories"@)
        } else if !same_dimensions(self.dimensions@, o.dimensions@) {
            Some("dimensions"@)
        } else if !same_filters(self.filters@, o.filters@) {
            Some("filters"@)
        } else if texts(self.text@) != texts(o.text@) {
            Some("text"@)
        } else {
            None
        }
    }

    /// The first thing a live collection with this config cannot become to match `other`, or
    /// `None` when it can.
    ///
    /// Everything named here shapes the index at construction: the tree's levels and radii, the
    /// cell table every aggregate count hangs off, the per-device text slots a `?where=` scan
    /// reads. None of it can move under a running collection, so a repeated `PUT` that changes
    /// one is a conflict rather than an idempotent no-op.
    pub fn frozen_conflict(&self, other: &Config) -> (r: Option<&'static str>)
        ensures
            match r {
                Some(name) => self.conflict(*other) == Some(name@),
                None => self.conflict(*other) is None,
            },
    {
        if self.max_zoom != other.max_zoom {
            return Some("max_zoom");
        }
        if self.radius != other.radius {
            return Some("radius");
        }
        if self.extent != other.extent {
            return Some("extent");
        }
        if self.hysteresis != other.hysteresis {
            return Some("hysteresis");
        }
        if !same_texts(&self.categories, &other.categories) {
            return Some("categories");
        }
        if !equal_dimensions(&self.dimensions, &other.dimensions) {
            return Some("dimensions");
        }
        if !equal_filters(&self.filters, &other.filters) {
            return Some("filters");
        }
        if !same_texts(&self.text, &other.text) {
            return Some("text");
        }
        None
    }

    /// The same configuration.
    pub open spec fn like(&self, o: Config) -> bool {
        &&& self.conflict(o) is None
        &&& self.max_props_bytes == o.max_props_bytes
        &&& self.ttl_seconds == o.ttl_seconds
    }

    pub fn copy(&self) -> (c: Config)
        ensures
            c.like(*self),
    {
        Config {
            max_zoom: self.max_zoom,
            radius: self.radius,
            extent: self.extent,
            hysteresis: self.hysteresis,
            categories: copy_texts(&self.categories),
            dimensions: copy_dimensions(&self.dimensions),
            filters: copy_filters(&self.filters),
            max_props_bytes: self.max_props_bytes,
            text: copy_texts(&self.text),
            ttl_seconds: self.ttl_seconds,
        }
    }

    /// `q` are the dimensions that are declared, in either spelling.
    pub open spec fn declares(&self, q: Seq<Dimension>) -> bool {
        if self.dimensions.len() > 0 {
            same_dimensions(q, self.dimensions@)
        } else if self.categories.len() > 0 {
            &&& q.len() == 1
            &&& q[0].name@ == "cat"@
            &&& texts(q[0].values@) == texts(self.categories@)
            &&& q[0].capacity is None
            &&& !q[0].multi
        } else {
            q.len() == 0
        }
    }

    /// What is wrong with how the filters are declared, but for the filters themselves.
    pub open spec fn spelling_fault(&self) -> Option<Seq<char>> {
        if self.categories.len() > 0 && self.dimensions.len() > 0 {
            Some("set either `categories` or `dimensions`, not both"@)
        } else if self.filters.len() > 0 && self.dimensions.len() == 0 {
            Some("`filters` needs `dimensions` to name"@)
        } else {
            None
        }
    }

    /// Resolve the declared filters, or say why they cannot be.
    ///
    /// `categories` is the older spelling of one dimension named `cat`; it becomes that one here, so
    /// there is exactly one code path below this line.
    pub fn schema(&self) -> (r: Result<Schema, String>)
        ensures
            match r {
                Ok(s) => {
                    &&& self.spelling_fault() is None
                    &&& s.wf()
                    &&& self.declares(s.dims@)
                    &&& schema_fault(s.dims@, self.filters@) is None
                    &&& s.built(s.dims@, self.filters@)
                },
                Err(e) => match self.spelling_fault() {
                    Some(t) => e@ == t,
                    None => exists|q: Seq<Dimension>| #[trigger]
                        self.declares(q) && schema_fault(q, self.filters@) == Some(e@),
                },
            },
    {
        if self.categories.len() > 0 && self.dimensions.len() > 0 {
            return Err(String::from_str("set either `categories` or `dimensions`, not both"));
        }
        if self.filters.len() > 0 && self.dimensions.len() == 0 {
            return Err(String::from_str("`filters` needs `dimensions` to name"));
        }
        let dims: Vec<Dimension> = if self.dimensions.len() > 0 {
            copy_dimensions(&self.dimensions)
        } else if self.categories.len() > 0 {
            let mut one: Vec<Dimension> = Vec::new();
            one.push(
                Dimension {
                    name: String::from_str("cat"),
                    values: copy_texts(&self.categories),
                    capacity: None,
                    multi: false,
                },
            );
            one
        } else {
            Vec::new()
        };
        proof {
            assert(self.declares(dims@));
        }
        Schema::new(dims, &self.filters)
    }

    /// The options of an index for this configuration and its schema.
    pub open spec fn options_for(&self, cells: usize, most: usize) -> Options {
        Options {
            min_zoom: 0,
            max_zoom: self.max_zoom,
            radius: self.radius,
            extent: self.extent,
            hysteresis: self.hysteresis,
            categories: 0,
            cells,
            max_cells_per_device: most,
            dense_cells: 64,
        }
    }

    pub fn options(&self, schema: &Schema) -> (o: Options)
        ensures
            o == self.options_for(schema.cells, schema.max_cells_per_device),
    {
        Options {
            min_zoom: 0,
            max_zoom: self.max_zoom,
            radius: self.radius,
            extent: self.extent,
            hysteresis: self.hysteresis,
            categories: 0,
            cells: schema.cells,
            max_cells_per_device: schema.max_cells_per_device,
            dense_cells: 64,
        }
    }

    /// This is what is wrong with the filters: how they are spelled, or what they declare.
    pub open spec fn filters_faulty(&self, t: Seq<char>) -> bool {
        ||| self.spelling_fault() == Some(t)
        ||| self.spelling_fault() is None && exists|q: Seq<Dimension>| #[trigger]
            self.declares(q) && schema_fault(q, self.filters@) == Some(t)
    }

    /// The filters can be resolved.
    pub open spec fn resolves(&self) -> bool {
        exists|s: Schema| #[trigger] self.built_of(s)
    }

    /// Why no collection can have this configuration, if none can, and the code for it.
    ///
    /// A bad declaration is refused here, where the caller can read why. `Collection::new` cannot
    /// report it.
    pub fn refusal(&self) -> (r: Option<(String, &'static str)>)
        ensures
            r is None <==> self.acceptable(),
            r is None <==> self.max_zoom <= MAX_ZOOM && self.radius > 0 && self.extent > 0
                && self.resolves(),
            r matches Some((t, code)) ==> {
                if self.max_zoom > MAX_ZOOM {
                    t@ == "max_zoom must be <= 20"@ && code@ == "bad_request"@
                } else if self.radius == 0 || self.extent == 0 {
                    t@ == "radius and extent must be positive"@ && code@ == "bad_request"@
                } else {
                    self.filters_faulty(t@) && code@ == "bad_filters"@
                }
            },
    {
        if self.max_zoom > MAX_ZOOM {
            return Some((String::from_str("max_zoom must be <= 20"), "bad_request"));
        }
        if self.radius == 0 || self.extent == 0 {
            return Some((String::from_str("radius and extent must be positive"), "bad_request"));
        }
        match self.schema() {
            Err(e) => {
                proof {
                    if self.resolves() {
                        let t = choose|t: Schema| #[trigger] self.built_of(t);
                        let q = choose|q: Seq<Dimension>| #[trigger]
                            self.declares(q) && schema_fault(q, self.filters@) == Some(e@);
                        self.lemma_declares(q, t.dims@);
                        lemma_like_fault(q, t.dims@, self.filters@);
                    }
                }
                Some((e, "bad_filters"))
            },
            Ok(s) => {
                proof {
                    assert(self.built_of(s));
                    assert(self.options_for(s.cells, s.max_cells_per_device).valid());
                }
                None
            },
        }
    }

    /// However the declaration is copied, the schema is laid out the same.
    proof fn lemma_one_schema(&self, s: Schema, t: Schema)
        requires
            self.built_of(s),
            self.built_of(t),
        ensures
            s.cells == t.cells,
            s.max_cells_per_device == t.max_cells_per_device,
    {
        let (a, b) = (s.dims@, t.dims@);
        let f = self.filters@;
        assert forall|i: int| 0 <= i < a.len() implies (#[trigger] a[i]).like(b[i]) by {
            if self.dimensions.len() > 0 {
                assert(a[i].like(self.dimensions@[i]));
                assert(b[i].like(self.dimensions@[i]));
            }
        }
        lemma_like(a, b, f);
        let raw = declared(a, f);
        let n = raw.len() as int;
        lemma_like_blocks(a, b, raw, n);
        assert forall|i: int| 0 <= i < n implies ints((#[trigger] s.shapes@[i]).dims@) == ints(
            t.shapes@[i].dims@,
        ) by {
            lemma_like_chosen(a, b, raw[i], a.len() as int);
            assert(ints(s.shapes[i].dims@) == shape_dims(a, raw, i));
            assert(ints(t.shapes[i].dims@) == shape_dims(b, raw, i));
        }
        assert forall|i: int, k: int|
            0 <= i < n && 0 <= k < s.shapes@[i].dims.len() implies #[trigger] s.shapes@[i].dims[k]
            < a.len() by {
            assert(s.shape_ok(i));
        }
        lemma_like_worst(a, b, s.shapes@, t.shapes@, n);
    }

    /// The schema of an acceptable configuration makes a valid index.
    pub proof fn lemma_options(&self, s: Schema)
        requires
            self.acceptable(),
            self.built_of(s),
        ensures
            self.options_for(s.cells, s.max_cells_per_device).valid(),
    {
        let t = choose|t: Schema| #[trigger]
            self.built_of(t) && self.options_for(t.cells, t.max_cells_per_device).valid();
        self.lemma_one_schema(s, t);
    }

    /// However the declaration is copied, it is the same declaration.
    proof fn lemma_declares(&self, a: Seq<Dimension>, b: Seq<Dimension>)
        requires
            self.declares(a),
            self.declares(b),
        ensures
            same_dimensions(a, b),
    {
        assert forall|i: int| 0 <= i < a.len() implies (#[trigger] a[i]).like(b[i]) by {
            if self.dimensions.len() > 0 {
                assert(a[i].like(self.dimensions@[i]));
                assert(b[i].like(self.dimensions@[i]));
            }
        }
    }

    /// An acceptable configuration has a schema.
    pub proof fn lemma_acceptable(&self)
        requires
            self.acceptable(),
        ensures
            self.spelling_fault() is None,
            forall|q: Seq<Dimension>| #[trigger]
                self.declares(q) ==> schema_fault(q, self.filters@) is None,
    {
        let t = choose|t: Schema| #[trigger]
            self.built_of(t) && self.options_for(t.cells, t.max_cells_per_device).valid();
        assert forall|q: Seq<Dimension>| #[trigger] self.declares(q) implies schema_fault(
            q,
            self.filters@,
        ) is None by {
            self.lemma_declares(q, t.dims@);
            lemma_like_fault(q, t.dims@, self.filters@);
        }
    }

    /// `s` is the schema that is declared.
    pub open spec fn built_of(&self, s: Schema) -> bool {
        &&& self.spelling_fault() is None
        &&& s.wf()
        &&& self.declares(s.dims@)
        &&& schema_fault(s.dims@, self.filters@) is None
        &&& s.built(s.dims@, self.filters@)
    }

    /// An index for as many devices fits this machine.
    pub open spec fn holds(&self, n: int) -> bool {
        forall|s: Schema| #[trigger]
            self.built_of(s) ==> self.options_for(s.cells, s.max_cells_per_device).houses(n)
    }

    /// Whether an index for as many devices fits this machine.
    pub fn can_hold(&self, n: usize) -> (r: bool)
        requires
            self.acceptable(),
        ensures
            r == self.holds(n as int),
    {
        match self.schema() {
            Err(_) => {
                proof {
                    self.lemma_acceptable();
                }
                vstd::pervasive::unreached()
            },
            Ok(s) => {
                proof {
                    assert(self.built_of(s));
                    assert forall|t: Schema| #[trigger] self.built_of(t) implies self.options_for(
                        t.cells,
                        t.max_cells_per_device,
                    ) == self.options_for(s.cells, s.max_cells_per_device) by {
                        self.lemma_one_schema(s, t);
                    }
                }
                self.options(&s).can_house(n)
            },
        }
    }

    /// A collection can have this configuration.
    pub open spec fn acceptable(&self) -> bool {
        exists|s: Schema| #[trigger]
            self.built_of(s) && self.options_for(s.cells, s.max_cells_per_device).valid()
    }
}

proof fn lemma_like(a: Seq<Dimension>, b: Seq<Dimension>, f: Seq<Vec<String>>)
    requires
        same_dimensions(a, b),
    ensures
        declared(a, f) == declared(b, f),
{
    assert forall|i: int| 0 <= i < a.len() implies (#[trigger] a[i]).name@ == b[i].name@ by {
        assert(a[i].like(b[i]));
    }
    assert(declared(a, f) =~= declared(b, f)) by {
        if f.len() == 0 {
            assert forall|i: int| 0 <= i < a.len() implies declared(a, f)[i] == declared(b, f)[i] by {
                assert(a[i].name@ == b[i].name@);
            }
        }
    }
}

proof fn lemma_like_chosen(a: Seq<Dimension>, b: Seq<Dimension>, f: Seq<Seq<char>>, n: int)
    requires
        same_dimensions(a, b),
        0 <= n <= a.len(),
    ensures
        chosen(a, f, n) == chosen(b, f, n),
        forall|k: int| 0 <= k < chosen(a, f, n).len() ==> 0 <= #[trigger] chosen(a, f, n)[k] < n,
    decreases n,
{
    if n > 0 {
        lemma_like_chosen(a, b, f, n - 1);
        assert(a[n - 1].like(b[n - 1]));
    }
}

proof fn lemma_like_block(a: Seq<Dimension>, b: Seq<Dimension>, q: Seq<int>, k: int)
    requires
        same_dimensions(a, b),
        0 <= k <= q.len(),
        forall|j: int| 0 <= j < q.len() ==> 0 <= #[trigger] q[j] < a.len(),
    ensures
        block(a, q, k) == block(b, q, k),
    decreases q.len() - k,
{
    if k < q.len() {
        lemma_like_block(a, b, q, k + 1);
        assert(a[q[k]].like(b[q[k]]));
        assert(texts(a[q[k]].values@).len() == texts(b[q[k]].values@).len());
    }
}

proof fn lemma_like_blocks(a: Seq<Dimension>, b: Seq<Dimension>, raw: Seq<Seq<Seq<char>>>, n: int)
    requires
        same_dimensions(a, b),
        0 <= n <= raw.len(),
    ensures
        blocks(a, raw, n) == blocks(b, raw, n),
    decreases n,
{
    if n > 0 {
        lemma_like_blocks(a, b, raw, n - 1);
        lemma_like_chosen(a, b, raw[n - 1], a.len() as int);
        lemma_like_block(a, b, shape_dims(a, raw, n - 1), 0);
    }
}

proof fn lemma_like_worst_of(a: Seq<Dimension>, b: Seq<Dimension>, q: Seq<int>, k: int)
    requires
        same_dimensions(a, b),
        0 <= k <= q.len(),
        forall|j: int| 0 <= j < q.len() ==> 0 <= #[trigger] q[j] < a.len(),
    ensures
        worst_of(a, q, k) == worst_of(b, q, k),
    decreases k,
{
    if k > 0 {
        lemma_like_worst_of(a, b, q, k - 1);
        assert(a[q[k - 1]].like(b[q[k - 1]]));
    }
}

proof fn lemma_like_worst(
    a: Seq<Dimension>,
    b: Seq<Dimension>,
    x: Seq<Shape>,
    y: Seq<Shape>,
    n: int,
)
    requires
        same_dimensions(a, b),
        0 <= n <= x.len(),
        n <= y.len(),
        forall|i: int| 0 <= i < n ==> ints((#[trigger] x[i]).dims@) == ints(y[i].dims@),
        forall|i: int, k: int|
            0 <= i < n && 0 <= k < x[i].dims.len() ==> #[trigger] x[i].dims[k] < a.len(),
    ensures
        worst(a, x, n) == worst(b, y, n),
    decreases n,
{
    if n > 0 {
        lemma_like_worst(a, b, x, y, n - 1);
        let q = ints(x[n - 1].dims@);
        assert(q == ints(y[n - 1].dims@));
        assert(q.len() == ints(y[n - 1].dims@).len());
        assert forall|j: int| 0 <= j < q.len() implies 0 <= #[trigger] q[j] < a.len() by {
            assert(x[n - 1].dims[j] < a.len());
        }
        lemma_like_worst_of(a, b, q, q.len() as int);
    }
}

proof fn lemma_same_fault(
    i: int,
    n: int,
    f: spec_fn(int) -> Option<Seq<char>>,
    g: spec_fn(int) -> Option<Seq<char>>,
)
    requires
        forall|j: int| i <= j < n ==> #[trigger] f(j) == g(j),
    ensures
        first_fault(i, n, f) == first_fault(i, n, g),
    decreases n - i,
{
    if i < n {
        assert(f(i) == g(i));
        lemma_same_fault(i + 1, n, f, g);
    }
}

/// Declarations that say the same are at fault in the same way.
proof fn lemma_like_fault(a: Seq<Dimension>, b: Seq<Dimension>, filters: Seq<Vec<String>>)
    requires
        same_dimensions(a, b),
    ensures
        schema_fault(a, filters) == schema_fault(b, filters),
{
    let n = a.len() as int;
    lemma_like(a, b, filters);
    let raw = declared(a, filters);
    assert(names(a) =~= names(b)) by {
        assert forall|i: int| 0 <= i < n implies names(a)[i] == names(b)[i] by {
            assert(a[i].like(b[i]));
        }
    }
    let (df, dg) = (|i: int| dim_fault(a, i), |i: int| dim_fault(b, i));
    assert forall|i: int| 0 <= i < n implies #[trigger] df(i) == dg(i) by {
        assert(a[i].like(b[i]));
        let m = a[i].values.len() as int;
        assert(texts(a[i].values@).len() == texts(b[i].values@).len());
        let (vf, vg) = (|j: int| value_fault(a[i], j), |j: int| value_fault(b[i], j));
        assert forall|j: int| 0 <= j < m implies #[trigger] vf(j) == vg(j) by {
            assert(texts(a[i].values@)[j] == texts(b[i].values@)[j]);
        }
        lemma_same_fault(0, m, vf, vg);
    }
    lemma_same_fault(0, n, df, dg);
    let k = raw.len() as int;
    let (sf, sg) = (|i: int| shape_fault(a, raw, i), |i: int| shape_fault(b, raw, i));
    assert forall|i: int| 0 <= i < k implies #[trigger] sf(i) == sg(i) by {
        let f = raw[i];
        let m = f.len() as int;
        let (nf, ng) = (|j: int| name_fault(a, f, j), |j: int| name_fault(b, f, j));
        assert forall|j: int| 0 <= j < m implies #[trigger] nf(j) == ng(j) by {}
        lemma_same_fault(0, m, nf, ng);
        lemma_like_chosen(a, b, f, n);
        assert forall|e: int| 0 <= e < i implies chosen(a, #[trigger] raw[e], n) == chosen(
            b,
            raw[e],
            n,
        ) by {
            lemma_like_chosen(a, b, raw[e], n);
        }
        let ea = exists|e: int| 0 <= e < i && chosen(a, #[trigger] raw[e], n) == chosen(a, f, n);
        let eb = exists|e: int| 0 <= e < i && chosen(b, #[trigger] raw[e], n) == chosen(b, f, n);
        assert(ea == eb);
    }
    lemma_same_fault(0, k, sf, sg);
    let (zf, zg) = (|i: int| size_fault(a, raw, i), |i: int| size_fault(b, raw, i));
    assert forall|i: int| 0 <= i < k implies #[trigger] zf(i) == zg(i) by {
        lemma_like_chosen(a, b, raw[i], n);
        let q = shape_dims(a, raw, i);
        lemma_like_block(a, b, q, 0);
        assert(named(a, q) =~= named(b, q)) by {
            assert forall|j: int| 0 <= j < q.len() implies named(a, q)[j] == named(b, q)[j] by {
                assert(a[q[j]].like(b[q[j]]));
            }
        }
    }
    lemma_same_fault(0, k, zf, zg);
    lemma_like_blocks(a, b, raw, k);
}

/// A configuration of which only some fields are given.
#[derive(Debug, Clone)]
pub struct ConfigBody {
    pub max_zoom: Option<u8>,
    /// In thousandths of a pixel.
    pub radius: Option<u32>,
    pub extent: Option<u32>,
    /// In thousandths.
    pub hysteresis: Option<u32>,
    pub categories: Option<Vec<String>>,
    pub dimensions: Option<Vec<Dimension>>,
    pub text: Option<Vec<String>>,
    pub filters: Option<Vec<Vec<String>>>,
    pub max_props_bytes: Option<usize>,
    pub ttl_seconds: Option<u64>,
}

pub open spec fn given_or<T>(v: Option<T>, otherwise: T) -> T {
    match v {
        Some(x) => x,
        None => otherwise,
    }
}

fn or<T>(v: Option<T>, otherwise: T) -> (r: T)
    ensures
        r == given_or(v, otherwise),
{
    match v {
        Some(x) => x,
        None => otherwise,
    }
}

impl ConfigBody {
    /// What is not given is as it is by default.
    pub fn into_config(self) -> (c: Config)
        ensures
            c.max_zoom == given_or(self.max_zoom, 16),
            c.radius == given_or(self.radius, 40_000),
            c.extent == given_or(self.extent, 512_000),
            c.hysteresis == given_or(self.hysteresis, 250),
            self.categories matches Some(v) ==> c.categories == v,
            self.categories is None ==> c.categories.len() == 0,
            self.dimensions matches Some(v) ==> c.dimensions == v,
            self.dimensions is None ==> c.dimensions.len() == 0,
            self.filters matches Some(v) ==> c.filters == v,
            self.filters is None ==> c.filters.len() == 0,
            self.text matches Some(v) ==> c.text == v,
            self.text is None ==> c.text.len() == 0,
            c.max_props_bytes == given_or(self.max_props_bytes, 1024),
            c.ttl_seconds == given_or(self.ttl_seconds, 300),
    {
        let d = Config::default();
        Config {
            max_zoom: or(self.max_zoom, d.max_zoom),
            radius: or(self.radius, d.radius),
            extent: or(self.extent, d.extent),
            hysteresis: or(self.hysteresis, d.hysteresis),
            categories: or(self.categories, d.categories),
            dimensions: or(self.dimensions, d.dimensions),
            filters: or(self.filters, d.filters),
            text: or(self.text, d.text),
            max_props_bytes: or(self.max_props_bytes, d.max_props_bytes),
            ttl_seconds: or(self.ttl_seconds, d.ttl_seconds),
        }
    }
}

} // verus!
