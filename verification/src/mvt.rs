//! A minimal vector tile encoder.
//!
//! The only thing ever emitted is points carrying two or three tags, so a general library, with
//! its protobuf compiler, geometry model and coordinate pipeline, is not needed.
use crate::text::texts;
use std::collections::HashMap;
use vstd::hash_map::StringHashMap;
use vstd::prelude::*;
use vstd::utf8::encode_utf8;

verus! {

/// A number in base 128, the lowest digit first, all but the last byte marked.
pub open spec fn varint(v: int) -> Seq<u8>
    decreases v,
{
    if v < 128 {
        seq![v as u8]
    } else {
        seq![(v % 128 + 128) as u8] + varint(v / 128)
    }
}

pub open spec fn tag(field: int, wire: int) -> Seq<u8> {
    varint(field * 8 + wire)
}

pub open spec fn varint_field(field: int, v: int) -> Seq<u8> {
    tag(field, 0) + varint(v)
}

pub open spec fn bytes_field(field: int, b: Seq<u8>) -> Seq<u8> {
    tag(field, 2) + varint(b.len() as int) + b
}

/// Numbers one after the other.
pub open spec fn varints(q: Seq<u32>) -> Seq<u8>
    decreases q.len(),
{
    if q.len() == 0 {
        seq![]
    } else {
        varints(q.drop_last()) + varint(q.last() as int)
    }
}

/// A signed number with the sign in the lowest bit.
pub open spec fn zigzag(n: int) -> int {
    if n >= 0 {
        2 * n
    } else {
        -2 * n - 1
    }
}

/// What a reader makes of the number at the front of `b`, and how many bytes it takes.
pub open spec fn read_varint(b: Seq<u8>) -> (int, int)
    decreases b.len(),
{
    if b.len() == 0 {
        (0, 0)
    } else if b[0] < 128 {
        (b[0] as int, 1)
    } else {
        let (v, n) = read_varint(b.skip(1));
        (b[0] - 128 + 128 * v, n + 1)
    }
}

/// **Numbers can be read back**, whatever follows them.
pub proof fn law_varint(v: int, rest: Seq<u8>)
    requires
        v >= 0,
    ensures
        read_varint(varint(v) + rest) == (v, varint(v).len() as int),
        varint(v).len() > 0,
    decreases v,
{
    let b = varint(v) + rest;
    if v < 128 {
        assert(b[0] == v as u8);
    } else {
        law_varint(v / 128, rest);
        assert(b[0] == (v % 128 + 128) as u8);
        assert(b.skip(1) =~= varint(v / 128) + rest);
    }
}

/// **Fields can be told apart**: field number, wire type and contents of a length-delimited
/// field can be read back, whatever follows it.
pub proof fn law_bytes_field(field: int, b: Seq<u8>, rest: Seq<u8>)
    requires
        field >= 0,
    ensures
        ({
            let all = bytes_field(field, b) + rest;
            let (key, n) = read_varint(all);
            let (len, m) = read_varint(all.skip(n));
            &&& key / 8 == field
            &&& key % 8 == 2
            &&& len == b.len()
            &&& all.subrange(n + m, n + m + len) == b
            &&& all.skip(n + m + len) == rest
        }),
{
    let all = bytes_field(field, b) + rest;
    let t = tag(field, 2);
    let l = varint(b.len() as int);
    assert(all =~= t + (l + b + rest));
    law_varint(field * 8 + 2, l + b + rest);
    let n = t.len() as int;
    assert(all.skip(n) =~= l + (b + rest));
    law_varint(b.len() as int, b + rest);
    let m = l.len() as int;
    assert(all.subrange(n + m, n + m + b.len()) =~= b);
    assert(all.skip(n + m + b.len()) =~= rest);
}

/// **Signed numbers can be told apart**, and small ones stay small.
pub proof fn law_zigzag(a: int, b: int)
    ensures
        zigzag(a) == zigzag(b) ==> a == b,
        zigzag(a) >= 0,
        i32::MIN <= a <= i32::MAX ==> zigzag(a) <= u32::MAX,
{
}

/// Protobuf writer. Only the two wire types that are used.
pub struct Pbf {
    pub buf: Vec<u8>,
}

impl Pbf {
    pub fn new() -> (p: Self)
        ensures
            p.buf@ == Seq::<u8>::empty(),
    {
        Pbf { buf: Vec::new() }
    }

    pub fn varint(&mut self, v: u64)
        ensures
            final(self).buf@ == old(self).buf@ + varint(v as int),
    {
        let ghost was = self.buf@;
        let mut v = v;
        let ghost all = varint(v as int);
        proof {
            assert(self.buf@ + varint(v as int) =~= was + all);
        }
        while v >= 128
            invariant
                self.buf@ + varint(v as int) == was + all,
            decreases v,
        {
            let ghost now = self.buf@;
            let low = (v % 128) as u8;
            self.buf.push(low + 128);
            proof {
                assert(self.buf@ + varint(v as int / 128) =~= now + varint(v as int));
            }
            v = v / 128;
        }
        let ghost now = self.buf@;
        self.buf.push(v as u8);
        proof {
            assert(self.buf@ =~= now + varint(v as int));
        }
    }

    pub fn tag(&mut self, field: u32, wire: u32)
        requires
            wire < 8,
        ensures
            final(self).buf@ == old(self).buf@ + tag(field as int, wire as int),
    {
        self.varint(field as u64 * 8 + wire as u64);
    }

    pub fn varint_field(&mut self, field: u32, v: u64)
        ensures
            final(self).buf@ == old(self).buf@ + varint_field(field as int, v as int),
    {
        let ghost was = self.buf@;
        self.tag(field, 0);
        self.varint(v);
        proof {
            assert(self.buf@ =~= was + varint_field(field as int, v as int));
        }
    }

    pub fn bytes_field(&mut self, field: u32, b: &[u8])
        ensures
            final(self).buf@ == old(self).buf@ + bytes_field(field as int, b@),
    {
        let ghost was = self.buf@;
        self.tag(field, 2);
        self.varint(b.len() as u64);
        self.put(b);
        proof {
            assert(self.buf@ =~= was + bytes_field(field as int, b@));
        }
    }

    fn put(&mut self, b: &[u8])
        ensures
            final(self).buf@ == old(self).buf@ + b@,
    {
        let ghost was = self.buf@;
        let mut i: usize = 0;
        while i < b.len()
            invariant
                i <= b@.len(),
                self.buf@ == was + b@.take(i as int),
            decreases b@.len() - i,
        {
            self.buf.push(b[i]);
            proof {
                assert(b@.take(i + 1) =~= b@.take(i as int).push(b@[i as int]));
            }
            i = i + 1;
        }
        proof {
            assert(b@.take(b@.len() as int) =~= b@);
        }
    }

    pub fn packed_u32(&mut self, field: u32, vals: &[u32])
        ensures
            final(self).buf@ == old(self).buf@ + bytes_field(field as int, varints(vals@)),
    {
        let mut inner = Pbf::new();
        let mut i: usize = 0;
        proof {
            assert(inner.buf@ =~= varints(vals@.take(0)));
        }
        while i < vals.len()
            invariant
                i <= vals@.len(),
                inner.buf@ == varints(vals@.take(i as int)),
            decreases vals@.len() - i,
        {
            inner.varint(vals[i] as u64);
            proof {
                assert(vals@.take(i + 1).drop_last() =~= vals@.take(i as int));
            }
            i = i + 1;
        }
        proof {
            assert(vals@.take(vals@.len() as int) =~= vals@);
        }
        self.bytes_field(field, &inner.buf);
    }
}

/// A tag value. These are interned per layer, which matters here: a tile of ten thousand clusters
/// holds very few distinct counts.
#[derive(PartialEq, Eq, Hash, Clone, Debug)]
pub enum Val {
    Bool(bool),
    Uint(u64),
    Str(String),
}

/// What a [`Val`] says.
pub enum Said {
    Bool(bool),
    Uint(u64),
    Str(Seq<char>),
}

/// The bytes of a value in a layer.
pub open spec fn value_bytes(v: Said) -> Seq<u8> {
    bytes_field(
        4,
        match v {
            Said::Str(s) => bytes_field(1, encode_utf8(s)),
            Said::Uint(n) => varint_field(5, n as int),
            Said::Bool(b) => varint_field(
                7,
                if b {
                    1
                } else {
                    0
                },
            ),
        },
    )
}

impl Val {
    pub open spec fn said(&self) -> Said {
        match *self {
            Val::Bool(b) => Said::Bool(b),
            Val::Uint(n) => Said::Uint(n),
            Val::Str(s) => Said::Str(s@),
        }
    }

    fn copy(&self) -> (v: Val)
        ensures
            v.said() == self.said(),
    {
        match self {
            Val::Bool(b) => Val::Bool(*b),
            Val::Uint(n) => Val::Uint(*n),
            Val::Str(s) => Val::Str(s.clone()),
        }
    }

    pub fn encode(&self, out: &mut Pbf)
        ensures
            final(out).buf@ == old(out).buf@ + value_bytes(self.said()),
    {
        let mut v = Pbf::new();
        match self {
            Val::Str(s) => v.bytes_field(1, s.as_str().as_bytes()),
            Val::Uint(n) => v.varint_field(5, *n),
            Val::Bool(b) => v.varint_field(
                7,
                if *b {
                    1
                } else {
                    0
                },
            ),
        }
        proof {
            assert(v.buf@ =~= (match self.said() {
                Said::Str(s) => bytes_field(1, encode_utf8(s)),
                Said::Uint(n) => varint_field(5, n as int),
                Said::Bool(b) => varint_field(
                    7,
                    if b {
                        1
                    } else {
                        0
                    },
                ),
            }));
        }
        out.bytes_field(4, &v.buf);
    }
}

/// What the values of a list say.
pub open spec fn sayings(v: Seq<Val>) -> Seq<Said> {
    Seq::new(v.len(), |i: int| v[i].said())
}

/// One point of a layer: its tags are positions in the layer's keys and values, in turn.
pub struct Placed {
    pub id: u64,
    pub x: i32,
    pub y: i32,
    pub pairs: Seq<u32>,
}

/// The bytes of a point in a layer.
pub open spec fn point_bytes(p: Placed) -> Seq<u8> {
    bytes_field(
        2,
        varint_field(1, p.id as int) + (if p.pairs.len() > 0 {
            bytes_field(2, varints(p.pairs))
        } else {
            seq![]
        }) + varint_field(3, 1) + bytes_field(
            4,
            varints(seq![9u32, zigzag(p.x as int) as u32, zigzag(p.y as int) as u32]),
        ),
    )
}

pub open spec fn points_bytes(q: Seq<Placed>) -> Seq<u8>
    decreases q.len(),
{
    if q.len() == 0 {
        seq![]
    } else {
        points_bytes(q.drop_last()) + point_bytes(q.last())
    }
}

pub open spec fn keys_bytes(q: Seq<Seq<char>>) -> Seq<u8>
    decreases q.len(),
{
    if q.len() == 0 {
        seq![]
    } else {
        keys_bytes(q.drop_last()) + bytes_field(3, encode_utf8(q.last()))
    }
}

pub open spec fn values_bytes(q: Seq<Said>) -> Seq<u8>
    decreases q.len(),
{
    if q.len() == 0 {
        seq![]
    } else {
        values_bytes(q.drop_last()) + value_bytes(q.last())
    }
}

/// The interned values, by kind.
pub struct Index {
    pub strs: StringHashMap<u32>,
    pub uints: HashMap<u64, u32>,
    pub yes: Option<u32>,
    pub no: Option<u32>,
}

impl Index {
    /// Where a value was put.
    pub open spec fn find(&self, v: Said) -> Option<u32> {
        match v {
            Said::Str(s) => if self.strs@.contains_key(s) {
                Some(self.strs@[s])
            } else {
                None
            },
            Said::Uint(n) => if self.uints@.contains_key(n) {
                Some(self.uints@[n])
            } else {
                None
            },
            Said::Bool(b) => if b {
                self.yes
            } else {
                self.no
            },
        }
    }

    fn get(&self, v: &Val) -> (r: Option<u32>)
        ensures
            r == self.find(v.said()),
    {
        match v {
            Val::Str(s) => match self.strs.get(s.as_str()) {
                Some(i) => Some(*i),
                None => None,
            },
            Val::Uint(n) => match self.uints.get(n) {
                Some(i) => Some(*i),
                None => None,
            },
            Val::Bool(b) => if *b {
                self.yes
            } else {
                self.no
            },
        }
    }

    fn put(&mut self, v: &Val, i: u32)
        ensures
            forall|w: Said| #[trigger]
                final(self).find(w) == (if w == v.said() {
                    Some(i)
                } else {
                    old(self).find(w)
                }),
    {
        match v {
            Val::Str(s) => {
                self.strs.insert(s.clone(), i);
            },
            Val::Uint(n) => {
                self.uints.insert(*n, i);
            },
            Val::Bool(b) => {
                if *b {
                    self.yes = Some(i);
                } else {
                    self.no = Some(i);
                }
            },
        }
    }
}

/// Builds one layer of point features.
pub struct Layer {
    pub name: String,
    pub extent: u32,
    pub keys: Vec<String>,
    pub key_idx: StringHashMap<u32>,
    pub values: Vec<Val>,
    pub value_idx: Index,
    /// The points so far, encoded.
    pub features: Vec<u8>,
    pub count: usize,
    /// The points so far.
    pub points: Ghost<Seq<Placed>>,
}

impl Layer {
    pub open spec fn wf(&self) -> bool {
        &&& self.features@ == points_bytes(self.points@)
        &&& self.count == self.points@.len()
        &&& texts(self.keys@).no_duplicates()
        &&& forall|i: int|
            0 <= i < self.keys.len() ==> self.key_idx@.contains_key(#[trigger] texts(self.keys@)[i])
                && self.key_idx@[texts(self.keys@)[i]] == i as u32
        &&& forall|k: Seq<char>| #[trigger]
            self.key_idx@.contains_key(k) ==> texts(self.keys@).contains(k)
        &&& sayings(self.values@).no_duplicates()
        &&& forall|i: int|
            0 <= i < self.values.len() ==> self.value_idx.find(#[trigger] sayings(self.values@)[i])
                == Some(i as u32)
        &&& forall|v: Said| #[trigger]
            self.value_idx.find(v) is Some ==> sayings(self.values@).contains(v)
    }

    /// The bytes of the layer.
    pub open spec fn bytes(&self) -> Seq<u8> {
        bytes_field(1, encode_utf8(self.name@)) + points_bytes(self.points@) + keys_bytes(
            texts(self.keys@),
        ) + values_bytes(sayings(self.values@)) + varint_field(5, self.extent as int)
            + varint_field(15, 2)
    }

    pub fn new(name: &str, extent: u32) -> (l: Self)
        ensures
            l.wf(),
            l.name@ == name@,
            l.extent == extent,
            l.keys.len() == 0,
            l.values.len() == 0,
            l.points@ == Seq::<Placed>::empty(),
    {
        broadcast use vstd::std_specs::hash::group_hash_axioms;

        let l = Layer {
            name: name.to_owned(),
            extent,
            keys: Vec::new(),
            key_idx: StringHashMap::new(),
            values: Vec::new(),
            value_idx: Index { strs: StringHashMap::new(), uints: HashMap::new(), yes: None, no: None },
            features: Vec::new(),
            count: 0,
            points: Ghost(Seq::empty()),
        };
        proof {
            assert(l.features@ =~= points_bytes(l.points@));
        }
        l
    }

    pub fn key(&mut self, k: &str) -> (i: u32)
        requires
            old(self).wf(),
        ensures
            final(self).wf(),
            final(self).name == old(self).name,
            final(self).extent == old(self).extent,
            final(self).points == old(self).points,
            final(self).count == old(self).count,
            final(self).values@ == old(self).values@,
            texts(final(self).keys@) == interned(texts(old(self).keys@), k@),
            i == texts(final(self).keys@).index_of(k@) as u32,
    {
        let ghost o = *self;
        let ghost q = texts(self.keys@);
        match self.key_idx.get(k) {
            Some(i) => {
                proof {
                    assert(q.contains(k@));
                    assert(q[q.index_of(k@)] == k@);
                }
                return *i;
            },
            None => {},
        }
        proof {
            if q.contains(k@) {
                let j = choose|j: int| 0 <= j < q.len() && q[j] == k@;
                assert(self.key_idx@.contains_key(q[j]));
            }
        }
        let i = self.keys.len() as u32;
        self.keys.push(k.to_owned());
        self.key_idx.insert(k.to_owned(), i);
        proof {
            let r = texts(self.keys@);
            assert(r =~= q.push(k@));
            assert(r[q.len() as int] == k@);
            assert(r.index_of(k@) == q.len()) by {
                assert(r.contains(k@));
                let j = r.index_of(k@);
                if j < q.len() {
                    assert(q[j] == k@);
                }
            }
            assert forall|j: int| 0 <= j < self.keys.len() implies self.key_idx@.contains_key(
                #[trigger] r[j],
            ) && self.key_idx@[r[j]] == j as u32 by {
                if j < q.len() {
                    assert(r[j] == q[j]);
                    assert(o.key_idx@.contains_key(q[j]));
                }
            }
            assert forall|w: Seq<char>| #[trigger] self.key_idx@.contains_key(w) implies r.contains(
                w,
            ) by {
                if w != k@ {
                    assert(o.key_idx@.contains_key(w));
                    let j = choose|j: int| 0 <= j < q.len() && q[j] == w;
                    assert(r[j] == w);
                }
            }
        }
        i
    }

    pub fn value(&mut self, v: &Val) -> (i: u32)
        requires
            old(self).wf(),
        ensures
            final(self).wf(),
            final(self).name == old(self).name,
            final(self).extent == old(self).extent,
            final(self).points == old(self).points,
            final(self).count == old(self).count,
            final(self).keys@ == old(self).keys@,
            sayings(final(self).values@) == interned(sayings(old(self).values@), v.said()),
            i == sayings(final(self).values@).index_of(v.said()) as u32,
    {
        let ghost o = *self;
        let ghost q = sayings(self.values@);
        let ghost s = v.said();
        match self.value_idx.get(v) {
            Some(i) => {
                proof {
                    assert(q.contains(s));
                    assert(q[q.index_of(s)] == s);
                }
                return i;
            },
            None => {},
        }
        proof {
            if q.contains(s) {
                let j = choose|j: int| 0 <= j < q.len() && q[j] == s;
                assert(self.value_idx.find(q[j]) == Some(j as u32));
            }
        }
        let i = self.values.len() as u32;
        self.values.push(v.copy());
        self.value_idx.put(v, i);
        proof {
            let r = sayings(self.values@);
            assert(r =~= q.push(s));
            assert(r[q.len() as int] == s);
            assert(r.index_of(s) == q.len()) by {
                assert(r.contains(s));
                let j = r.index_of(s);
                if j < q.len() {
                    assert(q[j] == s);
                }
            }
            assert forall|j: int| 0 <= j < self.values.len() implies self.value_idx.find(
                #[trigger] r[j],
            ) == Some(j as u32) by {
                if j < q.len() {
                    assert(r[j] == q[j]);
                    assert(o.value_idx.find(q[j]) == Some(j as u32));
                }
            }
            assert forall|w: Said| #[trigger] self.value_idx.find(w) is Some implies r.contains(
                w,
            ) by {
                if w != s {
                    assert(o.value_idx.find(w) is Some);
                    let j = choose|j: int| 0 <= j < q.len() && q[j] == w;
                    assert(r[j] == w);
                }
            }
        }
        i
    }
}

/// A list with `x` in it: at the end, unless it was there.
pub open spec fn interned<A>(q: Seq<A>, x: A) -> Seq<A> {
    if q.contains(x) {
        q
    } else {
        q.push(x)
    }
}

/// Tags as texts and values.
pub open spec fn tagged(tags: Seq<(&str, Val)>) -> Seq<(Seq<char>, Said)> {
    Seq::new(tags.len(), |i: int| (tags[i].0@, tags[i].1.said()))
}

/// The keys after the first `n` tags.
pub open spec fn keys_after(q: Seq<Seq<char>>, tags: Seq<(Seq<char>, Said)>, n: int) -> Seq<Seq<char>>
    decreases n,
{
    if n <= 0 {
        q
    } else {
        interned(keys_after(q, tags, n - 1), tags[n - 1].0)
    }
}

/// The values after the first `n` tags.
pub open spec fn values_after(q: Seq<Said>, tags: Seq<(Seq<char>, Said)>, n: int) -> Seq<Said>
    decreases n,
{
    if n <= 0 {
        q
    } else {
        interned(values_after(q, tags, n - 1), tags[n - 1].1)
    }
}

/// Where the tags of a point are, in turn: key, value.
pub open spec fn tag_pairs(
    keys: Seq<Seq<char>>,
    values: Seq<Said>,
    tags: Seq<(Seq<char>, Said)>,
) -> Seq<u32> {
    Seq::new(
        2 * tags.len(),
        |i: int|
            if i % 2 == 0 {
                keys.index_of(tags[i / 2].0) as u32
            } else {
                values.index_of(tags[i / 2].1) as u32
            },
    )
}

/// What is interned later moves nothing.
proof fn lemma_interned<A>(q: Seq<A>, x: A, y: A)
    requires
        q.contains(y),
    ensures
        interned(q, x).contains(y),
        interned(q, x).index_of(y) == q.index_of(y) || !q.no_duplicates(),
        q.no_duplicates() ==> interned(q, x).no_duplicates(),
{
    let r = interned(q, x);
    let j = q.index_of(y);
    assert(q[j] == y);
    assert(r[j] == y);
    assert(r.contains(y));
    if q.no_duplicates() && !q.contains(x) {
        let k = r.index_of(y);
        assert(r[k] == y);
        if k < q.len() {
            assert(q[k] == y);
        } else {
            assert(q.contains(x));
        }
    }
}

/// Tags are found where the pairs say, whatever is interned later.
spec fn found(keys: Seq<Seq<char>>, values: Seq<Said>, tags: Seq<(Seq<char>, Said)>, n: int) -> bool {
    &&& forall|j: int| 0 <= j < n ==> keys.contains((#[trigger] tags[j]).0)
    &&& forall|j: int| 0 <= j < n ==> values.contains((#[trigger] tags[j]).1)
}

/// The positions of one more tag.
proof fn lemma_pairs(
    kb: Seq<Seq<char>>,
    vb: Seq<Said>,
    ka: Seq<Seq<char>>,
    va: Seq<Said>,
    tags: Seq<(Seq<char>, Said)>,
    i: int,
)
    requires
        0 <= i < tags.len(),
        found(kb, vb, tags, i),
        kb.no_duplicates(),
        vb.no_duplicates(),
        ka == interned(kb, tags[i].0),
        va == interned(vb, tags[i].1),
    ensures
        found(ka, va, tags, i + 1),
        tag_pairs(ka, va, tags.take(i + 1)) == tag_pairs(kb, vb, tags.take(i)).push(
            ka.index_of(tags[i].0) as u32,
        ).push(va.index_of(tags[i].1) as u32),
{
    assert forall|j: int| 0 <= j < i + 1 implies ka.contains((#[trigger] tags[j]).0) by {
        if j < i {
            lemma_interned(kb, tags[i].0, tags[j].0);
        } else {
            lemma_put(kb, tags[i].0);
        }
    }
    assert forall|j: int| 0 <= j < i + 1 implies va.contains((#[trigger] tags[j]).1) by {
        if j < i {
            lemma_interned(vb, tags[i].1, tags[j].1);
        } else {
            lemma_put(vb, tags[i].1);
        }
    }
    let p = tag_pairs(ka, va, tags.take(i + 1));
    let q = tag_pairs(kb, vb, tags.take(i)).push(ka.index_of(tags[i].0) as u32).push(
        va.index_of(tags[i].1) as u32,
    );
    assert(p.len() == q.len());
    assert forall|m: int| 0 <= m < p.len() implies p[m] == q[m] by {
        let j = m / 2;
        assert(tags.take(i + 1)[j] == tags[j]);
        if j < i {
            assert(tags.take(i)[j] == tags[j]);
            lemma_interned(kb, tags[i].0, tags[j].0);
            lemma_interned(vb, tags[i].1, tags[j].1);
        }
    }
    assert(p =~= q);
}

proof fn lemma_points(q: Seq<Placed>)
    ensures
        points_bytes(q).len() >= 2 * q.len(),
    decreases q.len(),
{
    if q.len() > 0 {
        lemma_points(q.drop_last());
        let p = q.last();
        let body = varint_field(1, p.id as int) + (if p.pairs.len() > 0 {
            bytes_field(2, varints(p.pairs))
        } else {
            seq![]
        }) + varint_field(3, 1) + bytes_field(
            4,
            varints(seq![9u32, zigzag(p.x as int) as u32, zigzag(p.y as int) as u32]),
        );
        law_varint(18int, seq![]);
        law_varint(body.len() as int, seq![]);
        assert(point_bytes(p) == bytes_field(2, body));
    }
}

/// Zigzag, as a number.
fn zz(n: i32) -> (r: u32)
    ensures
        r == zigzag(n as int),
{
    if n >= 0 {
        n as u32 * 2
    } else {
        let m = -(n + 1);
        m as u32 * 2 + 1
    }
}

impl Layer {
    /// The positions of the tags, interning what is new.
    fn intern(&mut self, tags: &[(&str, Val)]) -> (pairs: Vec<u32>)
        requires
            old(self).wf(),
        ensures
            final(self).wf(),
            final(self).name == old(self).name,
            final(self).extent == old(self).extent,
            final(self).points == old(self).points,
            final(self).count == old(self).count,
            texts(final(self).keys@) == keys_after(
                texts(old(self).keys@),
                tagged(tags@),
                tags@.len() as int,
            ),
            sayings(final(self).values@) == values_after(
                sayings(old(self).values@),
                tagged(tags@),
                tags@.len() as int,
            ),
            pairs@ == tag_pairs(texts(final(self).keys@), sayings(final(self).values@), tagged(tags@)),
    {
        let ghost k0 = texts(self.keys@);
        let ghost v0 = sayings(self.values@);
        let mut pairs: Vec<u32> = Vec::new();
        let mut i: usize = 0;
        proof {
            assert(pairs@ =~= tag_pairs(k0, v0, tagged(tags@).take(0)));
        }
        while i < tags.len()
            invariant
                i <= tags@.len(),
                self.wf(),
                self.name == old(self).name,
                self.extent == old(self).extent,
                self.points == old(self).points,
                self.count == old(self).count,
                texts(self.keys@) == keys_after(k0, tagged(tags@), i as int),
                sayings(self.values@) == values_after(v0, tagged(tags@), i as int),
                found(texts(self.keys@), sayings(self.values@), tagged(tags@), i as int),
                pairs@ == tag_pairs(
                    texts(self.keys@),
                    sayings(self.values@),
                    tagged(tags@).take(i as int),
                ),
            decreases tags@.len() - i,
        {
            let ghost kb = texts(self.keys@);
            let ghost vb = sayings(self.values@);
            let (k, v) = (tags[i].0, &tags[i].1);
            let ki = self.key(k);
            let vi = self.value(v);
            let ghost ka = texts(self.keys@);
            let ghost va = sayings(self.values@);
            pairs.push(ki);
            pairs.push(vi);
            proof {
                lemma_pairs(kb, vb, ka, va, tagged(tags@), i as int);
            }
            i = i + 1;
        }
        proof {
            assert(tagged(tags@).take(tags@.len() as int) =~= tagged(tags@));
        }
        pairs
    }

    /// Add a point at tile-extent coordinates. `x` and `y` may fall outside `0..extent`;
    /// renderers clip, and the overshoot is what keeps a marker on a tile seam from being drawn
    /// half in each tile.
    pub fn add_point(&mut self, id: u64, x: i32, y: i32, tags: &[(&str, Val)])
        requires
            old(self).wf(),
        ensures
            final(self).wf(),
            final(self).name == old(self).name,
            final(self).extent == old(self).extent,
            texts(final(self).keys@) == keys_after(
                texts(old(self).keys@),
                tagged(tags@),
                tags@.len() as int,
            ),
            sayings(final(self).values@) == values_after(
                sayings(old(self).values@),
                tagged(tags@),
                tags@.len() as int,
            ),
            final(self).points@ == old(self).points@.push(
                Placed {
                    id,
                    x,
                    y,
                    pairs: tag_pairs(
                        texts(final(self).keys@),
                        sayings(final(self).values@),
                        tagged(tags@),
                    ),
                },
            ),
    {
        let pairs = self.intern(tags);
        let ghost p = Placed { id, x, y, pairs: pairs@ };
        let mut f = Pbf::new();
        f.varint_field(1, id);
        if pairs.len() > 0 {
            f.packed_u32(2, &pairs);
        }
        f.varint_field(3, 1);
        let mut geometry: Vec<u32> = Vec::new();
        geometry.push(9);
        geometry.push(zz(x));
        geometry.push(zz(y));
        f.packed_u32(4, &geometry);
        let mut wrapped = Pbf::new();
        wrapped.bytes_field(2, &f.buf);
        let ghost was = self.features@;
        proof {
            assert(geometry@ =~= seq![9u32, zigzag(x as int) as u32, zigzag(y as int) as u32]);
            assert(f.buf@ =~= varint_field(1, p.id as int) + (if p.pairs.len() > 0 {
                bytes_field(2, varints(p.pairs))
            } else {
                seq![]
            }) + varint_field(3, 1) + bytes_field(
                4,
                varints(seq![9u32, zigzag(p.x as int) as u32, zigzag(p.y as int) as u32]),
            ));
            assert(wrapped.buf@ =~= point_bytes(p));
            lemma_points(self.points@);
        }
        let _ = self.features.len();
        let mut all = Pbf { buf: Vec::new() };
        std::mem::swap(&mut all.buf, &mut self.features);
        all.put(&wrapped.buf);
        self.features = all.buf;
        self.count = self.count + 1;
        proof {
            let q = self.points@.push(p);
            assert(q.drop_last() =~= self.points@);
            self.points@ = q;
            assert(self.features@ =~= was + point_bytes(p));
        }
    }

    pub fn len(&self) -> (n: usize)
        requires
            self.wf(),
        ensures
            n == self.points@.len(),
    {
        self.count
    }

    pub fn is_empty(&self) -> (r: bool)
        requires
            self.wf(),
        ensures
            r == (self.points@.len() == 0),
    {
        self.count == 0
    }

    pub fn encode(&self) -> (b: Vec<u8>)
        requires
            self.wf(),
        ensures
            b@ == self.bytes(),
    {
        let mut l = Pbf::new();
        l.bytes_field(1, self.name.as_str().as_bytes());
        l.put(&self.features);
        let ghost head = l.buf@;
        let ghost kq = texts(self.keys@);
        let ghost vq = sayings(self.values@);
        let mut i: usize = 0;
        proof {
            assert(head =~= head + keys_bytes(kq.take(0)));
        }
        while i < self.keys.len()
            invariant
                i <= self.keys.len(),
                kq == texts(self.keys@),
                l.buf@ == head + keys_bytes(kq.take(i as int)),
            decreases self.keys.len() - i,
        {
            let ghost now = l.buf@;
            l.bytes_field(3, self.keys[i].as_str().as_bytes());
            proof {
                assert(kq.take(i + 1).drop_last() =~= kq.take(i as int));
                assert(kq.take(i + 1).last() == self.keys[i as int]@);
                assert(l.buf@ =~= head + keys_bytes(kq.take(i + 1)));
            }
            i = i + 1;
        }
        let ghost mid = l.buf@;
        i = 0;
        proof {
            assert(kq.take(kq.len() as int) =~= kq);
            assert(mid =~= mid + values_bytes(vq.take(0)));
        }
        while i < self.values.len()
            invariant
                i <= self.values.len(),
                vq == sayings(self.values@),
                l.buf@ == mid + values_bytes(vq.take(i as int)),
            decreases self.values.len() - i,
        {
            self.values[i].encode(&mut l);
            proof {
                assert(vq.take(i + 1).drop_last() =~= vq.take(i as int));
                assert(vq.take(i + 1).last() == self.values[i as int].said());
                assert(l.buf@ =~= mid + values_bytes(vq.take(i + 1)));
            }
            i = i + 1;
        }
        proof {
            assert(vq.take(vq.len() as int) =~= vq);
        }
        l.varint_field(5, self.extent as u64);
        l.varint_field(15, 2);
        proof {
            assert(l.buf@ =~= self.bytes());
        }
        l.buf
    }
}

/// What was interned is there.
proof fn lemma_put<A>(q: Seq<A>, x: A)
    ensures
        interned(q, x).contains(x),
{
    if !q.contains(x) {
        assert(q.push(x)[q.len() as int] == x);
    }
}

/// The bytes of a tile.
pub open spec fn tile_bytes(layers: Seq<Layer>) -> Seq<u8>
    decreases layers.len(),
{
    if layers.len() == 0 {
        seq![]
    } else {
        tile_bytes(layers.drop_last()) + bytes_field(3, layers.last().bytes())
    }
}

/// Encode one or more layers into a complete tile.
pub fn encode(layers: Vec<Layer>) -> (b: Vec<u8>)
    requires
        forall|i: int| 0 <= i < layers.len() ==> (#[trigger] layers[i]).wf(),
    ensures
        b@ == tile_bytes(layers@),
{
    let mut t = Pbf::new();
    let mut i: usize = 0;
    proof {
        assert(t.buf@ =~= tile_bytes(layers@.take(0)));
    }
    while i < layers.len()
        invariant
            i <= layers.len(),
            forall|i: int| 0 <= i < layers.len() ==> (#[trigger] layers[i]).wf(),
            t.buf@ == tile_bytes(layers@.take(i as int)),
        decreases layers.len() - i,
    {
        let body = layers[i].encode();
        t.bytes_field(3, &body);
        proof {
            assert(layers@.take(i + 1).drop_last() =~= layers@.take(i as int));
        }
        i = i + 1;
    }
    proof {
        assert(layers@.take(layers@.len() as int) =~= layers@);
    }
    t.buf
}

/// **Tags can be looked up**: in a layer with fewer keys and values than a position can number,
/// the pairs of a point name its tags, also after more has been interned.
pub proof fn law_tags(keys: Seq<Seq<char>>, values: Seq<Said>, tags: Seq<(Seq<char>, Said)>, j: int)
    requires
        0 <= j < tags.len(),
        keys_after(keys, tags, tags.len() as int).len() <= u32::MAX,
        values_after(values, tags, tags.len() as int).len() <= u32::MAX,
    ensures
        ({
            let ks = keys_after(keys, tags, tags.len() as int);
            let vs = values_after(values, tags, tags.len() as int);
            let p = tag_pairs(ks, vs, tags);
            &&& p.len() == 2 * tags.len()
            &&& ks[p[2 * j] as int] == tags[j].0
            &&& vs[p[2 * j + 1] as int] == tags[j].1
        }),
{
    let n = tags.len() as int;
    lemma_after(keys, values, tags, n, j);
    let ks = keys_after(keys, tags, n);
    let vs = values_after(values, tags, n);
    let p = tag_pairs(ks, vs, tags);
    let (a, b) = (ks.index_of(tags[j].0), vs.index_of(tags[j].1));
    assert(ks[a] == tags[j].0 && vs[b] == tags[j].1);
    assert((2 * j) / 2 == j && (2 * j + 1) / 2 == j);
    assert((2 * j) % 2 == 0 && (2 * j + 1) % 2 == 1);
    assert(p[2 * j] == a as u32);
    assert(p[2 * j + 1] == b as u32);
}

pub(crate) proof fn lemma_after(
    keys: Seq<Seq<char>>,
    values: Seq<Said>,
    tags: Seq<(Seq<char>, Said)>,
    n: int,
    j: int,
)
    requires
        0 <= j < n <= tags.len(),
    ensures
        keys_after(keys, tags, n).contains(tags[j].0),
        values_after(values, tags, n).contains(tags[j].1),
    decreases n,
{
    if j == n - 1 {
        lemma_put(keys_after(keys, tags, n - 1), tags[j].0);
        lemma_put(values_after(values, tags, n - 1), tags[j].1);
    } else {
        lemma_after(keys, values, tags, n - 1, j);
        lemma_interned(keys_after(keys, tags, n - 1), tags[n - 1].0, tags[j].0);
        lemma_interned(values_after(values, tags, n - 1), tags[n - 1].1, tags[j].1);
    }
}

} // verus!
