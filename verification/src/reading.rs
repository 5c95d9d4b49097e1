//! Reading a vector tile back: what the bytes of a tile say to whoever decodes them.
use crate::collection::query::Tiled;
use crate::feature::abbreviated;
use crate::json::{json_members, Member};
use crate::mvt::{bytes_field, keys_after, keys_bytes, law_bytes_field, law_tags, law_varint,
    point_bytes, points_bytes, read_varint, tag, tag_pairs, value_bytes, values_after, values_bytes,
    varint, varint_field, varints, zigzag, Placed, Said};
use crate::tiles::{content_of, content_with, member_tags, tags_of, tile_meant, Content};
use vstd::prelude::*;
use vstd::utf8::encode_utf8;

verus! {

/// One field of a message: its number, and a number or bytes.
pub enum Field {
    Number(int, int),
    Bytes(int, Seq<u8>),
}

/// The fields of a message, in order, up to what cannot be read.
pub open spec fn fields(b: Seq<u8>) -> Seq<Field>
    decreases b.len(),
{
    let (key, n) = read_varint(b);
    let (v, m) = read_varint(b.skip(n));
    if !(0 < n <= b.len() && 0 < m <= b.len() - n) {
        seq![]
    } else if key % 8 == 0 {
        seq![Field::Number(key / 8, v)] + fields(b.skip(n + m))
    } else if key % 8 == 2 && 0 <= v <= b.len() - n - m {
        seq![Field::Bytes(key / 8, b.subrange(n + m, n + m + v))] + fields(b.skip(n + m + v))
    } else {
        seq![]
    }
}

/// The numbers of a packed field.
pub open spec fn numbers(b: Seq<u8>) -> Seq<int>
    decreases b.len(),
{
    let (v, n) = read_varint(b);
    if 0 < n <= b.len() {
        seq![v] + numbers(b.skip(n))
    } else {
        seq![]
    }
}

/// The contents of the fields of one number, in order.
pub open spec fn of_field(q: Seq<Field>, field: int) -> Seq<Seq<u8>>
    decreases q.len(),
{
    if q.len() == 0 {
        seq![]
    } else {
        let s = of_field(q.drop_last(), field);
        match q.last() {
            Field::Bytes(k, b) => if k == field {
                s.push(b)
            } else {
                s
            },
            _ => s,
        }
    }
}

/// The numbers in the fields of one number, in order.
pub open spec fn of_number(q: Seq<Field>, field: int) -> Seq<int>
    decreases q.len(),
{
    if q.len() == 0 {
        seq![]
    } else {
        let s = of_number(q.drop_last(), field);
        match q.last() {
            Field::Number(k, v) => if k == field {
                s.push(v)
            } else {
                s
            },
            _ => s,
        }
    }
}

/// A number that carries its sign in the lowest bit.
pub open spec fn unfolded(n: int) -> int {
    if n % 2 == 0 {
        n / 2
    } else {
        -(n / 2) - 1
    }
}

/// A feature: id, geometry type, the commands of the geometry, the pairs of its tags.
pub struct Seen {
    pub id: int,
    pub kind: int,
    pub geometry: Seq<int>,
    pub tags: Seq<int>,
}

/// A layer: name, version, extent, features, and the tables that tags refer to.
pub struct SeenLayer {
    pub name: Seq<u8>,
    pub version: int,
    pub extent: int,
    pub features: Seq<Seen>,
    pub keys: Seq<Seq<u8>>,
    pub values: Seq<Seq<Field>>,
}

pub open spec fn feature_read(b: Seq<u8>) -> Seen {
    let q = fields(b);
    let tags = of_field(q, 2);
    Seen {
        id: of_number(q, 1)[0],
        kind: of_number(q, 3)[0],
        geometry: numbers(of_field(q, 4)[0]),
        tags: if tags.len() == 0 {
            seq![]
        } else {
            numbers(tags[0])
        },
    }
}

pub open spec fn layer_read(b: Seq<u8>) -> SeenLayer {
    let q = fields(b);
    let features = of_field(q, 2);
    let values = of_field(q, 4);
    SeenLayer {
        name: of_field(q, 1)[0],
        version: of_number(q, 15)[0],
        extent: of_number(q, 5)[0],
        features: Seq::new(features.len(), |i: int| feature_read(features[i])),
        keys: of_field(q, 3),
        values: Seq::new(values.len(), |i: int| fields(values[i])),
    }
}

pub open spec fn tile_read(b: Seq<u8>) -> Seq<SeenLayer> {
    let layers = of_field(fields(b), 3);
    Seq::new(layers.len(), |i: int| layer_read(layers[i]))
}

proof fn lemma_number_field(field: int, v: int, rest: Seq<u8>)
    requires
        field >= 0,
        v >= 0,
    ensures
        fields(varint_field(field, v) + rest) == seq![Field::Number(field, v)] + fields(rest),
{
    let b = varint_field(field, v) + rest;
    let t = tag(field, 0);
    let l = varint(v);
    assert(b =~= t + (l + rest));
    law_varint(field * 8, l + rest);
    assert(b.skip(t.len() as int) =~= l + rest);
    law_varint(v, rest);
    assert(b.skip(t.len() as int + l.len() as int) =~= rest);
}

proof fn lemma_bytes_field(field: int, v: Seq<u8>, rest: Seq<u8>)
    requires
        field >= 0,
    ensures
        fields(bytes_field(field, v) + rest) == seq![Field::Bytes(field, v)] + fields(rest),
{
    let b = bytes_field(field, v) + rest;
    law_bytes_field(field, v, rest);
    let t = tag(field, 2);
    let l = varint(v.len() as int);
    assert(b =~= t + (l + v + rest));
    law_varint(field * 8 + 2, l + v + rest);
    assert(b.skip(t.len() as int) =~= l + (v + rest));
    law_varint(v.len() as int, v + rest);
}

proof fn lemma_numbers(q: Seq<u32>, rest: Seq<u8>)
    ensures
        numbers(varints(q) + rest) == Seq::new(q.len(), |i: int| q[i] as int) + numbers(rest),
    decreases q.len(),
{
    let ints = Seq::new(q.len(), |i: int| q[i] as int);
    if q.len() == 0 {
        assert(varints(q) + rest =~= rest);
        assert(ints + numbers(rest) =~= numbers(rest));
    } else {
        let p = q.drop_last();
        let l = varint(q.last() as int);
        lemma_numbers(p, l + rest);
        assert(varints(q) + rest =~= varints(p) + (l + rest));
        law_varint(q.last() as int, rest);
        assert((l + rest).skip(l.len() as int) =~= rest);
        assert(numbers(l + rest) == seq![q.last() as int] + numbers(rest));
        assert(ints + numbers(rest) =~= Seq::new(p.len(), |i: int| p[i] as int) + (seq![
            q.last() as int,
        ] + numbers(rest)));
    }
}

/// What a message holds of one field number is what its parts hold.
proof fn lemma_of_add(p: Seq<Field>, q: Seq<Field>, field: int)
    ensures
        of_field(p + q, field) == of_field(p, field) + of_field(q, field),
        of_number(p + q, field) == of_number(p, field) + of_number(q, field),
    decreases q.len(),
{
    if q.len() == 0 {
        assert(p + q =~= p);
        assert(of_field(p, field) + of_field(q, field) =~= of_field(p, field));
        assert(of_number(p, field) + of_number(q, field) =~= of_number(p, field));
    } else {
        lemma_of_add(p, q.drop_last(), field);
        assert((p + q).drop_last() =~= p + q.drop_last());
        assert((p + q).last() == q.last());
        assert(of_field(p + q, field) =~= of_field(p, field) + of_field(q, field));
        assert(of_number(p + q, field) =~= of_number(p, field) + of_number(q, field));
    }
}

/// The bytes in a field, if it has this number.
pub open spec fn bytes_in(f: Field, field: int) -> Seq<Seq<u8>> {
    match f {
        Field::Bytes(k, b) => if k == field {
            seq![b]
        } else {
            seq![]
        },
        _ => seq![],
    }
}

/// The number in a field, if it has this number.
pub open spec fn number_in(f: Field, field: int) -> Seq<int> {
    match f {
        Field::Number(k, v) => if k == field {
            seq![v]
        } else {
            seq![]
        },
        _ => seq![],
    }
}

proof fn lemma_of_one(f: Field, field: int)
    ensures
        of_field(seq![f], field) == bytes_in(f, field),
        of_number(seq![f], field) == number_in(f, field),
{
    let q = seq![f];
    assert(q.drop_last() =~= Seq::<Field>::empty());
    assert(q.last() == f);
    assert(of_field(q.drop_last(), field) =~= Seq::<Seq<u8>>::empty());
    assert(of_number(q.drop_last(), field) =~= Seq::<int>::empty());
    match f {
        Field::Bytes(k, b) => {
            assert(Seq::<Seq<u8>>::empty().push(b) =~= seq![b]);
        },
        Field::Number(k, v) => {
            assert(Seq::<int>::empty().push(v) =~= seq![v]);
        },
    }
}

/// What the fields of a feature hold under one number.
proof fn lemma_point_fields(q: Seq<Field>, a: Field, mid: Seq<Field>, b: Field, c: Field, j: int)
    requires
        q == seq![a] + (mid + (seq![b] + seq![c])),
    ensures
        of_field(q, j) == of_field(seq![a], j) + (of_field(mid, j) + (of_field(seq![b], j) + of_field(
            seq![c],
            j,
        ))),
        of_number(q, j) == of_number(seq![a], j) + (of_number(mid, j) + (of_number(seq![b], j)
            + of_number(seq![c], j))),
        of_field(seq![a], j) == bytes_in(a, j),
        of_field(seq![b], j) == bytes_in(b, j),
        of_field(seq![c], j) == bytes_in(c, j),
        of_number(seq![a], j) == number_in(a, j),
        of_number(seq![b], j) == number_in(b, j),
        of_number(seq![c], j) == number_in(c, j),
{
    lemma_of_add(seq![a], mid + (seq![b] + seq![c]), j);
    lemma_of_add(mid, seq![b] + seq![c], j);
    lemma_of_add(seq![b], seq![c], j);
    lemma_of_one(a, j);
    lemma_of_one(b, j);
    lemma_of_one(c, j);
}

proof fn lemma_fields_none()
    ensures
        fields(seq![]) == Seq::<Field>::empty(),
{
    assert(read_varint(Seq::<u8>::empty()) == (0int, 0int));
}

/// The contents of a feature's message.
pub open spec fn point_inner(p: Placed) -> Seq<u8> {
    varint_field(1, p.id as int) + (if p.pairs.len() > 0 {
        bytes_field(2, varints(p.pairs))
    } else {
        seq![]
    }) + varint_field(3, 1) + bytes_field(
        4,
        varints(seq![9u32, zigzag(p.x as int) as u32, zigzag(p.y as int) as u32]),
    )
}

/// A feature reads as what was placed: one point, moved to once.
proof fn lemma_feature(p: Placed)
    ensures
        point_bytes(p) == bytes_field(2, point_inner(p)),
        ({
            let s = feature_read(point_inner(p));
            &&& s.id == p.id
            &&& s.kind == 1
            &&& s.geometry.len() == 3
            &&& s.geometry[0] == 9
            &&& unfolded(s.geometry[1]) == p.x
            &&& unfolded(s.geometry[2]) == p.y
            &&& s.tags == Seq::new(p.pairs.len(), |i: int| p.pairs[i] as int)
        }),
{
    let moves = seq![9u32, zigzag(p.x as int) as u32, zigzag(p.y as int) as u32];
    let a = varint_field(1, p.id as int);
    let t = if p.pairs.len() > 0 {
        bytes_field(2, varints(p.pairs))
    } else {
        seq![]
    };
    let k = varint_field(3, 1);
    let g = bytes_field(4, varints(moves));
    let none = Seq::<u8>::empty();
    lemma_fields_none();
    assert(g + none =~= g);
    lemma_bytes_field(4, varints(moves), none);
    lemma_number_field(3, 1, g);
    lemma_number_field(1, p.id as int, t + (k + g));
    if p.pairs.len() > 0 {
        lemma_bytes_field(2, varints(p.pairs), k + g);
    } else {
        assert(t + (k + g) =~= k + g);
    }
    let all = point_inner(p);
    assert(all =~= a + (t + (k + g)));
    let (f1, f3, f4) = (
        Field::Number(1, p.id as int),
        Field::Number(3, 1),
        Field::Bytes(4, varints(moves)),
    );
    let f2 = Field::Bytes(2, varints(p.pairs));
    let mid = if p.pairs.len() > 0 {
        seq![f2]
    } else {
        seq![]
    };
    assert(fields(all) =~= seq![f1] + (mid + (seq![f3] + seq![f4])));
    lemma_point_fields(fields(all), f1, mid, f3, f4, 1);
    lemma_point_fields(fields(all), f1, mid, f3, f4, 2);
    lemma_point_fields(fields(all), f1, mid, f3, f4, 3);
    lemma_point_fields(fields(all), f1, mid, f3, f4, 4);
    if p.pairs.len() > 0 {
        lemma_of_one(f2, 1);
        lemma_of_one(f2, 2);
        lemma_of_one(f2, 3);
        lemma_of_one(f2, 4);
    }
    assert(of_number(fields(all), 1) =~= seq![p.id as int]);
    assert(of_number(fields(all), 3) =~= seq![1int]);
    assert(of_field(fields(all), 4) =~= seq![varints(moves)]);
    assert(of_field(fields(all), 2) =~= (if p.pairs.len() > 0 {
        seq![varints(p.pairs)]
    } else {
        seq![]
    }));
    assert(read_varint(none) == (0int, 0int));
    lemma_numbers(moves, none);
    lemma_numbers(p.pairs, none);
    assert(varints(moves) + none =~= varints(moves));
    assert(varints(p.pairs) + none =~= varints(p.pairs));
    assert(numbers(none) =~= seq![]);
    assert(feature_read(all).geometry =~= Seq::new(3, |i: int| moves[i] as int));
    assert(feature_read(all).tags =~= Seq::new(p.pairs.len(), |i: int| p.pairs[i] as int));
}

/// Fields of one number, by their contents.
spec fn all_of(field: int, v: Seq<Seq<u8>>) -> Seq<Field> {
    Seq::new(v.len(), |i: int| Field::Bytes(field, v[i]))
}

proof fn lemma_of_all(field: int, v: Seq<Seq<u8>>, j: int)
    ensures
        of_field(all_of(field, v), j) == (if j == field {
            v
        } else {
            seq![]
        }),
        of_number(all_of(field, v), j) == Seq::<int>::empty(),
    decreases v.len(),
{
    let q = all_of(field, v);
    if v.len() > 0 {
        lemma_of_all(field, v.drop_last(), j);
        assert(q.drop_last() =~= all_of(field, v.drop_last()));
        assert(q.last() == Field::Bytes(field, v.last()));
        assert(v.drop_last().push(v.last()) =~= v);
    } else {
        assert(of_field(q, j) =~= seq![]);
        assert(of_number(q, j) =~= seq![]);
        assert(v =~= seq![]);
    }
}

spec fn points_inner(q: Seq<Placed>) -> Seq<Seq<u8>> {
    Seq::new(q.len(), |i: int| point_inner(q[i]))
}

proof fn lemma_points(q: Seq<Placed>, rest: Seq<u8>)
    ensures
        fields(points_bytes(q) + rest) == all_of(2, points_inner(q)) + fields(rest),
    decreases q.len(),
{
    if q.len() == 0 {
        assert(points_bytes(q) + rest =~= rest);
        assert(all_of(2, points_inner(q)) + fields(rest) =~= fields(rest));
    } else {
        let p = q.drop_last();
        lemma_points(p, point_bytes(q.last()) + rest);
        lemma_feature(q.last());
        lemma_bytes_field(2, point_inner(q.last()), rest);
        assert(points_bytes(q) + rest =~= points_bytes(p) + (point_bytes(q.last()) + rest));
        assert(all_of(2, points_inner(q)) + fields(rest) =~= all_of(2, points_inner(p)) + (seq![
            Field::Bytes(2, point_inner(q.last())),
        ] + fields(rest)));
    }
}

spec fn keys_inner(q: Seq<Seq<char>>) -> Seq<Seq<u8>> {
    Seq::new(q.len(), |i: int| encode_utf8(q[i]))
}

proof fn lemma_keys(q: Seq<Seq<char>>, rest: Seq<u8>)
    ensures
        fields(keys_bytes(q) + rest) == all_of(3, keys_inner(q)) + fields(rest),
    decreases q.len(),
{
    if q.len() == 0 {
        assert(keys_bytes(q) + rest =~= rest);
        assert(all_of(3, keys_inner(q)) + fields(rest) =~= fields(rest));
    } else {
        let p = q.drop_last();
        let b = bytes_field(3, encode_utf8(q.last()));
        lemma_keys(p, b + rest);
        lemma_bytes_field(3, encode_utf8(q.last()), rest);
        assert(keys_bytes(q) + rest =~= keys_bytes(p) + (b + rest));
        assert(all_of(3, keys_inner(q)) + fields(rest) =~= all_of(3, keys_inner(p)) + (seq![
            Field::Bytes(3, encode_utf8(q.last())),
        ] + fields(rest)));
    }
}

/// The contents of a value's message.
spec fn value_inner(v: Said) -> Seq<u8> {
    match v {
        Said::Str(s) => bytes_field(1, encode_utf8(s)),
        Said::Uint(n) => varint_field(5, n as int),
        Said::Bool(b) => varint_field(
            7,
            if b {
                1
            } else {
                0
            },
        ),
    }
}

/// The fields of a value say this: a text, a number, or yes or no.
pub open spec fn reads(q: Seq<Field>, v: Said) -> bool {
    match v {
        Said::Str(s) => q == seq![Field::Bytes(1, encode_utf8(s))],
        Said::Uint(n) => q == seq![Field::Number(5, n as int)],
        Said::Bool(b) => q == seq![
            Field::Number(
                7,
                if b {
                    1
                } else {
                    0
                },
            ),
        ],
    }
}

proof fn lemma_value(v: Said)
    ensures
        value_bytes(v) == bytes_field(4, value_inner(v)),
        reads(fields(value_inner(v)), v),
{
    let none = Seq::<u8>::empty();
    let b = value_inner(v);
    lemma_fields_none();
    assert(b + none =~= b);
    match v {
        Said::Str(s) => lemma_bytes_field(1, encode_utf8(s), none),
        Said::Uint(n) => lemma_number_field(5, n as int, none),
        Said::Bool(t) => lemma_number_field(
            7,
            if t {
                1
            } else {
                0
            },
            none,
        ),
    }
    assert(fields(b) =~= seq![fields(b)[0]]);
}

spec fn values_inner(q: Seq<Said>) -> Seq<Seq<u8>> {
    Seq::new(q.len(), |i: int| value_inner(q[i]))
}

proof fn lemma_values(q: Seq<Said>, rest: Seq<u8>)
    ensures
        fields(values_bytes(q) + rest) == all_of(4, values_inner(q)) + fields(rest),
    decreases q.len(),
{
    if q.len() == 0 {
        assert(values_bytes(q) + rest =~= rest);
        assert(all_of(4, values_inner(q)) + fields(rest) =~= fields(rest));
    } else {
        let p = q.drop_last();
        lemma_value(q.last());
        lemma_values(p, value_bytes(q.last()) + rest);
        lemma_bytes_field(4, value_inner(q.last()), rest);
        assert(values_bytes(q) + rest =~= values_bytes(p) + (value_bytes(q.last()) + rest));
        assert(all_of(4, values_inner(q)) + fields(rest) =~= all_of(4, values_inner(p)) + (seq![
            Field::Bytes(4, value_inner(q.last())),
        ] + fields(rest)));
    }
}

spec fn layer_inner(c: Content, extent: u32) -> Seq<u8> {
    bytes_field(1, encode_utf8("clusters"@)) + points_bytes(c.points) + keys_bytes(c.keys)
        + values_bytes(c.values) + varint_field(5, extent as int) + varint_field(15, 2)
}

proof fn lemma_layer(c: Content, extent: u32)
    ensures
        ({
            let l = layer_read(layer_inner(c, extent));
            &&& l.name == encode_utf8("clusters"@)
            &&& l.version == 2
            &&& l.extent == extent
            &&& l.features.len() == c.points.len()
            &&& forall|i: int|
                0 <= i < c.points.len() ==> #[trigger] l.features[i] == feature_read(
                    point_inner(c.points[i]),
                )
            &&& l.keys == keys_inner(c.keys)
            &&& l.values.len() == c.values.len()
            &&& forall|i: int|
                0 <= i < c.values.len() ==> #[trigger] l.values[i] == fields(value_inner(c.values[i]))
        }),
{
    let none = Seq::<u8>::empty();
    let n = encode_utf8("clusters"@);
    let (e, v) = (varint_field(5, extent as int), varint_field(15, 2));
    let (p, k, w) = (points_bytes(c.points), keys_bytes(c.keys), values_bytes(c.values));
    let all = layer_inner(c, extent);
    assert(all =~= bytes_field(1, n) + (p + (k + (w + (e + (v + none))))));
    lemma_fields_none();
    lemma_number_field(15, 2, none);
    lemma_number_field(5, extent as int, v + none);
    lemma_values(c.values, e + (v + none));
    lemma_keys(c.keys, w + (e + (v + none)));
    lemma_points(c.points, k + (w + (e + (v + none))));
    lemma_bytes_field(1, n, p + (k + (w + (e + (v + none)))));
    let (f1, f5, f15) = (
        Field::Bytes(1, n),
        Field::Number(5, extent as int),
        Field::Number(15, 2),
    );
    let (a2, a3, a4) = (
        all_of(2, points_inner(c.points)),
        all_of(3, keys_inner(c.keys)),
        all_of(4, values_inner(c.values)),
    );
    let q = fields(all);
    assert(q =~= seq![f1] + (a2 + (a3 + (a4 + (seq![f5] + seq![f15])))));
    lemma_layer_fields(q, f1, c, f5, f15, 1);
    lemma_layer_fields(q, f1, c, f5, f15, 2);
    lemma_layer_fields(q, f1, c, f5, f15, 3);
    lemma_layer_fields(q, f1, c, f5, f15, 4);
    lemma_layer_fields(q, f1, c, f5, f15, 5);
    lemma_layer_fields(q, f1, c, f5, f15, 15);
    assert(of_field(q, 1) =~= seq![n]);
    assert(of_field(q, 2) =~= points_inner(c.points));
    assert(of_field(q, 3) =~= keys_inner(c.keys));
    assert(of_field(q, 4) =~= values_inner(c.values));
    assert(of_number(q, 5) =~= seq![extent as int]);
    assert(of_number(q, 15) =~= seq![2int]);
}

proof fn lemma_layer_fields(q: Seq<Field>, a: Field, c: Content, b: Field, d: Field, j: int)
    requires
        q == seq![a] + (all_of(2, points_inner(c.points)) + (all_of(3, keys_inner(c.keys)) + (all_of(
            4,
            values_inner(c.values),
        ) + (seq![b] + seq![d])))),
    ensures
        of_field(q, j) == bytes_in(a, j) + ((if j == 2 {
            points_inner(c.points)
        } else {
            seq![]
        }) + ((if j == 3 {
            keys_inner(c.keys)
        } else {
            seq![]
        }) + ((if j == 4 {
            values_inner(c.values)
        } else {
            seq![]
        }) + (bytes_in(b, j) + bytes_in(d, j))))),
        of_number(q, j) == number_in(a, j) + (number_in(b, j) + number_in(d, j)),
{
    let (a2, a3, a4) = (
        all_of(2, points_inner(c.points)),
        all_of(3, keys_inner(c.keys)),
        all_of(4, values_inner(c.values)),
    );
    lemma_of_add(seq![a], a2 + (a3 + (a4 + (seq![b] + seq![d]))), j);
    lemma_of_add(a2, a3 + (a4 + (seq![b] + seq![d])), j);
    lemma_of_add(a3, a4 + (seq![b] + seq![d]), j);
    lemma_of_add(a4, seq![b] + seq![d], j);
    lemma_of_add(seq![b], seq![d], j);
    lemma_of_one(a, j);
    lemma_of_one(b, j);
    lemma_of_one(d, j);
    lemma_of_all(2, points_inner(c.points), j);
    lemma_of_all(3, keys_inner(c.keys), j);
    lemma_of_all(4, values_inner(c.values), j);
    let none = Seq::<int>::empty();
    let tail = number_in(b, j) + number_in(d, j);
    assert(none + tail =~= tail);
    assert(none + (none + tail) =~= tail);
    assert(none + (none + (none + tail)) =~= tail);
}

/// One list is the beginning of another.
spec fn begins<A>(p: Seq<A>, q: Seq<A>) -> bool {
    p.len() <= q.len() && forall|i: int| 0 <= i < p.len() ==> #[trigger] q[i] == p[i]
}

proof fn lemma_after_begins(
    keys: Seq<Seq<char>>,
    values: Seq<Said>,
    tags: Seq<(Seq<char>, Said)>,
    n: int,
)
    ensures
        begins(keys, keys_after(keys, tags, n)),
        begins(values, values_after(values, tags, n)),
    decreases n,
{
    if n > 0 {
        lemma_after_begins(keys, values, tags, n - 1);
    }
}

proof fn lemma_content(q: Seq<Tiled>, i: int, k: int)
    requires
        0 <= i <= k <= q.len(),
    ensures
        begins(content_of(q, i).keys, content_of(q, k).keys),
        begins(content_of(q, i).values, content_of(q, k).values),
        begins(content_of(q, i).points, content_of(q, k).points),
        content_of(q, k).points.len() == k,
    decreases k,
{
    if k > i {
        lemma_content(q, i, k - 1);
        let c = content_of(q, k - 1);
        let tags = tags_of(q[k - 1]);
        lemma_after_begins(c.keys, c.values, tags, tags.len() as int);
    } else if k > 0 {
        lemma_content(q, i - 1, k - 1);
    }
}

/// A feature carries a tag: a key and a value of its layer, by their positions.
pub open spec fn has_tag(l: SeenLayer, f: Seen, j: int, name: Seq<char>, v: Said) -> bool {
    &&& 0 <= j && 2 * j + 1 < f.tags.len()
    &&& 0 <= f.tags[2 * j] < l.keys.len()
    &&& 0 <= f.tags[2 * j + 1] < l.values.len()
    &&& l.keys[f.tags[2 * j]] == encode_utf8(name)
    &&& reads(l.values[f.tags[2 * j + 1]], v)
}

proof fn lemma_tags_read(q: Seq<Tiled>, extent: u32, i: int, j: int)
    requires
        0 <= i < q.len(),
        0 <= j < tags_of(q[i]).len(),
        content_of(q, q.len() as int).keys.len() <= u32::MAX,
        content_of(q, q.len() as int).values.len() <= u32::MAX,
    ensures
        ({
            let l = layer_read(layer_inner(content_of(q, q.len() as int), extent));
            let t = tags_of(q[i])[j];
            &&& has_tag(l, l.features[i], j, t.0, t.1)
            &&& l.features[i].tags.len() == 2 * tags_of(q[i]).len()
        }),
{
    let n = q.len() as int;
    let c = content_of(q, n);
    lemma_layer(c, extent);
    lemma_content(q, i, n);
    lemma_content(q, i + 1, n);
    lemma_content(q, i, i);
    let before = content_of(q, i);
    let now = content_of(q, i + 1);
    let tags = tags_of(q[i]);
    law_tags(before.keys, before.values, tags, j);
    assert(now == content_with(before, q[i]));
    let p = now.points[i];
    assert(c.points[i] == p);
    lemma_feature(p);
    let l = layer_read(layer_inner(c, extent));
    assert(l.features[i] == feature_read(point_inner(c.points[i])));
    let (a, b) = (p.pairs[2 * j] as int, p.pairs[2 * j + 1] as int);
    lemma_pairs_in(now.keys, now.values, tags, before.keys, before.values, j);
    assert(c.keys[a] == now.keys[a]);
    assert(c.values[b] == now.values[b]);
    lemma_value(c.values[b]);
    assert(l.values[b] == fields(value_inner(c.values[b])));
}

proof fn lemma_pairs_in(
    ks: Seq<Seq<char>>,
    vs: Seq<Said>,
    tags: Seq<(Seq<char>, Said)>,
    keys: Seq<Seq<char>>,
    values: Seq<Said>,
    j: int,
)
    requires
        ks == keys_after(keys, tags, tags.len() as int),
        vs == values_after(values, tags, tags.len() as int),
        ks.len() <= u32::MAX,
        vs.len() <= u32::MAX,
        0 <= j < tags.len(),
    ensures
        tag_pairs(ks, vs, tags)[2 * j] < ks.len(),
        tag_pairs(ks, vs, tags)[2 * j + 1] < vs.len(),
{
    crate::mvt::lemma_after(keys, values, tags, tags.len() as int, j);
    assert((2 * j) / 2 == j && (2 * j + 1) / 2 == j);
    assert((2 * j) % 2 == 0 && (2 * j + 1) % 2 == 1);
    let (a, b) = (ks.index_of(tags[j].0), vs.index_of(tags[j].1));
    assert(0 <= a < ks.len() && 0 <= b < vs.len());
    assert(tag_pairs(ks, vs, tags)[2 * j] == a as u32);
    assert(tag_pairs(ks, vs, tags)[2 * j + 1] == b as u32);
}

/// **A vector tile says what was put in**: decoded, a tile of something is one layer of version 2
/// named `clusters`, with the extent that was asked for and, feature for feature and in order, the
/// id and the position of what was put in, as one point. A tile of nothing is empty.
pub proof fn law_tile_positions(q: Seq<Tiled>, extent: u32, i: int)
    requires
        0 <= i < q.len(),
    ensures
        ({
            let t = tile_read(tile_meant(q, extent));
            &&& t.len() == 1
            &&& t[0].name == encode_utf8("clusters"@)
            &&& t[0].version == 2
            &&& t[0].extent == extent
            &&& t[0].features.len() == q.len()
            &&& t[0].features[i].id == q[i].id
            &&& t[0].features[i].kind == 1
            &&& t[0].features[i].geometry.len() == 3
            &&& t[0].features[i].geometry[0] == 9
            &&& unfolded(t[0].features[i].geometry[1]) == q[i].x
            &&& unfolded(t[0].features[i].geometry[2]) == q[i].y
        }),
{
    let n = q.len() as int;
    let c = content_of(q, n);
    lemma_tile(q, extent);
    lemma_layer(c, extent);
    lemma_content(q, i, n);
    lemma_content(q, i + 1, n);
    lemma_content(q, i, i);
    assert(content_of(q, i + 1) == content_with(content_of(q, i), q[i]));
    assert(c.points[i] == content_of(q, i + 1).points[i]);
    lemma_feature(c.points[i]);
    assert(layer_read(layer_inner(c, extent)).features[i] == feature_read(
        point_inner(c.points[i]),
    ));
}

proof fn lemma_tile(q: Seq<Tiled>, extent: u32)
    requires
        q.len() > 0,
    ensures
        tile_read(tile_meant(q, extent)).len() == 1,
        tile_read(tile_meant(q, extent))[0] == layer_read(
            layer_inner(content_of(q, q.len() as int), extent),
        ),
{
    let none = Seq::<u8>::empty();
    let b = tile_meant(q, extent);
    let l = layer_inner(content_of(q, q.len() as int), extent);
    lemma_fields_none();
    lemma_bytes_field(3, l, none);
    assert(b == bytes_field(3, l));
    assert(b + none =~= b);
    assert(fields(b) =~= seq![Field::Bytes(3, l)]);
    lemma_of_one(Field::Bytes(3, l), 3);
}

/// **Tags of a cluster**: a feature that stands for several devices says so, how many, and how many
/// in short; nothing else.
pub proof fn law_cluster_tags(q: Seq<Tiled>, extent: u32, i: int)
    requires
        0 <= i < q.len(),
        q[i].device is None,
        content_of(q, q.len() as int).keys.len() <= u32::MAX,
        content_of(q, q.len() as int).values.len() <= u32::MAX,
    ensures
        ({
            let l = tile_read(tile_meant(q, extent))[0];
            let f = l.features[i];
            &&& f.tags.len() == 6
            &&& has_tag(l, f, 0, "cluster"@, Said::Bool(true))
            &&& has_tag(l, f, 1, "point_count"@, Said::Uint(q[i].count as u64))
            &&& has_tag(
                l,
                f,
                2,
                "point_count_abbreviated"@,
                Said::Str(abbreviated(q[i].count as int)),
            )
        }),
{
    lemma_tile(q, extent);
    lemma_tags_read(q, extent, i, 0);
    lemma_tags_read(q, extent, i, 1);
    lemma_tags_read(q, extent, i, 2);
}

/// A property that a tag can hold, and what it holds: a text, yes or no, or a number, which is a
/// text where it is no natural number.
pub open spec fn scalar(m: Member) -> Option<Said> {
    match m {
        Member::Text(s) => Some(Said::Str(s)),
        Member::Bool(b) => Some(Said::Bool(b)),
        Member::Number(n, s) => if n is Some {
            Some(Said::Uint(n->0))
        } else {
            Some(Said::Str(s))
        },
        _ => None,
    }
}

proof fn lemma_member_tags(q: Seq<(Seq<char>, Member)>, k: int, i: int) -> (j: int)
    requires
        0 <= i < k <= q.len(),
        scalar(q[i].1) is Some,
        q[i].0 != "cluster"@,
        q[i].0 != "id"@,
    ensures
        0 <= j < member_tags(q, k).len(),
        member_tags(q, k)[j] == (q[i].0, scalar(q[i].1)->0),
    decreases k,
{
    if i == k - 1 {
        member_tags(q, k - 1).len() as int
    } else {
        lemma_member_tags(q, k - 1, i)
    }
}

proof fn lemma_member_origin(q: Seq<(Seq<char>, Member)>, k: int, j: int)
    requires
        0 <= k <= q.len(),
        0 <= j < member_tags(q, k).len(),
    ensures
        exists|i: int|
            0 <= i < k && q[i].0 != "cluster"@ && q[i].0 != "id"@ && scalar((#[trigger] q[i]).1)
                == Some(member_tags(q, k)[j].1) && member_tags(q, k)[j].0 == q[i].0,
    decreases k,
{
    if k > 0 {
        if j < member_tags(q, k - 1).len() {
            lemma_member_origin(q, k - 1, j);
            let i = choose|i: int|
                0 <= i < k - 1 && q[i].0 != "cluster"@ && q[i].0 != "id"@ && scalar(
                    (#[trigger] q[i]).1,
                ) == Some(member_tags(q, k - 1)[j].1) && member_tags(q, k - 1)[j].0 == q[i].0;
            assert(member_tags(q, k)[j] == member_tags(q, k - 1)[j]);
            assert(0 <= i < k && scalar(q[i].1) == Some(member_tags(q, k)[j].1));
        } else {
            assert(scalar(q[k - 1].1) == Some(member_tags(q, k)[j].1));
        }
    }
}

/// A tag holds a property.
pub open spec fn tag_of_member(l: SeenLayer, f: Seen, j: int, ms: Seq<(Seq<char>, Member)>) -> bool {
    exists|k: int|
        0 <= k < ms.len() && scalar((#[trigger] ms[k]).1) is Some && ms[k].0 != "cluster"@ && ms[k].0
            != "id"@ && has_tag(l, f, j, ms[k].0, scalar(ms[k].1)->0)
}

/// The properties that come with a feature, where they can be read.
pub open spec fn properties(t: Tiled) -> Seq<(Seq<char>, Member)> {
    match t.props {
        Some(p) => match json_members(p) {
            Ok(ms) => ms,
            Err(_) => seq![],
        },
        None => seq![],
    }
}

proof fn lemma_device_tags(t: Tiled)
    requires
        t.device is Some,
    ensures
        tags_of(t) == seq![
            ("cluster"@, Said::Bool(false)),
            ("id"@, Said::Str(t.device->0)),
        ] + member_tags(properties(t), properties(t).len() as int),
{
    let own = member_tags(properties(t), properties(t).len() as int);
    let two = seq![("cluster"@, Said::Bool(false)), ("id"@, Said::Str(t.device->0))];
    assert(tags_of(t) =~= two + own);
}

/// **Tags of a device**: a feature that stands for one device says so and names it.
pub proof fn law_device_tags(q: Seq<Tiled>, extent: u32, i: int)
    requires
        0 <= i < q.len(),
        q[i].device is Some,
        content_of(q, q.len() as int).keys.len() <= u32::MAX,
        content_of(q, q.len() as int).values.len() <= u32::MAX,
    ensures
        ({
            let l = tile_read(tile_meant(q, extent))[0];
            &&& has_tag(l, l.features[i], 0, "cluster"@, Said::Bool(false))
            &&& has_tag(l, l.features[i], 1, "id"@, Said::Str(q[i].device->0))
        }),
{
    lemma_tile(q, extent);
    lemma_device_tags(q[i]);
    lemma_tags_read(q, extent, i, 0);
    lemma_tags_read(q, extent, i, 1);
}

/// **Properties of a device are tags**: every one that a tag can hold, but for the two names that
/// every device has.
pub proof fn law_properties_are_tags(q: Seq<Tiled>, extent: u32, i: int, k: int) -> (j: int)
    requires
        0 <= i < q.len(),
        q[i].device is Some,
        content_of(q, q.len() as int).keys.len() <= u32::MAX,
        content_of(q, q.len() as int).values.len() <= u32::MAX,
        0 <= k < properties(q[i]).len(),
        scalar(properties(q[i])[k].1) is Some,
        properties(q[i])[k].0 != "cluster"@,
        properties(q[i])[k].0 != "id"@,
    ensures
        j >= 2,
        ({
            let l = tile_read(tile_meant(q, extent))[0];
            has_tag(
                l,
                l.features[i],
                j,
                properties(q[i])[k].0,
                scalar(properties(q[i])[k].1)->0,
            )
        }),
{
    let ms = properties(q[i]);
    lemma_tile(q, extent);
    lemma_device_tags(q[i]);
    let j = lemma_member_tags(ms, ms.len() as int, k);
    lemma_tags_read(q, extent, i, j + 2);
    j + 2
}

/// **A device has no other tags** than its two and its properties.
pub proof fn law_tags_are_properties(q: Seq<Tiled>, extent: u32, i: int, j: int)
    requires
        0 <= i < q.len(),
        q[i].device is Some,
        content_of(q, q.len() as int).keys.len() <= u32::MAX,
        content_of(q, q.len() as int).values.len() <= u32::MAX,
        2 <= j,
        2 * j < tile_read(tile_meant(q, extent))[0].features[i].tags.len(),
    ensures
        ({
            let l = tile_read(tile_meant(q, extent))[0];
            tag_of_member(l, l.features[i], j, properties(q[i]))
        }),
{
    let ms = properties(q[i]);
    let own = member_tags(ms, ms.len() as int);
    lemma_tile(q, extent);
    lemma_device_tags(q[i]);
    lemma_tags_read(q, extent, i, 0);
    let tags = tags_of(q[i]);
    assert(j < tags.len());
    lemma_tags_read(q, extent, i, j);
    assert(tags[j] == own[j - 2]);
    lemma_member_origin(ms, ms.len() as int, j - 2);
    let k = choose|k: int|
        0 <= k < ms.len() && ms[k].0 != "cluster"@ && ms[k].0 != "id"@ && scalar((#[trigger] ms[k]).1)
            == Some(own[j - 2].1) && own[j - 2].0 == ms[k].0;
    let l = tile_read(tile_meant(q, extent))[0];
    assert(has_tag(l, l.features[i], j, ms[k].0, scalar(ms[k].1)->0));
}

/// **A tile of nothing has no bytes.**
pub proof fn law_empty_tile(q: Seq<Tiled>, extent: u32)
    ensures
        tile_meant(q, extent).len() == 0 <==> q.len() == 0,
{
    if q.len() > 0 {
        lemma_tile(q, extent);
        if tile_meant(q, extent).len() == 0 {
            lemma_fields_none();
            assert(tile_meant(q, extent) =~= seq![]);
            assert(of_field(seq![], 3) =~= seq![]);
        }
    }
}

} // verus!
