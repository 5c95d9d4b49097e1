//! The contents of a tile as a vector tile.
use crate::collection::query::{tilings, OutTileFeature, Tiled};
use crate::feature::{abbrev, abbreviated};
use crate::json::{json_members, members, members_of, Member, Scalar};
use crate::mvt::{bytes_field, encode, keys_after, keys_bytes, points_bytes, sayings, tag_pairs, tagged,
    tile_bytes, values_after, values_bytes, varint_field, Layer, Placed, Said, Val};
use crate::text::texts;
use vstd::prelude::*;
use vstd::utf8::encode_utf8;

verus! {

/// A member as the value of a tag. Nested objects and arrays are none: a tag is a scalar, and
/// quietly turning `{"a":1}` into the text of it would make a filter that silently never matches.
pub open spec fn tag_value(m: Member) -> Option<Said> {
    match m {
        Member::Text(s) => Some(Said::Str(s)),
        Member::Bool(b) => Some(Said::Bool(b)),
        Member::Number(Some(n), _) => Some(Said::Uint(n)),
        Member::Number(None, s) => Some(Said::Str(s)),
        Member::Null => None,
        Member::Nested => None,
    }
}

/// The tags of the first `k` members. The names that every point has are not theirs to give.
pub open spec fn member_tags(q: Seq<(Seq<char>, Member)>, k: int) -> Seq<(Seq<char>, Said)>
    decreases k,
{
    if k <= 0 {
        seq![]
    } else {
        let s = member_tags(q, k - 1);
        match tag_value(q[k - 1].1) {
            Some(v) => if q[k - 1].0 != "cluster"@ && q[k - 1].0 != "id"@ {
                s.push((q[k - 1].0, v))
            } else {
                s
            },
            None => s,
        }
    }
}

/// The tags of a point or a cluster.
pub open spec fn tags_of(t: Tiled) -> Seq<(Seq<char>, Said)> {
    match t.device {
        Some(d) => seq![("cluster"@, Said::Bool(false)), ("id"@, Said::Str(d))] + (match t.props {
            Some(p) => match json_members(p) {
                Ok(q) => member_tags(q, q.len() as int),
                Err(_) => seq![],
            },
            None => seq![],
        }),
        None => seq![
            ("cluster"@, Said::Bool(true)),
            ("point_count"@, Said::Uint(t.count as u64)),
            ("point_count_abbreviated"@, Said::Str(abbreviated(t.count as int))),
        ],
    }
}

/// Keys, values and points of a layer.
pub struct Content {
    pub keys: Seq<Seq<char>>,
    pub values: Seq<Said>,
    pub points: Seq<Placed>,
}

/// A layer after one more point.
pub open spec fn content_with(c: Content, t: Tiled) -> Content {
    let tags = tags_of(t);
    let keys = keys_after(c.keys, tags, tags.len() as int);
    let values = values_after(c.values, tags, tags.len() as int);
    Content {
        keys,
        values,
        points: c.points.push(
            Placed { id: t.id, x: t.x, y: t.y, pairs: tag_pairs(keys, values, tags) },
        ),
    }
}

/// A layer after the first `k` features.
pub open spec fn content_of(q: Seq<Tiled>, k: int) -> Content
    decreases k,
{
    if k <= 0 {
        Content { keys: seq![], values: seq![], points: seq![] }
    } else {
        content_with(content_of(q, k - 1), q[k - 1])
    }
}

/// The bytes of a tile: nothing if nothing is in it, else one layer.
pub open spec fn tile_meant(q: Seq<Tiled>, extent: u32) -> Seq<u8> {
    if q.len() == 0 {
        seq![]
    } else {
        let c = content_of(q, q.len() as int);
        bytes_field(
            3,
            bytes_field(1, encode_utf8("clusters"@)) + points_bytes(c.points) + keys_bytes(c.keys)
                + values_bytes(c.values) + varint_field(5, extent as int) + varint_field(15, 2),
        )
    }
}

/// Top-level scalars become tags, so that a renderer can style by them.
pub fn scalar_tags<'a>(tags: Vec<(&'a str, Val)>, v: &'a Vec<(String, Scalar)>) -> (r: Vec<
    (&'a str, Val),
>)
    ensures
        tagged(r@) == tagged(tags@) + member_tags(members_of(v@), v@.len() as int),
{
    let ghost q = members_of(v@);
    let ghost t0 = tagged(tags@);
    let mut tags = tags;
    let mut i: usize = 0;
    proof {
        assert(tagged(tags@) =~= t0 + member_tags(q, 0));
    }
    while i < v.len()
        invariant
            i <= v.len(),
            q == members_of(v@),
            tagged(tags@) == t0 + member_tags(q, i as int),
        decreases v.len() - i,
    {
        let ghost was = tags@;
        let name = v[i].0.as_str();
        proof {
            assert(q[i as int] == (v@[i as int].0@, v@[i as int].1.member()));
        }
        let val: Option<Val> = match &v[i].1 {
            Scalar::Text(s) => Some(Val::Str(s.clone())),
            Scalar::Bool(b) => Some(Val::Bool(*b)),
            Scalar::Number(Some(n), _) => Some(Val::Uint(*n)),
            Scalar::Number(None, s) => Some(Val::Str(s.clone())),
            Scalar::Null => None,
            Scalar::Nested => None,
        };
        if let Some(val) = val {
            if *name != *"cluster" && *name != *"id" {
                let ghost said = val.said();
                tags.push((name, val));
                proof {
                    assert(tagged(tags@) =~= tagged(was).push((name@, said)));
                    assert(tagged(tags@) =~= t0 + member_tags(q, i + 1));
                }
            }
        }
        i = i + 1;
    }
    tags
}

fn add_feature(layer: &mut Layer, f: &OutTileFeature)
    requires
        old(layer).wf(),
    ensures
        final(layer).wf(),
        final(layer).name == old(layer).name,
        final(layer).extent == old(layer).extent,
        ({
            let c = content_with(
                Content {
                    keys: texts(old(layer).keys@),
                    values: sayings(old(layer).values@),
                    points: old(layer).points@,
                },
                f.tiled(),
            );
            &&& texts(final(layer).keys@) == c.keys
            &&& sayings(final(layer).values@) == c.values
            &&& final(layer).points@ == c.points
        }),
{
    match &f.device {
        Some(dev) => {
            let mut tags: Vec<(&str, Val)> = Vec::new();
            tags.push(("cluster", Val::Bool(false)));
            tags.push(("id", Val::Str(dev.clone())));
            let flat: Vec<(String, Scalar)> = match &f.props {
                Some(p) => match members(p.as_str()) {
                    Ok(v) => v,
                    Err(_) => {
                        let v: Vec<(String, Scalar)> = Vec::new();
                        v
                    },
                },
                None => {
                    let v: Vec<(String, Scalar)> = Vec::new();
                    v
                },
            };
            proof {
                assert(tagged(tags@) =~= seq![
                    ("cluster"@, Said::Bool(false)),
                    ("id"@, Said::Str(dev@)),
                ]);
            }
            let tags = scalar_tags(tags, &flat);
            proof {
                assert(tagged(tags@) =~= tags_of(f.tiled()));
            }
            layer.add_point(f.id, f.x, f.y, tags.as_slice());
        },
        None => {
            let mut tags: Vec<(&str, Val)> = Vec::new();
            tags.push(("cluster", Val::Bool(true)));
            tags.push(("point_count", Val::Uint(f.count as u64)));
            tags.push(("point_count_abbreviated", Val::Str(abbrev(f.count))));
            proof {
                assert(tagged(tags@) =~= tags_of(f.tiled()));
            }
            layer.add_point(f.id, f.x, f.y, tags.as_slice());
        },
    }
}

/// The bytes of a tile that holds these features.
pub fn tile_body(feats: &Vec<OutTileFeature>, extent: u32) -> (b: Vec<u8>)
    ensures
        b@ == tile_meant(tilings(feats@), extent),
{
    let ghost q = tilings(feats@);
    let mut layer = Layer::new("clusters", extent);
    let mut i: usize = 0;
    proof {
        assert(texts(layer.keys@) =~= seq![]);
        assert(sayings(layer.values@) =~= seq![]);
        assert(layer.points@ =~= seq![]);
    }
    while i < feats.len()
        invariant
            i <= feats.len(),
            q == tilings(feats@),
            layer.wf(),
            layer.name@ == "clusters"@,
            layer.extent == extent,
            content_of(q, i as int) == (Content {
                keys: texts(layer.keys@),
                values: sayings(layer.values@),
                points: layer.points@,
            }),
            layer.points@.len() == i,
        decreases feats.len() - i,
    {
        proof {
            assert(q[i as int] == feats@[i as int].tiled());
        }
        add_feature(&mut layer, &feats[i]);
        i = i + 1;
    }
    if layer.is_empty() {
        let b: Vec<u8> = Vec::new();
        proof {
            assert(b@ =~= seq![]);
        }
        return b;
    }
    let mut layers: Vec<Layer> = Vec::new();
    let ghost body = layer.bytes();
    layers.push(layer);
    let b = encode(layers);
    proof {
        let l = layers@;
        assert(l.len() == 1);
        reveal_with_fuel(tile_bytes, 2);
        assert(tile_bytes(l) =~= bytes_field(3, body));
    }
    b
}

} // verus!
