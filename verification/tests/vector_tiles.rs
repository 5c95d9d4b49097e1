//! The wire form of a vector tile.
use netcluster::collection::query::OutTileFeature;
use netcluster::mvt::{encode, Layer, Pbf, Val};
use netcluster::tiles::tile_body;

/// Decode just enough to prove the bytes are well-formed protobuf and carry what we put in. A
/// tile that renders as nothing is indistinguishable from a tile that failed to encode, so this
/// checks the wire form directly.
fn read_varint(b: &[u8], i: &mut usize) -> u64 {
    let mut v = 0u64;
    let mut shift = 0;
    loop {
        let byte = b[*i];
        *i += 1;
        v |= ((byte & 0x7f) as u64) << shift;
        if byte & 0x80 == 0 {
            return v;
        }
        shift += 7;
    }
}

#[test]
fn produces_a_parseable_tile() {
    let mut l = Layer::new("clusters", 4096);
    l.add_point(
        42,
        100,
        -7,
        &[
            ("cluster", Val::Bool(true)),
            ("point_count", Val::Uint(1234)),
        ],
    );
    l.add_point(7, 4000, 4000, &[("cluster", Val::Bool(false))]);
    assert_eq!(l.len(), 2);
    let tile = encode(vec![l]);
    assert!(!tile.is_empty());

    // top level: exactly one length-delimited field 3 spanning the whole buffer
    let mut i = 0;
    let key = read_varint(&tile, &mut i);
    assert_eq!(key >> 3, 3, "layers must be field 3");
    assert_eq!(key & 7, 2, "layers must be length-delimited");
    let len = read_varint(&tile, &mut i) as usize;
    assert_eq!(i + len, tile.len(), "layer length must cover the rest");

    // inside the layer: name, two features, keys, values, extent, version
    let body = &tile[i..];
    let mut j = 0;
    let (mut features, mut keys, mut values) = (0, 0, 0);
    let (mut extent, mut version) = (0, 0);
    let mut name = String::new();
    while j < body.len() {
        let k = read_varint(body, &mut j);
        match (k >> 3, k & 7) {
            (1, 2) => {
                let n = read_varint(body, &mut j) as usize;
                name = String::from_utf8(body[j..j + n].to_vec()).unwrap();
                j += n;
            }
            (2, 2) => {
                let n = read_varint(body, &mut j) as usize;
                features += 1;
                j += n;
            }
            (3, 2) => {
                let n = read_varint(body, &mut j) as usize;
                keys += 1;
                j += n;
            }
            (4, 2) => {
                let n = read_varint(body, &mut j) as usize;
                values += 1;
                j += n;
            }
            (5, 0) => extent = read_varint(body, &mut j),
            (15, 0) => version = read_varint(body, &mut j),
            other => panic!("unexpected field {other:?}"),
        }
    }
    assert_eq!(name, "clusters");
    assert_eq!(features, 2);
    assert_eq!(keys, 2, "cluster + point_count");
    assert_eq!(values, 3, "true, 1234, false -- interned, not repeated");
    assert_eq!(extent, 4096);
    assert_eq!(version, 2);
}

#[test]
fn interns_repeated_values() {
    let mut l = Layer::new("c", 4096);
    for i in 0..1000 {
        l.add_point(i, i as i32, 0, &[("point_count", Val::Uint(5))]);
    }
    assert_eq!(
        l.values.len(),
        1,
        "one distinct count should intern to one value"
    );
    assert_eq!(l.keys.len(), 1);
}

#[test]
fn zigzag_handles_negative_coordinates() {
    let mut l = Layer::new("c", 4096);
    l.add_point(1, -1, -1, &[]);
    let tile = encode(vec![l]);
    // -1 zigzags to 1; the geometry payload must contain [9, 1, 1]
    assert!(
        tile.windows(3).any(|w| w == [9, 1, 1]),
        "negative coordinates did not zigzag correctly"
    );
}

#[test]
fn varints_are_little_endian_groups_of_seven_bits() {
    let mut p = Pbf::new();
    p.varint(300);
    assert_eq!(p.buf, vec![0xac, 0x02]);
    let mut p = Pbf::new();
    p.varint(u64::MAX);
    assert_eq!(p.buf.len(), 10);
    let mut p = Pbf::new();
    p.varint_field(5, 4096);
    assert_eq!(p.buf, vec![0x28, 0x80, 0x20]);
    let mut p = Pbf::new();
    p.packed_u32(4, &[9, 1, 300]);
    assert_eq!(p.buf, vec![0x22, 4, 9, 1, 0xac, 0x02]);
    let mut p = Pbf::new();
    p.bytes_field(3, b"hi");
    assert_eq!(p.buf, vec![0x1a, 2, b'h', b'i']);
}

fn has(tile: &[u8], text: &str) -> bool {
    tile.windows(text.len()).any(|w| w == text.as_bytes())
}

/// Scalars of the properties become tags; nested values and the two names every point has do not.
#[test]
fn scalar_properties_become_tags() {
    let feats = vec![
        OutTileFeature {
            x: 1,
            y: 2,
            count: 1,
            id: 9,
            device: Some("truck-1".into()),
            props: Some(
                r#"{"plate":"ABC","speed":-3,"deep":{"secret":1},"id":"other","ok":true,"n":null}"#
                    .into(),
            ),
        },
        OutTileFeature {
            x: 3,
            y: 4,
            count: 1234,
            id: 640,
            device: None,
            props: None,
        },
    ];
    let tile = tile_body(&feats, 512);
    for want in ["clusters", "truck-1", "plate", "ABC", "speed", "-3", "ok", "point_count", "1.2k"] {
        assert!(has(&tile, want), "{want} is missing");
    }
    for not in ["secret", "deep", "other"] {
        assert!(!has(&tile, not), "{not} leaked into a tile");
    }
    assert!(tile_body(&vec![], 512).is_empty(), "nothing in it, no bytes");
}

/// Unreadable properties do not take the point away.
#[test]
fn a_point_with_broken_properties_is_still_drawn() {
    let feats = vec![OutTileFeature {
        x: 1,
        y: 2,
        count: 1,
        id: 9,
        device: Some("truck-1".into()),
        props: Some("{".into()),
    }];
    assert!(has(&tile_body(&feats, 512), "truck-1"));
}
