//! Snapshots as bytes, and the names of their files.
use netcluster::snapshot::{decode, encode, encode_name, file_of, fnv, path_for, Damage, DeviceRecord};

fn rec(id: &str, x: i32) -> DeviceRecord {
    DeviceRecord {
        id: id.to_string(),
        x,
        y: x / 2,
        cat: (x as u32) % 2,
        last_seen_ms: 1_700_000_000_000 + x as u64,
    }
}

fn meta() -> Vec<u8> {
    br#"{"name":"fleet","config":{"max_zoom":14}}"#.to_vec()
}

#[test]
fn round_trips_including_awkward_ids() {
    let records = vec![
        rec("truck-1", 100),
        rec("ônibus-2", 200),       // non-ASCII
        rec("", 300),               // empty id is legal over HTTP
        rec("a b/c?d#e", 400),      // characters that matter in a URL
        rec(&"x".repeat(500), 500), // longer than any sane id
    ];
    let bytes = encode(&meta(), &records);
    assert!(!bytes.is_empty());
    let (m2, r2) = decode(&bytes).unwrap();
    assert_eq!(m2, meta(), "metadata did not survive the round trip");
    assert_eq!(r2, records, "records did not survive the round trip");
}

#[test]
fn round_trips_a_large_fleet() {
    let records: Vec<_> = (0..100_000).map(|i| rec(&format!("v{i}"), i)).collect();
    let bytes = encode(&meta(), &records);
    let (_, r2) = decode(&bytes).unwrap();
    assert_eq!(r2.len(), 100_000);
    assert_eq!(r2[99_999], records[99_999]);
    let per = bytes.len() as f64 / 100_000.0;
    assert!(per < 40.0, "{per:.1} bytes per device");
}

#[test]
fn an_empty_collection_still_round_trips() {
    let bytes = encode(&meta(), &[]);
    let (m2, r2) = decode(&bytes).unwrap();
    assert_eq!(m2, meta(), "metadata must survive even with no devices");
    assert!(r2.is_empty());
}

/// Corruption must be caught before anything is parsed.
#[test]
fn truncation_and_bit_flips_are_caught() {
    let records: Vec<_> = (0..100).map(|i| rec(&format!("v{i}"), i)).collect();
    let good = encode(&meta(), &records);

    for cut in [0, 1, 8, 20, good.len() / 2, good.len() - 1] {
        assert!(
            decode(&good[..cut].to_vec()).is_err(),
            "truncation to {cut} bytes was accepted"
        );
    }

    for at in [10, 40, good.len() / 2, good.len() - 9] {
        let mut bad = good.clone();
        bad[at] ^= 0x01;
        assert_eq!(
            decode(&bad),
            Err(Damage::Checksum),
            "a flipped bit at {at} was accepted"
        );
    }

    // and appended garbage
    let mut extra = good.clone();
    extra.extend_from_slice(b"junk");
    assert!(decode(&extra).is_err(), "trailing bytes were accepted");

    assert!(decode(&good).is_ok(), "the untouched bytes should still load");
}

#[test]
fn rejects_a_foreign_file() {
    let r = decode(&b"this is not a snapshot, it is a text file".to_vec());
    assert!(r.is_err());
}

/// Bytes with a checksum that fits, so that what is checked after it is reached.
fn sealed(body: &[u8]) -> Vec<u8> {
    let mut h = 14_695_981_039_346_656_037;
    fnv(&mut h, body);
    let mut v = body.to_vec();
    v.extend_from_slice(&h.to_le_bytes());
    v
}

#[test]
fn every_kind_of_damage_is_named() {
    assert_eq!(decode(&vec![1, 2, 3]), Err(Damage::TooShort));
    assert_eq!(decode(&vec![7; 40]), Err(Damage::Checksum));
    assert_eq!(decode(&sealed(&[7; 40])), Err(Damage::Foreign));

    let mut v = b"NCSNAP".to_vec();
    v.extend_from_slice(&2u16.to_le_bytes());
    v.extend_from_slice(&[0; 12]);
    assert_eq!(decode(&sealed(&v)), Err(Damage::Version(2)));
    assert_eq!(
        Damage::Version(2).message(),
        "snapshot format version 2, this build understands 1"
    );

    let mut v = b"NCSNAP".to_vec();
    v.extend_from_slice(&1u16.to_le_bytes());
    v.extend_from_slice(&0u32.to_le_bytes());
    v.extend_from_slice(&1u64.to_le_bytes());
    assert_eq!(decode(&sealed(&v)), Err(Damage::MidRecord));

    let mut w = v.clone();
    w.extend_from_slice(&1u16.to_le_bytes());
    w.push(0xff);
    w.extend_from_slice(&[0; 20]);
    assert_eq!(decode(&sealed(&w)), Err(Damage::NotText));

    let mut w = v.clone();
    w.extend_from_slice(&1u16.to_le_bytes());
    w.push(b'a');
    w.extend_from_slice(&[0; 21]);
    assert_eq!(decode(&sealed(&w)), Err(Damage::Trailing));
}

/// Collection names arrive as URL path segments, so they are arbitrary.
#[test]
fn names_cannot_escape_the_directory() {
    let d = "/var/lib/fleet";
    for name in [
        "../../etc/passwd",
        "..",
        ".",
        "/etc/shadow",
        "..\\..\\windows",
        ".hidden",
        "",
        "a/../../b",
    ] {
        let p = path_for(d, name);
        let path = std::path::Path::new(&p);
        let parent = path.parent().unwrap();
        assert_eq!(
            parent,
            std::path::Path::new(d),
            "{name:?} escaped to {}",
            parent.display()
        );
        assert_eq!(path.extension().unwrap(), "ncs");
        assert!(
            path.components().count() == 5,
            "{name:?} resolved outside the data directory: {p}"
        );
    }
}

#[test]
fn distinct_names_get_distinct_files() {
    assert_ne!(encode_name("fleet"), encode_name("fleet2"));
    assert_ne!(encode_name(".."), encode_name("."));
    assert_ne!(encode_name("a/b"), encode_name("a_b"));
    assert_eq!(encode_name("plain-name_1.v2"), "plain-name_1.v2");
    // very long names stay within the filesystem limit and stay distinct
    let a = encode_name(&"z".repeat(4000));
    let b = encode_name(&format!("{}y", "z".repeat(3999)));
    assert!(a.len() < 255 && b.len() < 255, "{} {}", a.len(), b.len());
    assert_ne!(a, b, "truncation collapsed two different names");
}

/// Only the empty name and a lone null character share a file.
#[test]
fn an_empty_name_stands_apart_from_all_but_a_null_character() {
    assert_eq!(encode_name(""), encode_name("\0"));
    for other in ["_", "0", "00", "%00", "\0\0", "a", ".", " "] {
        assert_ne!(encode_name(""), encode_name(other), "{other:?}");
    }
}

/// A separator stands only where one is needed.
#[test]
fn a_path_is_joined_like_a_path() {
    for (dir, want) in [("", "x.ncs"), ("d", "d/x.ncs"), ("/d/", "/d/x.ncs"), ("/", "/x.ncs")] {
        let p = path_for(dir, "x");
        assert_eq!(p, want);
        assert_eq!(
            std::path::Path::new(dir).join(file_of("x")),
            std::path::Path::new(&p)
        );
    }
    assert_eq!(file_of("a b"), format!("{}.ncs", encode_name("a b")));
}
