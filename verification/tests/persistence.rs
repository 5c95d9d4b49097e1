//! Snapshot and restore, at the collection level.
//!
//! The claim being tested is narrow and precise: a restored collection holds the same devices, in
//! the same places, in the same categories, with the same report times. Not the same tree: a
//! restore inserts in snapshot order rather than the original operation order, so cluster ids and
//! groupings legitimately differ.
use netcluster::clock::now_ms;
use netcluster::collection::ingest::Report;
use netcluster::collection::persist::DeviceState;
use netcluster::collection::query::{Candidates, Page, TextPred};
use netcluster::collection::upkeep::Patch;
use netcluster::collection::Collection;
use netcluster::config::Config;
use netcluster::schema::Dimension;
use netcluster::snapshot::{decode, encode, DeviceRecord};

const PREC: f64 = 1_073_741_824.0;

fn project(lng: f64, lat: f64) -> (i32, i32) {
    let x = ((lng + 180.0) / 360.0).clamp(0.0, 0.9999999);
    let s = (lat * std::f64::consts::PI / 180.0).sin();
    let y = (0.5 - 0.25 * ((1.0 + s) / (1.0 - s)).ln() / std::f64::consts::PI).clamp(0.0, 0.9999999);
    ((x * PREC).round() as i32, (y * PREC).round() as i32)
}

fn cfg(categories: &[&str], ttl: u64) -> Config {
    Config {
        categories: categories.iter().map(|s| s.to_string()).collect(),
        ttl_seconds: ttl,
        ..Default::default()
    }
}

struct Rng(u64);
impl Rng {
    fn next(&mut self) -> f64 {
        self.0 = self.0.wrapping_mul(6364136223846793005).wrapping_add(1);
        (self.0 >> 33) as f64 / (1u64 << 31) as f64
    }
}

/// The bytes a collection is saved as.
fn saved(c: &Collection) -> Vec<u8> {
    let records: Vec<DeviceRecord> = c.export().iter().map(|s| s.to_record()).collect();
    encode(c.name.as_bytes(), &records)
}

/// The devices in some bytes.
fn loaded(bytes: &Vec<u8>) -> Vec<DeviceState> {
    let (_, records) = decode(bytes).unwrap();
    records.iter().map(DeviceState::from_record).collect()
}

fn report<'a>(id: &'a str, lng: f64, lat: f64, cat: Option<&'a [u32]>) -> Report<'a> {
    Report {
        id,
        at: Some(project(lng, lat)),
        props: None,
        cells: cat,
        updated_at_ms: None,
    }
}

const CATS: [[u32; 1]; 3] = [[0], [1], [2]];

/// Build a collection, churn it, snapshot it, restore it, and compare every device.
#[test]
fn a_restored_collection_holds_the_same_devices() {
    let cats = ["idle", "enroute", "delivering"];
    let mut c = Collection::new("fleet", cfg(&cats, 0));

    let mut rng = Rng(42);
    let mut expected: Vec<(String, u32)> = Vec::new();
    for i in 0..3000u32 {
        let id = format!("v{i}");
        let cat = i % 3;
        c.upsert(&[report(
            &id,
            -46.63 + (rng.next() - 0.5) * 0.9,
            -23.55 + (rng.next() - 0.5) * 0.9,
            Some(&CATS[cat as usize]),
        )])
        .unwrap();
        expected.push((id, cat));
    }
    // churn: move some, remove some. Removed devices must not come back.
    for i in (0..3000u32).step_by(7) {
        let id = format!("v{i}");
        c.upsert(&[report(&id, 2.35, 48.85, Some(&CATS[(i % 3) as usize]))])
            .unwrap();
    }
    for i in (0..3000u32).step_by(11) {
        c.remove(&format!("v{i}"));
    }
    expected.retain(|(id, _)| c.contains(id));
    assert!(expected.len() > 2500 && expected.len() < 3000);

    let before: Vec<_> = expected
        .iter()
        .map(|(id, _)| c.device(id).unwrap())
        .collect();

    let bytes = saved(&c);
    assert!(!bytes.is_empty());

    let (meta, records) = decode(&bytes).unwrap();
    assert_eq!(meta, b"fleet");
    assert_eq!(records.len(), expected.len());

    let (mut restored, skipped) =
        Collection::restore("fleet", c.effective_config(), &c.interner.labels(), &loaded(&bytes));
    assert_eq!(skipped, 0, "ttl is 0, nothing should be skipped");
    assert_eq!(restored.len(), expected.len());
    assert_eq!(restored.restored, expected.len() as u64);

    for d in &before {
        let after = restored
            .device(&d.id)
            .unwrap_or_else(|| panic!("{} did not come back", d.id));
        assert_eq!(after.x, d.x, "{} moved", d.id);
        assert_eq!(after.y, d.y, "{} moved", d.id);
        assert_eq!(after.cat_index, d.cat_index, "{} changed category", d.id);
        assert_eq!(after.cat, d.cat);
        assert_eq!(
            after.last_seen_ms, d.last_seen_ms,
            "{} lost its report time",
            d.id
        );
    }
    for i in (0..3000u32).step_by(11) {
        assert!(
            !restored.contains(&format!("v{i}")),
            "a removed device came back from the snapshot"
        );
    }
    restored.verify().expect("the restored index must be sound");

    // and the restored collection is a working collection, not a frozen one
    restored
        .upsert(&[report("brand-new", 1.0, 1.0, Some(&[0]))])
        .unwrap();
    assert!(restored.contains("brand-new"));
    restored.verify().unwrap();
}

/// Positions go through the snapshot as fixed-point, so a device that is never touched must land
/// on exactly the same coordinates however many restarts it sees.
#[test]
fn repeated_restores_do_not_drift() {
    let mut c = Collection::new("fleet", cfg(&[], 0));
    c.upsert(&[report("still", -46.633308, -23.550520, None)])
        .unwrap();
    let first = c.device("still").unwrap();

    for round in 0..10 {
        let bytes = saved(&c);
        c = Collection::restore("fleet", c.effective_config(), &vec![], &loaded(&bytes)).0;
        let d = c.device("still").unwrap();
        assert_eq!(d.x, first.x, "longitude drifted by round {round}");
        assert_eq!(d.y, first.y, "latitude drifted by round {round}");
    }
}

fn record(id: &str, x: i32, cat: u32, last_seen_ms: u64) -> DeviceState {
    DeviceState::from_record(&DeviceRecord {
        id: id.into(),
        x,
        y: x,
        cat,
        last_seen_ms,
    })
}

/// A snapshot from long enough ago restores nothing: those devices went quiet and the sweep would
/// delete them within seconds anyway.
#[test]
fn records_past_the_ttl_are_not_restored() {
    let now = now_ms();
    let records = vec![
        record("fresh", 100, 0, now),
        record("recent", 200, 0, now - 30_000),
        record("stale", 300, 0, now - 600_000),
        record("ancient", 400, 0, 0),
    ];
    let (c, skipped) = Collection::restore("fleet", cfg(&[], 60), &vec![], &records);
    assert_eq!(skipped, 2, "stale and ancient should have been dropped");
    assert!(c.contains("fresh") && c.contains("recent"));
    assert!(!c.contains("stale") && !c.contains("ancient"));

    // ttl 0 disables expiry, so everything comes back
    let (c2, skipped2) = Collection::restore("fleet", cfg(&[], 0), &vec![], &records);
    assert_eq!(skipped2, 0);
    assert_eq!(c2.len(), 4);
}

/// The config can have changed since the snapshot was written. A category that no longer exists
/// must not panic on the startup path.
#[test]
fn a_shrunken_category_list_does_not_take_the_process_down() {
    let now = now_ms();
    let records = vec![record("a", 100, 0, now), record("b", 200, 5, now)];
    let (c, _) = Collection::restore("fleet", cfg(&["only-one"], 0), &vec![], &records);
    assert_eq!(c.len(), 2, "both devices should still be here");
    assert_eq!(
        c.device("b").unwrap().cat_index,
        0,
        "the missing category falls back to 0"
    );
    c.verify().unwrap();

    // and with categories removed entirely
    let (c2, _) = Collection::restore("fleet", cfg(&[], 0), &vec![], &records);
    assert_eq!(c2.len(), 2);
    c2.verify().unwrap();
}

#[test]
fn an_empty_collection_round_trips_so_its_config_survives() {
    let cats = ["idle", "enroute"];
    let c = Collection::new("fleet", cfg(&cats, 900));
    let records = loaded(&saved(&c));
    assert!(records.is_empty());
    // This is what closes the auto-create hazard: a restart brings the geometry back instead of
    // silently recreating a default collection.
    let config = c.effective_config();
    assert_eq!(
        config.categories,
        vec!["idle".to_string(), "enroute".to_string()]
    );
    assert_eq!(config.ttl_seconds, 900);
    let (back, _) = Collection::restore("fleet", config, &vec![], &records);
    assert!(back.is_empty());
}

fn dim(name: &str, values: &[&str]) -> Dimension {
    Dimension {
        name: name.into(),
        values: values.iter().map(|s| s.to_string()).collect(),
        capacity: None,
        multi: false,
    }
}

fn flagged() -> Config {
    Config {
        dimensions: vec![
            dim("flagged", &["true", "false"]),
            dim("status", &["idle", "enroute"]),
        ],
        filters: vec![
            vec!["flagged".into()],
            vec!["status".into()],
            vec!["flagged".into(), "status".into()],
        ],
        text: vec!["plate".into()],
        ttl_seconds: 0,
        ..Default::default()
    }
}

const WORLD: (i32, i32, i32, i32) = (0, 0, 1 << 30, 1 << 30);

/// Patched state is real state, so it has to survive a restart.
#[test]
fn a_patch_survives_a_snapshot_round_trip() {
    let mut c = Collection::new("fleet", flagged());
    c.upsert(&[Report {
        props: Some(r#"{"plate":"OLD0001"}"#),
        // flagged=false, status=idle
        ..report("v1", -46.63, -23.55, Some(&[1]))
    }])
    .unwrap();

    // flip the flag and correct the plate, with no position in sight
    let out = c
        .patch(&[Patch {
            id: "v1",
            cells: Some(&[0]),
            props: Some(r#"{"plate":"NEW0002"}"#),
            updated_at_ms: None,
        }])
        .unwrap();
    assert_eq!(out.applied, 1);

    let (restored, skipped) =
        Collection::restore("fleet", c.effective_config(), &vec![], &c.export());
    assert_eq!(skipped, 0);
    assert_eq!(restored.len(), 1);

    // the patched cell came back...
    let (x0, y0, x1, y1) = WORLD;
    let (found, total) =
        restored.list_devices(x0, y0, x1, y1, 0, &[], Candidates::All, Page::default());
    assert_eq!(
        total, 1,
        "the patched filter cell did not survive the restore"
    );
    assert_eq!(found[0].device.as_deref(), Some("v1"));

    // ...and so did the patched properties, including the searchable field, which is re-extracted
    // on the way back in rather than stored
    let pred = vec![TextPred {
        field: 0,
        contains: true,
        needle: "new".into(),
    }];
    let (found, _) =
        restored.list_devices(x0, y0, x1, y1, -1, &pred, Candidates::All, Page::default());
    assert_eq!(
        found.len(),
        1,
        "the patched plate is not searchable after a restore"
    );
}

#[test]
fn snapshot_preserves_source_version_props_and_searchable_text() {
    let cfg = Config {
        text: vec!["plate".into()],
        ttl_seconds: 0,
        ..Config::default()
    };
    let mut c = Collection::new("fleet", cfg);
    c.upsert(&[Report {
        props: Some(r#"{"plate":"NEW"}"#),
        updated_at_ms: Some(200),
        ..report("v", 20., 20., None)
    }])
    .unwrap();
    let (mut restored, skipped) =
        Collection::restore("fleet", c.effective_config(), &vec![], &c.export());
    assert_eq!(skipped, 0);
    assert_eq!(restored.len(), 1);
    assert_eq!(
        restored
            .upsert(&[Report {
                updated_at_ms: Some(100),
                ..report("v", 1., 20., None)
            }])
            .unwrap(),
        0
    );
    let d = restored.device("v").unwrap();
    assert_eq!(d.updated_at_ms, Some(200));
    assert_eq!((d.x, d.y), project(20., 20.));
    let (x0, y0, x1, y1) = WORLD;
    let hits = restored.search(
        x0,
        y0,
        x1,
        y1,
        20,
        -1,
        &[TextPred {
            field: 0,
            contains: false,
            needle: "new".into(),
        }],
    );
    assert_eq!(hits.len(), 1);
    assert_eq!(hits[0].device.as_deref(), Some("v"));
    assert!(restored.verify().is_ok());
}

#[test]
fn an_adopted_limit_survives_a_snapshot() {
    let mut c = Collection::new(
        "fleet",
        Config {
            ttl_seconds: 300,
            max_props_bytes: 512,
            ..Default::default()
        },
    );
    c.adopt(&Config {
        ttl_seconds: 604_800,
        max_props_bytes: 4096,
        ..Default::default()
    });
    let (restored, _) = Collection::restore("fleet", c.effective_config(), &vec![], &c.export());
    assert_eq!(restored.ttl_seconds(), 604_800);
    assert_eq!(restored.max_props_bytes(), 4096);
}

/// What a dynamic dimension has learned comes back under the same indices.
#[test]
fn labels_bring_interned_values_back() {
    let mut c = Collection::new(
        "fleet",
        Config {
            dimensions: vec![Dimension {
                name: "client".into(),
                values: vec![],
                capacity: Some(3),
                multi: false,
            }],
            ttl_seconds: 0,
            ..Default::default()
        },
    );
    let mut cells = Vec::new();
    for v in ["X", "Y"] {
        let mut vals = vstd::hash_map::StringHashMap::new();
        vals.insert("client".to_string(), vec![v.to_string()]);
        c.cells_for_report(&vals, &mut cells).unwrap();
    }
    assert_eq!(cells, vec![1]);
    c.upsert(&[report("a", 1., 1., Some(&cells))]).unwrap();
    let (back, _) = Collection::restore(
        "fleet",
        c.effective_config(),
        &c.interner.labels(),
        &c.export(),
    );
    assert_eq!(back.interned(), vec![2]);
    let sel = vec![("client".to_string(), "Y".to_string())];
    assert_eq!(back.filter_cell(&sel), Ok(Some(1)));
}

/// A record has room for one category; what is kept beside it makes the device whole again.
#[test]
fn a_record_and_its_extra_are_the_device() {
    let s = DeviceState {
        id: "v".into(),
        x: 5,
        y: 6,
        cells: vec![4, 2],
        last_seen_ms: 77,
        updated_at_ms: Some(9),
        props: Some("{}".into()),
    };
    let (r, e) = s.clone().split();
    assert_eq!((r.id.as_str(), r.x, r.y, r.cat, r.last_seen_ms), ("v", 5, 6, 4, 77));
    let back = DeviceState::join(r, e);
    assert_eq!(back.cells, s.cells);
    assert_eq!((back.updated_at_ms, back.props), (s.updated_at_ms, s.props));
    assert_eq!((back.id, back.x, back.y, back.last_seen_ms), (s.id, 5, 6, 77));
}

#[test]
fn only_a_plausible_device_is_restored() {
    assert!(record("a", 1 << 30, 0, 5).can_restore());
    assert!(!record("a", -1, 0, 5).can_restore());
    assert!(!record("a", (1 << 30) + 1, 0, 5).can_restore());
    assert!(!record("a", 1, 0, u64::MAX).can_restore());
    let twice = DeviceState {
        cells: vec![3, 1, 3],
        ..record("a", 1, 0, 5)
    };
    assert!(!twice.can_restore());
}

/// Properties that are no JSON do not come back; a text that is JSON does.
#[test]
fn only_json_properties_are_restored() {
    let with = |id: &str, props: &str| DeviceState {
        props: Some(props.into()),
        ..record(id, 100, 0, 5)
    };
    let states = vec![with("good", r#"{"a":[1,2]}"#), with("bad", "{oops")];
    let (c, _) = Collection::restore_at("fleet", cfg(&[], 0), &vec![], &states, 10);
    assert_eq!(
        c.device_at("good", 10).unwrap().props.as_deref(),
        Some(r#"{"a":[1,2]}"#)
    );
    assert_eq!(c.device_at("bad", 10).unwrap().props, None);
}
