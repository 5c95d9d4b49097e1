//! What a collection adds on top of the index: id interning, category labels, expiry.
use netcluster::clock::now_ms;
use netcluster::collection::ingest::{report_time, report_time_at, Report};
use netcluster::collection::query::OutFeature;
use netcluster::collection::Collection;
use netcluster::config::Config;

const PREC: f64 = 1_073_741_824.0;

/// Longitude and latitude, in degrees, to world coordinates.
fn project(lng: f64, lat: f64) -> (i32, i32) {
    let mut x = (lng + 180.0) / 360.0;
    if x < 0.0 {
        x = 0.0;
    } else if x >= 1.0 {
        x = 0.9999999;
    }
    let s = (lat * std::f64::consts::PI / 180.0).sin();
    let mut y = 0.5 - 0.25 * ((1.0 + s) / (1.0 - s)).ln() / std::f64::consts::PI;
    if y < 0.0 {
        y = 0.0;
    } else if y >= 1.0 {
        y = 0.9999999;
    }
    ((x * PREC).round() as i32, (y * PREC).round() as i32)
}

/// World coordinates back to longitude and latitude, in degrees.
fn unproject(x: f64, y: f64) -> (f64, f64) {
    let lng = x / PREC * 360.0 - 180.0;
    let y2 = y / PREC;
    let lat = 360.0 * ((0.5 - y2) * 2.0 * std::f64::consts::PI).exp().atan() / std::f64::consts::PI
        - 90.0;
    (lng, lat)
}

fn place(f: &OutFeature) -> (f64, f64) {
    unproject(f.sx as f64 / f.per as f64, f.sy as f64 / f.per as f64)
}

fn clusters(c: &Collection, bbox: [f64; 4], zoom: f64, cat: i32) -> Vec<OutFeature> {
    let (x0, y0) = project(bbox[0], bbox[3]);
    let (x1, y1) = project(bbox[2], bbox[1]);
    c.clusters(x0, y0, x1, y1, zoom.floor() as i32, cat)
}

fn cfg(categories: &[&str], ttl: u64) -> Config {
    Config {
        categories: categories.iter().map(|s| s.to_string()).collect(),
        ttl_seconds: ttl,
        ..Default::default()
    }
}

/// A report of a device under one category, if there are any.
fn report<'a>(id: &'a str, lng: f64, lat: f64, cat: Option<&'a [u32]>) -> Report<'a> {
    Report {
        id,
        at: if lng.is_finite() && lat.is_finite() {
            Some(project(lng, lat))
        } else {
            None
        },
        props: None,
        cells: cat,
        updated_at_ms: None,
    }
}

#[test]
fn string_ids_survive_the_round_trip() {
    let mut c = Collection::new("t", cfg(&[], 0));
    c.upsert(&[
        report("truck-1", -46.6333, -23.5505, None),
        report("ônibus-2", -46.6340, -23.5510, None),
        report("", -43.1729, -22.9068, None),
    ])
    .unwrap();
    assert_eq!(c.len(), 3);
    let fs = clusters(&c, [-180.0, -85.0, 180.0, 85.0], 16.0, -1);
    let mut names: Vec<String> = fs.into_iter().filter_map(|f| f.device).collect();
    names.sort();
    assert_eq!(names, vec!["", "truck-1", "ônibus-2"]);
}

#[test]
fn reinterning_a_removed_id_reuses_its_slot() {
    let mut c = Collection::new("t", cfg(&[], 0));
    c.upsert(&[report("a", 0.0, 0.0, None)]).unwrap();
    assert!(c.remove("a"));
    assert_eq!(c.len(), 0);
    assert!(!c.remove("a"), "removing twice must report false");
    c.upsert(&[report("a", 1.0, 1.0, None)]).unwrap();
    assert_eq!(c.len(), 1);
    let f = &clusters(&c, [-10.0, -10.0, 10.0, 10.0], 16.0, -1)[0];
    assert_eq!(f.device.as_deref(), Some("a"));
    assert!(
        (place(f).0 - 1.0).abs() < 1e-6,
        "reinsert kept the stale position"
    );
    assert_eq!(c.devices.len(), 1, "the id kept its number");
}

#[test]
fn category_labels_resolve_by_name_and_by_index() {
    let c = Collection::new("t", cfg(&["idle", "enroute", "delivering"], 0));
    assert_eq!(c.category(None).unwrap(), -1);
    assert_eq!(c.category(Some("")).unwrap(), -1);
    assert_eq!(c.category(Some("idle")).unwrap(), 0);
    assert_eq!(c.category(Some("delivering")).unwrap(), 2);
    assert_eq!(c.category(Some("2")).unwrap(), 2);
    // A typo must fail loudly. Returning "no matches" would look like a working
    // filter over an empty result, which is the worst possible failure here.
    assert!(c.category(Some("delivring")).is_err());
    assert!(c.category(Some("9")).is_err());
    let e = c.category(Some("nope")).unwrap_err();
    assert!(
        e.contains("idle"),
        "the error should list what is valid: {e}"
    );
    let e = Collection::new("t", cfg(&[], 0))
        .category(Some("idle"))
        .unwrap_err();
    assert_eq!(
        e,
        "unknown category \"idle\"; this collection declares no filters"
    );
}

#[test]
fn a_category_out_of_range_is_rejected_at_ingest() {
    let mut c = Collection::new("t", cfg(&["a", "b"], 0));
    let e = c
        .upsert(&[report("x", 0.0, 0.0, Some(&[5]))])
        .unwrap_err();
    assert!(e.contains("category"), "{e}");
    assert_eq!(c.len(), 0, "a rejected batch must not be partially applied");
}

#[test]
fn non_finite_coordinates_are_rejected_before_anything_is_written() {
    let mut c = Collection::new("t", cfg(&[], 0));
    c.upsert(&[report("good", 1.0, 1.0, None)]).unwrap();
    let e = c
        .upsert(&[
            report("ok", 2.0, 2.0, None),
            report("bad", f64::NAN, 0.0, None),
        ])
        .unwrap_err();
    assert!(e.contains("non-finite"), "{e}");
    assert_eq!(
        c.len(),
        1,
        "the whole batch must be rejected, not half of it"
    );
}

#[test]
fn filtered_queries_go_through_the_label() {
    let mut c = Collection::new("t", cfg(&["idle", "enroute", "delivering"], 0));
    c.upsert(&[
        report("t1", -46.6333, -23.5505, Some(&[2])),
        report("t2", -46.6340, -23.5510, Some(&[2])),
        report("t3", -46.6350, -23.5520, Some(&[0])),
        report("t4", -43.1729, -22.9068, Some(&[1])),
    ])
    .unwrap();
    let bbox = [-60.0, -35.0, -30.0, -10.0];
    let cat = c.category(Some("delivering")).unwrap();
    let fs = clusters(&c, bbox, 4.0, cat);
    let total: u32 = fs.iter().map(|f| f.count).sum();
    assert_eq!(total, 2, "only the two delivering trucks should appear");
    assert_eq!(
        clusters(&c, bbox, 4.0, -1)
            .iter()
            .map(|f| f.count)
            .sum::<u32>(),
        4
    );
}

/// A device that stops reporting has to disappear, or clusters quietly fill with ghosts and every
/// count on the map drifts upward.
#[test]
fn expiry_drops_only_the_silent_devices() {
    let t = 1_700_000_000_000;
    let mut c = Collection::new_at("t", cfg(&[], 1), t);
    c.upsert_at(
        &[
            report("old", 0.0, 0.0, None),
            report("older", 1.0, 1.0, None),
        ],
        t,
    )
    .unwrap();
    assert_eq!(c.sweep_at(t), 0, "nothing is stale yet");
    // one device keeps reporting; the other has gone quiet
    c.upsert_at(&[report("old", 0.0, 0.0, None)], t + 1100).unwrap();
    assert_eq!(
        c.sweep_at(t + 1100),
        1,
        "exactly the silent device should be dropped"
    );
    assert_eq!(c.len(), 1);
    assert_eq!(c.expired, 1);
    let names: Vec<String> = clusters(&c, [-10.0, -10.0, 10.0, 10.0], 16.0, -1)
        .into_iter()
        .filter_map(|f| f.device)
        .collect();
    assert_eq!(names, vec!["old"]);
    c.verify().unwrap();
}

#[test]
fn ttl_zero_disables_expiry() {
    let mut c = Collection::new_at("t", cfg(&[], 0), 0);
    c.upsert_at(&[report("a", 0.0, 0.0, None)], 0).unwrap();
    assert_eq!(c.sweep_at(u64::MAX), 0);
    assert_eq!(c.len(), 1);
    assert_eq!(c.sweep(), 0);
}

#[test]
fn tiles_carry_the_same_devices_as_the_bbox_query() {
    let mut c = Collection::new("t", cfg(&[], 0));
    let pts: Vec<(String, f64, f64)> = (0..500)
        .map(|i| {
            let f = i as f64;
            (
                format!("v{i}"),
                -46.63 + (f * 0.37).sin() * 0.4,
                -23.55 + (f * 0.71).cos() * 0.4,
            )
        })
        .collect();
    c.upsert(
        &pts.iter()
            .map(|(id, lng, lat)| report(id, *lng, *lat, None))
            .collect::<Vec<_>>(),
    )
    .unwrap();

    for z in 0..4 {
        let side = 1i64 << z;
        let mut total = 0u32;
        for x in 0..side {
            for y in 0..side {
                for f in c.tile(z, x, y, -1) {
                    if f.x >= 0 && f.x < 512 && f.y >= 0 && f.y < 512 {
                        total += f.count;
                    }
                }
            }
        }
        assert_eq!(total, 500, "z={z}: tiles carried {total} of 500 devices");
    }
}

/// The tile is padded by the cluster radius, so that a marker on a seam is emitted by both
/// neighbours rather than clipped.
#[test]
fn a_marker_on_a_seam_is_shown_by_both_tiles() {
    let mut c = Collection::new("t", cfg(&[], 0));
    let middle = 1 << 29;
    c.upsert(&[Report {
        at: Some((middle, 1000)),
        ..report("v", 0.0, 0.0, None)
    }])
    .unwrap();
    let (left, right) = (c.tile(1, 0, 0, -1), c.tile(1, 1, 0, -1));
    assert_eq!((left.len(), right.len()), (1, 1));
    assert_eq!((left[0].x, right[0].x), (512, 0));
    assert_eq!(left[0].device, right[0].device);
    assert!(c.tile(1, 0, 1, -1).is_empty());
}

/// Radius and extent are one knob in two parts: what matters is the ratio.
#[test]
fn twice_the_radius_on_twice_the_extent_clusters_identically() {
    let shown = |radius, extent| {
        let mut c = Collection::new(
            "t",
            Config {
                radius,
                extent,
                ..cfg(&[], 0)
            },
        );
        let ids: Vec<String> = (0..200).map(|i| format!("v{i}")).collect();
        let reports: Vec<Report> = ids
            .iter()
            .enumerate()
            .map(|(i, id)| {
                let f = i as f64;
                report(id, (f * 0.37).sin() * 4.0, (f * 0.71).cos() * 4.0, None)
            })
            .collect();
        c.upsert(&reports).unwrap();
        (0..=16)
            .map(|z| {
                clusters(&c, [-180.0, -85.0, 180.0, 85.0], z as f64, -1)
                    .into_iter()
                    .map(|f| (f.sx, f.sy, f.count, f.device, f.cluster_id))
                    .collect::<Vec<_>>()
            })
            .collect::<Vec<_>>()
    };
    assert_eq!(shown(40_000, 512_000), shown(80_000, 1_024_000));
}

/// Registration must track the index, not the id-interning table. Interning is permanent, so
/// asking the intern table "have I seen this id" would answer yes forever.
#[test]
fn contains_reflects_the_index_not_the_intern_table() {
    let mut c = Collection::new("t", cfg(&["idle", "enroute"], 0));
    assert!(!c.contains("truck-1"), "empty collection");
    assert!(c.device("truck-1").is_none());

    c.upsert(&[report("truck-1", -46.6333, -23.5505, Some(&[1]))])
        .unwrap();
    assert!(c.contains("truck-1"));
    assert!(!c.contains("truck-2"), "an id never reported");

    // this is the case the intern table would get wrong
    assert!(c.remove("truck-1"));
    assert!(!c.contains("truck-1"), "a removed device is not registered");
    assert!(c.device("truck-1").is_none());

    c.upsert(&[report("truck-1", 1.0, 1.0, Some(&[0]))]).unwrap();
    assert!(c.contains("truck-1"), "reporting again re-registers it");
}

#[test]
fn device_reports_position_category_and_staleness() {
    let t = 1_700_000_000_000;
    let mut c = Collection::new("t", cfg(&["idle", "enroute", "delivering"], 300));
    c.upsert_at(&[report("truck-1", -46.6333, -23.5505, Some(&[2]))], t)
        .unwrap();

    let d = c.device_at("truck-1", t + 10).expect("registered");
    assert_eq!(d.id, "truck-1");
    let (lng, lat) = unproject(d.x as f64, d.y as f64);
    assert!((lng - -46.6333).abs() < 1e-6, "lng {lng}");
    assert!((lat - -23.5505).abs() < 1e-6, "lat {lat}");
    assert_eq!(d.cat.as_deref(), Some("delivering"));
    assert_eq!(d.cat_index, 2);
    assert_eq!(d.last_seen_ms, t);
    assert_eq!(d.age_ms, 10);

    // a move updates the position and refreshes the age, without losing the category
    c.upsert_at(&[report("truck-1", -46.70, -23.60, Some(&[2]))], t + 30)
        .unwrap();
    let after = c.device_at("truck-1", t + 30).unwrap();
    assert_eq!(after.age_ms, 0, "reporting did not refresh last_seen");
    assert!((unproject(after.x as f64, after.y as f64).0 - -46.70).abs() < 1e-6);
    assert_eq!(after.cat_index, 2);
}

#[test]
fn device_without_categories_still_answers() {
    let mut c = Collection::new("t", cfg(&[], 0));
    c.upsert(&[report("a", 1.0, 2.0, None)]).unwrap();
    let d = c.device("a").unwrap();
    assert_eq!(d.cat, None, "no labels configured, so no label to report");
    assert_eq!(d.cat_index, 0);
}

/// An expired device must stop being registered, not linger as a ghost that `contains` still
/// vouches for.
#[test]
fn an_expired_device_is_no_longer_registered() {
    let mut c = Collection::new_at("t", cfg(&[], 1), 0);
    c.upsert_at(&[report("ghost", 1.0, 1.0, None)], 5000).unwrap();
    assert!(c.contains("ghost"));
    assert_eq!(c.sweep_at(6100), 1);
    assert!(!c.contains("ghost"));
    assert!(c.device("ghost").is_none());
}

/// A repair from the records, after a fault in what is derived from them.
#[test]
fn a_missing_derived_record_is_repaired_on_the_next_report() {
    let mut c = Collection::new(
        "test",
        Config {
            ttl_seconds: 0,
            ..Config::default()
        },
    );
    let first = Report {
        id: "v",
        at: Some(project(1., 1.)),
        cells: None,
        props: None,
        updated_at_ms: Some(100),
    };
    c.upsert(&[first]).unwrap();
    assert!(c.index.remove(0)); // fault injection, keep independent source data
    assert!(c.verify().is_err());
    assert_eq!(
        c.upsert(&[Report {
            id: "v",
            at: Some(project(20., 20.)),
            cells: None,
            props: Some(r#"{"plate":"NEW"}"#),
            updated_at_ms: Some(200),
        }])
        .unwrap(),
        1
    );
    // The index's move operation reinserts a missing id itself; a full rebuild is unnecessary
    // for this recoverable case.
    assert_eq!(c.repairs, 0);
    assert!(c.verify().is_ok());
    let hits = clusters(&c, [-180., -85., 180., 85.], 20., -1);
    assert_eq!(hits.len(), 1);
    assert!((place(&hits[0]).0 - 20.).abs() < 1e-6);
    assert!(hits[0].props.as_ref().unwrap().contains("NEW"));
}

#[test]
fn health_count_does_not_acquire_the_index_lock() {
    let c = Collection::new("test", Config::default());
    assert_eq!(c.len(), 0);
    assert!(c.is_empty());
}

#[test]
fn handles_lead_to_children_leaves_and_the_zoom_they_split_at() {
    let mut c = Collection::new("t", cfg(&[], 0));
    let ids: Vec<String> = (0..40).map(|i| format!("v{i}")).collect();
    let reports: Vec<Report> = ids
        .iter()
        .enumerate()
        .map(|(i, id)| report(id, -46.6 + i as f64 * 0.01, -23.5, None))
        .collect();
    c.upsert(&reports).unwrap();
    let world = clusters(&c, [-180.0, -85.0, 180.0, 85.0], 2.0, -1);
    assert_eq!(world.len(), 1);
    let handle = world[0].cluster_id.unwrap();
    let zoom = c.expansion_zoom(handle).unwrap();
    assert!(zoom > 2);
    let kids = c.children(handle).unwrap();
    assert!(kids.len() >= 2);
    assert_eq!(kids.iter().map(|k| k.count).sum::<u32>(), 40);
    let all = c.leaves(handle, 100, 0).unwrap();
    assert_eq!(all.len(), 40);
    let page = c.leaves(handle, 7, 3).unwrap();
    assert_eq!(page.len(), 7);
    assert_eq!(page[0].device, all[3].device);
    let here = c.device_cluster("v7", 2).unwrap();
    assert_eq!(here.cluster_id, Some(handle));
    assert!(c.device_cluster("nobody", 2).is_none());
    let e = c.children(u64::MAX).unwrap_err();
    assert!(e.contains("does not refer to a live cluster"), "{e}");
    assert!(c.leaves(u64::MAX, 1, 0).is_err());
    assert!(c.expansion_zoom(u64::MAX).is_err());
}

#[test]
fn figures_tell_what_happened() {
    let t = 1_700_000_000_000;
    let mut c = Collection::new_at("fleet", cfg(&["idle", "enroute"], 0), t);
    c.config.text.clear();
    c.upsert_at(
        &[
            Report {
                props: Some(r#"{"a":1}"#),
                ..report("a", 1.0, 1.0, Some(&[1]))
            },
            report("b", 2.0, 2.0, Some(&[0])),
        ],
        t,
    )
    .unwrap();
    let s = c.stats_at(5, t + 7);
    assert_eq!(s.name, "fleet");
    assert_eq!((s.devices, s.ingested, s.queries), (2, 2, 5));
    assert_eq!(s.uptime_ms, 7);
    assert_eq!(s.props_bytes, 7);
    assert_eq!(s.interned, vec![0]);
    assert_eq!(s.dimension_capacities, vec![2]);
    assert_eq!(s.centers_per_level.len(), 17);
    assert_eq!(*s.centers_per_level.last().unwrap(), 2);
    assert!(s.centers_per_level.windows(2).all(|w| w[0] <= w[1]));
    assert_eq!(s.centers_per_level.iter().sum::<u32>() as usize, s.grid_entries);
    assert!(s.memory_bytes > 0);
    c.snapshot_written(t + 9, 1234);
    c.snapshot_failed();
    let s = c.stats(6);
    assert_eq!((s.last_snapshot_ms, s.last_snapshot_bytes), (t + 9, 1234));
    assert_eq!(s.snapshot_failures, 1);
    assert!(now_ms() > t, "the clock stands after this was written");
}

#[test]
fn an_adopted_limit_is_in_force_and_recorded() {
    let mut c = Collection::new(
        "fleet",
        Config {
            ttl_seconds: 300,
            max_props_bytes: 512,
            ..Default::default()
        },
    );
    assert_eq!(
        c.adopt(&Config {
            ttl_seconds: 604_800,
            max_props_bytes: 4096,
            ..Default::default()
        }),
        vec!["ttl_seconds", "max_props_bytes"]
    );
    assert_eq!(c.ttl_seconds(), 604_800);
    assert_eq!(c.max_props_bytes(), 4096);
    let e = c.effective_config();
    assert_eq!((e.ttl_seconds, e.max_props_bytes), (604_800, 4096));
    assert!(c.config.frozen_conflict(&e).is_none());
    assert!(c.adopt(&e).is_empty(), "nothing moved, so nothing to report");
}

#[test]
fn reports_are_judged_before_they_are_taken() {
    let mut c = Collection::new(
        "fleet",
        Config {
            max_props_bytes: 16,
            text: vec!["plate".into()],
            ttl_seconds: 0,
            ..Default::default()
        },
    );
    let with = |props: &'static str| Report {
        props: Some(props),
        ..report("v", 1.0, 1.0, None)
    };
    let e = c.upsert(&[with("[1]")]).unwrap_err();
    assert!(e.contains("props must be a JSON object, got [1]"), "{e}");
    let e = c.upsert(&[with(r#"{"plate":"abc1234"}"#)]).unwrap_err();
    assert!(e.contains("props are 19 bytes, the limit is 16"), "{e}");
    let e = c.upsert(&[with("{oops}")]).unwrap_err();
    assert!(e.contains("properties are unreadable"), "{e}");
    c.adopt(&Config {
        max_props_bytes: 0,
        ..c.effective_config()
    });
    let e = c.upsert(&[with("{}")]).unwrap_err();
    assert!(e.contains("max_props_bytes = 0"), "{e}");
    assert_eq!(c.len(), 0);
}

/// A report from where the device stands is no move; one that breaks nothing is a fast one.
#[test]
fn moves_are_counted_as_reports_come_in() {
    let mut c = Collection::new("fleet", cfg(&[], 0));
    c.upsert(&[report("v", 10.0, 50.0, None)]).unwrap();
    c.upsert(&[report("v", 10.0, 50.0, None)]).unwrap();
    let s = c.stats(0);
    assert_eq!((s.moves, s.moves_fast), (0, 0));
    c.upsert(&[report("v", 10.0001, 50.0, None)]).unwrap();
    let s = c.stats(0);
    assert_eq!((s.moves, s.moves_fast), (1, 1));
    // The other device stays behind, so the tree is repaired.
    c.upsert(&[report("w", 10.0001, 50.0, None)]).unwrap();
    c.upsert(&[report("v", -120.0, -30.0, None)]).unwrap();
    let s = c.stats(0);
    assert_eq!((s.moves, s.moves_fast), (2, 1));
    assert_eq!(s.ingested, 5);
}

/// What arrives bears the time on the clock; the mark of a device that is not live is no time.
#[test]
fn a_report_bears_the_time_it_arrives_at() {
    assert_eq!(report_time_at(0), 0);
    assert_eq!(report_time_at(1_700_000_000_000), 1_700_000_000_000);
    assert_eq!(report_time_at(u64::MAX - 1), u64::MAX - 1);
    assert_eq!(report_time_at(u64::MAX), u64::MAX - 1);
    let before = now_ms();
    let t = report_time();
    assert!(before <= t && t <= now_ms());
}

/// Where the index has other filter cells than the record, a report that brings none makes it
/// be built anew, once; after that it follows.
#[test]
fn a_rebuild_is_counted_once() {
    let mut c = Collection::new(
        "test",
        Config {
            categories: vec!["a".into(), "b".into()],
            ttl_seconds: 0,
            ..Config::default()
        },
    );
    let at = |lng: f64| Some(project(lng, 1.));
    let plain = |lng: f64| Report {
        id: "v",
        at: at(lng),
        cells: None,
        props: None,
        updated_at_ms: None,
    };
    c.upsert(&[plain(1.)]).unwrap();
    let (x, y) = project(1., 1.);
    c.index.move_to_projected_cells(0, x, y, Some(&[1])); // fault injection
    assert!(c.verify().is_err());
    assert_eq!(c.upsert(&[plain(2.), plain(3.)]).unwrap(), 2);
    assert_eq!(c.repairs, 1);
    assert!(c.verify().is_ok());
    assert_eq!(clusters(&c, [-180., -85., 180., 85.], 20., 0).len(), 1);
    assert_eq!(clusters(&c, [-180., -85., 180., 85.], 20., 1).len(), 0);
}
