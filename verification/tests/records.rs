//! What reports and patches leave behind, on concrete values.
use netcluster::collection::ingest::Report;
use netcluster::collection::query::{Candidates, Page};
use netcluster::collection::upkeep::Patch;
use netcluster::collection::Collection;
use netcluster::config::Config;

const W: (i32, i32, i32, i32) = (0, 0, 1 << 30, 1 << 30);

fn fleet() -> Collection {
    Collection::new_at(
        "fleet",
        Config {
            categories: vec!["idle".into(), "enroute".into()],
            text: vec!["plate".into()],
            ttl_seconds: 0,
            ..Default::default()
        },
        0,
    )
}

fn bare(id: &str, x: i32, y: i32) -> Report<'_> {
    Report {
        id,
        at: Some((x, y)),
        props: None,
        cells: None,
        updated_at_ms: None,
    }
}

#[test]
fn a_report_repeated_changes_nothing_but_its_time() {
    let mut c = fleet();
    let r = Report {
        props: Some(r#"{"plate":"A"}"#),
        cells: Some(&[1]),
        ..bare("v", 5, 6)
    };
    c.upsert_at(&[r.clone()], 100).unwrap();
    let one = c.device_at("v", 500).unwrap();
    c.upsert_at(&[r], 200).unwrap();
    let two = c.device_at("v", 500).unwrap();
    assert_eq!((one.x, one.y, one.cat_index), (two.x, two.y, two.cat_index));
    assert_eq!(one.props, two.props);
    assert_eq!((one.last_seen_ms, two.last_seen_ms), (100, 200));
    assert_eq!(c.len(), 1);
}

#[test]
fn a_bare_report_moves_a_device_and_no_more() {
    let mut c = fleet();
    c.upsert_at(
        &[Report {
            props: Some(r#"{"plate":"A"}"#),
            cells: Some(&[1]),
            ..bare("v", 5, 6)
        }],
        100,
    )
    .unwrap();
    c.upsert_at(&[bare("v", 7, 8)], 200).unwrap();
    let d = c.device_at("v", 200).unwrap();
    assert_eq!((d.x, d.y, d.cat_index), (7, 8, 1));
    assert_eq!(d.props.as_deref(), Some(r#"{"plate":"A"}"#));
}

#[test]
fn reports_touch_only_the_devices_they_name() {
    let mut c = fleet();
    c.upsert_at(&[bare("a", 1, 1), bare("b", 2, 2)], 100).unwrap();
    c.upsert_at(&[bare("a", 3, 3)], 200).unwrap();
    let b = c.device_at("b", 200).unwrap();
    assert_eq!((b.x, b.y, b.last_seen_ms), (2, 2, 100));
}

#[test]
fn versions_only_rise() {
    let mut c = fleet();
    let v = |n| Report {
        updated_at_ms: n,
        ..bare("v", 1, 1)
    };
    let mut seen = None;
    for n in [Some(5), Some(3), None, Some(5), Some(9), Some(8)] {
        c.upsert_at(&[v(n)], 100).unwrap();
        let now = c.device_at("v", 100).unwrap().updated_at_ms;
        assert!(now >= seen);
        seen = now;
    }
    assert_eq!(seen, Some(9));
}

#[test]
fn a_device_that_comes_back_inherits_nothing() {
    let mut c = fleet();
    c.upsert_at(
        &[Report {
            props: Some(r#"{"plate":"A"}"#),
            cells: Some(&[1]),
            updated_at_ms: Some(50),
            ..bare("v", 1, 1)
        }],
        100,
    )
    .unwrap();
    assert!(c.remove("v"));
    c.upsert_at(&[bare("v", 2, 2)], 200).unwrap();
    let d = c.device_at("v", 200).unwrap();
    assert_eq!(d.cat_index, 0);
    assert_eq!(d.props, None);
    assert_eq!(d.updated_at_ms, None);
}

#[test]
fn a_patch_keeps_what_it_does_not_name() {
    let mut c = fleet();
    c.upsert_at(
        &[Report {
            props: Some(r#"{"plate":"A"}"#),
            cells: Some(&[1]),
            ..bare("v", 1, 1)
        }],
        100,
    )
    .unwrap();
    let cells = Patch {
        id: "v",
        cells: Some(&[0]),
        props: None,
        updated_at_ms: None,
    };
    assert_eq!(c.patch(&[cells.clone()]).unwrap().applied, 1);
    let d = c.device_at("v", 100).unwrap();
    assert_eq!((d.x, d.y, d.cat_index, d.last_seen_ms), (1, 1, 0, 100));
    assert_eq!(d.props.as_deref(), Some(r#"{"plate":"A"}"#));
    let e = c
        .patch(&[Patch {
            cells: Some(&[7]),
            ..cells
        }])
        .unwrap_err();
    assert_eq!(
        e,
        "device \"v\" has category 7 but this collection has 2"
    );
}

#[test]
fn pages_put_together_are_the_whole_listing() {
    let mut c = fleet();
    let ids: Vec<String> = (0..23).map(|i| format!("v{i}")).collect();
    let rs: Vec<Report> = ids
        .iter()
        .enumerate()
        .map(|(i, id)| bare(id, i as i32 * 1000, 7))
        .collect();
    c.upsert_at(&rs, 1).unwrap();
    let page = |limit, offset| {
        let p = Page {
            limit,
            offset,
            with_props: true,
        };
        let (fs, total) = c.list_devices(W.0, W.1, W.2, W.3, -1, &[], Candidates::All, p);
        assert_eq!(total, 23);
        fs.into_iter().map(|f| f.device.unwrap()).collect::<Vec<_>>()
    };
    let mut all = page(10, 0);
    all.extend(page(10, 10));
    all.extend(page(10, 20));
    assert_eq!(all, page(100, 0));
    assert_eq!(all, ids);
    assert!(page(10, 23).is_empty());
}

#[test]
fn a_search_without_terms_draws_the_map() {
    let mut c = fleet();
    let ids: Vec<String> = (0..60).map(|i| format!("v{i}")).collect();
    let rs: Vec<Report> = ids
        .iter()
        .enumerate()
        .map(|(i, id)| bare(id, (i as i32 % 8) * 40_000_000, (i as i32 / 8) * 40_000_000))
        .collect();
    c.upsert_at(&rs, 1).unwrap();
    for z in [0, 2, 4, 8, 16] {
        let mut a: Vec<u32> = c
            .clusters(W.0, W.1, W.2, W.3, z, -1)
            .iter()
            .map(|f| f.count)
            .collect();
        let mut b: Vec<u32> = c
            .search(W.0, W.1, W.2, W.3, z, -1, &[])
            .iter()
            .map(|f| f.count)
            .collect();
        a.sort();
        b.sort();
        assert_eq!(a, b, "zoom {z}");
    }
}
