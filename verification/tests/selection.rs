//! Selecting devices: declared filters, searches, an id whitelist, the flat listing; and updates
//! that carry no position.
use netcluster::answers::{listing, markers, parse_selection};
use netcluster::api::ApiError;
use netcluster::collection::batch::Applied;
use netcluster::collection::ingest::Report;
use netcluster::collection::query::OutFeature;
use netcluster::collection::upkeep::Patch;
use netcluster::collection::Collection;
use netcluster::config::Config;
use netcluster::geojson::CatVal;
use netcluster::positions::{take_items, take_items_at, DimVal, Item, Whereabouts};
use netcluster::request::{parse_page, tile_query};
use netcluster::schema::Dimension;

const PREC: f64 = 1_073_741_824.0;

fn project(lng: f64, lat: f64) -> (i32, i32) {
    let x = ((lng + 180.0) / 360.0).clamp(0.0, 0.9999999);
    let s = (lat * std::f64::consts::PI / 180.0).sin();
    let y = (0.5 - 0.25 * ((1.0 + s) / (1.0 - s)).ln() / std::f64::consts::PI).clamp(0.0, 0.9999999);
    ((x * PREC).round() as i32, (y * PREC).round() as i32)
}

fn dim(name: &str, values: &[&str], multi: bool) -> Dimension {
    Dimension {
        name: name.into(),
        values: values.iter().map(|s| s.to_string()).collect(),
        capacity: None,
        multi,
    }
}

/// A fleet with a boolean flag, a status, and a searchable plate.
fn cfg() -> Config {
    Config {
        dimensions: vec![
            dim("flagged", &["true", "false"], false),
            dim("status", &["idle", "enroute"], false),
        ],
        filters: vec![
            vec!["flagged".into()],
            vec!["status".into()],
            vec!["flagged".into(), "status".into()],
        ],
        text: vec!["plate".into()],
        ttl_seconds: 0,
        ..Default::default()
    }
}

fn item(id: &str) -> Item {
    Item {
        id: id.into(),
        place: Whereabouts::Unsaid,
        cat: None,
        dims: vec![],
        props: None,
        updated_at_ms: None,
    }
}

fn at(id: &str, lng: f64, lat: f64) -> Item {
    Item {
        place: Whereabouts::Here(Some(project(lng, lat))),
        ..item(id)
    }
}

fn dims(i: Item, d: &[(&str, &[&str])]) -> Item {
    Item {
        dims: d
            .iter()
            .map(|(k, v)| {
                (
                    k.to_string(),
                    DimVal(v.iter().map(|s| s.to_string()).collect()),
                )
            })
            .collect(),
        ..i
    }
}

fn props(i: Item, raw: &str) -> Item {
    Item {
        props: Some(raw.into()),
        ..i
    }
}

fn version(i: Item, v: u64) -> Item {
    Item {
        updated_at_ms: Some(v),
        ..i
    }
}

fn post(c: &mut Collection, items: Vec<Item>) -> Result<Applied, ApiError> {
    assert!(c.has_room_for(items.len()));
    take_items(c, &items)
}

/// The pairs of a query string.
fn query(s: &str) -> Vec<(String, String)> {
    s.split('&')
        .filter(|p| !p.is_empty())
        .map(|p| {
            let (k, v) = p.split_once('=').unwrap_or((p, ""));
            (k.to_string(), v.to_string())
        })
        .collect()
}

const W: (i32, i32, i32, i32) = (0, 0, 1 << 30, 1 << 30);

fn clusters_at(c: &Collection, zoom: i32, q: &str) -> Result<Vec<OutFeature>, ApiError> {
    let s = parse_selection(c, &query(q))?;
    Ok(markers(c, &s, W.0, W.1, W.2, W.3, zoom))
}

fn clusters(c: &Collection, q: &str) -> Vec<OutFeature> {
    clusters_at(c, 16, q).unwrap()
}

/// Devices behind a query, counting cluster members rather than markers.
fn count(c: &Collection, q: &str) -> u32 {
    clusters(c, q).iter().map(|f| f.count).sum()
}

fn devices(c: &Collection, q: &str) -> (Vec<OutFeature>, usize) {
    let q = query(q);
    let s = parse_selection(c, &q).unwrap();
    listing(c, &s, W.0, W.1, W.2, W.3, parse_page(&q).unwrap())
}

fn ids_of(fs: &[OutFeature]) -> Vec<String> {
    let mut v: Vec<String> = fs.iter().filter_map(|f| f.device.clone()).collect();
    v.sort();
    v
}

/// Two vehicles stacked in one yard and one on its own, so every test has both the "collapses
/// into a marker" case and the "stands alone" case.
fn seeded() -> Collection {
    let mut c = Collection::new("fleet", cfg());
    let a = post(
        &mut c,
        vec![
            props(
                dims(at("v1", -46.63, -23.55), &[("flagged", &["false"]), ("status", &["idle"])]),
                r#"{"plate":"ABC1111"}"#,
            ),
            props(
                dims(
                    at("v2", -46.70, -23.60),
                    &[("flagged", &["false"]), ("status", &["enroute"])],
                ),
                r#"{"plate":"ABC2222"}"#,
            ),
            props(
                dims(at("v3", -46.70, -23.60), &[("flagged", &["false"]), ("status", &["idle"])]),
                r#"{"plate":"XYZ3333"}"#,
            ),
        ],
    )
    .unwrap();
    assert_eq!(a.accepted, 3);
    c
}

#[test]
fn an_id_whitelist_returns_exactly_those_devices() {
    let c = seeded();
    assert_eq!(ids_of(&clusters(&c, "ids=v1")), ["v1"]);
}

/// Whitelisted devices that sit on top of each other still come back as one marker of 2, exactly
/// as the unfiltered query would draw them.
#[test]
fn whitelisted_devices_in_one_yard_stay_one_marker() {
    let c = seeded();
    let fs = clusters(&c, "ids=v2,v3");
    assert_eq!(fs.len(), 1);
    assert_eq!(fs[0].count, 2);
    // not a node of the tree, so there is nothing to expand
    assert_eq!(fs[0].cluster_id, None);
    assert_eq!(fs[0].device, None);
    let (x, y) = project(-46.70, -23.60);
    assert_eq!((fs[0].sx, fs[0].sy, fs[0].per), (x as i64, y as i64, 1));
}

/// An empty whitelist is an empty answer. The other reading, "no ids named, so show everything",
/// is the one genuinely dangerous answer.
#[test]
fn an_empty_whitelist_matches_nothing_rather_than_everything() {
    let c = seeded();
    assert!(clusters(&c, "ids=").is_empty());
    assert_eq!(devices(&c, "ids=").1, 0);
}

/// Unlike an undeclared filter value. A whitelist comes from somewhere else and a vehicle may
/// expire between that read and this query.
#[test]
fn an_unknown_id_in_a_whitelist_is_skipped_not_an_error() {
    let c = seeded();
    assert_eq!(ids_of(&clusters(&c, "ids=v1,never-existed")), ["v1"]);
}

#[test]
fn a_whitelist_intersects_with_the_declared_filters_and_with_where() {
    let c = seeded();
    assert_eq!(ids_of(&clusters(&c, "ids=v1,v2,v3&f.status=idle")), ["v1", "v3"]);
    assert_eq!(ids_of(&devices(&c, "ids=v1,v2,v3&where=plate~abc").0), ["v1", "v2"]);
}

#[test]
fn too_many_ids_is_refused_rather_than_silently_truncated() {
    let c = seeded();
    let many: Vec<String> = (0..1001).map(|i| format!("v{i}")).collect();
    let e = parse_selection(&c, &query(&format!("ids={}", many.join(",")))).unwrap_err();
    assert_eq!((e.status, e.code), (413, "too_many_ids"));
    assert!(parse_selection(&c, &query(&format!("ids={}", many[1..].join(",")))).is_ok());
}

/// A tile is cached by coordinate and a whitelist is per request, so serving one unfiltered would
/// show every vehicle.
#[test]
fn tiles_refuse_a_whitelist() {
    let e = tile_query(&query("ids=v1")).unwrap();
    assert_eq!((e.status, e.code), (400, "ids_not_supported"));
}

#[test]
fn tiles_refuse_a_search_rather_than_serving_it_unfiltered() {
    let e = tile_query(&query("where=plate~abc")).unwrap();
    assert_eq!((e.status, e.code), (400, "where_not_supported"));
    assert!(tile_query(&query("f.status=idle")).is_none());
}

/// The listing does not group. The two vehicles in one yard are two rows here and one marker in
/// the clustered answer.
#[test]
fn the_listing_never_collapses_coincident_devices() {
    let c = seeded();
    assert_eq!(clusters(&c, "").len(), 2, "expected the yard to collapse");
    let (fs, total) = devices(&c, "");
    assert_eq!(ids_of(&fs), ["v1", "v2", "v3"]);
    assert_eq!(total, 3);
}

#[test]
fn the_listing_takes_the_same_filters_as_the_clustered_query() {
    let c = seeded();
    assert_eq!(ids_of(&devices(&c, "f.status=idle").0), ["v1", "v3"]);
    assert_eq!(ids_of(&devices(&c, "where=plate~xyz").0), ["v3"]);
}

#[test]
fn the_listing_pages_stably_and_reports_the_total() {
    let c = seeded();
    let mut seen = Vec::new();
    for offset in [0, 2] {
        let (fs, total) = devices(&c, &format!("limit=2&offset={offset}"));
        assert_eq!(total, 3, "the total is of matches, not of the page");
        assert!(fs.len() <= 2);
        seen.extend(ids_of(&fs));
    }
    seen.sort();
    assert_eq!(seen, ["v1", "v2", "v3"], "paging lost or repeated a device");
}

#[test]
fn the_listing_can_leave_properties_out() {
    let c = seeded();
    assert!(devices(&c, "").0[0].props.is_some());
    let (fs, _) = devices(&c, "props=false");
    assert!(fs[0].props.is_none());
    // the id and the position are never optional: they are the listing
    assert!(fs[0].device.is_some());
}

#[test]
fn the_listing_respects_a_box() {
    let c = seeded();
    // a box around the yard only
    let (x0, y0) = project(-46.71, -23.59);
    let (x1, y1) = project(-46.69, -23.61);
    let s = parse_selection(&c, &vec![]).unwrap();
    let (fs, total) = listing(&c, &s, x0, y0, x1, y1, Default::default());
    assert_eq!(ids_of(&fs), ["v2", "v3"]);
    assert_eq!(total, 2, "the total counts matches in the box");
}

#[test]
fn an_absurd_page_size_is_refused_with_the_limit_named() {
    let e = parse_page(&query("limit=999999")).unwrap_err();
    assert_eq!((e.status, e.code), (400, "limit_too_large"));
    assert_eq!(e.message, "limit 999999 is over the 10000 a page may hold");
}

#[test]
fn a_report_without_a_position_updates_only_the_values() {
    let mut c = seeded();
    let before = c.device("v1").unwrap();
    let a = post(&mut c, vec![dims(item("v1"), &[("flagged", &["true"])])]).unwrap();
    assert_eq!(a.accepted, 0, "a patch is not a position report");
    assert_eq!(a.patched.applied, 1);
    assert!(a.patched.unknown.is_empty());
    // the filter now finds it...
    assert_eq!(ids_of(&devices(&c, "f.flagged=true").0), ["v1"]);
    // ...and it has not moved a micrometre
    let after = c.device("v1").unwrap();
    assert_eq!((after.x, after.y), (before.x, before.y));
}

#[test]
fn a_position_less_report_can_replace_properties_and_the_search_follows() {
    let mut c = seeded();
    let a = post(&mut c, vec![props(item("v1"), r#"{"plate":"NEW0001"}"#)]).unwrap();
    assert_eq!(a.patched.applied, 1);
    assert_eq!(
        ids_of(&devices(&c, "where=plate~new").0),
        ["v1"],
        "the searchable field did not follow"
    );
    assert!(
        devices(&c, "where=plate~abc1").0.is_empty(),
        "the old plate still matches"
    );
}

/// Both or neither. One alone is always a bug.
#[test]
fn half_a_coordinate_is_refused() {
    let mut c = seeded();
    let e = post(
        &mut c,
        vec![Item {
            place: Whereabouts::Half,
            ..item("v1")
        }],
    )
    .unwrap_err();
    assert_eq!((e.status, e.code), (400, "half_position"));
    assert_eq!(
        e.message,
        "device \"v1\" sent half a coordinate; send both lng and lat, or neither"
    );
}

/// A device that is not live is reported back, not resurrected: its position is unknown, and
/// inventing one to hang a flag on is how a ghost gets on the map.
#[test]
fn patching_an_unknown_device_is_reported_not_fatal() {
    let mut c = seeded();
    let a = post(
        &mut c,
        vec![
            dims(item("ghost"), &[("flagged", &["true"])]),
            dims(item("v1"), &[("flagged", &["true"])]),
        ],
    )
    .unwrap();
    assert_eq!(a.patched.applied, 1, "the good half of the batch applied");
    assert_eq!(a.patched.unknown, vec!["ghost"]);
}

/// A batch may mix the two shapes; each item is whichever it looks like.
#[test]
fn one_batch_may_carry_both_reports_and_patches() {
    let mut c = seeded();
    let a = post(
        &mut c,
        vec![
            at("v1", -46.50, -23.40),
            dims(item("v2"), &[("flagged", &["true"])]),
            dims(at("v9", -46.10, -23.10), &[("flagged", &["true"])]),
        ],
    )
    .unwrap();
    assert_eq!(a.accepted, 2, "two carried a position");
    assert_eq!(a.patched.applied, 1);
    assert_eq!(c.len(), 4);
    assert_eq!(ids_of(&devices(&c, "f.flagged=true").0), ["v2", "v9"]);
}

#[test]
fn an_ordinary_batch_answers_exactly_as_before() {
    let mut c = seeded();
    let a = post(&mut c, vec![at("v1", -46.6, -23.5)]).unwrap();
    assert_eq!((a.accepted, a.late), (1, 0));
    assert_eq!(a.patched.applied, 0);
    assert!(a.patched.unknown.is_empty());
}

/// The counter, so a patch is distinguishable from a report in operations.
#[test]
fn patches_are_counted_apart_from_reports() {
    let mut c = seeded();
    post(&mut c, vec![dims(item("v1"), &[("flagged", &["true"])])]).unwrap();
    let s = c.stats(0);
    assert_eq!(s.patched, 1);
    assert_eq!(s.ingested, 3, "the seed, and not the patch");
}

/// Version checks apply to a patch as they do to a report: a late retry must not undo the newer
/// value.
#[test]
fn a_stale_patch_is_ignored() {
    let mut c = seeded();
    post(&mut c, vec![version(at("v1", -46.63, -23.55), 1000)]).unwrap();
    let flag = |v| vec![version(dims(item("v1"), &[("flagged", &["true"])]), v)];
    let a = post(&mut c, flag(500)).unwrap();
    assert_eq!(a.patched.applied, 0, "an older patch was applied");
    assert!(devices(&c, "f.flagged=true").0.is_empty());
    let a = post(&mut c, flag(2000)).unwrap();
    assert_eq!(a.patched.applied, 1, "a newer patch was rejected");
}

/// A metadata-only update is not a heartbeat: the position stream is what proves a vehicle is
/// still out there.
#[test]
fn a_patch_is_not_a_heartbeat() {
    let t = 1_700_000_000_000;
    let mut c = Collection::new_at(
        "t",
        Config {
            dimensions: vec![dim("flagged", &["true", "false"], false)],
            filters: vec![vec!["flagged".into()]],
            ttl_seconds: 1,
            ..Default::default()
        },
        t,
    );
    let quiet = Report {
        id: "quiet",
        at: Some(project(0.0, 0.0)),
        props: None,
        cells: Some(&[1]),
        updated_at_ms: None,
    };
    let talking = Report {
        id: "talking",
        at: Some(project(1.0, 1.0)),
        ..quiet
    };
    c.upsert_at(&[quiet, talking.clone()], t).unwrap();
    assert_eq!(c.sweep_at(t), 0, "nothing is stale yet");

    // the quiet one gets a flag change; the talking one reports its position
    let out = c
        .patch(&[Patch {
            id: "quiet",
            cells: Some(&[0]),
            props: None,
            updated_at_ms: None,
        }])
        .unwrap();
    assert_eq!(out.applied, 1, "the patch itself must still apply");
    c.upsert_at(&[talking], t + 1100).unwrap();

    assert_eq!(
        c.sweep_at(t + 1100),
        1,
        "the patched-but-silent device should still expire"
    );
    assert_eq!(c.len(), 1);
    c.verify().unwrap();

    // and once it is gone, a patch does not bring it back
    let out = c
        .patch(&[Patch {
            id: "quiet",
            cells: Some(&[1]),
            props: None,
            updated_at_ms: None,
        }])
        .unwrap();
    assert_eq!(out.applied, 0);
    assert_eq!(out.unknown, vec!["quiet".to_string()]);
    assert_eq!(c.len(), 1, "an expired device was resurrected by a patch");
}

/// client is multi-valued, status is not, and all three shapes are declared.
fn fleet() -> Collection {
    Collection::new(
        "fleet",
        Config {
            dimensions: vec![
                dim("client", &["1", "7", "22"], true),
                dim("status", &["idle", "enroute"], false),
            ],
            filters: vec![
                vec!["client".into()],
                vec!["status".into()],
                vec!["client".into(), "status".into()],
            ],
            ttl_seconds: 0,
            ..Default::default()
        },
    )
}

#[test]
fn a_conjunction_is_exact_and_a_device_may_hold_several_values() {
    let mut c = fleet();
    let a = post(
        &mut c,
        vec![
            dims(
                at("a", -46.63, -23.55),
                &[("client", &["1", "7"]), ("status", &["enroute"])],
            ),
            dims(at("b", -46.64, -23.56), &[("client", &["7"]), ("status", &["idle"])]),
            dims(at("c", -46.65, -23.57), &[("client", &["22"]), ("status", &["enroute"])]),
        ],
    )
    .unwrap();
    assert_eq!(a.accepted, 3);
    assert_eq!(count(&c, "f.client=7"), 2, "a and b");
    assert_eq!(count(&c, "f.client=1"), 1, "a only");
    assert_eq!(count(&c, "f.status=enroute"), 2, "a and c");
    assert_eq!(
        count(&c, "f.client=7&f.status=enroute"),
        1,
        "the conjunction is not the product of the marginals"
    );
    assert_eq!(count(&c, "f.client=7&f.status=idle"), 1);
    assert_eq!(count(&c, "f.client=22&f.status=idle"), 0);
    assert_eq!(count(&c, ""), 3, "unfiltered");
}

#[test]
fn a_standing_device_changes_filters_when_its_values_change() {
    let mut c = fleet();
    let parked = |status: &str| {
        vec![dims(
            at("parked", -46.63, -23.55),
            &[("client", &["7"]), ("status", &[status])],
        )]
    };
    post(&mut c, parked("idle")).unwrap();
    assert_eq!(count(&c, "f.status=idle"), 1);
    // identical position, different status
    post(&mut c, parked("enroute")).unwrap();
    assert_eq!(count(&c, "f.status=idle"), 0, "left the old status");
    assert_eq!(count(&c, "f.status=enroute"), 1, "joined the new one");
    assert_eq!(count(&c, "f.client=7"), 1, "client is untouched");
}

#[test]
fn a_bare_position_report_leaves_the_values_alone() {
    // Positions arrive many times a second and carry no filter values; if that re-filed the
    // device into whatever sits at index 0, a fleet would collapse into one bucket within a
    // second of starting up.
    let mut c = fleet();
    post(
        &mut c,
        vec![dims(
            at("v", -46.63, -23.55),
            &[("client", &["22"]), ("status", &["enroute"])],
        )],
    )
    .unwrap();
    post(&mut c, vec![at("v", -46.70, -23.60)]).unwrap();
    assert_eq!(count(&c, "f.client=22"), 1);
    assert_eq!(count(&c, "f.status=enroute"), 1);
    assert_eq!(count(&c, "f.client=1"), 0);
}

#[test]
fn co_located_devices_are_all_reachable_by_filter() {
    let mut c = fleet();
    let mut pts = Vec::new();
    for i in 0..20 {
        pts.push(dims(
            at(&format!("depot-{i}"), -46.6333, -23.5505),
            &[("client", &["7"]), ("status", &["idle"])],
        ));
    }
    for i in 0..30 {
        let d = (i as f64 - 15.0) * 0.02;
        pts.push(dims(
            at(&format!("road-{i}"), -46.63 + d, -23.55 + d),
            &[("client", &["7"]), ("status", &["idle"])],
        ));
    }
    post(&mut c, pts).unwrap();
    assert_eq!(count(&c, "f.client=7"), 50, "all fifty, depot included");
    assert!(
        clusters(&c, "f.client=7").len() < 50,
        "the depot should still be drawn as one marker"
    );
}

#[test]
fn a_filter_that_cannot_be_answered_fails_loudly() {
    let c = Collection::new(
        "fleet",
        Config {
            dimensions: vec![
                dim("client", &["1", "7"], false),
                dim("status", &["idle"], false),
            ],
            // deliberately no ["client","status"] shape
            filters: vec![vec!["client".into()], vec!["status".into()]],
            ttl_seconds: 0,
            ..Default::default()
        },
    );
    for (q, needle) in [
        ("f.client=1&f.status=idle", "no declared filter combines"),
        ("f.nope=1", "unknown filter"),
        ("f.client=999", "unknown value"),
    ] {
        let e = parse_selection(&c, &query(q)).unwrap_err();
        assert_eq!((e.status, e.code), (400, "bad_filter"), "{q}");
        assert!(e.message.contains(needle), "{q}: {}", e.message);
    }
}

#[test]
fn cat_and_f_are_not_mixed() {
    let c = fleet();
    let e = parse_selection(&c, &query("cat=idle&f.client=7")).unwrap_err();
    assert_eq!(e.status, 400);
    assert!(e.message.contains("not both"), "{}", e.message);
}

#[test]
fn an_undeclared_value_is_refused_at_ingest() {
    let mut c = fleet();
    let e = post(
        &mut c,
        vec![dims(at("a", -46.63, -23.55), &[("status", &["exploded"])])],
    )
    .unwrap_err();
    assert_eq!(e.status, 400);
    assert!(e.message.contains("unknown value"), "{}", e.message);
    assert!(e.message.starts_with("device \"a\": "), "{}", e.message);
}

#[test]
fn a_single_valued_dimension_refuses_a_list() {
    let mut c = fleet();
    let e = post(
        &mut c,
        vec![dims(
            at("a", -46.63, -23.55),
            &[("status", &["idle", "enroute"])],
        )],
    )
    .unwrap_err();
    assert_eq!(e.status, 400);
    assert!(e.message.contains("not declared multi"), "{}", e.message);
}

#[test]
fn the_categories_spelling_still_works() {
    let mut c = Collection::new(
        "fleet",
        Config {
            categories: vec!["idle".into(), "enroute".into()],
            ttl_seconds: 0,
            ..Default::default()
        },
    );
    post(
        &mut c,
        vec![
            Item {
                cat: Some(CatVal::Name("enroute".into())),
                ..at("a", -46.63, -23.55)
            },
            Item {
                cat: Some(CatVal::Num(0)),
                ..at("b", -46.64, -23.56)
            },
        ],
    )
    .unwrap();
    assert_eq!(count(&c, "cat=enroute"), 1);
    assert_eq!(count(&c, "cat=idle"), 1);
    assert_eq!(count(&c, "cat=1"), 1, "by index too");
    assert_eq!(count(&c, ""), 2);
}

#[test]
fn tiles_take_the_same_filter() {
    let mut c = fleet();
    post(
        &mut c,
        vec![
            dims(at("a", -46.63, -23.55), &[("client", &["7"]), ("status", &["enroute"])]),
            dims(at("b", -46.64, -23.56), &[("client", &["1"]), ("status", &["idle"])]),
        ],
    )
    .unwrap();
    let s = parse_selection(&c, &query("f.client=7")).unwrap();
    let n: u32 = c.tile(10, 379, 580, s.cat).iter().map(|f| f.count).sum();
    assert_eq!(n, 1, "only the client-7 vehicle");
}

fn dynamic(capacity: usize) -> Collection {
    Collection::new(
        "fleet",
        Config {
            dimensions: vec![
                Dimension {
                    name: "client".into(),
                    values: vec![],
                    capacity: Some(capacity),
                    multi: true,
                },
                dim("status", &["idle", "enroute"], false),
            ],
            filters: vec![
                vec!["client".into()],
                vec!["status".into()],
                vec!["client".into(), "status".into()],
            ],
            ttl_seconds: 0,
            ..Default::default()
        },
    )
}

#[test]
fn values_are_interned_on_first_sight_and_ids_may_be_huge() {
    let mut c = dynamic(64);
    post(
        &mut c,
        vec![
            dims(
                at("a", -46.63, -23.55),
                &[("client", &["3", "1284339"]), ("status", &["enroute"])],
            ),
            dims(at("b", -46.64, -23.56), &[("client", &["1284339"]), ("status", &["idle"])]),
            dims(
                at("c", -46.65, -23.57),
                &[("client", &["99999999"]), ("status", &["enroute"])],
            ),
        ],
    )
    .unwrap();
    assert_eq!(count(&c, "f.client=1284339"), 2);
    assert_eq!(count(&c, "f.client=3"), 1);
    assert_eq!(count(&c, "f.client=99999999"), 1);
    assert_eq!(count(&c, "f.client=1284339&f.status=enroute"), 1);
    assert_eq!(count(&c, ""), 3);
}

#[test]
fn a_value_nothing_has_reported_is_an_empty_map_not_the_whole_fleet() {
    // The dangerous one. The index reads a negative cell as "no filter", so a never-seen value
    // that fell through would answer "which vehicles belong to this client I have never heard of"
    // with every vehicle there is.
    let mut c = dynamic(64);
    post(
        &mut c,
        vec![
            dims(at("a", -46.63, -23.55), &[("client", &["7"]), ("status", &["idle"])]),
            dims(at("b", -46.64, -23.56), &[("client", &["7"]), ("status", &["idle"])]),
        ],
    )
    .unwrap();
    assert_eq!(count(&c, ""), 2);
    assert_eq!(count(&c, "f.client=7"), 2);
    for q in [
        "f.client=404",
        "f.client=404&f.status=idle",
        "f.status=idle&f.client=404",
    ] {
        assert!(clusters(&c, q).is_empty(), "{q}");
        assert_eq!(devices(&c, q).1, 0, "{q}");
    }
    // and a tile for the same query is empty rather than the whole tile
    let s = parse_selection(&c, &query("f.client=404")).unwrap();
    assert!(c.tile(10, 379, 580, s.cat).is_empty());
}

#[test]
fn exhausting_the_capacity_is_loud() {
    let mut c = dynamic(3);
    let pts = (0..3)
        .map(|i| {
            dims(
                at(&format!("v{i}"), -46.63, -23.55),
                &[("client", &[&format!("{}", i * 1000)])],
            )
        })
        .collect();
    post(&mut c, pts).unwrap();
    let e = post(
        &mut c,
        vec![dims(
            at("one-too-many", -46.63, -23.55),
            &[("client", &["4000"])],
        )],
    )
    .unwrap_err();
    assert_eq!(e.status, 400);
    assert!(e.message.contains("capacity"), "{}", e.message);
    // and the batch was refused rather than half-applied
    assert_eq!(count(&c, ""), 3);
}

#[test]
fn a_known_value_keeps_working_after_the_cap_is_hit() {
    let mut c = dynamic(2);
    post(
        &mut c,
        vec![
            dims(at("a", -46.63, -23.55), &[("client", &["10"])]),
            dims(at("b", -46.64, -23.56), &[("client", &["20"])]),
        ],
    )
    .unwrap();
    // full, but the values already interned still resolve, and still ingest
    post(&mut c, vec![dims(at("c", -46.65, -23.57), &[("client", &["10"])])]).unwrap();
    assert_eq!(count(&c, "f.client=10"), 2);
}

fn searchable() -> Config {
    Config {
        dimensions: vec![Dimension {
            name: "client".into(),
            values: vec![],
            capacity: Some(64),
            multi: true,
        }],
        filters: vec![vec!["client".into()]],
        text: vec!["plate".into(), "driver".into()],
        ttl_seconds: 0,
        ..Default::default()
    }
}

fn seed_searchable() -> Collection {
    let mut c = Collection::new("fleet", searchable());
    let v = |id, lng, lat, client, raw| props(dims(at(id, lng, lat), &[("client", &[client])]), raw);
    post(
        &mut c,
        vec![
            // t1 and t2 share a coordinate, so they cluster at every zoom
            v("t1", -46.6333, -23.5505, "7", r#"{"plate":"ABC-1234","driver":"Ana"}"#),
            v("t2", -46.6333, -23.5505, "7", r#"{"plate":"ABC-9999","driver":"Bruno"}"#),
            v("t3", -46.7000, -23.6000, "9", r#"{"plate":"XYZ-0001","driver":"Ana"}"#),
            v("t4", -46.8000, -23.7000, "7", r#"{"plate":"QQQ-5555"}"#),
        ],
    )
    .unwrap();
    c
}

#[test]
fn a_substring_search_finds_matches_including_co_located_ones() {
    let c = seed_searchable();
    assert_eq!(count(&c, "where=plate~abc"), 2, "both ABC plates");
    assert_eq!(count(&c, "where=plate~ABC"), 2, "matching ignores case");
    assert_eq!(count(&c, "where=plate~9999"), 1);
    assert_eq!(count(&c, "where=plate~nothing"), 0);
    assert_eq!(count(&c, ""), 4);
    // the two ABC vehicles share a coordinate, so they must come back as one marker of 2 rather
    // than being dropped or split
    let fs = clusters(&c, "where=plate~abc");
    assert_eq!(fs.len(), 1);
    assert_eq!(fs[0].count, 2);
    assert_eq!(fs[0].cluster_id, None);
    // an ordinary cluster still has a handle
    assert!(clusters(&c, "").iter().any(|f| f.cluster_id.is_some()));
}

/// A term is looked for everywhere in the value, also where a part of it came before.
#[test]
fn a_substring_is_found_wherever_it_stands() {
    let mut c = Collection::new("fleet", searchable());
    post(
        &mut c,
        vec![props(
            dims(at("t1", 1.0, 1.0), &[("client", &["7"])]),
            r#"{"plate":"aaab-éü"}"#,
        )],
    )
    .unwrap();
    for hit in ["a", "aab", "b-", "éü", "ü", "aaab-éü"] {
        assert_eq!(count(&c, &format!("where=plate~{hit}")), 1, "{hit}");
    }
    for miss in ["aaaa", "ba", "aaab-éüx", "u"] {
        assert_eq!(count(&c, &format!("where=plate~{miss}")), 0, "{miss}");
    }
}

#[test]
fn terms_combine_with_each_other_and_with_a_declared_filter() {
    let c = seed_searchable();
    assert_eq!(count(&c, "where=plate~abc,driver~bru"), 1, "t2 only");
    assert_eq!(count(&c, "where=driver=ana"), 2, "exact, case-insensitive");
    assert_eq!(count(&c, "where=driver=an"), 0, "= is the whole value");
    // a scan combined with a precomputed filter
    assert_eq!(count(&c, "where=plate~abc&f.client=7"), 2);
    assert_eq!(count(&c, "where=plate~abc&f.client=9"), 0);
    assert_eq!(count(&c, "where=plate~xyz&f.client=9"), 1);
}

#[test]
fn a_single_match_names_the_device_and_carries_its_props() {
    let c = seed_searchable();
    let fs = clusters(&c, "where=plate~xyz");
    assert_eq!(fs.len(), 1);
    assert_eq!(fs[0].device.as_deref(), Some("t3"));
    assert!(fs[0].props.as_ref().unwrap().contains("XYZ-0001"));
}

#[test]
fn a_device_missing_the_field_never_matches() {
    let c = seed_searchable();
    // t4 has a plate but no driver
    assert_eq!(count(&c, "where=driver~a"), 2, "Ana and Ana, not t4");
    assert_eq!(count(&c, "where=plate~qqq"), 1);
    assert_eq!(count(&c, "where=plate~qqq,driver~a"), 0);
}

#[test]
fn replacing_props_replaces_what_is_searchable() {
    let mut c = seed_searchable();
    assert_eq!(count(&c, "where=plate~abc"), 2);
    // re-plate t2
    post(
        &mut c,
        vec![props(at("t2", -46.6333, -23.5505), r#"{"plate":"DEF-0000"}"#)],
    )
    .unwrap();
    assert_eq!(count(&c, "where=plate~abc"), 1, "t2 kept its old plate");
    assert_eq!(count(&c, "where=plate~def"), 1);
    // props replaces wholesale, so the driver went with it
    assert_eq!(count(&c, "where=driver~bru"), 0);
    // a position report that carries no props leaves the text alone
    post(&mut c, vec![at("t2", -46.6334, -23.5506)]).unwrap();
    assert_eq!(count(&c, "where=plate~def"), 1);
}

#[test]
fn an_undeclared_field_is_refused_rather_than_silently_empty() {
    let c = seed_searchable();
    for (q, needle) in [
        ("where=vin~123", "is not searchable"),
        ("where=plate", "needs `field~substring`"),
        ("where=plate~", "nothing to match"),
    ] {
        let e = parse_selection(&c, &query(q)).unwrap_err();
        assert_eq!((e.status, e.code), (400, "bad_where"), "{q}");
        assert!(e.message.contains(needle), "{q}: {}", e.message);
    }
}

#[test]
fn a_search_agrees_with_brute_force_at_every_zoom() {
    let mut c = Collection::new("fleet", searchable());
    let pts = (0..400)
        .map(|i| {
            props(
                at(
                    &format!("v{i}"),
                    -46.63 + ((i % 20) as f64) * 0.01,
                    -23.55 + ((i / 20) as f64) * 0.01,
                ),
                &format!(
                    "{{\"plate\": \"{}{:04}\"}}",
                    if i % 3 == 0 { "ABC" } else { "XYZ" },
                    i
                ),
            )
        })
        .collect();
    post(&mut c, pts).unwrap();
    let want = (0..400).filter(|i| i % 3 == 0).count() as u32;
    for z in [0, 4, 8, 12, 16] {
        let got: u32 = clusters_at(&c, z, "where=plate~abc")
            .unwrap()
            .iter()
            .map(|f| f.count)
            .sum();
        assert_eq!(got, want, "zoom {z}");
    }
}

#[test]
fn late_equal_and_unversioned_reports_cannot_change_versioned_position_or_props() {
    let mut c = Collection::new("fleet", Config::default());
    let a = post(
        &mut c,
        vec![version(props(at("v", 20., 20.), r#"{"plate":"NEW"}"#), 200)],
    )
    .unwrap();
    assert_eq!(a.accepted, 1);
    for v in [Some(100), Some(200), None] {
        let late = Item {
            updated_at_ms: v,
            ..props(at("v", 1., 1.), r#"{"plate":"OLD"}"#)
        };
        let a = post(&mut c, vec![late]).unwrap();
        assert_eq!((a.accepted, a.late), (0, 1));
    }
    let d = c.device("v").unwrap();
    assert_eq!((d.x, d.y), project(20., 20.));
    assert_eq!(d.updated_at_ms, Some(200));
    assert!(d.props.unwrap().contains("NEW"));
    assert_eq!(c.len(), 1);
}

#[test]
fn a_full_dimension_never_reassigns_a_pending_batch_or_resolved_query() {
    let mut c = Collection::new(
        "fleet",
        Config {
            dimensions: vec![Dimension {
                name: "client".into(),
                capacity: Some(1),
                values: vec![],
                multi: false,
            }],
            ..Config::default()
        },
    );
    let a = || dims(at("a", 1., 1.), &[("client", &["X"])]);
    let b = || dims(at("b", 2., 2.), &[("client", &["Y"])]);
    assert_eq!(post(&mut c, vec![a(), b()]).unwrap_err().status, 400);
    assert_eq!(
        c.len(),
        0,
        "a rejected batch must not partially apply positions"
    );
    post(&mut c, vec![a()]).unwrap();
    let sel = vec![("client".to_string(), "X".to_string())];
    let cell = c.filter_cell(&sel).unwrap().unwrap();
    c.remove("a");
    assert_eq!(post(&mut c, vec![b()]).unwrap_err().status, 400);
    assert!(c.clusters(W.0, W.1, W.2, W.3, 20, cell).is_empty());
    assert_eq!(c.filter_cell(&sel).unwrap(), Some(cell));
}

#[test]
fn the_time_of_a_batch_is_when_its_devices_were_seen() {
    let mut c = Collection::new("fleet", Config::default());
    take_items_at(&mut c, &vec![at("v", 1., 1.)], 7000).unwrap();
    assert_eq!(c.device_at("v", 7500).unwrap().age_ms, 500);
}
