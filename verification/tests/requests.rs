//! What requests are read as, what they are refused with, and what the figures look like.
use netcluster::admin::{check_config, metrics_text, redeclare};
use netcluster::api::{
    body_rejected, no_collection, not_drawn, not_registered, ApiError, BodyFault,
};
use netcluster::clock::reading;
use netcluster::collection::ingest::Report;
use netcluster::collection::Collection;
use netcluster::config::ConfigBody;
use netcluster::request::{
    lookup, parse_ids, parse_leaves, parse_page, tile_address, tile_format, TileFormat,
};
use netcluster::schema::Dimension;
use netcluster::tiles::tile_body;

fn query(pairs: &[(&str, &str)]) -> Vec<(String, String)> {
    pairs
        .iter()
        .map(|(k, v)| (k.to_string(), v.to_string()))
        .collect()
}

#[test]
fn a_query_is_looked_up_by_name() {
    let q = query(&[("zoom", "3"), ("cat", "")]);
    assert_eq!(lookup(&q, "zoom"), Some("3"));
    assert_eq!(lookup(&q, "cat"), Some(""));
    assert_eq!(lookup(&q, "bbox"), None);
}

#[test]
fn ids_are_separated_by_commas() {
    assert_eq!(parse_ids(&vec![]).unwrap(), None);
    assert_eq!(parse_ids(&query(&[("ids", "")])).unwrap(), Some(vec![]));
    assert_eq!(
        parse_ids(&query(&[("ids", "v1,v2")])).unwrap(),
        Some(vec!["v1".to_string(), "v2".to_string()])
    );
}

#[test]
fn pages_have_defaults_and_a_bound() {
    let p = parse_page(&vec![]).unwrap();
    assert_eq!((p.limit, p.offset, p.with_props), (1000, 0, true));
    let p = parse_page(&query(&[
        ("limit", "10000"),
        ("offset", "7"),
        ("props", "false"),
    ]))
    .unwrap();
    assert_eq!((p.limit, p.offset, p.with_props), (10000, 7, false));
    assert!(parse_page(&query(&[("limit", "10001")])).is_err());
    // nonsense is as good as nothing
    assert_eq!(parse_page(&query(&[("limit", "-3")])).unwrap().limit, 1000);
    assert_eq!(parse_leaves(&vec![]), (10, 0));
    assert_eq!(
        parse_leaves(&query(&[("limit", "20000"), ("offset", "5")])),
        (10000, 5)
    );
}

#[test]
fn a_tile_address_is_checked_against_its_zoom() {
    assert_eq!(tile_address(3, 7, "5.mvt").unwrap(), (5, "mvt".to_string()));
    assert_eq!(tile_address(0, 0, "0").unwrap(), (0, "mvt".to_string()));
    assert_eq!(
        tile_address(2, 1, "1.json").unwrap(),
        (1, "json".to_string())
    );
    let said = |z, x, y| tile_address(z, x, y).unwrap_err().message;
    assert_eq!(said(2, 1, "x.json"), "tile y must be an integer");
    assert_eq!(said(21, 1, "1.json"), "tile z must be between 0 and 20");
    assert_eq!(
        said(1, 2, "-1"),
        "tile (2, -1) is outside the 0..2 range for zoom 1"
    );
}

#[test]
fn tile_formats_go_by_their_extension() {
    assert_eq!(tile_format("mvt").unwrap(), TileFormat::Mvt);
    assert_eq!(tile_format("pbf").unwrap(), TileFormat::Mvt);
    assert_eq!(tile_format("json").unwrap(), TileFormat::Json);
    assert_eq!(tile_format("geojson").unwrap(), TileFormat::Json);
    let e = tile_format("png").unwrap_err();
    assert_eq!((e.status, e.code), (400, "bad_request"));
    assert_eq!(
        e.message,
        "unknown tile format \"png\"; use .mvt or .json"
    );
}

#[test]
fn what_is_not_there_says_so() {
    let e = no_collection("a\"b");
    assert_eq!((e.status, e.code), (404, "no_such_collection"));
    assert_eq!(e.message, "no collection \"a\\\"b\"");
    let e = not_registered("v", "fleet");
    assert_eq!((e.status, e.code), (404, "device_not_registered"));
    assert_eq!(e.message, "device \"v\" is not registered in \"fleet\"");
    let e = not_drawn("v", "fleet");
    assert_eq!((e.status, e.code), (404, "device_not_registered"));
    assert_eq!(e.message, "device \"v\" is not in \"fleet\"");
    let e = ApiError::not_found("x".into());
    assert_eq!((e.status, e.code), (404, "not_found"));
}

#[test]
fn a_body_that_was_not_accepted_has_its_slug() {
    for (fault, code) in [
        (BodyFault::Data, "unprocessable_body"),
        (BodyFault::Syntax, "malformed_json"),
        (BodyFault::ContentType, "wrong_content_type"),
        (BodyFault::Bytes, "body_too_large"),
        (BodyFault::Other, "bad_body"),
    ] {
        let e = body_rejected(422, "why".into(), fault);
        assert_eq!((e.status, e.message.as_str(), e.code), (422, "why", code));
    }
    let e = ApiError::conflict("taken".into());
    assert_eq!((e.status, e.code), (409, "conflict"));
}

#[test]
fn a_clock_before_its_epoch_reads_zero() {
    assert_eq!(reading(None), 0);
    assert_eq!(reading(Some(1234)), 1234);
}

/// A config that declares one of everything, so any single field can be changed on its own and
/// the conflict can only have come from that field.
fn base() -> ConfigBody {
    ConfigBody {
        max_zoom: Some(14),
        radius: Some(50_000),
        extent: Some(512_000),
        hysteresis: Some(250),
        categories: None,
        dimensions: Some(vec![dim(&["idle", "enroute"])]),
        filters: Some(vec![vec!["status".into()]]),
        text: Some(vec!["plate".into()]),
        ttl_seconds: Some(0),
        max_props_bytes: Some(512),
    }
}

fn dim(values: &[&str]) -> Dimension {
    Dimension {
        name: "status".into(),
        values: values.iter().map(|s| s.to_string()).collect(),
        capacity: None,
        multi: false,
    }
}

fn created(body: ConfigBody) -> Collection {
    let cfg = body.into_config();
    assert!(check_config(&cfg).is_none());
    Collection::new("fleet", cfg)
}

#[test]
fn an_identical_put_changes_nothing_and_says_so() {
    let mut c = created(base());
    assert_eq!(
        redeclare(&mut c, &base().into_config()).unwrap(),
        Vec::<&str>::new(),
        "nothing moved, so nothing to report"
    );
}

fn bare() -> ConfigBody {
    ConfigBody {
        max_zoom: None,
        radius: None,
        extent: None,
        hysteresis: None,
        categories: None,
        dimensions: None,
        filters: None,
        text: None,
        ttl_seconds: Some(0),
        max_props_bytes: None,
    }
}

/// A deploy adds a searchable field to an existing collection.
#[test]
fn adding_a_searchable_field_to_a_live_collection_is_refused() {
    let mut c = created(bare());
    let e = redeclare(
        &mut c,
        &ConfigBody {
            text: Some(vec!["plate".into()]),
            ..bare()
        }
        .into_config(),
    )
    .unwrap_err();
    assert_eq!((e.status, e.code), (409, "config_conflict"));
    assert_eq!(
        e.message,
        "collection \"fleet\" already exists with a different text; drop it or use another name"
    );
    assert!(c.config.text.is_empty());
}

/// Every frozen field, not just the ones someone remembered to wire up.
#[test]
fn every_field_the_index_is_built_from_is_a_conflict() {
    let cases = vec![
        ("max_zoom", ConfigBody { max_zoom: Some(15), ..base() }),
        ("radius", ConfigBody { radius: Some(60_000), ..base() }),
        ("extent", ConfigBody { extent: Some(4_096_000), ..base() }),
        ("hysteresis", ConfigBody { hysteresis: Some(400), ..base() }),
        (
            "dimensions",
            ConfigBody { dimensions: Some(vec![dim(&["idle", "enroute", "parked"])]), ..base() },
        ),
        ("filters", ConfigBody { filters: Some(vec![]), ..base() }),
        ("text", ConfigBody { text: Some(vec!["plate".into(), "driver".into()]), ..base() }),
    ];
    for (field, body) in cases {
        let mut c = created(base());
        let e = redeclare(&mut c, &body.into_config()).unwrap_err();
        assert_eq!(e.status, 409, "changing {field} must conflict");
        assert!(
            e.message.contains(field),
            "changing {field} must say which field: {}",
            e.message
        );
    }
}

#[test]
fn changing_the_category_labels_is_a_conflict() {
    let with = |v: &[&str]| ConfigBody {
        categories: Some(v.iter().map(|s| s.to_string()).collect()),
        ..bare()
    };
    let mut c = created(with(&["idle"]));
    let e = redeclare(&mut c, &with(&["idle", "enroute"]).into_config()).unwrap_err();
    assert_eq!(e.status, 409);
    assert!(e.message.contains("categories"), "{}", e.message);
}

/// A rejected declaration must not half-apply.
#[test]
fn a_conflict_adopts_nothing() {
    let mut c = created(base());
    let body = ConfigBody {
        text: Some(vec!["plate".into(), "driver".into()]),
        ttl_seconds: Some(99),
        ..base()
    };
    assert_eq!(redeclare(&mut c, &body.into_config()).unwrap_err().status, 409);
    assert_eq!(c.ttl_seconds(), 0);
}

#[test]
fn a_new_ttl_is_adopted_and_sweeps_by_it() {
    let t = 1_700_000_000_000;
    let mut c = created(ConfigBody { ttl_seconds: Some(3600), ..bare() });
    c.upsert_at(
        &[Report { id: "v1", at: Some((5, 5)), props: None, cells: None, updated_at_ms: None }],
        t,
    )
    .unwrap();
    // Old enough to be swept under the TTL that is about to arrive, and nowhere near old enough
    // under the one in force.
    assert_eq!(c.sweep_at(t + 1100), 0, "an hour has not passed");
    assert_eq!(
        redeclare(&mut c, &ConfigBody { ttl_seconds: Some(1), ..bare() }.into_config()).unwrap(),
        vec!["ttl_seconds"]
    );
    assert_eq!(c.stats_at(0, t).ttl_seconds, 1);
    assert_eq!(c.sweep_at(t + 1100), 1, "the adopted TTL has to be the one that sweeps");
}

#[test]
fn a_new_props_limit_is_adopted_and_gates_the_next_report() {
    let mut c = created(ConfigBody { max_props_bytes: Some(16), ..bare() });
    let r = Report {
        id: "v1",
        at: Some((5, 5)),
        props: Some(r#"{"plate":"abc1234","driver":"someone"}"#),
        cells: None,
        updated_at_ms: None,
    };
    assert!(c.upsert(&[r.clone()]).is_err(), "16 bytes is not enough");
    assert_eq!(
        redeclare(&mut c, &ConfigBody { max_props_bytes: Some(4096), ..bare() }.into_config())
            .unwrap(),
        vec!["max_props_bytes"]
    );
    assert_eq!(c.max_props_bytes(), 4096);
    assert_eq!(c.upsert(&[r]), Ok(1), "the new limit has to apply");
}

#[test]
fn both_limits_can_move_at_once() {
    let mut c = created(base());
    let body = ConfigBody {
        ttl_seconds: Some(60),
        max_props_bytes: Some(2048),
        ..base()
    };
    assert_eq!(
        redeclare(&mut c, &body.into_config()).unwrap(),
        vec!["ttl_seconds", "max_props_bytes"]
    );
}

#[test]
fn declaring_both_categories_and_dimensions_is_refused() {
    let body = ConfigBody {
        categories: Some(vec!["a".into()]),
        dimensions: Some(vec![dim(&["1"])]),
        ..bare()
    };
    let e = check_config(&body.into_config()).unwrap();
    assert_eq!((e.status, e.code), (400, "bad_filters"));
    assert!(e.message.contains("not both"), "{}", e.message);
}

#[test]
fn values_and_capacity_are_mutually_exclusive() {
    let one = |values: &[&str], capacity| ConfigBody {
        dimensions: Some(vec![Dimension { capacity, ..dim(values) }]),
        ..bare()
    };
    let e = check_config(&one(&["1"], Some(10)).into_config()).unwrap();
    assert_eq!(e.status, 400);
    assert!(e.message.contains("not both"), "{}", e.message);
    let e = check_config(&one(&[], None).into_config()).unwrap();
    assert!(e.message.contains("neither"), "{}", e.message);
}

#[test]
fn a_declaration_is_bounded() {
    let said = |b: ConfigBody| check_config(&b.into_config()).unwrap();
    let e = said(ConfigBody { max_zoom: Some(21), ..bare() });
    assert_eq!((e.status, e.code), (400, "bad_request"));
    assert_eq!(e.message, "max_zoom must be <= 20");
    let e = said(ConfigBody { radius: Some(0), ..bare() });
    assert_eq!(e.message, "radius and extent must be positive");
    let e = said(ConfigBody { extent: Some(0), ..bare() });
    assert_eq!(e.message, "radius and extent must be positive");
}

#[test]
fn figures_are_exposed_as_text() {
    let t = 1_700_000_000_000;
    let mut c = created(bare());
    c.upsert_at(
        &[Report { id: "v1", at: Some((5, 5)), props: None, cells: None, updated_at_ms: None }],
        t,
    )
    .unwrap();
    c.snapshot_written(t + 5999, 64);
    let s = c.stats_at(3, t);
    let memory = s.memory_bytes;
    let text = metrics_text(&vec![(s, "0.2500".to_string())], 9);
    let want = format!(
        "# HELP netcluster_devices Devices currently in the index\n\
         # TYPE netcluster_devices gauge\n\
         netcluster_devices{{collection=\"fleet\"}} 1\n\
         netcluster_reports_total{{collection=\"fleet\"}} 1\n\
         netcluster_queries_total{{collection=\"fleet\"}} 3\n\
         netcluster_expired_total{{collection=\"fleet\"}} 0\n\
         netcluster_memory_bytes{{collection=\"fleet\"}} {memory}\n\
         netcluster_fast_move_ratio{{collection=\"fleet\"}} 0.2500\n\
         netcluster_snapshot_last_success_timestamp{{collection=\"fleet\"}} 1700000005\n\
         netcluster_snapshot_bytes{{collection=\"fleet\"}} 64\n\
         netcluster_snapshot_failures_total{{collection=\"fleet\"}} 0\n\
         netcluster_restored_devices{{collection=\"fleet\"}} 0\n\
         netcluster_requests_total 9\n"
    );
    assert_eq!(text, want);
}

#[test]
fn a_tile_without_features_is_an_empty_body() {
    let mut c = created(bare());
    assert!(tile_body(&c.tile(0, 0, 0, -1), 512).is_empty());
    c.upsert(&[Report {
        id: "v1",
        at: Some((1 << 29, 1 << 29)),
        props: Some(r#"{"n":7,"deep":{"a":1},"plate":"ABC","id":"other"}"#),
        cells: None,
        updated_at_ms: None,
    }])
    .unwrap();
    let body = tile_body(&c.tile(0, 0, 0, -1), 512);
    let holds = |t: &str| body.windows(t.len()).any(|w| w == t.as_bytes());
    assert!(holds("clusters") && holds("v1") && holds("plate") && holds("ABC"));
    // nested values are left out, and the id is the device's own
    assert!(!holds("deep") && !holds("other"));
}

/// However fine a geometry is, a collection can have it.
#[test]
fn a_very_fine_geometry_is_accepted() {
    for radius in [10_000, 1] {
        let body = ConfigBody {
            max_zoom: Some(20),
            radius: Some(radius),
            ..bare()
        };
        assert!(check_config(&body.into_config()).is_none());
    }
}
