//! GeoJSON on the way in: what comes out of properties, and what becomes of Features.
use netcluster::collection::Collection;
use netcluster::config::Config;
use netcluster::features::{
    cat_properties, take_features, take_features_at, what_to_peek, GeoFeature, Peek, Peeked, Place,
};
use netcluster::geojson::{
    body_form, check_body_type, check_feature, check_geometry, given_props, BodyForm, CatVal,
    IdString, Picker, Which,
};
use netcluster::positions::{take_items, DimVal, Item, Whereabouts};
use serde::de::{DeserializeSeed, Deserializer, Error, IgnoredAny, MapAccess, Visitor};
use std::fmt;

const PREC: f64 = 1_073_741_824.0;

fn project(lng: f64, lat: f64) -> (i32, i32) {
    let x = ((lng + 180.0) / 360.0).clamp(0.0, 0.9999999);
    let s = (lat * std::f64::consts::PI / 180.0).sin();
    let y = (0.5 - 0.25 * ((1.0 + s) / (1.0 - s)).ln() / std::f64::consts::PI).clamp(0.0, 0.9999999);
    ((x * PREC).round() as i32, (y * PREC).round() as i32)
}

/// The value of a member, told to the library by its kind.
struct IdValue;

impl<'de> DeserializeSeed<'de> for IdValue {
    type Value = Option<IdString>;
    fn deserialize<D: Deserializer<'de>>(self, d: D) -> Result<Self::Value, D::Error> {
        d.deserialize_any(self)
    }
}

impl Visitor<'_> for IdValue {
    type Value = Option<IdString>;
    fn expecting(&self, f: &mut fmt::Formatter) -> fmt::Result {
        f.write_str("a string or integer id")
    }
    fn visit_str<E: Error>(self, v: &str) -> Result<Self::Value, E> {
        Ok(Some(IdString::from_text(v)))
    }
    fn visit_i64<E: Error>(self, v: i64) -> Result<Self::Value, E> {
        Ok(Some(IdString::from_signed(v)))
    }
    fn visit_u64<E: Error>(self, v: u64) -> Result<Self::Value, E> {
        Ok(Some(IdString::from_unsigned(v)))
    }
    fn visit_f64<E: Error>(self, v: f64) -> Result<Self::Value, E> {
        let whole = if v.fract() == 0.0 && v.abs() < 9e15 {
            Some(v as i64)
        } else {
            None
        };
        IdString::from_real(whole, &v.to_string())
            .map(Some)
            .map_err(E::custom)
    }
    fn visit_bool<E: Error>(self, v: bool) -> Result<Self::Value, E> {
        Err(E::custom(IdString::not_a_flag(v)))
    }
    fn visit_unit<E: Error>(self) -> Result<Self::Value, E> {
        Ok(None)
    }
}

struct CatValue;

impl<'de> DeserializeSeed<'de> for CatValue {
    type Value = Option<CatVal>;
    fn deserialize<D: Deserializer<'de>>(self, d: D) -> Result<Self::Value, D::Error> {
        d.deserialize_any(self)
    }
}

impl Visitor<'_> for CatValue {
    type Value = Option<CatVal>;
    fn expecting(&self, f: &mut fmt::Formatter) -> fmt::Result {
        f.write_str("a category index or name")
    }
    fn visit_str<E: Error>(self, v: &str) -> Result<Self::Value, E> {
        Ok(Some(CatVal::from_text(v)))
    }
    fn visit_u64<E: Error>(self, v: u64) -> Result<Self::Value, E> {
        Ok(Some(CatVal::from_unsigned(v)))
    }
    fn visit_i64<E: Error>(self, v: i64) -> Result<Self::Value, E> {
        CatVal::from_signed(v).map(Some).map_err(E::custom)
    }
    fn visit_f64<E: Error>(self, v: f64) -> Result<Self::Value, E> {
        let index = if v.fract() == 0.0 && v >= 0.0 {
            Some(v as u32)
        } else {
            None
        };
        CatVal::from_real(index, &v.to_string())
            .map(Some)
            .map_err(E::custom)
    }
    fn visit_unit<E: Error>(self) -> Result<Self::Value, E> {
        Ok(None)
    }
}

/// Reads the members of an object, each as the picker wants it.
struct Members<'a>(Picker<'a>);

struct Key<'p, 'a>(&'p Picker<'a>);

impl<'de> DeserializeSeed<'de> for Key<'_, '_> {
    type Value = Which;
    fn deserialize<D: Deserializer<'de>>(self, d: D) -> Result<Which, D::Error> {
        d.deserialize_str(self)
    }
}

impl Visitor<'_> for Key<'_, '_> {
    type Value = Which;
    fn expecting(&self, f: &mut fmt::Formatter) -> fmt::Result {
        f.write_str("a property name")
    }
    fn visit_str<E: Error>(self, v: &str) -> Result<Which, E> {
        Ok(self.0.classify(v))
    }
}

impl<'de, 'a> Visitor<'de> for Members<'a> {
    type Value = Picker<'a>;
    fn expecting(&self, f: &mut fmt::Formatter) -> fmt::Result {
        f.write_str("a properties object")
    }
    fn visit_map<A: MapAccess<'de>>(mut self, mut m: A) -> Result<Picker<'a>, A::Error> {
        while let Some(which) = m.next_key_seed(Key(&self.0))? {
            match which {
                Which::Id => self.0.saw_id(m.next_value_seed(IdValue)?),
                Which::Cat(i) => self.0.saw_cat(i, m.next_value_seed(CatValue)?),
                Which::Other => {
                    m.next_value::<IgnoredAny>()?;
                }
            }
        }
        Ok(self.0)
    }
}

type Found = (Option<String>, Option<CatVal>);

fn peek_props<'a>(
    raw: &str,
    id_key: Option<&'a str>,
    cat_keys: &'a [&'a str],
) -> Result<Found, serde_json::Error> {
    let mut d = serde_json::Deserializer::from_str(raw);
    let p = (&mut d).deserialize_map(Members(Picker::new(id_key, cat_keys)))?;
    d.end()?;
    Ok((p.id, p.cat))
}

fn peek(
    raw: &str,
    id: Option<&str>,
    cats: &[&str],
) -> (Option<String>, Option<u32>, Option<String>) {
    let (i, c) = peek_props(raw, id, cats).unwrap();
    let (n, name) = match c {
        Some(CatVal::Num(n)) => (Some(n), None),
        Some(CatVal::Name(s)) => (None, Some(s)),
        None => (None, None),
    };
    (i, n, name)
}

#[test]
fn pulls_out_only_what_it_was_asked_for() {
    let raw = r#"{"plate":"ABC","cat":2,"route":{"stops":[1,2,3]},"id":"v7"}"#;
    assert_eq!(
        peek(raw, Some("id"), &["cat"]),
        (Some("v7".into()), Some(2), None)
    );
    assert_eq!(peek(raw, None, &["cat"]), (None, Some(2), None));
    assert_eq!(
        peek(raw, Some("plate"), &[]),
        (Some("ABC".into()), None, None)
    );
    assert_eq!(peek(raw, None, &[]), (None, None, None));
}

#[test]
fn the_earliest_listed_category_key_wins() {
    // Both spellings present: `cat` is listed first, so it is the one used, and the loser must
    // still be stepped over rather than left unread.
    let raw = r#"{"category":"enroute","cat":1}"#;
    assert_eq!(peek(raw, None, &["cat", "category"]), (None, Some(1), None));
    assert_eq!(
        peek(raw, None, &["category", "cat"]),
        (None, None, Some("enroute".into()))
    );
}

#[test]
fn an_escaped_key_still_matches() {
    // serde_json cannot borrow a key containing an escape, so a classifier that only accepted
    // borrowed strings would fail on valid JSON.
    let raw = r#"{"cat":3}"#;
    assert_eq!(peek(raw, None, &["cat"]), (None, Some(3), None));
    let raw = "{\"\\u0063at\":3}";
    assert_eq!(peek(raw, None, &["cat"]), (None, Some(3), None));
}

#[test]
fn a_numeric_id_becomes_its_decimal_form() {
    assert_eq!(peek(r#"{"id":7}"#, Some("id"), &[]).0, Some("7".into()));
    assert_eq!(peek(r#"{"id":7.0}"#, Some("id"), &[]).0, Some("7".into()));
    assert!(peek_props(r#"{"id":7.5}"#, Some("id"), &[]).is_err());
    // present but null is the same as absent
    assert_eq!(peek(r#"{"id":null}"#, Some("id"), &[]).0, None);
    assert_eq!(peek(r#"{"id":-12}"#, Some("id"), &[]).0, Some("-12".into()));
    let e = peek_props(r#"{"id":true}"#, Some("id"), &[]).unwrap_err();
    assert!(
        e.to_string()
            .contains("id is true, expected a string or a number"),
        "{e}"
    );
}

#[test]
fn nested_values_are_skipped_not_parsed() {
    let raw = r#"{"a":{"b":{"c":[1,{"d":null},true]}},"cat":0,"e":[[[]]]}"#;
    assert_eq!(peek(raw, None, &["cat"]), (None, Some(0), None));
}

#[test]
fn trailing_junk_is_rejected() {
    // `d.end()` matters: without it a truncated or double-encoded blob would read as valid and
    // quietly lose whatever came after.
    assert!(peek_props(r#"{"cat":1} extra"#, None, &["cat"]).is_err());
}

#[test]
fn categories_are_read_by_their_kind() {
    assert!(matches!(CatVal::from_unsigned(3), CatVal::Num(3)));
    assert!(matches!(CatVal::from_signed(4), Ok(CatVal::Num(4))));
    assert_eq!(
        CatVal::from_signed(-4).unwrap_err(),
        "category -4 is negative"
    );
    assert_eq!(
        CatVal::from_real(None, "0.5").unwrap_err(),
        "category 0.5 is not a whole number"
    );
    assert_eq!(CatVal::Num(12).label(), "12");
    assert_eq!(CatVal::Name("idle".into()).label(), "idle");
    assert_eq!(
        IdString::from_real(None, "7.5").unwrap_err(),
        "id 7.5 is not a whole number"
    );
    assert_eq!(IdString::from_signed(i64::MIN).0, i64::MIN.to_string());
    assert_eq!(IdString::from_unsigned(u64::MAX).0, u64::MAX.to_string());
}

#[test]
fn a_polygon_is_named_in_the_error() {
    let e = check_geometry(Some("Polygon"), Some(false)).unwrap();
    assert!(e.contains("Polygon"), "{e}");
    assert!(e.contains("representative point"), "{e}");
    assert_eq!(check_geometry(Some("Point"), Some(true)), None);
    assert_eq!(
        check_geometry(None, Some(true)).unwrap(),
        "geometry has no type"
    );
    assert_eq!(
        check_geometry(Some("Point"), None).unwrap(),
        "Point geometry has no coordinates"
    );
    assert_eq!(
        check_geometry(Some("Point"), Some(false)).unwrap(),
        "Point coordinates are not a [longitude, latitude] pair of numbers"
    );
}

#[test]
fn features_and_bodies_are_judged_by_their_type() {
    assert_eq!(check_feature(Some("Feature"), true), None);
    assert_eq!(check_feature(None, true), None);
    assert_eq!(
        check_feature(None, false).unwrap(),
        "Feature has no geometry"
    );
    assert_eq!(
        check_feature(Some("FeatureCollection"), true).unwrap(),
        "a FeatureCollection nested inside features"
    );
    assert_eq!(
        check_feature(Some("x\"y"), true).unwrap(),
        "type is \"x\\\"y\", expected \"Feature\""
    );
    assert_eq!(check_body_type("FeatureCollection"), None);
    assert!(check_body_type("Feature")
        .unwrap()
        .contains("takes a FeatureCollection"));
    assert_eq!(body_form(true, false), Ok(BodyForm::Compact));
    assert_eq!(body_form(false, true), Ok(BodyForm::Geo));
    assert!(body_form(true, true)
        .unwrap_err()
        .contains("both `points` and `features`"));
    assert!(body_form(false, false)
        .unwrap_err()
        .contains("neither a `points` array nor a GeoJSON `features` array"));
}

#[test]
fn null_properties_mean_leave_them_alone() {
    assert_eq!(given_props(Some("null".into())), None);
    assert_eq!(given_props(Some(" null\n".into())), None);
    assert_eq!(given_props(Some("{}".into())), Some("{}".into()));
    assert_eq!(given_props(None), None);
}

fn collection(categories: &[&str]) -> Collection {
    Collection::new(
        "fleet",
        Config {
            categories: categories.iter().map(|s| s.to_string()).collect(),
            ttl_seconds: 0,
            ..Default::default()
        },
    )
}

fn feature(id: Option<&str>, lng: f64, lat: f64, props: Option<&str>) -> GeoFeature {
    GeoFeature {
        id: id.map(String::from),
        place: Some(Place {
            at: if lng.is_finite() && lat.is_finite() {
                Some(project(lng, lat))
            } else {
                None
            },
            upright: (-90.0..=90.0).contains(&lat),
            lat: lat.to_string(),
        }),
        props: props.map(String::from),
        updated_at_ms: None,
    }
}

/// Look into the properties as far as has to be, and take the Features.
fn post(
    c: &mut Collection,
    feats: &Vec<GeoFeature>,
    id_property: Option<&str>,
    cat_property: Option<&str>,
) -> Result<usize, (u16, String, &'static str)> {
    let both = cat_properties();
    let keys: Vec<&str> = match cat_property {
        Some(k) => vec![k],
        None => both.to_vec(),
    };
    let mut peeked = Vec::new();
    for f in feats {
        let want = what_to_peek(c, f, id_property.is_some());
        let (id, cat) = match &f.props {
            Some(p) => peek_props(
                p,
                if want.id {
                    id_property.or(Some("id"))
                } else {
                    None
                },
                if want.cat { &keys } else { &[] },
            )
            .unwrap(),
            None => (None, None),
        };
        peeked.push(Peeked {
            id,
            cat,
            dims: vec![],
        });
    }
    take_features(c, feats, &peeked, id_property).map_err(|e| (e.status, e.message, e.code))
}

#[test]
fn a_feature_collection_ingests() {
    let mut c = collection(&[]);
    let n = post(
        &mut c,
        &vec![
            feature(Some("v1"), -46.63, -23.55, Some(r#"{"plate":"ABC"}"#)),
            feature(Some("v2"), -46.64, -23.56, None),
        ],
        None,
        None,
    )
    .unwrap();
    assert_eq!(n, 2);
    assert_eq!(c.len(), 2);
    let d = c.device("v1").unwrap();
    assert_eq!((d.x, d.y), project(-46.63, -23.55));
    assert_eq!(d.props.as_deref(), Some(r#"{"plate":"ABC"}"#));
}

#[test]
fn the_id_comes_from_three_places() {
    let mut c = collection(&[]);
    post(&mut c, &vec![feature(Some("onfeature"), 1.0, 1.0, None)], None, None).unwrap();
    // a numeric id becomes its decimal form, so 7 and "7" are one device
    let seven = IdString::from_unsigned(7).0;
    post(&mut c, &vec![feature(Some(&seven), 2.0, 2.0, None)], None, None).unwrap();
    // from properties when the feature has none
    post(
        &mut c,
        &vec![feature(None, 3.0, 3.0, Some(r#"{"id":"inprops"}"#))],
        None,
        None,
    )
    .unwrap();
    // named explicitly
    post(
        &mut c,
        &vec![feature(Some("ignored"), 4.0, 4.0, Some(r#"{"plate":"ABC-9"}"#))],
        Some("plate"),
        None,
    )
    .unwrap();
    for id in ["7", "ABC-9", "inprops", "onfeature"] {
        assert!(c.contains(id), "{id}");
    }
    assert_eq!(c.len(), 4);
}

#[test]
fn a_named_id_property_does_not_fall_back() {
    // Having asked for properties.plate, quietly using feature.id where it is missing would key
    // half a fleet one way and half the other.
    let mut c = collection(&[]);
    let e = post(
        &mut c,
        &vec![feature(Some("has-an-id"), 1.0, 1.0, Some(r#"{"other":1}"#))],
        Some("plate"),
        None,
    )
    .unwrap_err();
    assert_eq!(e.0, 400);
    assert!(e.1.contains("properties.plate"), "{}", e.1);
    assert_eq!(e.2, "bad_geojson");
}

fn of_category(c: &Collection, label: &str) -> Vec<String> {
    let cat = c.category(Some(label)).unwrap();
    c.clusters(0, 0, 1 << 30, 1 << 30, 20, cat)
        .into_iter()
        .filter_map(|f| f.device)
        .collect()
}

#[test]
fn categories_come_from_properties() {
    let mut c = collection(&["idle", "enroute", "delivering"]);
    post(
        &mut c,
        &vec![
            feature(Some("byindex"), 1.0, 1.0, Some(r#"{"cat":2}"#)),
            feature(Some("byname"), 2.0, 2.0, Some(r#"{"category":"enroute"}"#)),
            feature(Some("none"), 3.0, 3.0, None),
        ],
        None,
        None,
    )
    .unwrap();
    assert_eq!(of_category(&c, "delivering"), vec!["byindex"]);
    assert_eq!(of_category(&c, "enroute"), vec!["byname"]);
}

#[test]
fn cat_property_renames_the_category_field() {
    let mut c = collection(&["idle", "enroute"]);
    post(
        &mut c,
        &vec![feature(
            Some("v1"),
            1.0,
            1.0,
            Some(r#"{"status":"enroute","cat":"idle"}"#),
        )],
        None,
        Some("status"),
    )
    .unwrap();
    assert_eq!(of_category(&c, "enroute").len(), 1);
}

#[test]
fn properties_are_stored_verbatim_and_null_leaves_them_alone() {
    let mut c = collection(&[]);
    let raw = r#"{ "plate": "ABC", "nested": { "a": [1, 2] }, "x": 1.0000000000000002 }"#;
    post(&mut c, &vec![feature(Some("v1"), 1.0, 1.0, Some(raw))], None, None).unwrap();
    assert_eq!(c.device("v1").unwrap().props.as_deref(), Some(raw));
    // GeoJSON's "no properties" must mean "leave what is stored alone"
    let null = given_props(Some("null".into()));
    post(
        &mut c,
        &vec![feature(Some("v1"), 5.0, 5.0, null.as_deref())],
        None,
        None,
    )
    .unwrap();
    assert_eq!(
        c.device("v1").unwrap().props.as_deref(),
        Some(raw),
        "null properties wiped the stored ones"
    );
    // an explicit {} still clears
    post(&mut c, &vec![feature(Some("v1"), 6.0, 6.0, Some("{}"))], None, None).unwrap();
    assert_eq!(c.device("v1").unwrap().props.as_deref(), Some("{}"));
}

#[test]
fn rejections_name_the_feature_and_the_reason() {
    let mut c = collection(&[]);
    let cases = vec![
        (
            vec![
                feature(Some("ok"), 1.0, 1.0, None),
                GeoFeature {
                    place: None,
                    ..feature(Some("bad"), 0.0, 0.0, None)
                },
            ],
            "features[1] has a null geometry",
            "bad_geojson",
        ),
        (
            vec![feature(None, 1.0, 1.0, None)],
            "features[0] has no id",
            "bad_geojson",
        ),
        (
            vec![feature(Some("swapped"), 35.68, 139.69, None)],
            "features[0] has latitude 139.69, outside [-90, 90]. GeoJSON coordinates are [longitude, latitude]",
            "bad_geojson",
        ),
        (
            vec![feature(Some("far"), f64::INFINITY, 1.0, None)],
            "non-finite",
            "bad_request",
        ),
    ];
    for (feats, needle, code) in cases {
        let e = post(&mut c, &feats, None, None).unwrap_err();
        assert_eq!((e.0, e.2), (400, code));
        assert!(e.1.contains(needle), "message {:?} does not mention {needle:?}", e.1);
    }
    // nothing from a rejected batch may land
    assert!(c.is_empty());
}

#[test]
fn an_empty_feature_collection_is_accepted_and_does_nothing() {
    let mut c = collection(&[]);
    assert_eq!(post(&mut c, &vec![], None, None), Ok(0));
    assert!(c.is_empty());
}

#[test]
fn geojson_moves_a_device_that_already_exists() {
    let mut c = collection(&[]);
    post(&mut c, &vec![feature(Some("v1"), 1.0, 1.0, None)], None, None).unwrap();
    post(&mut c, &vec![feature(Some("v1"), 20.0, 30.0, None)], None, None).unwrap();
    assert_eq!(c.len(), 1, "the second report inserted a second device");
    let d = c.device("v1").unwrap();
    assert_eq!((d.x, d.y), project(20.0, 30.0));
}

#[test]
fn properties_are_looked_into_only_where_something_has_to_come_out() {
    let bare = collection(&[]);
    let filed = collection(&["idle"]);
    let with = feature(Some("v"), 1.0, 1.0, None);
    let without = feature(None, 1.0, 1.0, None);
    let p = |id, cat, dims| Peek { id, cat, dims };
    assert_eq!(what_to_peek(&bare, &with, false), p(false, false, false));
    assert_eq!(what_to_peek(&bare, &without, false), p(true, false, false));
    assert_eq!(what_to_peek(&bare, &with, true), p(true, false, false));
    assert_eq!(what_to_peek(&filed, &with, false), p(false, true, false));
}

#[test]
fn dimensions_come_from_one_property_each() {
    let mut c = Collection::new(
        "fleet",
        Config {
            dimensions: vec![netcluster::schema::Dimension {
                name: "client".into(),
                values: vec!["1".into(), "7".into()],
                capacity: None,
                multi: true,
            }],
            ttl_seconds: 0,
            ..Default::default()
        },
    );
    let f = feature(Some("a"), 1.0, 1.0, Some(r#"{"client":[1,7]}"#));
    assert!(what_to_peek(&c, &f, false).dims);
    let found = |v: &[&str]| Peeked {
        id: None,
        cat: None,
        dims: vec![Some(DimVal(v.iter().map(|s| s.to_string()).collect()))],
    };
    let feats = vec![f];
    assert_eq!(
        take_features_at(&mut c, &feats, &vec![found(&["1", "7"])], None, 5).unwrap(),
        1
    );
    for v in ["1", "7"] {
        let cell = c
            .filter_cell(&vec![("client".to_string(), v.to_string())])
            .unwrap()
            .unwrap();
        assert_eq!(c.clusters(0, 0, 1 << 30, 1 << 30, 20, cell).len(), 1);
    }
    let e = take_features_at(&mut c, &feats, &vec![found(&["9"])], None, 6).unwrap_err();
    assert_eq!(e.code, "bad_geojson");
    assert!(e.message.starts_with("features[0]: "), "{}", e.message);
}

fn item(id: &str, lng: f64, lat: f64, version: Option<u64>) -> Item {
    Item {
        id: id.into(),
        place: Whereabouts::Here(Some(project(lng, lat))),
        cat: None,
        dims: vec![],
        props: None,
        updated_at_ms: version,
    }
}

#[test]
fn geojson_and_the_compact_form_build_the_same_index() {
    let mut geo = Vec::new();
    let mut compact = Vec::new();
    for i in 0..500 {
        let lng = -46.63 + (i as f64 % 25.0) * 0.004;
        let lat = -23.55 + (i as f64 / 25.0) * 0.004;
        geo.push(feature(Some(&format!("v{i}")), lng, lat, None));
        compact.push(item(&format!("v{i}"), lng, lat, None));
    }
    let mut a = collection(&[]);
    let mut b = collection(&[]);
    post(&mut a, &geo, None, None).unwrap();
    take_items(&mut b, &compact).unwrap();
    for z in [0, 4, 8, 12, 16] {
        let shown = |c: &Collection| {
            c.clusters(0, 0, 1 << 30, 1 << 30, z, -1)
                .into_iter()
                .map(|f| (f.sx, f.sy, f.per, f.count, f.device, f.cluster_id))
                .collect::<Vec<_>>()
        };
        assert_eq!(
            shown(&a),
            shown(&b),
            "zoom {z}: GeoJSON and compact ingest disagree"
        );
    }
}

#[test]
fn compact_and_geojson_share_the_same_source_version() {
    let mut c = Collection::new("fleet", Config::default());
    let geo = |version, lng| {
        vec![GeoFeature {
            updated_at_ms: Some(version),
            ..feature(Some("v"), lng, 10.0, Some(r#"{"plate":"NEW"}"#))
        }]
    };
    assert_eq!(post(&mut c, &geo(200, 20.0), None, None), Ok(1));
    let a = take_items(&mut c, &vec![item("v", 1.0, 1.0, Some(100))]).unwrap();
    assert_eq!(a.late, 1);
    assert_eq!(post(&mut c, &geo(150, 1.0), None, None), Ok(0));
    let d = c.device("v").unwrap();
    assert_eq!((d.x, d.y), project(20.0, 10.0));
}
