//! What can be filtered by, and how values become cells.
use netcluster::schema::{Dimension, Interner, Interning, Looking, Schema, Values};
use vstd::hash_map::StringHashMap;

/// Resolve a query against a fresh interner; declared dimensions need none.
fn query(s: &Schema, sel: &Vec<(String, String)>) -> Result<i32, String> {
    let interner = Interner::new(s);
    s.query_cell(
        sel,
        &mut Looking {
            schema: s,
            interner: &interner,
        },
    )
    .map(|c| c.expect("declared values always resolve"))
}

fn sel(pairs: &[(&str, &str)]) -> Vec<(String, String)> {
    pairs
        .iter()
        .map(|(k, v)| (k.to_string(), v.to_string()))
        .collect()
}

fn vals(pairs: &[(&str, &[&str])]) -> StringHashMap<Vec<String>> {
    let mut m = StringHashMap::new();
    for (k, v) in pairs {
        m.insert(k.to_string(), v.iter().map(|s| s.to_string()).collect());
    }
    m
}

fn dim(name: &str, values: &[&str], multi: bool) -> Dimension {
    Dimension {
        name: name.into(),
        values: values.iter().map(|s| s.to_string()).collect(),
        capacity: None,
        multi,
    }
}

fn dynamic(name: &str, capacity: usize) -> Dimension {
    Dimension {
        name: name.into(),
        values: vec![],
        capacity: Some(capacity),
        multi: true,
    }
}

fn sample() -> Schema {
    Schema::new(
        vec![
            dim("client", &["a", "b", "c"], true),
            dim("status", &["idle", "enroute"], false),
        ],
        &vec![
            vec!["client".into()],
            vec!["status".into()],
            vec!["client".into(), "status".into()],
        ],
    )
    .unwrap()
}

fn interning(s: &Schema) -> Interning<'_> {
    Interning {
        schema: s,
        interner: Interner::new(s),
    }
}

#[test]
fn cells_are_blocked_per_shape() {
    let s = sample();
    assert_eq!(s.cells, 3 + 2 + 6);
}

#[test]
fn a_multi_valued_device_lands_in_a_cell_per_value() {
    let s = sample();
    let v = vals(&[("client", &["a", "c"]), ("status", &["enroute"])]);
    let mut out = Vec::new();
    s.cells_for(&v, &mut out, &mut interning(&s)).unwrap();
    out.sort_unstable();
    // client a, client c, status enroute, (a,enroute), (c,enroute)
    assert_eq!(out.len(), 5);

    let q = sel(&[("client", "a"), ("status", "enroute")]);
    assert!(out.contains(&(query(&s, &q).unwrap() as u32)));

    let q = sel(&[("client", "b"), ("status", "enroute")]);
    assert!(!out.contains(&(query(&s, &q).unwrap() as u32)));
}

#[test]
fn an_undeclared_combination_is_refused_rather_than_scanned() {
    let s = Schema::new(
        vec![
            dim("client", &["a", "b"], false),
            dim("status", &["x"], false),
        ],
        &vec![vec!["client".into()], vec!["status".into()]],
    )
    .unwrap();
    let err = query(&s, &sel(&[("client", "a"), ("status", "x")])).unwrap_err();
    assert!(err.contains("no declared filter combines"), "{err}");
}

#[test]
fn unknown_names_and_values_are_named_in_the_error() {
    let s = sample();
    assert!(query(&s, &sel(&[("nope", "a")]))
        .unwrap_err()
        .contains("unknown filter"));
    assert!(query(&s, &sel(&[("status", "gone")]))
        .unwrap_err()
        .contains("unknown value"));
}

#[test]
fn an_empty_selection_means_everything() {
    assert_eq!(query(&sample(), &Vec::new()).unwrap(), -1);
}

#[test]
fn schema_a_single_valued_dimension_refuses_a_list() {
    let s = sample();
    let v = vals(&[("status", &["idle", "enroute"])]);
    let err = s
        .cells_for(&v, &mut Vec::new(), &mut interning(&s))
        .unwrap_err();
    assert!(err.contains("not declared multi"), "{err}");
}

#[test]
fn a_missing_dimension_takes_value_zero() {
    let s = sample();
    let mut out = Vec::new();
    s.cells_for(&vals(&[]), &mut out, &mut interning(&s))
        .unwrap();
    let q = sel(&[("client", "a"), ("status", "idle")]);
    assert!(out.contains(&(query(&s, &q).unwrap() as u32)));
}

#[test]
fn duplicate_declarations_are_refused() {
    assert!(
        Schema::new(
            vec![dim("a", &["x"], false), dim("a", &["y"], false)],
            &vec![]
        )
        .is_err()
    );
    assert!(Schema::new(vec![dim("a", &["x", "x"], false)], &vec![]).is_err());
    assert!(Schema::new(
        vec![dim("a", &["x"], false)],
        &vec![vec!["a".into()], vec!["a".into()]]
    )
    .is_err());
    assert!(Schema::new(vec![dim("a", &["x"], false)], &vec![vec!["b".into()]]).is_err());
}

#[test]
fn dimensions_know_their_size() {
    assert_eq!(dim("a", &["x", "y"], false).size(), 2);
    assert!(!dim("a", &["x"], false).is_dynamic());
    assert_eq!(dynamic("a", 7).size(), 7);
    assert!(dynamic("a", 7).is_dynamic());
    let s = sample();
    assert!(s.enabled());
    assert!(!Schema::new(vec![], &vec![]).unwrap().enabled());
    assert_eq!(
        s.describe_shapes(),
        "[client], [status], [client, status]"
    );
}

/// Indices are given out in order of first sight, stay where they are, and run out loudly.
#[test]
fn values_are_interned_permanently() {
    let s = Schema::new(vec![dynamic("client", 2)], &vec![]).unwrap();
    let mut res = interning(&s);
    let mut out = Vec::new();
    s.cells_for(&vals(&[("client", &["X"])]), &mut out, &mut res)
        .unwrap();
    assert_eq!(out, vec![0]);
    s.cells_for(&vals(&[("client", &["Y", "X"])]), &mut out, &mut res)
        .unwrap();
    assert_eq!(out, vec![1, 0]);
    let err = s
        .cells_for(&vals(&[("client", &["Z"])]), &mut out, &mut res)
        .unwrap_err();
    assert!(err.contains("already holds 2 distinct values"), "{err}");
    assert!(out.is_empty());
    assert_eq!(res.interner.len(0), 2);
    assert_eq!(res.interner.labels(), vec![vec!["X", "Y"]]);

    let back = Interner::restore(&s, &res.interner.labels());
    let mut look = Looking {
        schema: &s,
        interner: &back,
    };
    assert_eq!(s.query_cell(&sel(&[("client", "Y")]), &mut look), Ok(Some(1)));
    assert_eq!(
        s.query_cell(&sel(&[("client", "never")]), &mut look),
        Ok(None),
        "legal, but nothing has ever had it"
    );
}

/// Values are listed as they were first seen, over all dimensions, and come back so.
#[test]
fn values_come_back_in_the_order_of_first_sight() {
    let s = Schema::new(vec![dynamic("client", 9), dynamic("tag", 9)], &vec![]).unwrap();
    let mut res = interning(&s);
    let mut out = Vec::new();
    for (client, tag) in [("b", "z"), ("a", "z"), ("b", "y"), ("c", "z")] {
        s.cells_for(&vals(&[("client", &[client]), ("tag", &[tag])]), &mut out, &mut res)
            .unwrap();
    }
    let want = vec![vec!["b", "a", "c"], vec!["z", "y"]];
    assert_eq!(res.interner.labels(), want);
    assert_eq!(Interner::restore(&s, &res.interner.labels()).labels(), want);
}

#[test]
fn static_values_resolve_by_label_and_by_index() {
    let s = sample();
    assert_eq!(s.static_value(0, "c"), Ok(2));
    assert_eq!(s.static_value(0, "1"), Ok(1));
    assert!(s.static_value(0, "3").is_err());
}

/// A blank value keeps its place among the others.
#[test]
fn restored_values_stand_where_they_stood() {
    let s = Schema::new(vec![dynamic("tag", 5)], &vec![vec!["tag".into()]]).unwrap();
    let labels = vec![vec!["".to_string(), "x".to_string(), "y".to_string()]];
    let back = Interner::restore(&s, &labels);
    assert_eq!(back.len(0), 3);
    assert_eq!(back.labels(), labels);
    let mut look = Looking {
        schema: &s,
        interner: &back,
    };
    assert_eq!(look.get(0, ""), Ok(Some(0)));
    assert_eq!(look.get(0, "x"), Ok(Some(1)));
    assert_eq!(look.get(0, "y"), Ok(Some(2)));
    assert_eq!(look.get(0, "z"), Ok(None));
}

/// A query finds the reports that carry what it names, whatever was learned in between.
#[test]
fn a_query_finds_the_reports_that_carry_its_values() {
    let s = Schema::new(
        vec![dynamic("tag", 8), dim("status", &["idle", "enroute"], false)],
        &vec![
            vec!["tag".into()],
            vec!["status".into()],
            vec!["tag".into(), "status".into()],
        ],
    )
    .unwrap();
    let interner = Interner::new(&s);
    let mut res = Interning {
        schema: &s,
        interner,
    };
    let reports: Vec<(&[&str], &[&str])> = vec![
        (&["red"], &["idle"]),
        (&["red", "big"], &["enroute"]),
        (&["big", "big"], &["1"]),
        (&[], &["idle"]),
    ];
    let mut filed: Vec<Vec<u32>> = Vec::new();
    for (tags, status) in &reports {
        let mut out = Vec::new();
        s.cells_for(&vals(&[("tag", *tags), ("status", *status)]), &mut out, &mut res)
            .unwrap();
        filed.push(out);
    }
    let interner = res.interner;
    let found = |pairs: &[(&str, &str)]| -> Option<Vec<usize>> {
        let mut look = Looking {
            schema: &s,
            interner: &interner,
        };
        let c = s.query_cell(&sel(pairs), &mut look).unwrap()?;
        Some(
            (0..filed.len())
                .filter(|&i| filed[i].contains(&(c as u32)))
                .collect(),
        )
    };
    // A report without a tag has the first one.
    assert_eq!(found(&[("tag", "red")]), Some(vec![0, 1, 3]));
    assert_eq!(found(&[("tag", "big")]), Some(vec![1, 2]));
    assert_eq!(found(&[("status", "enroute")]), Some(vec![1, 2]));
    assert_eq!(found(&[("status", "0")]), Some(vec![0, 3]));
    assert_eq!(
        found(&[("status", "enroute"), ("tag", "red")]),
        Some(vec![1])
    );
    assert_eq!(found(&[("tag", "small")]), None);
}
