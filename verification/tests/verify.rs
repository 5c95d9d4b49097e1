//! A check that never fails proves nothing. Each case below breaks exactly one invariant in a
//! copy of the data, and asserts that the check notices, and notices *that* one.
use netcluster::geometry::Options;
use netcluster::index::verify::Dump;
use netcluster::index::{NetCluster, NONE};

const PREC: f64 = 1_073_741_824.0;

fn project(lng: f64, lat: f64) -> (i32, i32) {
    let x = ((lng + 180.0) / 360.0).clamp(0.0, 0.9999999);
    let s = (lat * std::f64::consts::PI / 180.0).sin();
    let y = (0.5 - 0.25 * ((1.0 + s) / (1.0 - s)).ln() / std::f64::consts::PI).clamp(0.0, 0.9999999);
    ((x * PREC).round() as i32, (y * PREC).round() as i32)
}

fn built() -> Dump {
    let mut nc = NetCluster::new(Options::default());
    let mut seed = 7u32;
    let mut rnd = move || {
        seed ^= seed << 13;
        seed ^= seed >> 17;
        seed ^= seed << 5;
        seed as f64 / 4_294_967_296.0
    };
    for i in 0..200u64 {
        let (x, y) = project(rnd() * 360.0 - 180.0, rnd() * 140.0 - 70.0);
        nc.insert_projected(i, x, y, 0);
    }
    nc.verify().expect("baseline must be clean");
    nc.dump()
}

fn diagnosis(d: &Dump) -> String {
    d.verify().unwrap_err().message()
}

fn a_live_slot(d: &Dump) -> usize {
    d.ids[0].1 as usize
}

#[test]
fn catches_a_corrupted_aggregate() {
    let mut d = built();
    let s = a_live_slot(&d);
    d.nodes[s].cnt += 1;
    let e = diagnosis(&d);
    assert!(e.contains("cnt["), "wrong diagnosis: {e}");
}

#[test]
fn catches_a_drifted_coordinate_sum() {
    let mut d = built();
    let s = a_live_slot(&d);
    d.nodes[s].sx += 1;
    let e = diagnosis(&d);
    assert!(e.contains("sx["), "wrong diagnosis: {e}");
}

/// Displace a point without telling the index: its parent no longer covers it and its grid cell
/// is now wrong.
#[test]
fn catches_a_covering_violation() {
    let mut d = built();
    let s = d
        .ids
        .iter()
        .map(|&(_, s)| s as usize)
        .find(|&s| d.nodes[s].par != NONE)
        .expect("some point must have a parent");
    d.nodes[s].qx = d.nodes[s].qx.wrapping_add(200_000_000).abs();
    let e = diagnosis(&d);
    assert!(
        e.contains("covering violated") || e.contains("wrong cell") || e.contains("sx["),
        "wrong diagnosis: {e}"
    );
}

#[test]
fn catches_a_severed_child_list() {
    let mut d = built();
    let s = d
        .ids
        .iter()
        .map(|&(_, s)| s as usize)
        .find(|&s| d.nodes[s].kid != NONE)
        .expect("some point must have a child");
    d.nodes[s].kid = NONE;
    let e = diagnosis(&d);
    assert!(
        e.contains("not in its parent's child list") || e.contains("forest covers"),
        "wrong diagnosis: {e}"
    );
}

#[test]
fn catches_two_centers_on_top_of_each_other() {
    let mut d = built();
    let a = d.ids[0].1 as usize;
    let b = d.ids[1].1 as usize;
    d.nodes[b].qx = d.nodes[a].qx;
    d.nodes[b].qy = d.nodes[a].qy;
    let e = diagnosis(&d);
    assert!(
        e.contains("separation violated")
            || e.contains("covering violated")
            || e.contains("wrong cell")
            || e.contains("sx["),
        "wrong diagnosis: {e}"
    );
}

#[test]
fn catches_a_missing_grid_listing() {
    let mut d = built();
    let k = d
        .listings
        .iter()
        .position(|(_, v)| v.len() > 1)
        .expect("some cell must hold two centers");
    d.listings[k].1.pop();
    d.entries -= 1;
    let e = diagnosis(&d);
    assert!(
        e.contains("missing from grid") || e.contains("leak"),
        "wrong diagnosis: {e}"
    );
}

#[test]
fn a_sound_copy_passes() {
    let v = built().verify().unwrap();
    assert_eq!(v.points, 200);
    assert_eq!(v.centers + v.leaves, 200);
}

/// Two points close together: the first is the parent of the second.
fn pair() -> Dump {
    let mut nc = NetCluster::new(Options::default());
    nc.insert_projected(1, 1_000_000, 1_000_000, 0);
    nc.insert_projected(2, 1_000_100, 1_000_000, 0);
    let d = nc.dump();
    assert_eq!(d.nodes[1].par, 0);
    d.verify().unwrap();
    d
}

/// The sums are taken anew from the points, so a child's are blamed on the child.
#[test]
fn blames_the_slot_whose_numbers_are_wrong() {
    let mut d = pair();
    d.nodes[1].cnt += 1;
    assert_eq!(diagnosis(&d), "cnt[1]=2 want 1");
    let mut d = pair();
    d.nodes[0].cnt += 1;
    assert_eq!(diagnosis(&d), "cnt[0]=3 want 2");
    let mut d = pair();
    d.nodes[1].sx += 5;
    assert_eq!(diagnosis(&d), "sx[1] drift 5");
    let mut d = pair();
    d.nodes[0].sy -= 7;
    assert_eq!(diagnosis(&d), "sy[0] drift -7");
}

#[test]
fn names_what_is_wrong_with_the_links() {
    let mut d = pair();
    d.nodes[0].par = 1;
    assert_eq!(diagnosis(&d), "root 0 has parent 1");
    let mut d = pair();
    let level = d.nodes[1].tz;
    d.nodes[1].par = NONE;
    assert_eq!(
        diagnosis(&d),
        format!("slot 1 at level {level} has no parent")
    );
    let mut d = pair();
    d.nodes[0].kid = NONE;
    assert_eq!(diagnosis(&d), "node 1 is not in its parent's child list");
    let mut d = pair();
    d.nodes[1].sib = 1;
    assert_eq!(diagnosis(&d), "node 1 appears in two child lists");
}

#[test]
fn names_what_is_wrong_with_the_listings() {
    let mut d = pair();
    let n = d.entries;
    d.entries += 1;
    assert_eq!(
        diagnosis(&d),
        format!("entry pool leak: {} live entries vs {n} listings", n + 1)
    );
    let mut d = pair();
    let s = d.listings[0].1[0];
    d.listings[0].1.push(s);
    let e = diagnosis(&d);
    assert!(
        e.starts_with(&format!("slot {s} listed twice at level ")),
        "wrong diagnosis: {e}"
    );
    let mut d = pair();
    d.listings[0].1.push(900);
    let e = diagnosis(&d);
    assert!(e.starts_with("dead slot 900 listed in grid level "), "{e}");
}

/// Distances and radii are told to a tenth of a unit.
#[test]
fn tells_how_far_apart_points_are() {
    let mut d = pair();
    d.nodes[1].qx = 1_003_000;
    d.nodes[1].qy = 1_004_000;
    assert_eq!(
        diagnosis(&d),
        "covering violated: d(1,0)=5000.0 > 1600.0 at level 16"
    );
    d.nodes[1].qy = 1_001_000;
    assert_eq!(
        diagnosis(&d),
        "covering violated: d(1,0)=3162.3 > 1600.0 at level 16"
    );
    let mut nc = NetCluster::new(Options::default());
    nc.insert_projected(1, 167_772_150, 5, 0);
    nc.insert_projected(2, 251_658_235, 5, 0);
    let mut d = nc.dump();
    d.verify().unwrap();
    d.nodes[1].qx -= 10;
    assert_eq!(
        diagnosis(&d),
        "separation violated at level 0: d(0@0,1@0)=83886075.0 <= 83886080.0"
    );
}

#[test]
fn tells_what_the_filter_slices_sum_to() {
    let mut nc = NetCluster::new(Options {
        categories: 3,
        ..Options::default()
    });
    nc.insert_projected(1, 10, 20, 1);
    nc.insert_projected(2, 1_000_000_000, 30, 2);
    let mut d = nc.dump();
    d.verify().unwrap();
    d.sums[1][0].1 += 1;
    d.sums[1][0].3 -= 31;
    assert_eq!(
        diagnosis(&d),
        "category slices of 1 sum to (2,1000000000,-1), totals are (1,1000000000,30)"
    );
}
