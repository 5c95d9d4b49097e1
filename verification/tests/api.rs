//! The read API: partitions, expansion, children, leaves, viewport agreement,
//! and the handling of handles that no longer mean anything.

use netcluster::feature::Feature;
use netcluster::geometry::Options;
use netcluster::index::NetCluster;
use std::collections::{HashMap, HashSet};

struct Rng(u32);
impl Rng {
    fn next(&mut self) -> f64 {
        let mut s = self.0;
        s ^= s << 13;
        s ^= s >> 17;
        s ^= s << 5;
        self.0 = s;
        s as f64 / 4_294_967_296.0
    }
}

const PREC: f64 = 1_073_741_824.0;

/// Longitude and latitude, in degrees, to world coordinates.
fn project(lng: f64, lat: f64) -> (i32, i32) {
    let mut x = (lng + 180.0) / 360.0;
    if x < 0.0 {
        x = 0.0;
    } else if x >= 1.0 {
        x = 0.9999999;
    }
    let s = (lat * std::f64::consts::PI / 180.0).sin();
    let mut y = 0.5 - 0.25 * ((1.0 + s) / (1.0 - s)).ln() / std::f64::consts::PI;
    if y < 0.0 {
        y = 0.0;
    } else if y >= 1.0 {
        y = 0.9999999;
    }
    ((x * PREC).round() as i32, (y * PREC).round() as i32)
}

/// World coordinates back to longitude and latitude, in degrees.
fn unproject(x: f64, y: f64) -> (f64, f64) {
    let lng = x / PREC * 360.0 - 180.0;
    let y2 = y / PREC;
    let lat = 360.0 * ((0.5 - y2) * 2.0 * std::f64::consts::PI).exp().atan() / std::f64::consts::PI
        - 90.0;
    (lng, lat)
}

/// Where a feature is drawn.
fn place(f: &Feature) -> (f64, f64) {
    match *f {
        Feature::Point { x, y, .. } => unproject(x as f64, y as f64),
        Feature::Cluster { count, sx, sy, .. } => {
            unproject(sx as f64 / count as f64, sy as f64 / count as f64)
        }
    }
}

fn insert(nc: &mut NetCluster, id: u64, lng: f64, lat: f64) {
    let (x, y) = project(lng, lat);
    nc.insert_projected(id, x, y, 0);
}

fn clusters(nc: &NetCluster, bbox: [f64; 4], zoom: f64, category: i32) -> Vec<Feature> {
    let (x0, y0) = project(bbox[0], bbox[3]);
    let (x1, y1) = project(bbox[2], bbox[1]);
    nc.get_clusters_projected(x0, y0, x1, y1, zoom.floor() as i32, category)
}

const WORLD: [f64; 4] = [-180.0, -85.0, 180.0, 85.0];

fn build(n: u64, seed: u32) -> NetCluster {
    let mut rng = Rng(seed);
    let mut nc = NetCluster::new(Options::default());
    let cities: &[(f64, f64)] = &[
        (-46.63, -23.55),
        (2.35, 48.85),
        (-74.0, 40.71),
        (139.69, 35.68),
    ];
    for i in 0..n {
        let c = cities[(rng.next() * 4.0) as usize % 4];
        insert(&mut nc, i,
            c.0 + (rng.next() - 0.5) * 0.5,
            c.1 + (rng.next() - 0.5) * 0.5,
        );
    }
    nc
}

/// At every zoom, the returned features must account for every point exactly
/// once. This is the property a map actually depends on: no vanished vehicles,
/// no double-counted ones.
#[test]
fn every_zoom_is_a_partition() {
    let nc = build(600, 4242);
    for z in 0..=nc.max_zoom() as i32 {
        let f = clusters(&nc, WORLD, z as f64, -1);
        let total: u32 = f.iter().map(|x| x.count()).sum();
        assert_eq!(total, 600, "z={z} accounted for {total} of 600 points");
        assert!(!f.is_empty());
    }
    // and the extremes behave
    assert!(
        clusters(&nc, WORLD, 0.0, -1).len() <= clusters(&nc, WORLD, 16.0, -1).len(),
        "zooming in must not reduce the number of markers"
    );
    assert_eq!(
        clusters(&nc, WORLD, 16.0, -1).len(),
        600,
        "at max zoom every point stands alone"
    );
}

/// A cluster's expansion zoom must be the zoom at which it actually splits --
/// strictly more markers than the zoom just below it.
#[test]
fn expansion_zoom_is_where_the_cluster_actually_splits() {
    let nc = build(500, 77);
    let mut checked = 0;
    for z in 0..8 {
        for f in clusters(&nc, WORLD, z as f64, -1) {
            let Feature::Cluster {
                cluster_id, count, ..
            } = f
            else {
                continue;
            };
            let nz = nc.get_cluster_expansion_zoom(cluster_id).unwrap();
            assert!(nz > z, "expansion zoom {nz} is not beyond {z}");
            let kids = nc.get_children(cluster_id).unwrap();
            assert!(
                kids.len() >= 2,
                "a cluster expanded into {} feature(s)",
                kids.len()
            );
            let kid_total: u32 = kids.iter().map(|k| k.count()).sum();
            assert_eq!(
                kid_total, count,
                "children lost points from cluster {cluster_id}"
            );
            checked += 1;
        }
    }
    assert!(checked > 20, "only {checked} clusters exercised");
}

/// Leaves are the individual points inside a cluster; there must be exactly
/// `count` of them, all distinct, and pagination must not lose or repeat any.
#[test]
fn leaves_enumerate_the_members_exactly_once() {
    let nc = build(400, 31337);
    let mut checked = 0;
    for f in clusters(&nc, WORLD, 3.0, -1) {
        let Feature::Cluster {
            cluster_id, count, ..
        } = f
        else {
            continue;
        };
        let all = nc.get_leaves(cluster_id, usize::MAX, 0).unwrap();
        assert_eq!(all.len() as u32, count, "cluster {cluster_id} leaf count");
        let ids: HashSet<u64> = all
            .iter()
            .map(|l| match l {
                Feature::Point { id, .. } => *id,
                _ => panic!("a leaf must be a point"),
            })
            .collect();
        assert_eq!(ids.len() as u32, count, "duplicate leaves");

        // paginate in threes and reassemble
        let mut page = Vec::new();
        let mut off = 0;
        loop {
            let p = nc.get_leaves(cluster_id, 3, off).unwrap();
            if p.is_empty() {
                break;
            }
            page.extend(p.iter().map(|l| match l {
                Feature::Point { id, .. } => *id,
                _ => unreachable!(),
            }));
            off += 3;
            if off > count as usize + 10 {
                break;
            }
        }
        assert_eq!(
            page.iter().copied().collect::<HashSet<_>>(),
            ids,
            "paginated leaves of {cluster_id} differ from the full list"
        );
        checked += 1;
    }
    assert!(checked > 3, "only {checked} clusters exercised");
}

/// A viewport query must return exactly what a world query would, restricted to
/// the viewport. If these disagree, the map shows different things depending on
/// where you happen to have scrolled.
#[test]
fn a_viewport_query_agrees_with_the_world_query() {
    let nc = build(600, 555);
    let boxes: &[[f64; 4]] = &[
        [-47.5, -24.5, -45.5, -22.5],
        [1.0, 48.0, 4.0, 50.0],
        [-80.0, 30.0, -60.0, 50.0],
        [130.0, 30.0, 150.0, 40.0],
    ];
    for z in [2, 5, 8, 12] {
        let world = clusters(&nc, WORLD, z as f64, -1);
        for b in boxes {
            let got = clusters(&nc, *b, z as f64, -1);
            let want: Vec<&Feature> = world
                .iter()
                .filter(|f| {
                    let (lng, lat) = place(f);
                    lng >= b[0] && lng <= b[2] && lat >= b[1] && lat <= b[3]
                })
                .collect();
            assert_eq!(
                got.len(),
                want.len(),
                "z={z} box={b:?}: viewport gave {} features, world-then-filter gave {}",
                got.len(),
                want.len()
            );
        }
    }
}

/// A device's representative at zoom z must be the cluster that actually contains
/// it -- the link between "where is my vehicle" and "what is drawn".
#[test]
fn representative_points_at_the_cluster_that_contains_the_device() {
    let nc = build(300, 909);
    for z in [0, 4, 9, 16] {
        let mut members: HashMap<u64, Vec<u64>> = HashMap::new();
        for id in 0..300u64 {
            members
                .entry(nc.representative(id, z).unwrap())
                .or_default()
                .push(id);
        }
        let total: usize = members.values().map(|v| v.len()).sum();
        assert_eq!(total, 300);
        assert_eq!(
            members.len(),
            clusters(&nc, WORLD, z as f64, -1).len(),
            "z={z}: representative groups disagree with the query"
        );
    }
    assert_eq!(nc.representative(999_999, 5), None, "unknown device");
}

/// A handle that does not name a live cluster must be rejected, not followed.
///
/// A stale or out-of-range handle is always possible.
#[test]
fn stale_cluster_handles_are_rejected() {
    let mut nc = build(200, 12);
    let cluster = clusters(&nc, WORLD, 2.0, -1)
        .into_iter()
        .find_map(|f| match f {
            Feature::Cluster { cluster_id, .. } => Some(cluster_id),
            _ => None,
        })
        .expect("expected at least one cluster");

    assert!(nc.get_children(cluster).is_ok());

    for bogus in [u64::MAX, u64::MAX / 2, 1 << 40, 999_999_999] {
        assert!(nc.get_children(bogus).is_err(), "{bogus} was accepted");
        assert!(nc.get_leaves(bogus, 10, 0).is_err(), "{bogus} was accepted");
        assert!(
            nc.get_cluster_expansion_zoom(bogus).is_err(),
            "{bogus} was accepted"
        );
    }

    // A handle whose slot has since been freed must not resolve either.
    for id in 0..200u64 {
        nc.remove(id);
    }
    assert!(
        nc.get_children(cluster).is_err(),
        "a handle into a drained index still resolved"
    );

    let msg = nc.get_children(u64::MAX).unwrap_err().message();
    assert!(msg.contains("cluster id"), "unhelpful error: {msg}");
    assert!(
        msg.contains("representative"),
        "error should point at the fix: {msg}"
    );
}

/// Tile queries must carry the same content as the equivalent bbox query, and pad
/// the seam so a marker on a tile boundary is not clipped in half.
#[test]
fn tiles_cover_the_world_without_losing_points() {
    let nc = build(400, 246);
    for z in 0..4 {
        let side = 1i64 << z;
        let mut seen_points = 0u32;
        for tx in 0..side {
            for ty in 0..side {
                for f in nc.get_tile(z, tx, ty, -1) {
                    // only count features whose centre is inside the tile proper,
                    // so the padding does not double-count
                    let e = 512;
                    if f.x >= 0 && f.x < e && f.y >= 0 && f.y < e {
                        seen_points += f.count;
                    }
                }
            }
        }
        assert_eq!(
            seen_points, 400,
            "z={z}: tiles accounted for {seen_points} of 400 points"
        );
    }
}

#[test]
fn an_empty_index_answers_queries_instead_of_panicking() {
    let nc = NetCluster::new(Options::default());
    assert!(nc.is_empty());
    assert_eq!(clusters(&nc, WORLD, 5.0, -1).len(), 0);
    assert_eq!(nc.get_tile(0, 0, 0, -1).len(), 0);
    assert_eq!(nc.representative(1, 0), None);
    nc.verify().unwrap();
}

#[test]
fn reinserting_the_same_id_moves_it_rather_than_duplicating() {
    let mut nc = NetCluster::new(Options::default());
    insert(&mut nc, 1, -46.63, -23.55);
    insert(&mut nc, 1, 2.35, 48.85);
    assert_eq!(nc.len(), 1);
    let f = clusters(&nc, WORLD, 16.0, -1);
    assert_eq!(f.len(), 1);
    assert!((place(&f[0]).0 - 2.35).abs() < 1e-6, "id 1 did not move");
    nc.verify().unwrap();
}

/// `cluster_of` must name the same marker a viewport query would draw the device
/// inside of. If these disagree, "find my vehicle" highlights the wrong marker.
#[test]
fn cluster_of_agrees_with_the_viewport_query() {
    let nc = build(400, 616);
    for z in [0, 3, 7, 11, 16] {
        let drawn = clusters(&nc, WORLD, z as f64, -1);
        for id in 0..400u64 {
            let c = nc
                .cluster_of(id, z)
                .expect("every live device has a cluster");
            let found = drawn.iter().find(|f| match (f, &c) {
                (
                    Feature::Cluster { cluster_id: a, .. },
                    Feature::Cluster { cluster_id: b, .. },
                ) => a == b,
                (Feature::Point { id: a, .. }, Feature::Point { id: b, .. }) => a == b,
                _ => false,
            });
            let f = found.unwrap_or_else(|| {
                panic!("z={z}: cluster_of({id}) is not among the drawn markers")
            });
            assert_eq!(f.count(), c.count(), "z={z}: device {id} count disagrees");
            assert!(
                (place(f).0 - place(&c).0).abs() < 1e-12,
                "z={z}: device {id} position disagrees"
            );
        }
    }
    assert_eq!(nc.cluster_of(999_999, 5), None);
}

/// The same holds once points have slid about without being re-homed.
#[test]
fn a_viewport_query_agrees_with_the_world_query_after_moves() {
    let mut nc = build(400, 777);
    let mut rng = Rng(31);
    for round in 0..6 {
        for id in 0..400u64 {
            let (x, y) = nc.position(id).unwrap();
            let step = 400.0 * 4f64.powi(round);
            let to = |v: i32, r: f64| (v as f64 + (r - 0.5) * step).clamp(0.0, 1e9) as i32;
            let (a, b) = (to(x, rng.next()), to(y, rng.next()));
            nc.move_to_projected(id, a, b);
        }
        for z in [1, 4, 7, 10, 13] {
            let world = nc.get_clusters_projected(0, 0, 1 << 30, 1 << 30, z, -1);
            for k in 0..10u32 {
                let side = (1 << 29) >> (k % 5);
                let x0 = (rng.next() * 1e9) as i32;
                let y0 = (rng.next() * 1e9) as i32;
                let (x1, y1) = (x0.saturating_add(side), y0.saturating_add(side));
                let mut got: Vec<String> = nc
                    .get_clusters_projected(x0, y0, x1, y1, z, -1)
                    .iter()
                    .map(|f| format!("{f:?}"))
                    .collect();
                let mut want: Vec<String> = world
                    .iter()
                    .filter(|f| {
                        let (n, sx, sy) = match **f {
                            Feature::Point { x, y, .. } => (1i64, x as i64, y as i64),
                            Feature::Cluster { count, sx, sy, .. } => (count as i64, sx, sy),
                        };
                        x0 as i64 * n <= sx
                            && sx <= x1 as i64 * n
                            && y0 as i64 * n <= sy
                            && sy <= y1 as i64 * n
                    })
                    .map(|f| format!("{f:?}"))
                    .collect();
                got.sort();
                want.sort();
                assert_eq!(got, want, "round {round}, z={z}");
            }
        }
    }
}

/// Points in one place never part; beyond the finest level they are shown one by one.
#[test]
fn a_cluster_of_points_in_one_place_breaks_into_them() {
    let mut nc = NetCluster::new(Options::default());
    for id in [5, 6, 7] {
        nc.insert_projected(id, 500_000, 600_000, 0);
    }
    for z in [0, 9, 16, 20] {
        let seen = nc.get_clusters_projected(0, 0, 1 << 30, 1 << 30, z, -1);
        assert_eq!(seen.len(), 1);
        let id = match seen[0] {
            Feature::Cluster {
                cluster_id, count, ..
            } => {
                assert_eq!(count, 3);
                cluster_id
            }
            Feature::Point { .. } => panic!("three points drawn as one"),
        };
        let mut kids: Vec<u64> = nc
            .get_children(id)
            .unwrap()
            .iter()
            .map(|f| match f {
                Feature::Point { id, x, y } => {
                    assert_eq!((*x, *y), (500_000, 600_000));
                    *id
                }
                Feature::Cluster { .. } => panic!("a cluster beyond the finest level"),
            })
            .collect();
        kids.sort();
        assert_eq!(kids, vec![5, 6, 7]);
    }
}

/// The children of a cluster hold its points, all of them.
#[test]
fn the_children_of_a_cluster_add_up_to_it() {
    let nc = build(500, 4242);
    let mut broken = 0;
    for z in [0, 3, 6, 9, 12, 15, 16] {
        for f in nc.get_clusters_projected(0, 0, 1 << 30, 1 << 30, z, -1) {
            if let Feature::Cluster {
                cluster_id, count, ..
            } = f
            {
                let kids = nc.get_children(cluster_id).unwrap();
                assert!(kids.len() >= 2);
                assert_eq!(kids.iter().map(|k| k.count()).sum::<u32>(), count);
                broken += 1;
            }
        }
    }
    assert!(broken > 20);
}

/// Radius and extent count by their ratio alone, and the layout of the filter sums does not
/// count: the same calls give the same answers.
#[test]
fn only_the_ratio_of_radius_and_extent_counts() {
    let plain = Options {
        cells: 4,
        max_cells_per_device: 2,
        ..Options::default()
    };
    let doubled = Options {
        radius: plain.radius * 2,
        extent: plain.extent * 2,
        ..plain
    };
    let sparse = Options {
        dense_cells: 0,
        ..plain
    };
    let mut all: Vec<NetCluster> = [plain, doubled, sparse].map(NetCluster::new).into();
    let mut rng = Rng(99);
    for step in 0..1500u32 {
        let id = (rng.next() * 150.0) as u64;
        let (x, y) = ((rng.next() * 1e9) as i32, (rng.next() * 1e9) as i32);
        let near = (x >> 12, y >> 12);
        let cells = [(rng.next() * 4.0) as u32 % 4];
        let what = step % 5;
        for nc in all.iter_mut() {
            match what {
                0 => {
                    nc.insert_projected(id, x, y, cells[0]);
                }
                1 => {
                    nc.insert_projected_cells(id, near.0, near.1, &cells);
                }
                2 => {
                    nc.move_to_projected_cells(id, near.0 + 300, near.1, None);
                }
                3 => {
                    nc.remove(id);
                }
                _ => {
                    nc.move_to_projected(id, near.0, y);
                }
            }
        }
    }
    let shown = |nc: &NetCluster, z: i32, cat: i32| {
        let v: Vec<String> = nc
            .get_clusters_projected(0, 0, 1 << 30, 1 << 29, z, cat)
            .iter()
            .map(|f| format!("{f:?}"))
            .collect();
        v
    };
    for z in [0, 4, 8, 12, 16] {
        for cat in [-1, 0, 3] {
            let first = shown(&all[0], z, cat);
            assert!(!first.is_empty());
            assert_eq!(first, shown(&all[1], z, cat));
            assert_eq!(first, shown(&all[2], z, cat));
        }
    }
    for nc in &all {
        nc.verify().unwrap();
    }
}

/// A handle that was given back is the next to be taken.
#[test]
fn handles_are_used_again_last_out_first_in() {
    let mut nc = NetCluster::new(Options::default());
    let at = |id: u64| (id as i32 * 1_000_000, 7_000_000);
    for id in 0..4 {
        assert_eq!(nc.insert_projected(id, at(id).0, at(id).1, 0), id as u32);
    }
    assert!(nc.remove(1));
    assert!(nc.remove(3));
    assert!(!nc.remove(3));
    assert_eq!(nc.insert_projected(10, 5, 5, 0), 3);
    assert_eq!(nc.insert_projected(11, 6, 6, 0), 1);
    assert_eq!(nc.insert_projected(12, 7, 7, 0), 4);
    assert_eq!(nc.insert_projected(10, 8, 8, 0), 3);
}

/// What fits is reckoned by the points that are there, not by the room kept for them.
#[test]
fn a_million_devices_in_many_cells_fit() {
    let o = Options {
        cells: 1000,
        max_cells_per_device: 64,
        ..Options::default()
    };
    assert!(o.is_valid());
    assert!(o.can_house(1_000_000));
    assert!(!o.can_house(10_000_000));
    let fine = Options {
        max_zoom: 20,
        radius: 10_000,
        ..Options::default()
    };
    assert!(fine.is_valid());
    let mut nc = NetCluster::new(fine);
    nc.insert_projected(1, 0, 0, 0);
    nc.insert_projected(2, 1 << 30, 1 << 30, 0);
    nc.verify().unwrap();
    assert_eq!(
        nc.get_clusters_projected(0, 0, 1 << 30, 1 << 30, 20, -1)
            .len(),
        2
    );
}

/// Cells of two radii would be too many for a key here, so the grids are coarser; what is a
/// cluster still goes by the radius, which is less than one unit.
#[test]
fn a_radius_below_one_unit_parts_neighbours() {
    for radius in [1, 20] {
        let o = Options {
            max_zoom: 20,
            radius,
            ..Options::default()
        };
        assert!(o.is_valid());
        let mut nc = NetCluster::new(o);
        for (id, x, y) in [
            (1, 0, 0),
            (2, 1 << 30, 1 << 30),
            (3, 500_000_000, 500_000_000),
            (4, 500_000_001, 500_000_000),
            (5, 500_000_001, 500_000_001),
            (6, 500_000_001, 500_000_001),
        ] {
            nc.insert_projected(id, x, y, 0);
        }
        nc.verify().unwrap();
        assert_eq!(
            nc.get_clusters_projected(0, 0, 1 << 30, 1 << 30, 20, -1)
                .len(),
            5
        );
        nc.move_to_projected(4, 500_000_000, 500_000_000);
        nc.remove(1);
        nc.verify().unwrap();
        assert_eq!(
            nc.get_clusters_projected(0, 0, 1 << 30, 1 << 30, 20, -1)
                .len(),
            3
        );
    }
}

/// A search goes through the coarsest grid column by column, the last root first, and comes upon a
/// center before what is below it.
#[test]
fn features_come_in_the_order_of_the_search() {
    let ids = |nc: &NetCluster, z: i32| -> Vec<u64> {
        nc.get_clusters_projected(0, 0, 1 << 30, 1 << 30, z, -1)
            .iter()
            .map(|f| match f {
                Feature::Point { id, .. } => *id,
                Feature::Cluster { cluster_id, .. } => *cluster_id,
            })
            .collect()
    };
    let wide = 167_772_160;
    let mut nc = NetCluster::new(Options::default());
    nc.insert_projected(3, 80_000_000 + wide, 80_000_000, 0);
    nc.insert_projected(1, 80_000_000, 80_000_000, 0);
    nc.insert_projected(2, 80_000_000, 80_000_000 + wide, 0);
    assert_eq!(ids(&nc, 0), vec![3, 2, 1]);
    nc.insert_projected(4, 130_000_000, 80_000_000, 0);
    nc.insert_projected(5, 68_000_000, 80_000_000, 0);
    assert_eq!(ids(&nc, 16), vec![3, 2, 1, 5, 4]);
    let whole = nc.get_clusters_projected(0, 0, 1 << 30, 1 << 30, 0, -1);
    assert_eq!(whole.len(), 3);
    let id = match whole[2] {
        Feature::Cluster { cluster_id, .. } => cluster_id,
        Feature::Point { .. } => panic!("three points drawn as one"),
    };
    assert_eq!(nc.get_children(id).unwrap().len(), 2);
    let leaves: Vec<u64> = nc
        .get_leaves(id, 10, 0)
        .unwrap()
        .iter()
        .map(|f| match f {
            Feature::Point { id, .. } => *id,
            Feature::Cluster { .. } => panic!("a cluster among the leaves"),
        })
        .collect();
    assert_eq!(leaves, vec![1, 4, 5]);
}
