//! The tables behind the index, and what its features say.
use netcluster::cellhash::CellHash;
use netcluster::cells::{bytes_of, CellTable};
use netcluster::decimal::{cmp_decimal, first_in_decimal, write_decimal};
use netcluster::feature::{abbrev, ClusterIdError, Feature};
use std::cmp::Ordering;

#[test]
fn insert_lookup_remove_round_trip() {
    let mut h = CellHash::with_capacity(8);
    for i in 0..5000u64 {
        h.set(i * 7 + 1, i as u32);
    }
    assert_eq!(h.len(), 5000);
    for i in 0..5000u64 {
        assert_eq!(h.get(i * 7 + 1), Some(i as u32));
    }
    assert_eq!(h.get(999_999_999), None);
    for i in (0..5000u64).step_by(2) {
        assert!(h.remove(i * 7 + 1));
    }
    for i in 0..5000u64 {
        let want = if i % 2 == 0 { None } else { Some(i as u32) };
        assert_eq!(h.get(i * 7 + 1), want, "key {i}");
    }
}

/// Backward-shift deletion must leave no debris: churning far more entries than the table ever
/// holds at once must not grow it.
#[test]
fn churn_does_not_accumulate_garbage() {
    let mut h = CellHash::with_capacity(1024);
    let before = h.bytes();
    for round in 0..200u64 {
        for i in 0..300u64 {
            h.set(round * 1000 + i, i as u32);
        }
        for i in 0..300u64 {
            assert!(h.remove(round * 1000 + i));
        }
    }
    assert_eq!(h.len(), 0);
    assert_eq!(
        h.bytes(),
        before,
        "table grew despite a steady-state size of 0"
    );
}

/// A table starts with eight positions, doubled until they are enough, of twelve bytes each.
#[test]
fn a_table_starts_with_a_power_of_two() {
    assert_eq!(CellHash::with_capacity(0).bytes(), 8 * 12);
    assert_eq!(CellHash::with_capacity(9).bytes(), 16 * 12);
    assert_eq!(CellHash::with_capacity(100).bytes(), 128 * 12);
    assert_eq!(CellHash::with_capacity(128).bytes(), 128 * 12);
}

#[test]
fn a_table_lists_what_it_holds() {
    let mut h = CellHash::with_capacity(8);
    assert!(h.is_empty());
    h.set(5, 50);
    h.set(9, 90);
    h.set(5, 51);
    let mut all = h.iter();
    all.sort();
    assert_eq!(all, vec![(5, 51), (9, 90)]);
    assert!(!h.remove(6));
    assert_eq!(h.len(), 2);
}

/// Dense and sparse tables keep the same sums.
#[test]
fn aggregates_add_up_in_either_layout() {
    for dense in [8, 0] {
        let mut t = CellTable::new(4, dense);
        assert!(t.enabled());
        t.grow(16);
        t.bump(3, 1, 1, 10, 20);
        t.bump(3, 1, 2, 5, 6);
        t.bump(3, 2, 1, 7, 8);
        assert_eq!(t.count(3, 1), 3);
        assert_eq!(t.count(3, 2), 1);
        assert_eq!(t.count(3, 0), 0);
        let e = t.find(3, 1).unwrap();
        assert_eq!(t.at(e), (3, 15, 26));
        t.bump(3, 2, -1, -7, -8);
        assert_eq!(t.count(3, 2), 0);
        t.drop_slot(3);
        assert_eq!(t.count(3, 1), 0);
        assert_eq!(t.entries(), 0);
    }
    let off = CellTable::new(0, 8);
    assert!(!off.enabled());
}

/// What a subtree holds moves with it.
#[test]
fn a_subtree_moves_between_chains() {
    for dense in [8, 0] {
        let mut t = CellTable::new(4, dense);
        t.grow(16);
        t.set_self(1, &vec![0, 2], 100, 200);
        t.walk(&vec![5, 6], &vec![0, 2], 1, 100, 200);
        assert_eq!(t.count(6, 2), 1);
        t.move_subtree(&vec![5, 6], 1, -1);
        assert_eq!(t.count(5, 0), 0);
        t.move_subtree(&vec![7], 1, 1);
        let e = t.find(7, 2).unwrap();
        assert_eq!(t.at(e), (1, 100, 200));
    }
}

#[test]
fn abbreviation_matches_the_supercluster_convention() {
    assert_eq!(abbrev(7), "7");
    assert_eq!(abbrev(999), "999");
    assert_eq!(abbrev(1000), "1k");
    assert_eq!(abbrev(1240), "1.2k");
    assert_eq!(abbrev(9999), "10k");
    assert_eq!(abbrev(10_000), "10k");
    assert_eq!(abbrev(123_400), "123k");
}

#[test]
fn features_tell_their_size() {
    let p = Feature::Point { id: 1, x: 2, y: 3 };
    assert_eq!(p.count(), 1);
    assert!(!p.is_cluster());
    let c = Feature::Cluster {
        cluster_id: 64,
        count: 1500,
        sx: 0,
        sy: 0,
    };
    assert_eq!(c.count(), 1500);
    assert!(c.is_cluster());
    assert_eq!(c.count_abbreviated(), "1.5k");
    let e = ClusterIdError { cluster_id: 77 };
    assert!(e.message().contains("cluster id 77 "));
}

#[test]
fn decimal_tie_break_matches_javascript_string_ordering() {
    // The cases that make it eccentric, and therefore the ones that matter.
    assert_eq!(cmp_decimal(10, 9), Ordering::Less);
    assert_eq!(cmp_decimal(9, 10), Ordering::Greater);
    assert_eq!(cmp_decimal(1, 1), Ordering::Equal);
    assert_eq!(cmp_decimal(100, 11), Ordering::Less);
    assert_eq!(cmp_decimal(2, 19), Ordering::Greater);
    assert_eq!(cmp_decimal(0, 1), Ordering::Less);
    assert_eq!(cmp_decimal(u64::MAX, 1), Ordering::Greater);

    // Exhaustive cross-check against the actual rule, expressed directly.
    for a in 0..300u64 {
        for b in 0..300u64 {
            assert_eq!(
                cmp_decimal(a, b),
                a.to_string().cmp(&b.to_string()),
                "{a} vs {b}"
            );
            assert_eq!(first_in_decimal(a, b), a.to_string() < b.to_string());
        }
    }
    assert_eq!(write_decimal(1070), b"1070".to_vec());
}

/// In the flat array an entry has its place; else it has one as long as something is counted.
#[test]
fn entries_are_found_where_they_are_kept() {
    let mut t = CellTable::new(4, 8);
    t.grow(16);
    assert_eq!(t.find(3, 1), Some(13));
    t.bump(3, 1, 1, 10, 20);
    assert_eq!(t.find(3, 1), Some(13));
    let mut t = CellTable::new(4, 0);
    t.grow(16);
    assert_eq!(t.entries(), 0);
    assert_eq!(t.find(3, 1), None);
    assert_eq!(t.find(1000, 1), None);
    assert_eq!(t.count(1000, 1), 0);
    t.bump(3, 1, 1, 10, 20);
    assert!(t.find(3, 1).is_some());
    assert_eq!(t.entries(), 1);
    t.bump(3, 1, -1, -10, -20);
    assert_eq!(t.find(3, 1), None);
    assert_eq!(t.entries(), 0);
}

/// A cell that is listed twice counts once, and a node may lie on the chain that it moves to.
#[test]
fn odd_lists_are_taken_too() {
    for dense in [8, 0] {
        let mut t = CellTable::new(4, dense);
        t.grow(16);
        t.set_self(1, &vec![2, 2], 100, 200);
        assert_eq!(t.count(1, 2), 1);
        let e = t.find(1, 2).unwrap();
        assert_eq!(t.at(e), (1, 100, 200));
        t.move_subtree(&vec![1, 5], 1, 1);
        assert_eq!(t.count(1, 2), 2);
        assert_eq!(t.count(5, 2), 1);
    }
}

#[test]
fn the_room_of_a_table_in_bytes() {
    assert_eq!(bytes_of(true, 10, 10, 10, 9, 9, 9, 9, 9), 200);
    assert_eq!(bytes_of(false, 10, 10, 10, 1, 2, 3, 4, 96), 336);
    assert_eq!(bytes_of(false, usize::MAX, 1, 1, 1, 1, 1, 1, 1), usize::MAX);
    let mut t = CellTable::new(4, 8);
    t.grow(16);
    assert!(t.bytes() >= 64 * 20);
}

/// Two walks that cancel leave nothing behind; a repeated cell is counted as often as it stands.
#[test]
fn walks_add_up_and_cancel() {
    let mut t = CellTable::new(6, 0);
    t.grow(3);
    t.walk(&vec![0, 1], &vec![2, 5], 1, 10, 20);
    t.walk(&vec![0], &vec![2], -1, -10, -20);
    assert_eq!(t.entries(), 3);
    assert_eq!(t.find(0, 2), None);
    assert_eq!(t.count(0, 2), 0);
    assert_eq!(t.count(0, 5), 1);
    assert_eq!(t.count(1, 2), 1);
    assert_eq!(t.count(1, 5), 1);
    for dense in [8, 0] {
        let mut t = CellTable::new(4, dense);
        t.grow(4);
        t.walk(&vec![2, 3, 2], &vec![1, 1, 0], 1, 5, 7);
        let at = |s, c| t.find(s, c).map(|e| t.at(e));
        assert_eq!(at(2, 1), Some((4, 20, 28)));
        assert_eq!(at(2, 0), Some((2, 10, 14)));
        assert_eq!(at(3, 1), Some((2, 10, 14)));
        assert_eq!(at(3, 0), Some((1, 5, 7)));
        t.walk(&vec![2, 3, 2], &vec![1, 1, 0], -1, -5, -7);
        assert_eq!(t.entries(), 0);
    }
}

/// Two tables of either layout, given the same calls, hold the same.
#[test]
fn layouts_agree_after_the_same_calls() {
    let run = |dense: usize| {
        let mut t = CellTable::new(4, dense);
        t.grow(8);
        t.set_self(1, &vec![0, 2], 100, 200);
        t.walk(&vec![5, 6], &vec![0, 2], 1, 100, 200);
        t.bump(6, 3, 2, 9, 8);
        t.grow(32);
        t.set_self(20, &vec![1], 7, 7);
        t.move_subtree(&vec![5], 1, -1);
        t.bump(6, 3, -1, -4, -4);
        t.drop_slot(20);
        t
    };
    let (a, b) = (run(8), run(0));
    assert_eq!(a.entries(), b.entries());
    for s in 0..32u32 {
        for cell in 0..4u32 {
            assert_eq!(a.count(s, cell), b.count(s, cell));
            let sums = |t: &CellTable| t.find(s, cell).map(|e| t.at(e)).filter(|n| n.0 != 0);
            assert_eq!(sums(&a), sums(&b), "slot {s}, cell {cell}");
        }
    }
    assert_eq!(a.count(6, 3), 1);
    assert_eq!(a.count(5, 0), 0);
}
