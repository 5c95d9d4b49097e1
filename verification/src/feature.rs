//! What a query returns.
use crate::text::{number, push_number};
use vstd::prelude::*;
use vstd::string::StringExecFns;

verus! {

/// One thing to draw on a map: either a single point or a cluster standing in for several.
///
/// The split is an enum rather than a struct with a `count` field because the two cases carry
/// different identities: a point is identified by *your* id, a cluster by an opaque handle into
/// the tree that is only meaningful until the next mutation.
#[derive(Debug, Clone, Copy, PartialEq, Eq, Structural)]
pub enum Feature {
    Point {
        /// The external id you inserted the point under.
        id: u64,
        x: i32,
        y: i32,
    },
    Cluster {
        /// Opaque handle for `get_children`, `get_leaves` and `get_cluster_expansion_zoom`.
        ///
        /// It encodes a slot and a zoom level, and it is invalidated by any mutation that frees
        /// that slot. Do not persist it, and do not treat it as stable across a query.
        cluster_id: u64,
        /// How many points this cluster stands for. Always at least 2.
        count: u32,
        /// The sums of the members' coordinates: divided by `count`, the centroid, exactly the
        /// arithmetic mean.
        sx: i64,
        sy: i64,
    },
}

impl Feature {
    /// 1 for a single point, otherwise the cluster's member count.
    pub open spec fn size(&self) -> int {
        match *self {
            Feature::Point { .. } => 1,
            Feature::Cluster { count, .. } => count as int,
        }
    }

    /// 1 for a single point, otherwise the cluster's member count.
    pub fn count(&self) -> (n: u32)
        ensures
            n == self.size(),
    {
        match *self {
            Feature::Point { .. } => 1,
            Feature::Cluster { count, .. } => count,
        }
    }

    pub fn is_cluster(&self) -> (r: bool)
        ensures
            r == (self is Cluster),
    {
        match *self {
            Feature::Point { .. } => false,
            Feature::Cluster { .. } => true,
        }
    }

    /// `"1.2k"`, `"34k"`: the abbreviation convention supercluster uses for marker labels.
    pub fn count_abbreviated(&self) -> (s: String)
        ensures
            s@ == abbreviated(self.size()),
    {
        abbrev(self.count())
    }
}

/// A count as a marker label: in full below a thousand, then in thousands, with one decimal
/// below ten thousand unless it is 0; rounded to the nearest, halves upward.
pub open spec fn abbreviated(n: int) -> Seq<char> {
    if n >= 10_000 {
        number((n + 500) / 1000).push('k')
    } else if n >= 1000 {
        let tenths = (n + 50) / 100;
        if tenths % 10 == 0 {
            number(tenths / 10).push('k')
        } else {
            (number(tenths / 10).push('.') + number(tenths % 10)).push('k')
        }
    } else {
        number(n)
    }
}

/// A count as a marker label.
pub fn abbrev(n: u32) -> (s: String)
    ensures
        s@ == abbreviated(n as int),
{
    let mut s = String::new();
    if n >= 10_000 {
        push_number(&mut s, (n as u64 + 500) / 1000);
        s.push('k');
    } else if n >= 1000 {
        let tenths: u64 = (n as u64 + 50) / 100;
        push_number(&mut s, tenths / 10);
        if tenths % 10 != 0 {
            s.push('.');
            push_number(&mut s, tenths % 10);
        }
        s.push('k');
    } else {
        push_number(&mut s, n as u64);
    }
    proof {
        assert(s@ =~= abbreviated(n as int));
    }
    s
}

/// A point positioned inside a vector tile, in tile-extent coordinates.
///
/// `x` and `y` may fall slightly outside `0..extent`: the query pads the tile by the cluster
/// radius so that a marker straddling the seam is emitted by both neighbouring tiles instead of
/// being clipped in half.
#[derive(Debug, Clone, Copy, PartialEq, Eq, Structural)]
pub struct TileFeature {
    pub x: i32,
    pub y: i32,
    pub count: u32,
    /// External id when `count == 1`, otherwise the cluster handle.
    pub id: u64,
    pub is_cluster: bool,
}

/// The only thing that can go wrong reading a cluster handle back.
#[derive(Debug, Clone, Copy, PartialEq, Eq, Structural)]
pub struct ClusterIdError {
    pub cluster_id: u64,
}

/// What a [`ClusterIdError`] says before and after the handle.
pub open spec fn handle_message(id: int) -> Seq<char> {
    "netcluster: cluster id "@ + number(id)
        + " does not refer to a live cluster. Cluster ids come from Feature::Cluster returned by get_clusters(), and are invalidated by mutations. A device id is not a cluster id -- use representative(id, zoom) for that."@
}

impl ClusterIdError {
    /// The error in words.
    pub fn message(&self) -> (s: String)
        ensures
            s@ == handle_message(self.cluster_id as int),
    {
        let mut s = String::from_str("netcluster: cluster id ");
        push_number(&mut s, self.cluster_id);
        s.append(
            " does not refer to a live cluster. Cluster ids come from Feature::Cluster returned by get_clusters(), and are invalidated by mutations. A device id is not a cluster id -- use representative(id, zoom) for that.",
        );
        s
    }
}

} // verus!
