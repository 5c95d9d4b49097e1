//! The index itself.
//!
//! An index maintains, for every zoom level at once, a net of the live points at that level's
//! scale. The contracts speak of it as a [`Net`]; the parallel structures below, the arena of
//! nodes, the grids and the filter aggregates, are how it is kept.
use crate::calls::{Handles, Holdings};
use crate::cells::{holds, own_load, CellTable};
use crate::forest::Forest;
use crate::geometry::{in_world, Geometry, Options};
use crate::grid::{grid_lists, Grid};
use crate::net::{Net, Point};
use crate::order::{floor_of, kids_of, Lists};
use crate::sums::total;
use std::collections::HashMap;
use vstd::prelude::*;

pub mod arena;
pub mod audit;
pub mod checking;
pub mod facts;
pub mod grids;
pub mod handles;
pub mod leaves;
pub mod mass;
pub mod place;
pub mod promises;
pub mod query;
pub mod seek;
pub mod tile;
pub mod tiling;
pub mod tree;
pub mod unfolding;
pub mod update;
pub mod verify;

pub use crate::grid::{Slot, NONE};
use arena::Arena;

verus! {

/// Counters, for benchmarks and for watching an index behave in production.
#[derive(Debug, Clone, Copy, PartialEq, Eq, Structural)]
pub struct Stats {
    pub inserts: u64,
    pub removes: u64,
    pub moves: u64,
    /// Moves absorbed by the fast path: no invariant was broken, so nothing but aggregates and
    /// possibly a grid cell changed.
    pub moves_fast: u64,
    /// Moves that needed a local repair (detach, re-home children, re-link).
    pub moves_rebuilt: u64,
    /// Re-homed children that ended up at a coarser level than before.
    pub promotions: u64,
    pub reparents: u64,
    pub probes: u64,
}

/// Fully dynamic hierarchical geospatial clustering.
pub struct NetCluster {
    geo: Geometry,
    grid: Grid,
    table: CellTable,
    arena: Arena,
    ids: HashMap<u64, Slot>,
    pub stats: Stats,
}

/// What an index amounts to: its points and its counters.
#[verifier::ext_equal]
pub struct State {
    pub net: Net,
    pub counters: Stats,
}

/// An index without a point that has counted nothing.
pub open spec fn blank_state(o: Options) -> State {
    State { net: Net { opts: o, pts: Map::empty() }, counters: update::no_stats() }
}

/// The packed grid key of a position at level `z`.
pub open spec fn grid_key(o: Options, x: int, y: int, z: int) -> u64 {
    (z * 0x400_0000_0000_0000 + o.cell(x, z) * 0x2000_0000 + o.cell(y, z)) as u64
}

/// What a point adds to measure `a` of cell `c`: its count, its coordinates, or the number of
/// its cells; a negative cell stands for all points.
pub open spec fn weight(width: int, a: int, c: int, p: Point) -> int {
    if a == 3 {
        own_load(width, p.cells)
    } else if c < 0 || (width > 0 && holds(p.cells, c)) {
        if a == 0 {
            1
        } else if a == 1 {
            p.x
        } else {
            p.y
        }
    } else {
        0
    }
}

/// A measure: count, sum of x, sum of y, or filter load.
pub open spec fn measure(a: int, c: int) -> bool {
    0 <= a <= 3
}

/// Filter cells that a point may have.
pub open spec fn cells_ok(o: Options, q: Seq<u32>) -> bool {
    &&& q.no_duplicates()
    &&& q.len() <= o.max_cells_per_device
    &&& forall|i: int| 0 <= i < q.len() ==> #[trigger] q[i] < o.cells_in_force()
}

impl NetCluster {
    /// The geometry of the index.
    pub closed spec fn opts(&self) -> Options {
        self.geo.options()
    }

    /// Handles are below this number.
    pub closed spec fn slots(&self) -> int {
        self.arena.n as int
    }

    /// The handles.
    pub closed spec fn handles(&self) -> Handles {
        Handles { made: self.arena.n as int, free: self.arena.spare@ }
    }

    /// The order of the lists.
    pub closed spec fn lists(&self) -> Lists {
        Lists { floor: floor_of(self.grid@), kids: kids_of(self.arena.kids@) }
    }

    /// The points, the handles and the lists.
    pub open spec fn holdings(&self) -> Holdings {
        Holdings { net: self.net(), handles: self.handles(), lists: self.lists() }
    }

    /// The counters.
    pub closed spec fn counters(&self) -> Stats {
        self.stats
    }

    /// The points and the counters.
    pub open spec fn state(&self) -> State {
        State { net: self.net(), counters: self.counters() }
    }

    spec fn live(&self, s: int) -> bool {
        self.arena.live(s)
    }

    spec fn level(&self, s: int) -> int {
        if 0 <= s < self.arena.cap() {
            self.arena.nodes[s].tz as int
        } else {
            0
        }
    }

    /// What slot `s` says of its point.
    spec fn point(&self, s: int) -> Point {
        let v = self.arena.nodes[s];
        Point {
            id: v.ext,
            x: v.qx as int,
            y: v.qy as int,
            cells: self.arena.tags[s]@,
            level: v.tz as int,
            parent: if self.arena.up(s) >= 0 {
                Some(self.arena.up(s))
            } else {
                None
            },
        }
    }

    /// The index as a net.
    pub closed spec fn net(&self) -> Net {
        Net {
            opts: self.opts(),
            pts: Map::new(|s: int| self.live(s), |s: int| self.point(s)),
        }
    }

    spec fn forest(&self) -> Forest {
        Forest {
            n: self.slots(),
            on: |s: int| self.live(s),
            up: |s: int|
                if self.live(self.arena.up(s)) {
                    self.arena.up(s)
                } else {
                    -1
                },
            level: |s: int| self.level(s),
            kids: self.arena.kids@,
        }
    }

    spec fn mass(&self, a: int, c: int, s: int) -> int {
        let v = self.arena.nodes[s];
        if a == 3 {
            self.table.load(s)
        } else if c < 0 {
            if a == 0 {
                v.cnt as int
            } else if a == 1 {
                v.sx as int
            } else {
                v.sy as int
            }
        } else {
            let m = self.table.val(s, c);
            if a == 0 {
                m.0
            } else if a == 1 {
                m.1
            } else {
                m.2
            }
        }
    }

    spec fn agg(&self, a: int, c: int) -> spec_fn(int) -> int {
        |s: int| self.mass(a, c, s)
    }

    spec fn weigh(&self, a: int, c: int) -> spec_fn(int) -> int {
        |s: int| weight(self.opts().cells_in_force(), a, c, self.point(s))
    }

    spec fn key_fn(&self) -> spec_fn(int, int) -> u64 {
        |s: int, z: int|
            if 0 <= s < self.arena.cap() {
                grid_key(
                    self.opts(),
                    self.arena.nodes[s].qx as int,
                    self.arena.nodes[s].qy as int,
                    z,
                )
            } else {
                0
            }
    }

    spec fn list_fn(&self) -> spec_fn(int, int) -> bool {
        |s: int, z: int| self.live(s) && self.level(s) <= z <= self.opts().max_zoom
    }

    /// How many levels a slot is listed at.
    spec fn listings(&self) -> spec_fn(int) -> int {
        |s: int|
            if self.live(s) && self.level(s) <= self.opts().max_zoom {
                self.opts().max_zoom + 1 - self.level(s)
            } else {
                0
            }
    }

    /// The data of slot `s` are those of a point.
    spec fn good_data(&self, s: int) -> bool {
        let v = self.arena.nodes[s];
        &&& in_world(v.qx as int)
        &&& in_world(v.qy as int)
        &&& cells_ok(self.opts(), self.arena.tags[s]@)
    }

    /// The structures fit each other.
    spec fn parts(&self) -> bool {
        &&& self.geo.wf()
        &&& self.arena.wf()
        &&& self.grid.wf()
        &&& self.table.wf()
        &&& self.opts().valid()
        &&& self.table.slots() == self.arena.cap()
        &&& self.table.width() == self.opts().cells_in_force()
        &&& self.table.is_dense() == self.opts().dense()
        &&& self.opts().fits(self.arena.cap())
        &&& self.opts().entries_fit(self.slots())
        &&& forall|s: int|
            #[trigger] self.live(s) ==> self.good_data(s) && self.level(s) <= self.opts().max_zoom
                + 1
    }

    spec fn gridded(&self) -> bool {
        &&& grid_lists(self.grid@, self.key_fn(), self.list_fn())
        &&& self.grid.live() == total(self.slots(), self.listings())
    }

    /// Every aggregate is what the tree says, in every measure.
    spec fn weighed(&self) -> bool {
        forall|a: int, c: int| #[trigger]
            measure(a, c) ==> self.forest().all_balanced(self.agg(a, c), self.weigh(a, c))
    }

    /// Nothing is aggregated under slot `s`.
    spec fn bare(&self, s: int) -> bool {
        forall|c: int| #[trigger] self.table.val(s, c) == (0int, 0int, 0int)
    }

    /// Slots outside the tree, but for `x`, carry no filter load.
    spec fn clean_but(&self, x: int) -> bool {
        forall|s: int|
            0 <= s < self.arena.cap() && !self.live(s) && s != x ==> #[trigger] self.table.load(s)
                == 0 && self.bare(s)
    }

    /// All but the net's own invariants and the id table.
    spec fn sound(&self) -> bool {
        self.parts() && self.gridded() && self.weighed() && self.clean_but(-1)
    }

    spec fn ids_ok(&self) -> bool {
        &&& forall|id: u64| #[trigger]
            self.ids@.contains_key(id) ==> self.live(self.ids@[id] as int)
                && self.arena.nodes[self.ids@[id] as int].ext == id
        &&& forall|s: int| #[trigger]
            self.live(s) ==> self.ids@.contains_key(self.arena.nodes[s].ext)
                && self.ids@[self.arena.nodes[s].ext] == s
    }

    /// The index is in order: the net's invariants hold, every aggregate is exact, the grids
    /// list exactly the centers, and every id leads to its point.
    pub closed spec fn wf(&self) -> bool {
        self.sound() && self.ids_ok() && self.net().ok()
    }

    /// The arena's tree is a tree.
    proof fn lemma_forest(&self)
        requires
            self.arena.wf(),
        ensures
            self.forest().ok(),
            self.forest().n <= self.forest().kids.len(),
            forall|c: int| #[trigger] (self.forest().on)(c) ==> (self.forest().level)(c) <= 21,
            self.net().pts.dom().finite(),
    {
        let f = self.forest();
        assert forall|c: int| #[trigger] (f.on)(c) implies f.hangs(c) && f.bears(c) by {
            assert(self.arena.hung(c));
            let p = self.arena.up(c);
            if self.live(p) {
                let i = self.arena.home@[c].1;
                assert(self.arena.kids@[p][i] == c);
            }
            let q = f.kids[c];
            assert forall|i: int| 0 <= i < q.len() implies (f.on)(#[trigger] q[i]) && (f.up)(q[i])
                == c by {
                assert(self.arena.linked(c, i));
                assert(self.arena.hung(q[i]));
            }
            assert forall|i: int, j: int|
                0 <= i < q.len() && 0 <= j < q.len() && i != j implies q[i] != q[j] by {
                assert(self.arena.linked(c, i) && self.arena.linked(c, j));
            }
        }
        assert forall|c: int| #[trigger] (f.on)(c) implies (f.level)(c) <= 21 by {
            let v = self.arena.nodes[c];
        }
        let all = vstd::set_lib::set_int_range(0, self.slots());
        vstd::set_lib::lemma_int_range(0, self.slots());
        assert(self.net().pts.dom().subset_of(all));
        vstd::set_lib::lemma_set_subset_finite(all, self.net().pts.dom());
    }
}

} // verus!
