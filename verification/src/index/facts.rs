//! Asking the index about its points and about itself.
use super::update::copy_cells;
use super::{measure, NetCluster, Slot, Stats};
use crate::cells::{at_most_max, room_bytes, Room};
use crate::clusters::lemma_single;
use crate::feature::Feature;
use crate::geometry::Options;
use crate::net::Net;
use crate::sums::{lemma_total_ext, lemma_total_extend, lemma_total_zero, total};
use vstd::prelude::*;

verus! {

impl Net {
    /// On how many levels point `s` is a center.
    pub open spec fn levels_of(&self, s: int) -> int {
        if self.has(s) && self.pts[s].level <= self.top() {
            self.top() + 1 - self.pts[s].level
        } else {
            0
        }
    }

    /// How many of the handles below `n` are centers of level `z`.
    pub open spec fn centers_at(&self, n: int, z: int) -> int {
        total(
            n,
            |s: int|
                if self.center(s, z) {
                    1
                } else {
                    0
                },
        )
    }

    /// Some point at or below `s` is in filter cell `c`.
    pub open spec fn occupied(&self, s: int, c: int) -> bool {
        exists|p: int| #[trigger] self.has(p) && self.under(s, p) && self.in_cell(p, c)
    }

    /// In how many filter cells something is at or below `s`.
    pub open spec fn cells_occupied(&self, s: int) -> int {
        total(
            self.opts.cells_in_force(),
            |c: int|
                if self.has(s) && self.occupied(s, c) {
                    1
                } else {
                    0
                },
        )
    }
}

/// **Levels**: the centers of a level are centers of the next, no level has more of them than
/// there are points, and over all levels they are what the grids list.
pub proof fn law_levels(net: Net, n: int)
    requires
        net.ok(),
        net.within_slots(n),
        0 <= n,
    ensures
        forall|y: int, z: int|
            0 <= y <= z ==> #[trigger] net.centers_at(n, y) <= #[trigger] net.centers_at(n, z),
        forall|z: int| 0 <= #[trigger] net.centers_at(n, z) <= net.pts.len(),
        total(net.top() + 1, |z: int| net.centers_at(n, z)) == total(n, |s: int| net.levels_of(s)),
{
    let at = |z: int|
        |s: int|
            if net.center(s, z) {
                1int
            } else {
                0
            };
    assert forall|y: int, z: int| 0 <= y <= z implies #[trigger] net.centers_at(n, y)
        <= #[trigger] net.centers_at(n, z) by {
        lemma_total_ext(n, at(y), |s: int| if net.center(s, y) { 1int } else { 0 });
        lemma_total_ext(n, at(z), |s: int| if net.center(s, z) { 1int } else { 0 });
        crate::sums::lemma_total_le(n, at(y), at(z));
    }
    law_population(net, n);
    let all = |p: int|
        if net.has(p) && net.in_cell(p, -1) {
            1int
        } else {
            0
        };
    assert(net.population(n, -1) == total(n, all)) by {
        lemma_total_ext(n, all, |p: int| if net.has(p) && net.in_cell(p, -1) { 1int } else { 0 });
    }
    assert forall|z: int| 0 <= #[trigger] net.centers_at(n, z) <= net.pts.len() by {
        lemma_total_ext(n, at(z), |s: int| if net.center(s, z) { 1int } else { 0 });
        crate::sums::lemma_total_le(n, at(z), all);
        crate::sums::lemma_total_nonneg(n, at(z));
    }
    let g = |z: int, s: int| at(z)(s);
    crate::sums::lemma_total_swap(net.top() + 1, n, g);
    let rows = |z: int| total(n, |s: int| g(z, s));
    assert forall|z: int| 0 <= z < net.top() + 1 implies #[trigger] rows(z) == net.centers_at(n, z) by {
        lemma_total_ext(n, |s: int| g(z, s), |s: int| if net.center(s, z) { 1int } else { 0 });
    }
    lemma_total_ext(net.top() + 1, rows, |z: int| net.centers_at(n, z));
    let cols = |s: int| total(net.top() + 1, |z: int| g(z, s));
    assert forall|s: int| 0 <= s < n implies #[trigger] cols(s) == net.levels_of(s) by {
        let h = |z: int| g(z, s);
        if net.has(s) {
            assert(net.sound_point(s));
            lemma_from(net.top() + 1, net.pts[s].level, h);
        } else {
            lemma_total_zero(net.top() + 1, h);
        }
    }
    lemma_total_ext(n, cols, |s: int| net.levels_of(s));
}

/// A sum that counts from `l` on.
proof fn lemma_from(n: int, l: int, h: spec_fn(int) -> int)
    requires
        0 <= l,
        forall|z: int|
            0 <= z < n ==> #[trigger] h(z) == (if l <= z {
                1int
            } else {
                0
            }),
    ensures
        total(n, h) == (if l < n {
            n - l
        } else {
            0
        }),
    decreases n,
{
    if n > 0 {
        lemma_from(n - 1, l, h);
        assert(h(n - 1) == (if l <= n - 1 {
            1int
        } else {
            0
        }));
    }
}

/// What shows the same cluster is the same feature.
pub proof fn law_one_picture(net: Net, f: Feature, g: Feature, n: int, c: int, s: int, z: int)
    requires
        net.within_slots(n),
        0 <= n,
        net.shows(f, n, c, s, z),
        net.shows(g, n, c, s, z),
    ensures
        f == g,
{
    if net.tally(n, 0, c, s, z) == 1 {
        let m = choose|m: int| #[trigger]
            net.member(m, s, z, c) && f == (Feature::Point {
                id: net.pts[m].id,
                x: net.pts[m].x as i32,
                y: net.pts[m].y as i32,
            });
        lemma_single(net, n, c, s, z, m);
    }
}

/// The population of an index is the number of its points.
pub proof fn law_population(net: Net, n: int)
    requires
        net.within_slots(n),
        0 <= n,
    ensures
        net.pts.dom().finite(),
        net.population(n, -1) == net.pts.len(),
{
    let f = |p: int|
        if net.has(p) && net.in_cell(p, -1) {
            1int
        } else {
            0
        };
    lemma_cardinality(net.pts.dom(), n, f);
    assert(net.pts.dom().filter(|p: int| 0 <= p < n) =~= net.pts.dom()) by {
        assert forall|p: int| #[trigger] net.pts.dom().contains(p) implies 0 <= p < n by {
            assert(net.has(p));
        }
    }
}

proof fn lemma_cardinality(d: Set<int>, n: int, f: spec_fn(int) -> int)
    requires
        0 <= n,
        forall|p: int| 0 <= p < n ==> #[trigger] f(p) == (if d.contains(p) {
            1int
        } else {
            0
        }),
    ensures
        d.filter(|p: int| 0 <= p < n).finite(),
        total(n, f) == d.filter(|p: int| 0 <= p < n).len(),
    decreases n,
{
    let now = d.filter(|p: int| 0 <= p < n);
    if n == 0 {
        assert(now =~= Set::empty());
    } else {
        lemma_cardinality(d, n - 1, f);
        let was = d.filter(|p: int| 0 <= p < n - 1);
        if d.contains(n - 1) {
            assert(now =~= was.insert(n - 1));
        } else {
            assert(now =~= was);
        }
    }
}

impl NetCluster {
    /// The number of points.
    pub fn len(&self) -> (n: usize)
        requires
            self.wf(),
        ensures
            n == self.net().pts.len(),
    {
        proof {
            self.lemma_forest();
            let ids = self.ids@.dom();
            let f = |id: u64| self.ids@[id] as int;
            let all = self.net().pts.dom();
            assert(ids.map(f) =~= all) by {
                assert forall|s: int| #[trigger] all.contains(s) implies ids.map(f).contains(s) by {
                    self.lemma_net(s);
                    let id = self.arena.nodes[s].ext;
                    assert(self.live(s));
                    assert(ids.contains(id) && f(id) == s);
                }
                assert forall|s: int| #[trigger] ids.map(f).contains(s) implies all.contains(s) by {
                    let id = choose|id: u64| ids.contains(id) && f(id) == s;
                    assert(self.ids@.contains_key(id));
                    self.lemma_net(s);
                }
            }
            assert(vstd::relations::injective_on(f, ids)) by {
                assert forall|a: u64, b: u64|
                    ids.contains(a) && ids.contains(b) && #[trigger] f(a) == #[trigger] f(
                        b,
                    ) implies a == b by {
                    assert(self.ids@.contains_key(a) && self.ids@.contains_key(b));
                }
            }
            vstd::set_lib::lemma_map_size(ids, all, f);
        }
        self.ids.len()
    }

    pub fn is_empty(&self) -> (r: bool)
        requires
            self.wf(),
        ensures
            r == (self.net().pts.len() == 0),
    {
        self.len() == 0
    }

    pub fn max_zoom(&self) -> (z: u8)
        requires
            self.wf(),
        ensures
            z == self.opts().max_zoom,
    {
        self.geo.opts().max_zoom
    }

    pub fn min_zoom(&self) -> (z: u8)
        requires
            self.wf(),
        ensures
            z == self.opts().min_zoom,
    {
        self.geo.opts().min_zoom
    }

    /// How many filter cells are in force.
    pub fn categories(&self) -> (n: usize)
        requires
            self.wf(),
        ensures
            n == self.opts().cells_in_force(),
    {
        self.geo.opts().cell_count()
    }

    pub fn options(&self) -> (o: Options)
        requires
            self.wf(),
        ensures
            o == self.opts(),
    {
        self.geo.opts()
    }

    /// The level-`z` representative of a slot.
    fn climb(&self, from: Slot, z: i32) -> (s: Slot)
        requires
            self.wf(),
            self.live(from as int),
            z >= 0,
        ensures
            self.live(s as int),
            s == self.net().rep(from as int, z as int),
            self.level(s as int) <= z,
    {
        let ghost net = self.net();
        let mut s = from;
        while self.arena.nodes[s as usize].tz as i32 > z
            invariant
                self.wf(),
                net == self.net(),
                z >= 0,
                self.live(s as int),
                net.rep(s as int, z as int) == net.rep(from as int, z as int),
            decreases self.level(s as int),
        {
            proof {
                self.lemma_net(s as int);
                assert(net.covering(s as int) && net.sound_point(s as int));
                assert(self.arena.hung(s as int));
                let q = self.arena.up(s as int);
                self.lemma_net(q);
                assert(net.has(q));
                assert(net.sound_point(q));
            }
            s = self.arena.nodes[s as usize].par;
        }
        proof {
            self.lemma_net(s as int);
        }
        s
    }

    /// The level-`z` representative as an internal slot.
    pub fn representative_slot(&self, id: u64, z: i32) -> (r: Option<Slot>)
        requires
            self.wf(),
            z >= 0,
        ensures
            match r {
                Some(s) => exists|p: int| #[trigger]
                    self.net().named(p, id) && s == self.net().rep(p, z as int),
                None => !self.net().knows(id),
            },
    {
        match self.find(id) {
            Some(p) => {
                let s = self.climb(p, z);
                proof {
                    assert(self.net().named(p as int, id));
                }
                Some(s)
            },
            None => None,
        }
    }

    /// The level-`z` representative of a point: the id of the point that it is drawn as, or
    /// `None` if the point is not in the index.
    pub fn representative(&self, id: u64, z: i32) -> (r: Option<u64>)
        requires
            self.wf(),
            z >= 0,
        ensures
            match r {
                Some(e) => exists|p: int| #[trigger]
                    self.net().named(p, id) && e == self.net().pts[self.net().rep(p, z as int)].id,
                None => !self.net().knows(id),
            },
    {
        match self.find(id) {
            Some(p) => {
                let s = self.climb(p, z);
                proof {
                    assert(self.net().named(p as int, id));
                    self.lemma_net(s as int);
                }
                Some(self.arena.nodes[s as usize].ext)
            },
            None => None,
        }
    }

    /// The cluster a device is drawn as at a zoom.
    ///
    /// The direct answer to "my vehicle is somewhere on this map, which marker is it inside?",
    /// which otherwise needs a viewport query and a search.
    pub fn cluster_of(&self, id: u64, zoom: i32) -> (r: Option<Feature>)
        requires
            self.wf(),
        ensures
            match r {
                Some(f) => exists|p: int| #[trigger]
                    self.net().named(p, id) && self.net().shows(
                        f,
                        self.slots(),
                        -1,
                        self.net().rep(p, self.zoom_of(zoom as int)),
                        self.zoom_of(zoom as int),
                    ),
                None => !self.net().knows(id),
            },
    {
        let z = self.clamp_zoom(zoom);
        match self.find(id) {
            Some(p) => {
                let s = self.climb(p, z as i32);
                let f = self.whole(s, z);
                proof {
                    assert(self.net().named(p as int, id));
                }
                Some(f)
            },
            None => None,
        }
    }

    /// Is a point with this id currently in the index?
    pub fn contains(&self, id: u64) -> (r: bool)
        requires
            self.wf(),
        ensures
            r == self.net().knows(id),
    {
        match self.find(id) {
            Some(s) => {
                proof {
                    assert(self.net().named(s as int, id));
                }
                true
            },
            None => false,
        }
    }

    /// The category a point was inserted under, or `None` if it is not in the index: the first
    /// of its filter cells, or 0 if it has none.
    pub fn category_of(&self, id: u64) -> (r: Option<u32>)
        requires
            self.wf(),
        ensures
            match r {
                Some(c) => exists|p: int| #[trigger]
                    self.net().named(p, id) && c == (if self.net().pts[p].cells.len() > 0 {
                        self.net().pts[p].cells[0]
                    } else {
                        0
                    }),
                None => !self.net().knows(id),
            },
    {
        match self.find(id) {
            Some(s) => {
                proof {
                    assert(self.net().named(s as int, id));
                    self.lemma_net(s as int);
                }
                if self.arena.tags[s as usize].len() > 0 {
                    Some(self.arena.tags[s as usize][0])
                } else {
                    Some(0)
                }
            },
            None => None,
        }
    }

    /// The filter cells of a point.
    pub fn cells_of(&self, id: u64) -> (r: Option<Vec<u32>>)
        requires
            self.wf(),
        ensures
            match r {
                Some(v) => exists|p: int| #[trigger]
                    self.net().named(p, id) && v@ == self.net().pts[p].cells,
                None => !self.net().knows(id),
            },
    {
        match self.find(id) {
            Some(s) => {
                proof {
                    assert(self.net().named(s as int, id));
                    self.lemma_net(s as int);
                }
                Some(copy_cells(self.arena.tags[s as usize].as_slice()))
            },
            None => None,
        }
    }

    /// Position of a point in fixed-point world coordinates.
    pub fn position(&self, id: u64) -> (r: Option<(i32, i32)>)
        requires
            self.wf(),
        ensures
            match r {
                Some((x, y)) => exists|p: int| #[trigger]
                    self.net().named(p, id) && x == self.net().pts[p].x && y
                        == self.net().pts[p].y,
                None => !self.net().knows(id),
            },
    {
        match self.find(id) {
            Some(s) => {
                proof {
                    assert(self.net().named(s as int, id));
                    self.lemma_net(s as int);
                }
                let v = self.arena.nodes[s as usize];
                Some((v.qx, v.qy))
            },
            None => None,
        }
    }

    /// How many (center, level) pairs the grids hold: the sum of the numbers of centers over the
    /// levels.
    pub fn grid_entries(&self) -> (n: usize)
        requires
            self.wf(),
        ensures
            n == total(self.slots(), |s: int| self.net().levels_of(s)),
    {
        proof {
            let f = |s: int| self.net().levels_of(s);
            assert forall|s: int| 0 <= s < self.slots() implies #[trigger] f(s) == self.listings()(
                s,
            ) by {
                self.lemma_net(s);
            }
            lemma_total_ext(self.slots(), f, self.listings());
        }
        self.grid.entries()
    }

    /// How many centers exist at each level, from 0 to the finest.
    pub fn centers_per_level(&self) -> (out: Vec<u32>)
        requires
            self.wf(),
        ensures
            out@.len() == self.opts().max_zoom + 1,
            forall|z: int|
                0 <= z < out@.len() ==> #[trigger] out@[z] == self.net().centers_at(self.slots(), z),
    {
        let ghost net = self.net();
        let mut out: Vec<u32> = Vec::new();
        let top = self.geo.opts().max_zoom as usize + 1;
        let mut z: usize = 0;
        while z < top
            invariant
                self.wf(),
                net == self.net(),
                top == self.opts().max_zoom + 1,
                top <= 21,
                z <= top,
                out@.len() == z,
                forall|v: int|
                    0 <= v < z ==> #[trigger] out@[v] == net.centers_at(self.slots(), v),
            decreases top - z,
        {
            let ghost f = |s: int|
                if net.center(s, z as int) {
                    1int
                } else {
                    0
                };
            let mut count: u32 = 0;
            let mut s: u32 = 0;
            while s < self.arena.n
                invariant
                    self.wf(),
                    net == self.net(),
                    z < 22,
                    s <= self.arena.n,
                    f == (|s: int|
                        if net.center(s, z as int) {
                            1int
                        } else {
                            0
                        }),
                    count == total(s as int, f),
                    count <= s,
                decreases self.arena.n - s,
            {
                let t = self.arena.nodes[s as usize].tz;
                proof {
                    self.lemma_net(s as int);
                    assert(total(s + 1, f) == total(s as int, f) + f(s as int));
                }
                if t >= 0 && t as usize <= z {
                    count = count + 1;
                }
                s = s + 1;
            }
            proof {
                lemma_total_ext(
                    self.slots(),
                    f,
                    |s: int|
                        if net.center(s, z as int) {
                            1int
                        } else {
                            0
                        },
                );
            }
            out.push(count);
            z = z + 1;
        }
        out
    }

    /// An aggregate is kept exactly where something is to be counted.
    proof fn lemma_occupied(&self, s: int, c: int)
        requires
            self.wf(),
            self.live(s),
            0 <= c,
        ensures
            (self.mass(0, c, s) != 0) == self.net().occupied(s, c),
    {
        self.law_invariants();
        self.lemma_forest();
        let net = self.net();
        let n = self.slots();
        let f = self.forest();
        assert(measure(0, c));
        let (a, w) = (self.agg(0, c), self.weigh(0, c));
        assert(f.all_balanced(a, w));
        assert((f.on)(s));
        crate::forest::lemma_aggregate(f, a, w, s, 21);
        let h = f.at_under(s, w);
        assert forall|p: int| 0 <= p < n implies #[trigger] h(p) >= 0 && (h(p) != 0) == (net.has(p)
            && net.under(s, p) && net.in_cell(p, c)) by {
            self.lemma_net(p);
            if self.live(p) {
                self.lemma_same_rep(p, 0);
                assert(f.under(s, p) == net.under(s, p));
            }
        }
        if net.occupied(s, c) {
            let p = choose|p: int| #[trigger] net.has(p) && net.under(s, p) && net.in_cell(p, c);
            crate::sums::lemma_total_member(n, h, p);
        } else {
            assert forall|p: int| 0 <= p < n implies #[trigger] h(p) == 0 by {
                if h(p) != 0 {
                    assert(net.has(p));
                }
            }
            lemma_total_zero(n, h);
        }
    }

    /// How many filter aggregates are kept: one per center and filter cell with something to
    /// count at or below it.
    pub fn agg_entries(&self) -> (n: usize)
        requires
            self.wf(),
        ensures
            n == total(self.slots(), |s: int| self.net().cells_occupied(s)),
    {
        proof {
            let net = self.net();
            let w = self.opts().cells_in_force();
            let f = |s: int| self.table.held(s);
            let g = |s: int| net.cells_occupied(s);
            assert forall|s: int| 0 <= s < self.arena.cap() implies #[trigger] f(s) == g(s) by {
                self.lemma_net(s);
                let a = |c: int|
                    if self.table.val(s, c).0 != 0 {
                        1int
                    } else {
                        0
                    };
                let b = |c: int|
                    if net.has(s) && net.occupied(s, c) {
                        1int
                    } else {
                        0
                    };
                assert forall|c: int| 0 <= c < w implies #[trigger] a(c) == b(c) by {
                    if self.live(s) {
                        self.lemma_occupied(s, c);
                        self.lemma_val(s, c);
                    } else {
                        assert(self.table.load(s) == 0 && self.bare(s));
                        assert(self.table.val(s, c) == (0int, 0int, 0int));
                    }
                }
                lemma_total_ext(w, a, b);
            }
            lemma_total_ext(self.arena.cap(), f, g);
            assert forall|s: int| self.slots() <= s < self.arena.cap() implies #[trigger] g(s)
                == 0 by {
                self.lemma_net(s);
                assert(!net.has(s));
                lemma_total_zero(
                    w,
                    |c: int|
                        if net.has(s) && net.occupied(s, c) {
                            1int
                        } else {
                            0
                        },
                );
            }
            lemma_total_extend(self.slots(), self.arena.cap(), g);
            if self.opts().dense() {
                let n = self.arena.cap();
                assert(n * w <= n * w * 8) by (nonlinear_arith)
                    requires
                        n >= 0,
                        w >= 0,
                ;
            }
        }
        self.table.entries()
    }

    /// The bytes that the slots, the grids' entries and directory, and the ids take.
    pub closed spec fn footprint(&self) -> int {
        self.arena.cap() * 53 + (if self.opts().cells_in_force() > 0 {
            self.arena.cap() * 4
        } else {
            0
        }) + self.grid.pool_size() * 8 + self.grid.dir_size() + self.net().pts.len() * 40
    }

    /// What the filter aggregates' vectors may have room for.
    pub closed spec fn aggregates_room(&self, r: Room) -> bool {
        self.table.roomy(r)
    }

    /// `n` is the size of the index where the filter aggregates' vectors have some room.
    pub open spec fn weighs(&self, n: int, r: Room) -> bool {
        &&& self.aggregates_room(r)
        &&& n == at_most_max(
            self.footprint() + (if self.opts().cells_in_force() > 0 {
                at_most_max(room_bytes(self.opts().dense(), r))
            } else {
                0
            }),
        )
    }

    /// Rough resident size of the index in bytes. Which room the filter aggregates' vectors have
    /// beyond what they hold is the allocator's choice.
    pub fn memory_bytes(&self) -> (n: usize)
        requires
            self.wf(),
        ensures
            exists|r: Room| #[trigger] self.weighs(n as int, r),
    {
        proof {
            assert(self.table.roomy(self.table.lengths()));
        }
        let ghost mut r: Room = self.table.lengths();
        let cap: u128 = self.arena.nodes.len() as u128;
        let cats: u128 = if self.geo.opts().cell_count() > 0 {
            let held = self.table.bytes();
            proof {
                r = choose|r: Room| #[trigger]
                    self.table.roomy(r) && held == at_most_max(
                        room_bytes(self.table.is_dense(), r),
                    );
            }
            held as u128 + cap * 4
        } else {
            0
        };
        let all: u128 = cap * 53 + cats + (self.grid.pool_len() as u128) * 8
            + self.grid.dir_bytes() as u128 + (self.len() as u128) * 40;
        proof {
            assert(self.weighs(at_most_max(all as int), r));
        }
        if all > usize::MAX as u128 {
            usize::MAX
        } else {
            all as usize
        }
    }
}

impl NetCluster {
    /// Go on counting from other counters.
    pub fn set_stats(&mut self, stats: Stats)
        requires
            old(self).wf(),
        ensures
            final(self).wf(),
            final(self).net() == old(self).net(),
            final(self).opts() == old(self).opts(),
            final(self).slots() == old(self).slots(),
            final(self).counters() == stats,
    {
        let ghost o = *self;
        self.stats = stats;
        proof {
            self.lemma_stats(o);
        }
    }

    /// The counters so far.
    pub fn get_stats(&self) -> (s: Stats)
        ensures
            s == self.counters(),
    {
        self.stats
    }
}

/// **Drained**: once the last point is gone, nothing is left in the grids or the aggregates.
pub proof fn law_drained(net: Net, n: int)
    requires
        forall|s: int| !net.has(s),
    ensures
        total(n, |s: int| net.levels_of(s)) == 0,
        total(n, |s: int| net.cells_occupied(s)) == 0,
{
    lemma_total_zero(n, |s: int| net.levels_of(s));
    let g = |s: int| net.cells_occupied(s);
    assert forall|s: int| 0 <= s < n implies #[trigger] g(s) == 0 by {
        assert(!net.has(s));
        lemma_total_zero(
            net.opts.cells_in_force(),
            |c: int|
                if net.has(s) && net.occupied(s, c) {
                    1int
                } else {
                    0
                },
        );
    }
    lemma_total_zero(n, g);
}

} // verus!
