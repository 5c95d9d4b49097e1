//! The scales of the hierarchy, in exact integer arithmetic.
//!
//! Positions are fixed-point world coordinates in `[0, 2^30]`. The cluster radius of level `z`
//! is the rational number `2^30 * radius / (extent * 2^z)`; distances are compared with it by
//! squares, so nothing here ever rounds a distance.
use vstd::arithmetic::power2::*;
use vstd::prelude::*;

verus! {

/// Bits of fixed-point resolution.
pub const PREC_BITS: u32 = 30;

/// `2^PREC_BITS`: the side of the world in fixed-point units.
pub const PREC_I: i64 = 0x4000_0000;

/// Lengths and ratios in [`Options`] are given in thousandths.
pub const MILLI: u32 = 1000;

/// The finest zoom an index can cluster at.
pub const MAX_ZOOM: u8 = 20;

/// Grid cells per axis that a cell key has room for.
pub const CELL_SPAN: u64 = 0x2000_0000;

/// How many filter cells an index can tell apart.
pub const MAX_CELLS: usize = 0x100_0000;

/// Above every squared distance between two positions.
pub const FAR: u64 = 0x4000_0000_0000_0000;

/// Geometry of the hierarchy. Every process sharing an index must agree on all of it; changing
/// any field changes what the clusters mean.
#[derive(Debug, Clone, Copy, PartialEq, Eq, Structural)]
pub struct Options {
    /// Coarsest zoom a query may ask for.
    pub min_zoom: u8,
    /// Finest zoom at which points are still clustered. A finer one that a query asks for is
    /// answered as this one; only the children of a cluster reach beyond it, where every point
    /// stands alone.
    pub max_zoom: u8,
    /// Cluster radius in thousandths of a screen pixel, at `extent` per tile.
    pub radius: u32,
    /// Tile extent in thousandths of a pixel that `radius` is measured against.
    pub extent: u32,
    /// Covering slack, in thousandths. An existing parent assignment survives until it is
    /// violated by this factor.
    pub hysteresis: u32,
    /// Number of categories to keep separate aggregates for; shorthand for as many `cells`
    /// with one cell per point. Ignored when `cells` is set.
    pub categories: usize,
    /// Number of filter cells to keep separate aggregates for. 0 disables the machinery.
    pub cells: usize,
    /// How many filter cells one point may belong to.
    pub max_cells_per_device: usize,
    /// Up to this many cells the aggregates are kept in a flat array; above it, in a table of
    /// what occurs.
    pub dense_cells: usize,
}

impl Default for Options {
    fn default() -> (o: Self)
        ensures
            o == default_options(),
            o.valid(),
    {
        let o = Options {
            min_zoom: 0,
            max_zoom: 16,
            radius: 40_000,
            extent: 512_000,
            hysteresis: 250,
            categories: 0,
            cells: 0,
            max_cells_per_device: 1,
            dense_cells: 64,
        };
        proof {
            lemma2_to64();
        }
        o
    }
}

/// A radius of 40 pixels in a tile of 512, a quarter of slack, zooms 0 to 16, no filters.
pub open spec fn default_options() -> Options {
    Options {
        min_zoom: 0,
        max_zoom: 16,
        radius: 40_000,
        extent: 512_000,
        hysteresis: 250,
        categories: 0,
        cells: 0,
        max_cells_per_device: 1,
        dense_cells: 64,
    }
}

pub open spec fn sq(a: int) -> int {
    a * a
}

/// `2^z`.
pub open spec fn two(z: int) -> int {
    pow2(z as nat) as int
}

/// Squared distance between two positions.
pub open spec fn dist2(ax: int, ay: int, bx: int, by: int) -> int {
    sq(ax - bx) + sq(ay - by)
}

/// A coordinate lies in the world.
pub open spec fn in_world(x: int) -> bool {
    0 <= x <= PREC_I
}

impl Options {
    /// How many filter cells are in force.
    pub open spec fn cells_in_force(&self) -> int {
        if self.cells > 0 {
            self.cells as int
        } else {
            self.categories as int
        }
    }

    /// Numerator of every level's radius.
    pub open spec fn span(&self) -> int {
        PREC_I * self.radius
    }

    /// The same, stretched by the slack, in thousandths.
    pub open spec fn slack_span(&self) -> int {
        self.span() * (MILLI + self.hysteresis)
    }

    /// By how many cells of the coarsest level a cluster can reach out of its center's.
    pub open spec fn margin(&self) -> int {
        (2 * MILLI + self.hysteresis - 1) / (MILLI as int)
    }

    /// Squared distance `d2` is within the cluster radius of level `z`.
    pub open spec fn near(&self, z: int, d2: int) -> bool {
        d2 * sq(self.extent * two(z)) <= sq(self.span())
    }

    /// Squared distance `d2` is within the cluster radius of level `z` stretched by the slack.
    pub open spec fn near_with_slack(&self, z: int, d2: int) -> bool {
        d2 * sq(self.extent * MILLI * two(z)) <= sq(self.slack_span())
    }

    /// Cells two radii wide are too many for a cell key.
    pub open spec fn too_fine(&self) -> bool {
        self.extent * two(self.max_zoom as int) >= 2 * CELL_SPAN * self.radius
    }

    /// The geometry that the grid cells go by: the own one, unless it is finer than the
    /// coordinates are; then one whose finest cells are four units wide.
    pub open spec fn pitch(&self) -> Options {
        if self.too_fine() {
            Options { radius: 1, extent: two(29 - self.max_zoom) as u32, ..*self }
        } else {
            *self
        }
    }

    /// Which grid cell of level `z` a coordinate falls into; a cell is two radii wide, or more
    /// where the radii are shorter than a unit.
    pub open spec fn cell(&self, x: int, z: int) -> int {
        (x * (self.pitch().extent * two(z))) / (2 * self.pitch().span())
    }

    /// An arena of this many slots can be addressed on this machine.
    pub open spec fn fits(&self, slots: int) -> bool {
        &&& slots <= 0x0800_0000
        &&& slots * 2048 <= usize::MAX
        &&& self.dense() ==> slots * self.cells_in_force() * 8 <= usize::MAX
    }

    /// The filter entries that as many points can need can be linked.
    pub open spec fn entries_fit(&self, points: int) -> bool {
        self.cells_in_force() > 0 && !self.dense() ==> self.entry_bound(points) < i32::MAX && (
        self.entry_bound(points) + 2) * 64 <= usize::MAX
    }

    /// As many points fit this machine. An arena that is full doubles.
    pub open spec fn houses(&self, points: int) -> bool {
        self.fits(2 * points) && self.entries_fit(points)
    }

    /// The most filter entries that as many points can need: one per cell of a point on every
    /// level.
    pub open spec fn entry_bound(&self, points: int) -> int {
        (self.max_zoom + 2) * (points * self.max_cells_per_device)
    }

    /// The filter aggregates are kept in a flat array.
    pub open spec fn dense(&self) -> bool {
        0 < self.cells_in_force() <= self.dense_cells
    }

    /// What an index can be built from.
    pub open spec fn valid(&self) -> bool {
        &&& self.min_zoom <= self.max_zoom <= MAX_ZOOM
        &&& self.radius > 0
        &&& self.extent > 0
        &&& self.cells_in_force() <= MAX_CELLS
        &&& self.cells_in_force() > 0 ==> self.max_cells_per_device > 0
        &&& self.fits(1024)
    }

    /// Whether an index can be built from these options.
    pub fn is_valid(&self) -> (r: bool)
        ensures
            r == self.valid(),
    {
        if self.min_zoom > self.max_zoom || self.max_zoom > MAX_ZOOM || self.radius == 0
            || self.extent == 0 {
            return false;
        }
        let cells: usize = self.cell_count();
        if cells > MAX_CELLS {
            return false;
        }
        if cells > 0 && self.max_cells_per_device == 0 {
            return false;
        }
        self.has_space(1024)
    }

    /// Whether an arena of this many slots can be addressed on this machine.
    pub fn has_space(&self, slots: usize) -> (r: bool)
        ensures
            r == self.fits(slots as int),
    {
        if slots > 0x0800_0000 || slots > usize::MAX / 2048 {
            return false;
        }
        let cells: usize = self.cell_count();
        if cells == 0 || cells > self.dense_cells {
            return true;
        }
        proof {
            assert(slots * cells <= 0x0800_0000 * usize::MAX) by (nonlinear_arith)
                requires
                    0 <= slots <= 0x0800_0000,
                    0 <= cells <= usize::MAX,
            ;
        }
        (slots as u128) * (cells as u128) * 8 <= usize::MAX as u128
    }

    /// Whether as many points fit this machine.
    pub fn can_house(&self, points: usize) -> (r: bool)
        ensures
            r == self.houses(points as int),
    {
        if points > 0x0400_0000 || !self.has_space(2 * points) {
            return false;
        }
        let cells: usize = self.cell_count();
        if cells == 0 || cells <= self.dense_cells {
            return true;
        }
        proof {
            assert(points * self.max_cells_per_device <= 0x0400_0000 * usize::MAX)
                by (nonlinear_arith)
                requires
                    0 <= points <= 0x0400_0000,
                    0 <= self.max_cells_per_device <= usize::MAX,
            ;
        }
        let per: u128 = (points as u128) * (self.max_cells_per_device as u128);
        proof {
            assert((self.max_zoom + 2) * per <= 257 * (0x0400_0000 * usize::MAX))
                by (nonlinear_arith)
                requires
                    0 <= per <= 0x0400_0000 * usize::MAX,
                    0 <= self.max_zoom <= 255,
            ;
        }
        let bound: u128 = ((self.max_zoom as u128) + 2) * per;
        bound < 0x7fff_ffff && (bound + 2) * 64 <= usize::MAX as u128
    }

    /// How many filter cells are in force: `cells`, or else `categories`.
    pub fn cell_count(&self) -> (n: usize)
        ensures
            n == self.cells_in_force(),
    {
        if self.cells > 0 {
            self.cells
        } else {
            self.categories
        }
    }
}

pub proof fn two_bounds(z: int)
    requires
        0 <= z <= 31,
    ensures
        1 <= two(z) <= 0x8000_0000,
        z <= 20 ==> two(z) <= 0x10_0000,
        z <= 30 ==> two(z) <= 0x4000_0000,
        two(z + 1) == 2 * two(z),
{
    lemma2_to64();
    lemma_pow2_unfold((z + 1) as nat);
    lemma_pow2_pos(z as nat);
    if z < 31 {
        lemma_pow2_strictly_increases(z as nat, 31);
    }
    if z < 20 {
        lemma_pow2_strictly_increases(z as nat, 20);
    }
    if z < 30 {
        lemma_pow2_strictly_increases(z as nat, 30);
    }
}

/// `2^z` for a zoom level.
pub fn pow_two(z: u8) -> (r: u64)
    requires
        z <= 31,
    ensures
        r == two(z as int),
        1 <= r <= 0x8000_0000,
        z <= 20 ==> r <= 0x10_0000,
        z <= 30 ==> r <= 0x4000_0000,
{
    let mut r: u64 = 1;
    let mut i: u8 = 0;
    proof {
        lemma2_to64();
    }
    while i < z
        invariant
            i <= z <= 31,
            r == two(i as int),
            r <= 0x8000_0000,
        decreases z - i,
    {
        proof {
            two_bounds(i as int);
            two_bounds(i + 1);
        }
        r = r * 2;
        i = i + 1;
    }
    proof {
        two_bounds(z as int);
    }
    r
}

/// `a^2 <= b^2` exactly when `a <= b`, for non-negative numbers.
pub proof fn lemma_sq_le(a: int, b: int)
    requires
        0 <= a,
        0 <= b,
    ensures
        sq(a) <= sq(b) <==> a <= b,
{
    if a <= b {
        assert(a * a <= b * b) by (nonlinear_arith)
            requires
                0 <= a <= b,
        ;
    } else {
        assert(a * a > b * b) by (nonlinear_arith)
            requires
                0 <= b < a,
        ;
    }
}

pub proof fn lemma_sq_mul(a: int, b: int)
    ensures
        sq(a * b) == sq(a) * sq(b),
        sq(a) >= 0,
        sq(-a) == sq(a),
{
    assert((a * b) * (a * b) == (a * a) * (b * b)) by (nonlinear_arith);
    assert(a * a >= 0) by (nonlinear_arith);
    assert((-a) * (-a) == a * a) by (nonlinear_arith);
}

/// The largest integer whose `d^2`-multiple stays within `n^2`, cut off at [`FAR`].
fn square_of_ratio(n: u128, d: u128) -> (t: u64)
    requires
        0 < d < 0x4000_0000_0000_0000,
        n < 0x8000_0000_0000_0000_0000_0000,
    ensures
        t <= FAR,
        forall|v: int| 0 <= v < FAR ==> (v <= t <==> #[trigger] (v * sq(d as int)) <= sq(n as int)),
{
    let q: u128 = n / d;
    let r: u128 = n % d;
    let ghost (ni, di, qi, ri) = (n as int, d as int, q as int, r as int);
    proof {
        vstd::arithmetic::div_mod::lemma_fundamental_div_mod(ni, di);
        assert(ni == di * qi + ri && 0 <= ri < di);
    }
    if q >= 0x8000_0000 {
        proof {
            assert forall|v: int| 0 <= v < FAR implies (v <= FAR <==> #[trigger] (v * sq(di)) <= sq(
                ni,
            )) by {
                assert(v * (di * di) <= ni * ni) by (nonlinear_arith)
                    requires
                        0 <= v < 0x4000_0000_0000_0000,
                        qi >= 0x8000_0000,
                        ni >= di * qi,
                        di > 0,
                ;
            }
        }
        return FAR;
    }
    proof {
        assert(ri * ri < 0x1000_0000_0000_0000_0000_0000_0000_0000) by (nonlinear_arith)
            requires
                0 <= ri < 0x4000_0000_0000_0000,
        ;
        assert(2 * qi * ri < 0x4000_0000_0000_0000_0000_0000) by (nonlinear_arith)
            requires
                0 <= ri < 0x4000_0000_0000_0000,
                0 <= qi < 0x8000_0000,
        ;
        assert(qi * qi < 0x4000_0000_0000_0000) by (nonlinear_arith)
            requires
                0 <= qi < 0x8000_0000,
        ;
        assert((ri * ri) / di <= ri) by (nonlinear_arith)
            requires
                0 <= ri < di,
        ;
        assert(2 * qi * ri == (2 * qi) * ri);
    }
    let rest: u128 = (2 * q * r + r * r / d) / d;
    let whole: u128 = q * q + rest;
    proof {
        lemma_square_split(ni, di, qi, ri);
        assert(whole as int == sq(ni) / sq(di));
        assert(sq(di) > 0) by (nonlinear_arith)
            requires
                di > 0,
        ;
        assert forall|v: int| 0 <= v implies (v <= whole <==> #[trigger] (v * sq(di)) <= sq(ni)) by {
            lemma_div_threshold(v, sq(ni), sq(di));
        }
    }
    if whole >= FAR as u128 {
        FAR
    } else {
        whole as u64
    }
}

proof fn lemma_div_threshold(v: int, a: int, b: int)
    requires
        b > 0,
        a >= 0,
    ensures
        v <= a / b <==> v * b <= a,
{
    vstd::arithmetic::div_mod::lemma_fundamental_div_mod(a, b);
    let q = a / b;
    if v <= q {
        assert(v * b <= q * b) by (nonlinear_arith)
            requires
                v <= q,
                b > 0,
        ;
        assert(q * b == b * q) by (nonlinear_arith);
    } else {
        assert(v * b >= q * b + b) by (nonlinear_arith)
            requires
                v >= q + 1,
                b > 0,
        ;
        assert(q * b == b * q) by (nonlinear_arith);
    }
}

/// `floor((n/d)^2)` from the quotient and the remainder of `n` by `d`.
proof fn lemma_square_split(n: int, d: int, q: int, r: int)
    requires
        d > 0,
        q >= 0,
        0 <= r < d,
        n == d * q + r,
    ensures
        q * q + (2 * q * r + (r * r) / d) / d == sq(n) / sq(d),
{
    let s = (r * r) / d;
    let t = (2 * q * r + s) / d;
    assert(r * r >= 0) by (nonlinear_arith);
    vstd::arithmetic::div_mod::lemma_fundamental_div_mod(r * r, d);
    vstd::arithmetic::div_mod::lemma_fundamental_div_mod(2 * q * r + s, d);
    let e1 = (r * r) % d;
    let e2 = (2 * q * r + s) % d;
    // n^2 = d^2 q^2 + d (2 q r + s) + e1 = d^2 (q^2 + t) + d e2 + e1
    assert(n * n == (d * d) * (q * q) + d * (2 * q * r) + r * r) by (nonlinear_arith)
        requires
            n == d * q + r,
    ;
    assert(d * (2 * q * r) + d * s == d * (2 * q * r + s)) by (nonlinear_arith);
    assert(d * (d * t + e2) == (d * d) * t + d * e2) by (nonlinear_arith);
    assert((d * d) * (q * q) + (d * d) * t == (d * d) * (q * q + t)) by (nonlinear_arith);
    assert(d * e2 + e1 < d * d && d * e2 >= 0) by (nonlinear_arith)
        requires
            0 <= e2 < d,
            0 <= e1 < d,
    ;
    assert(d * d > 0) by (nonlinear_arith)
        requires
            d > 0,
    ;
    let m = q * q + t;
    assert(n * n == (d * d) * m + (d * e2 + e1));
    assert((d * d) * m == m * (d * d)) by (nonlinear_arith);
    vstd::arithmetic::div_mod::lemma_fundamental_div_mod_converse(n * n, d * d, m, d * e2 + e1);
}

/// The thresholds of every level, ready to compare squared distances against.
#[derive(Debug, Clone)]
pub struct Geometry {
    opts: Options,
    /// Per level, the largest squared distance within the radius.
    r2: Vec<u64>,
    /// Per level, the largest squared distance within the radius stretched by the slack.
    slack2: Vec<u64>,
    /// `2 * 2^30 * radius`.
    twice_span: u64,
    /// The extent that the grid cells go by.
    pitch: u32,
    /// The width of a cell of that extent, likewise.
    width: u64,
}

impl Geometry {
    /// What the thresholds were computed from.
    pub closed spec fn options(&self) -> Options {
        self.opts
    }

    pub closed spec fn wf(&self) -> bool {
        let o = self.opts;
        &&& o.valid()
        &&& self.r2.len() == o.max_zoom + 1
        &&& self.slack2.len() == o.max_zoom + 1
        &&& forall|z: int, d2: int|
            0 <= z <= o.max_zoom && 0 <= d2 < FAR ==> (d2 <= self.r2[z] <==> #[trigger] o.near(
                z,
                d2,
            ))
        &&& forall|z: int, d2: int|
            0 <= z <= o.max_zoom && 0 <= d2 < FAR ==> (d2 <= self.slack2[z]
                <==> #[trigger] o.near_with_slack(z, d2))
        &&& self.twice_span == 2 * o.span()
        &&& self.pitch == o.pitch().extent
        &&& self.width == 2 * o.pitch().span()
    }

    pub fn new(opts: Options) -> (g: Self)
        requires
            opts.valid(),
        ensures
            g.wf(),
            g.options() == opts,
    {
        let mut r2: Vec<u64> = Vec::new();
        let mut slack2: Vec<u64> = Vec::new();
        let p: u128 = 0x4000_0000 * (opts.radius as u128);
        let stretch: u128 = (MILLI as u128) + (opts.hysteresis as u128);
        let mut z: u8 = 0;
        while z <= opts.max_zoom
            invariant
                opts.valid(),
                z <= opts.max_zoom + 1,
                p == opts.span(),
                stretch == MILLI + opts.hysteresis,
                r2.len() == z,
                slack2.len() == z,
                forall|y: int, d2: int|
                    0 <= y < z && 0 <= d2 < FAR ==> (d2 <= r2[y] <==> #[trigger] opts.near(y, d2)),
                forall|y: int, d2: int|
                    0 <= y < z && 0 <= d2 < FAR ==> (d2 <= slack2[y]
                        <==> #[trigger] opts.near_with_slack(y, d2)),
            decreases opts.max_zoom + 1 - z,
        {
            let side = pow_two(z);
            proof {
                assert(opts.extent * side <= u32::MAX * 0x100000 && opts.extent * side > 0)
                    by (nonlinear_arith)
                    requires
                        0 < opts.extent <= u32::MAX,
                        0 < side <= 0x100000,
                ;
                assert(p * stretch <= 0x4000_0000 * u32::MAX * (1000 + u32::MAX))
                    by (nonlinear_arith)
                    requires
                        0 <= p <= 0x4000_0000 * u32::MAX,
                        0 <= stretch <= 1000 + u32::MAX,
                ;
            }
            let d: u128 = (opts.extent as u128) * (side as u128);
            let t = square_of_ratio(p, d);
            let ts = square_of_ratio(p * stretch, d * 1000);
            proof {
                assert(opts.extent * MILLI * two(z as int) == d * 1000) by (nonlinear_arith)
                    requires
                        d == opts.extent * two(z as int),
                        MILLI == 1000,
                ;
                assert forall|y: int, d2: int| 0 <= y < z + 1 && 0 <= d2 < FAR implies (d2
                    <= r2@.push(t)[y] <==> #[trigger] opts.near(y, d2)) by {
                    if y == z {
                        assert((d2 * sq(d as int)) <= sq(p as int) <==> d2 <= t);
                    }
                }
                assert forall|y: int, d2: int| 0 <= y < z + 1 && 0 <= d2 < FAR implies (d2
                    <= slack2@.push(ts)[y] <==> #[trigger] opts.near_with_slack(y, d2)) by {
                    if y == z {
                        assert((d2 * sq((d * 1000) as int)) <= sq((p * stretch) as int) <==> d2
                            <= ts);
                    }
                }
            }
            r2.push(t);
            slack2.push(ts);
            z = z + 1;
        }
        let side = pow_two(opts.max_zoom);
        proof {
            assert(opts.extent * side <= u32::MAX * 0x100000) by (nonlinear_arith)
                requires
                    0 <= opts.extent <= u32::MAX,
                    0 <= side <= 0x100000,
            ;
        }
        let twice_span: u64 = 0x8000_0000 * (opts.radius as u64);
        let (pitch, width): (u32, u64) = if opts.extent as u64 * side >= 2 * CELL_SPAN
            * opts.radius as u64 {
            (pow_two(29 - opts.max_zoom) as u32, 0x8000_0000)
        } else {
            (opts.extent, twice_span)
        };
        Geometry { opts, r2, slack2, twice_span, pitch, width }
    }

    /// The options the thresholds were computed from.
    pub fn opts(&self) -> (o: Options)
        ensures
            o == self.options(),
    {
        self.opts
    }

    /// Is a squared distance within the radius of level `z`?
    pub fn near(&self, z: u8, d2: u64) -> (r: bool)
        requires
            self.wf(),
            z <= self.options().max_zoom,
            d2 < FAR,
        ensures
            r == self.options().near(z as int, d2 as int),
    {
        d2 <= self.r2[z as usize]
    }

    /// Is a squared distance within the radius of level `z` stretched by the slack?
    pub fn near_with_slack(&self, z: u8, d2: u64) -> (r: bool)
        requires
            self.wf(),
            z <= self.options().max_zoom,
            d2 < FAR,
        ensures
            r == self.options().near_with_slack(z as int, d2 as int),
    {
        d2 <= self.slack2[z as usize]
    }

    /// Cell index at the finest level; a coarser level's index is half that of the level below.
    pub fn finest_cell(&self, x: i32) -> (c: u64)
        requires
            self.wf(),
            in_world(x as int),
        ensures
            c == self.options().cell(x as int, self.options().max_zoom as int),
            c < CELL_SPAN,
    {
        let o = Ghost(self.opts);
        proof {
            lemma_cell_range(o@, x as int, o@.max_zoom as int);
            two_bounds(o@.max_zoom as int);
        }
        let side = pow_two(self.opts.max_zoom);
        let finest: u64 = {
            proof {
                assert(self.pitch * side <= u32::MAX * 0x100000) by (nonlinear_arith)
                    requires
                        0 <= self.pitch <= u32::MAX,
                        0 <= side <= 0x100000,
                ;
            }
            self.pitch as u64 * side
        };
        proof {
            assert(x * finest <= 0x4000_0000 * (u32::MAX * 0x100000)) by (nonlinear_arith)
                requires
                    0 <= x <= 0x4000_0000,
                    0 <= finest <= u32::MAX * 0x100000,
            ;
        }
        ((x as u128) * (finest as u128) / (self.width as u128)) as u64
    }

    /// The cells of level `z` that a ball of that level's radius around `x` can meet.
    pub fn cells_around(&self, x: i32, z: u8) -> (r: (u64, u64))
        requires
            self.wf(),
            in_world(x as int),
            z <= self.options().max_zoom,
        ensures
            r.1 < CELL_SPAN,
            forall|b: int|
                in_world(b) && within(self.options(), z as int, x - b) ==> r.0
                    <= #[trigger] self.options().cell(b, z as int) <= r.1,
    {
        let side = pow_two(z);
        let ghost o = self.opts;
        let ghost g = o.pitch();
        let ghost k = g.extent * two(z as int);
        let ghost p = g.span();
        proof {
            lemma_pitch(o);
            assert(k <= u32::MAX * 0x100000 && k > 0) by (nonlinear_arith)
                requires
                    0 < g.extent <= u32::MAX,
                    0 < side <= 0x100000,
                    k == g.extent * side,
            ;
            assert(0 <= x * k <= 0x4000_0000 * (u32::MAX * 0x100000)) by (nonlinear_arith)
                requires
                    0 <= x <= 0x4000_0000,
                    0 < k <= u32::MAX * 0x100000,
            ;
            lemma_cell_range(o, PREC_I as int, z as int);
            assert(0 <= PREC_I * k <= 0x4000_0000 * (u32::MAX * 0x100000)) by (nonlinear_arith)
                requires
                    PREC_I == 0x4000_0000,
                    0 < k <= u32::MAX * 0x100000,
            ;
        }
        let kk: u128 = (self.pitch as u128) * (side as u128);
        let at: u128 = (x as u128) * kk;
        let w: u128 = self.width as u128;
        let half: u128 = w / 2;
        let lo: u64 = if at < half {
            0
        } else {
            ((at - half) / w) as u64
        };
        let reach: u128 = (at + half) / w;
        let last: u128 = 0x4000_0000 * kk / w;
        let hi: u64 = if reach > last {
            last as u64
        } else {
            reach as u64
        };
        proof {
            assert forall|b: int| in_world(b) && within(o, z as int, x - b) implies lo
                <= #[trigger] o.cell(b, z as int) <= hi by {
                lemma_within_pitch(o, z as int, x - b);
                assert((x - b) * k <= p && (b - x) * k <= p);
                assert((x - b) * k == x * k - b * k && (b - x) * k == b * k - x * k)
                    by (nonlinear_arith);
                assert(0 <= b * k <= PREC_I * k) by (nonlinear_arith)
                    requires
                        0 <= b <= PREC_I,
                        k > 0,
                ;
                vstd::arithmetic::div_mod::lemma_div_is_ordered(b * k, PREC_I * k, w as int);
                vstd::arithmetic::div_mod::lemma_div_is_ordered(b * k, at + half, w as int);
                if at >= half {
                    vstd::arithmetic::div_mod::lemma_div_is_ordered(at - half, b * k, w as int);
                } else {
                    vstd::arithmetic::div_mod::lemma_div_is_ordered(0, b * k, w as int);
                }
            }
            if at >= half {
                assert(x * k <= PREC_I * k) by (nonlinear_arith)
                    requires
                        x <= PREC_I,
                        k > 0,
                ;
                vstd::arithmetic::div_mod::lemma_div_is_ordered(
                    at - half,
                    PREC_I * k,
                    w as int,
                );
            }
        }
        (lo, hi)
    }

    /// Could something within two radii of level `z`, stretched by the slack, around `x` lie in
    /// `[lo, hi]`?
    pub fn reaches(&self, x: i32, lo: i32, hi: i32, z: u8) -> (r: bool)
        requires
            self.wf(),
            z <= self.options().max_zoom,
        ensures
            r == reaches(self.options(), z as int, x as int, lo as int, hi as int),
    {
        let side = pow_two(z);
        let ghost o = self.opts;
        let k: u64 = {
            proof {
                assert(o.extent * side <= u32::MAX * 0x100000) by (nonlinear_arith)
                    requires
                        0 <= o.extent <= u32::MAX,
                        0 <= side <= 0x100000,
                ;
            }
            (self.opts.extent as u64) * side
        };
        let below: i64 = (lo as i64) - (x as i64);
        let above: i64 = (x as i64) - (hi as i64);
        proof {
            assert(-0x1_0000_0000 * (u32::MAX * 0x100000) <= below * k <= 0x1_0000_0000 * (u32::MAX
                * 0x100000)) by (nonlinear_arith)
                requires
                    -0x1_0000_0000 <= below <= 0x1_0000_0000,
                    0 <= k <= u32::MAX * 0x100000,
            ;
            assert(-0x1_0000_0000 * (u32::MAX * 0x100000) <= above * k <= 0x1_0000_0000 * (u32::MAX
                * 0x100000)) by (nonlinear_arith)
                requires
                    -0x1_0000_0000 <= above <= 0x1_0000_0000,
                    0 <= k <= u32::MAX * 0x100000,
            ;
        }
        let stretch: i128 = 1000 + self.opts.hysteresis as i128;
        proof {
            assert(0 <= self.twice_span * stretch <= 0x8000_0000 * u32::MAX * (1000 + u32::MAX))
                by (nonlinear_arith)
                requires
                    0 <= self.twice_span <= 0x8000_0000 * u32::MAX,
                    0 <= stretch <= 1000 + u32::MAX,
            ;
            let t = two(z as int);
            assert(below * (o.extent * MILLI * t) == below * k * 1000 && above * (o.extent * MILLI
                * t) == above * k * 1000) by (nonlinear_arith)
                requires
                    k == o.extent * t,
                    MILLI == 1000,
            ;
            assert(2 * o.slack_span() == self.twice_span * stretch) by (nonlinear_arith)
                requires
                    o.slack_span() == o.span() * (MILLI + o.hysteresis),
                    self.twice_span == 2 * o.span(),
                    stretch == MILLI + o.hysteresis,
            ;
        }
        let reach: i128 = self.twice_span as i128 * stretch;
        (below as i128) * (k as i128) * 1000 <= reach && (above as i128) * (k as i128) * 1000
            <= reach
    }

    /// By how many cells of the coarsest level a cluster can reach out of its center's.
    pub fn margin(&self) -> (m: u64)
        requires
            self.wf(),
        ensures
            m == self.options().margin(),
    {
        (1999 + self.opts.hysteresis as u64) / 1000
    }
}

/// An offset `d` along one axis is no longer than the radius of level `z`.
pub open spec fn within(o: Options, z: int, d: int) -> bool {
    d * (o.extent * two(z)) <= o.span() && -d * (o.extent * two(z)) <= o.span()
}

/// `[lo, hi]`, widened on both sides by two radii of level `z` stretched by the slack, holds `x`.
pub open spec fn reaches(o: Options, z: int, x: int, lo: int, hi: int) -> bool {
    &&& (lo - x) * (o.extent * MILLI * two(z)) <= 2 * o.slack_span()
    &&& (x - hi) * (o.extent * MILLI * two(z)) <= 2 * o.slack_span()
}

/// What is near with slack by distance is so along each axis.
pub proof fn lemma_slack_axis(o: Options, z: int, dx: int, dy: int)
    requires
        o.near_with_slack(z, sq(dx) + sq(dy)),
        0 <= z,
    ensures
        -o.slack_span() <= dx * (o.extent * MILLI * two(z)) <= o.slack_span(),
        -o.slack_span() <= dy * (o.extent * MILLI * two(z)) <= o.slack_span(),
{
    let k = o.extent * MILLI * two(z);
    let p = o.slack_span();
    lemma_pow2_pos(z as nat);
    assert(k >= 0 && p >= 0) by (nonlinear_arith)
        requires
            k == o.extent * MILLI * two(z),
            p == o.span() * (MILLI + o.hysteresis),
            o.span() == PREC_I * o.radius,
            o.extent >= 0,
            o.radius >= 0,
            o.hysteresis >= 0,
            two(z) >= 0,
            MILLI == 1000,
            PREC_I == 0x4000_0000,
    ;
    lemma_axis_bound(dx, dy, k, p);
    assert(sq(dx) + sq(dy) == sq(dy) + sq(dx));
    lemma_axis_bound(dy, dx, k, p);
    assert(-dx * k == -(dx * k) && -dy * k == -(dy * k)) by (nonlinear_arith);
}

/// What is near by distance is near along each axis.
pub proof fn lemma_near_axis(o: Options, z: int, dx: int, dy: int)
    requires
        o.near(z, sq(dx) + sq(dy)),
        0 <= z,
    ensures
        within(o, z, dx),
        within(o, z, dy),
{
    let k = o.extent * two(z);
    let p = o.span();
    lemma_pow2_pos(z as nat);
    assert(k >= 0) by (nonlinear_arith)
        requires
            k == o.extent * two(z),
            o.extent >= 0,
            two(z) >= 0,
    ;
    lemma_axis_bound(dx, dy, k, p);
    lemma_axis_bound(dy, dx, k, p);
}

proof fn lemma_axis_bound(dx: int, dy: int, k: int, p: int)
    requires
        (sq(dx) + sq(dy)) * sq(k) <= sq(p),
        k >= 0,
        p >= 0,
    ensures
        dx * k <= p,
        -dx * k <= p,
{
    assert(sq(dx) * sq(k) <= (sq(dx) + sq(dy)) * sq(k)) by (nonlinear_arith)
        requires
            sq(dy) == dy * dy,
            sq(k) == k * k,
    ;
    lemma_sq_mul(dx, k);
    lemma_sq_mul(dx * k, 1);
    let a = if dx >= 0 {
        dx * k
    } else {
        -dx * k
    };
    assert(a >= 0) by (nonlinear_arith)
        requires
            k >= 0,
            a == (if dx >= 0 {
                dx * k
            } else {
                -dx * k
            }),
    ;
    assert(-dx * k == -(dx * k)) by (nonlinear_arith);
    assert(sq(a) == sq(dx * k)) by {
        if dx < 0 {
            lemma_sq_mul(dx * k, 1);
        }
    }
    lemma_sq_le(a, p);
}

/// The grid cells go by a geometry that is no finer than the own one, and whose cells a key has
/// room for.
pub proof fn lemma_pitch(o: Options)
    requires
        o.valid(),
    ensures
        o.pitch().radius > 0,
        o.pitch().extent > 0,
        !o.pitch().too_fine(),
        o.radius * o.pitch().extent <= o.pitch().radius * o.extent,
{
    if o.too_fine() {
        let m = o.max_zoom as int;
        two_bounds(m);
        two_bounds(29 - m);
        lemma2_to64();
        lemma_pow2_adds(m as nat, (29 - m) as nat);
        assert(pow2(29) == 0x2000_0000) by {
            lemma2_to64();
        }
        let (a, b, e, r) = (two(m), two(29 - m), o.extent as int, o.radius as int);
        assert(a * b == 0x2000_0000);
        assert(b * a == a * b) by (nonlinear_arith);
        assert(r * b <= e) by (nonlinear_arith)
            requires
                a * b == 0x2000_0000,
                e * a >= 2 * 0x2000_0000 * r,
                a > 0,
                b > 0,
                r > 0,
        ;
    } else {
        assert(o.radius * o.extent <= o.radius * o.extent);
    }
}

/// Comparing lengths, where the second ratio is no smaller than the first.
proof fn lemma_lengths(d: int, t: int, e: int, f: int, p: int, q: int)
    requires
        d * (e * t) <= p,
        e > 0,
        f > 0,
        t > 0,
        p * f <= q * e,
        p >= 0,
    ensures
        d * (f * t) <= q,
{
    assert((d * (f * t)) * e == (d * (e * t)) * f) by (nonlinear_arith);
    let (a, b) = (d * (f * t), d * (e * t));
    assert(b * f <= p * f) by (nonlinear_arith)
        requires
            b <= p,
            f > 0,
    ;
    assert(a <= q) by (nonlinear_arith)
        requires
            a * e <= q * e,
            e > 0,
    ;
}

/// What lies within a radius does so in the geometry of the grid cells.
proof fn lemma_within_pitch(o: Options, z: int, d: int)
    requires
        o.valid(),
        within(o, z, d),
        0 <= z,
    ensures
        within(o.pitch(), z, d),
{
    let g = o.pitch();
    lemma_pitch(o);
    lemma_pow2_pos(z as nat);
    assert(o.span() * g.extent <= g.span() * o.extent) by (nonlinear_arith)
        requires
            o.span() == PREC_I * o.radius,
            g.span() == PREC_I * g.radius,
            o.radius * g.extent <= g.radius * o.extent,
            PREC_I > 0,
    ;
    let (e, f) = (o.extent as int, g.extent as int);
    lemma_lengths(d, two(z), e, f, o.span(), g.span());
    lemma_lengths(-d, two(z), e, f, o.span(), g.span());
}

/// What reaches an interval does so in the geometry of the grid cells.
proof fn lemma_reaches_pitch(o: Options, z: int, x: int, lo: int, hi: int)
    requires
        o.valid(),
        reaches(o, z, x, lo, hi),
        0 <= z,
    ensures
        reaches(o.pitch(), z, x, lo, hi),
{
    let g = o.pitch();
    lemma_pitch(o);
    lemma_pow2_pos(z as nat);
    let h = MILLI + o.hysteresis;
    let (e, f) = (o.extent * MILLI, g.extent * MILLI);
    let (p, q) = (2 * o.slack_span(), 2 * g.slack_span());
    assert(p * f <= q * e && p >= 0) by (nonlinear_arith)
        requires
            p == 2 * ((PREC_I * o.radius) * h),
            q == 2 * ((PREC_I * g.radius) * h),
            e == o.extent * MILLI,
            f == g.extent * MILLI,
            o.radius * g.extent <= g.radius * o.extent,
            o.radius >= 0,
            PREC_I == 0x4000_0000,
            MILLI == 1000,
            h >= 0,
    ;
    lemma_lengths(lo - x, two(z), e, f, p, q);
    lemma_lengths(x - hi, two(z), e, f, p, q);
}

/// Cells fit their field of the grid key.
pub proof fn lemma_cell_range(o: Options, x: int, z: int)
    requires
        o.valid(),
        in_world(x),
        0 <= z <= o.max_zoom,
    ensures
        0 <= o.cell(x, z) < CELL_SPAN,
{
    let g = o.pitch();
    lemma_pitch(o);
    let k = g.extent * two(z);
    let kk = g.extent * two(o.max_zoom as int);
    let w = 2 * g.span();
    two_bounds(o.max_zoom as int);
    two_bounds(z);
    if z < o.max_zoom {
        lemma_pow2_strictly_increases(z as nat, o.max_zoom as nat);
    }
    assert(0 <= k <= kk) by (nonlinear_arith)
        requires
            k == g.extent * two(z),
            kk == g.extent * two(o.max_zoom as int),
            g.extent >= 0,
            0 <= two(z) <= two(o.max_zoom as int),
    ;
    assert(x * k <= 0x4000_0000 * kk && x * k >= 0) by (nonlinear_arith)
        requires
            0 <= x <= 0x4000_0000,
            0 <= k <= kk,
    ;
    assert(kk < 2 * CELL_SPAN * g.radius);
    assert(w == 0x8000_0000 * g.radius);
    assert(x * k < CELL_SPAN * w);
    assert(x * k / w < CELL_SPAN) by (nonlinear_arith)
        requires
            0 <= x * k < CELL_SPAN * w,
            w > 0,
    ;
    assert(x * k / w >= 0) by (nonlinear_arith)
        requires
            0 <= x * k,
            w > 0,
    ;
}

/// Cells are dyadic: a cell of level `z` is made of two by two cells of level `z + 1`.
pub proof fn lemma_cell_halves(o: Options, x: int, z: int)
    requires
        o.valid(),
        in_world(x),
        0 <= z < o.max_zoom,
    ensures
        o.cell(x, z) == o.cell(x, z + 1) / 2,
{
    let g = o.pitch();
    lemma_pitch(o);
    let a = x * (g.extent * two(z));
    let w = 2 * g.span();
    two_bounds(z);
    assert(x * (g.extent * two(z + 1)) == 2 * a) by (nonlinear_arith)
        requires
            two(z + 1) == 2 * two(z),
            a == x * (g.extent * two(z)),
    ;
    assert(a >= 0) by (nonlinear_arith)
        requires
            a == x * (g.extent * two(z)),
            x >= 0,
            g.extent >= 0,
            two(z) >= 0,
    ;
    vstd::arithmetic::div_mod::lemma_div_denominator(2 * a, w, 2);
    vstd::arithmetic::div_mod::lemma_div_multiples_vanish_quotient(2, a, w);
    assert((2 * a) / (w * 2) == (2 * a) / (2 * w)) by (nonlinear_arith);
}

/// A radius is no longer than the radius stretched by the slack.
pub proof fn lemma_near_is_near_with_slack(o: Options, z: int, d2: int)
    requires
        o.near(z, d2),
    ensures
        o.near_with_slack(z, d2),
{
    let k = o.extent * two(z);
    let p = o.span();
    let m = MILLI as int;
    assert(o.extent * MILLI * two(z) == k * m) by (nonlinear_arith)
        requires
            k == o.extent * two(z),
            m == MILLI,
    ;
    lemma_sq_mul(k, m);
    lemma_sq_mul(p, m + o.hysteresis);
    assert(d2 * (sq(k) * sq(m)) == (d2 * sq(k)) * sq(m)) by (nonlinear_arith);
    assert((d2 * sq(k)) * sq(m) <= sq(p) * sq(m)) by (nonlinear_arith)
        requires
            d2 * sq(k) <= sq(p),
            sq(m) >= 0,
    ;
    lemma_sq_le(m, m + o.hysteresis);
    assert(sq(p) * sq(m) <= sq(p) * sq(m + o.hysteresis)) by (nonlinear_arith)
        requires
            sq(m) <= sq(m + o.hysteresis),
            sq(p) >= 0,
    ;
}

/// Squared distances in the world stay below [`FAR`].
pub proof fn lemma_dist2_bound(ax: int, ay: int, bx: int, by: int)
    requires
        in_world(ax),
        in_world(ay),
        in_world(bx),
        in_world(by),
    ensures
        0 <= dist2(ax, ay, bx, by) <= 0x2000_0000_0000_0000,
        dist2(ax, ay, bx, by) == dist2(bx, by, ax, ay),
{
    lemma_sq_bound(ax - bx);
    lemma_sq_bound(ay - by);
    lemma_sq_mul(ax - bx, 1);
    lemma_sq_mul(ay - by, 1);
    assert(bx - ax == -(ax - bx));
    assert(by - ay == -(ay - by));
}

proof fn lemma_sq_bound(a: int)
    requires
        -0x4000_0000 <= a <= 0x4000_0000,
    ensures
        0 <= sq(a) <= 0x1000_0000_0000_0000,
{
    assert(0 <= a * a <= 0x4000_0000 * 0x4000_0000) by (nonlinear_arith)
        requires
            -0x4000_0000 <= a <= 0x4000_0000,
    ;
}

/// Squared distance between two positions in the world.
pub fn distance2(ax: i32, ay: i32, bx: i32, by: i32) -> (d: u64)
    requires
        in_world(ax as int),
        in_world(ay as int),
        in_world(bx as int),
        in_world(by as int),
    ensures
        d == dist2(ax as int, ay as int, bx as int, by as int),
        d < FAR,
{
    let dx: i64 = (ax as i64) - (bx as i64);
    let dy: i64 = (ay as i64) - (by as i64);
    proof {
        lemma_sq_bound(dx as int);
        lemma_sq_bound(dy as int);
    }
    (dx * dx + dy * dy) as u64
}

/// What reaches an interval at the coarsest level lies at most the margin outside of it, in cells.
pub proof fn lemma_reach_cells(o: Options, x: int, lo: int, hi: int)
    requires
        o.valid(),
        reaches(o, 0, x, lo, hi),
    ensures
        o.cell(lo, 0) - o.margin() <= o.cell(x, 0) <= o.cell(hi, 0) + o.margin(),
{
    let g = o.pitch();
    lemma_pitch(o);
    lemma_reaches_pitch(o, 0, x, lo, hi);
    let k = g.extent * two(0);
    let w = 2 * g.span();
    let m = o.margin();
    assert(w > 0);
    lemma_out(g, lo - x, k, w, m);
    lemma_out(g, x - hi, k, w, m);
    assert((lo - x) * k == lo * k - x * k) by (nonlinear_arith);
    assert((x - hi) * k == x * k - hi * k) by (nonlinear_arith);
    let (a, b, c) = (lo * k, x * k, hi * k);
    lemma_div_shift(a, b, w, m);
    lemma_div_shift(b, c, w, m);
}

proof fn lemma_out(o: Options, d: int, k: int, w: int, m: int)
    requires
        d * (o.extent * MILLI * two(0)) <= 2 * o.slack_span(),
        k == o.extent * two(0),
        w == 2 * o.span(),
        w > 0,
        m == o.margin(),
    ensures
        d * k <= w * m,
{
    let h = MILLI + o.hysteresis;
    assert(d * (o.extent * MILLI * two(0)) == d * k * 1000) by (nonlinear_arith)
        requires
            k == o.extent * two(0),
            MILLI == 1000,
    ;
    assert(2 * o.slack_span() == w * h) by (nonlinear_arith)
        requires
            o.slack_span() == o.span() * h,
            w == 2 * o.span(),
    ;
    assert(h <= 1000 * m);
    let v = d * k;
    assert(w * h <= w * (1000 * m)) by (nonlinear_arith)
        requires
            w > 0,
            h <= 1000 * m,
    ;
    assert(w * (1000 * m) == 1000 * (w * m)) by (nonlinear_arith);
}

/// Where `a` is at most `m` times `w` more than `b`, its quotient is at most `m` more.
proof fn lemma_div_shift(a: int, b: int, w: int, m: int)
    requires
        w > 0,
        a - b <= w * m,
    ensures
        a / w - m <= b / w,
{
    assert(a / w <= (b + w * m) / w) by (nonlinear_arith)
        requires
            w > 0,
            a <= b + w * m,
    ;
    assert((b + w * m) / w == b / w + m) by {
        vstd::arithmetic::div_mod::lemma_hoist_over_denominator(b, m, w as nat);
        assert(w * m == m * w) by (nonlinear_arith);
    }
}

/// Cells come in the order of the coordinates.
pub proof fn lemma_cell_order(o: Options, x: int, y: int)
    requires
        o.valid(),
        x <= y,
    ensures
        o.cell(x, 0) <= o.cell(y, 0),
{
    let g = o.pitch();
    lemma_pitch(o);
    let k = g.extent * two(0);
    let w = 2 * g.span();
    lemma_pow2_pos(0);
    assert(k >= 0) by (nonlinear_arith)
        requires
            k == g.extent * two(0),
            two(0) >= 0,
            g.extent >= 0,
    ;
    assert(x * k <= y * k) by (nonlinear_arith)
        requires
            x <= y,
            k >= 0,
    ;
    let (a, b) = (x * k, y * k);
    assert(a / w <= b / w) by (nonlinear_arith)
        requires
            a <= b,
            w > 0,
    ;
}

impl Geometry {
    /// The cell of level 0 that a coordinate falls into, once it is cut off at the edge of the
    /// world.
    pub fn coarsest_cell(&self, x: i32) -> (c: u64)
        requires
            self.wf(),
        ensures
            c == self.options().cell(cut_off(x as int), 0),
            c < CELL_SPAN,
    {
        let v: i32 = if x < 0 {
            0
        } else if x > 0x4000_0000 {
            0x4000_0000
        } else {
            x
        };
        self.cell_at(v, 0)
    }
}

impl Geometry {
    /// The cell of level `z` that a coordinate falls into.
    pub fn cell_at(&self, x: i32, z: u8) -> (c: u64)
        requires
            self.wf(),
            in_world(x as int),
            z <= self.options().max_zoom,
        ensures
            c == self.options().cell(x as int, z as int),
            c < CELL_SPAN,
    {
        let ghost o = self.options();
        let mut c = self.finest_cell(x);
        let mut v: u8 = self.opts().max_zoom;
        while v > z
            invariant
                o == self.options(),
                o.valid(),
                z <= v <= o.max_zoom,
                in_world(x as int),
                c == o.cell(x as int, v as int),
                c < CELL_SPAN,
            decreases v,
        {
            proof {
                lemma_cell_halves(o, x as int, v - 1);
            }
            c = c / 2;
            v = v - 1;
        }
        c
    }
}

/// A coordinate cut off at the edge of the world.
pub open spec fn cut_off(x: int) -> int {
    if x < 0 {
        0
    } else if x > PREC_I {
        PREC_I as int
    } else {
        x
    }
}

/// `k` is ten times the square root of `d2`, rounded.
pub open spec fn root_tenths(d2: int, k: int) -> bool {
    0 <= k && (k > 0 ==> sq(2 * k - 1) <= 400 * d2) && 400 * d2 < sq(2 * k + 1)
}

/// A quotient, rounded; halves go to the even side.
pub open spec fn rounded(n: int, d: int) -> int {
    let (q, r) = (n / d, n % d);
    if 2 * r > d || (2 * r == d && q % 2 == 1) {
        q + 1
    } else {
        q
    }
}

impl Options {
    /// Ten times the radius of level `z`, rounded.
    pub open spec fn radius_tenths(&self, z: int) -> int {
        rounded(10 * self.span(), self.extent * two(z))
    }

    /// The same of the radius stretched by the slack.
    pub open spec fn slack_tenths(&self, z: int) -> int {
        rounded(10 * self.slack_span(), self.extent * MILLI * two(z))
    }
}

fn quotient_rounded(n: u128, d: u128) -> (r: u128)
    requires
        0 < d < 0x8000_0000_0000_0000_0000_0000,
        n < 0x8000_0000_0000_0000_0000_0000_0000_0000,
    ensures
        r == rounded(n as int, d as int),
{
    let q: u128 = n / d;
    let m: u128 = n % d;
    proof {
        vstd::arithmetic::div_mod::lemma_fundamental_div_mod(n as int, d as int);
        assert(q <= n) by (nonlinear_arith)
            requires
                n == d * q + m,
                d >= 1,
                m >= 0,
                q >= 0,
        ;
    }
    if 2 * m > d || (2 * m == d && q % 2 == 1) {
        q + 1
    } else {
        q
    }
}

/// Ten times the root of a square, rounded.
pub fn tenths(d2: u64) -> (k: u64)
    requires
        d2 < FAR,
    ensures
        root_tenths(d2 as int, k as int),
{
    let n: u128 = 400 * (d2 as u128);
    let mut lo: u64 = 0;
    let mut hi: u64 = 0x10_0000_0000;
    proof {
        assert(sq(0x10_0000_0000) == 0x100_0000_0000_0000_0000) by (nonlinear_arith)
            requires
                sq(0x10_0000_0000) == 0x10_0000_0000 * 0x10_0000_0000,
        ;
        assert(sq(0) == 0);
    }
    while hi - lo > 1
        invariant
            lo < hi <= 0x10_0000_0000,
            sq(lo as int) <= n < sq(hi as int),
        decreases hi - lo,
    {
        let mid: u64 = lo + (hi - lo) / 2;
        proof {
            assert(mid * mid <= 0x10_0000_0000 * 0x10_0000_0000) by (nonlinear_arith)
                requires
                    0 <= mid <= 0x10_0000_0000,
            ;
        }
        if (mid as u128) * (mid as u128) <= n {
            lo = mid;
        } else {
            hi = mid;
        }
    }
    let k: u64 = (lo + 1) / 2;
    proof {
        let (r, j) = (lo as int, k as int);
        assert(hi == r + 1);
        if r % 2 == 1 {
            assert(r == 2 * j - 1);
            lemma_sq_le(2 * j, 2 * j + 1);
        } else {
            assert(r == 2 * j);
            if j > 0 {
                lemma_sq_le(2 * j - 1, 2 * j);
            }
        }
    }
    k
}

impl Geometry {
    /// Ten times the radius of level `z`, rounded.
    pub fn radius_tenths(&self, z: u8) -> (r: u128)
        requires
            self.wf(),
            z <= self.options().max_zoom,
        ensures
            r == self.options().radius_tenths(z as int),
    {
        let o = self.opts;
        let side = pow_two(z);
        proof {
            assert(0 < o.extent * side <= u32::MAX * 0x100000) by (nonlinear_arith)
                requires
                    0 < o.extent <= u32::MAX,
                    0 < side <= 0x100000,
            ;
        }
        quotient_rounded(
            0x2_8000_0000 * (o.radius as u128),
            (o.extent as u128) * (side as u128),
        )
    }

    /// The same of the radius stretched by the slack.
    pub fn slack_tenths(&self, z: u8) -> (r: u128)
        requires
            self.wf(),
            z <= self.options().max_zoom,
        ensures
            r == self.options().slack_tenths(z as int),
    {
        let o = self.opts;
        let side = pow_two(z);
        let stretch: u128 = 1000 + o.hysteresis as u128;
        let num: u128 = 0x2_8000_0000 * (o.radius as u128);
        proof {
            assert(0 < o.extent * side <= u32::MAX * 0x100000) by (nonlinear_arith)
                requires
                    0 < o.extent <= u32::MAX,
                    0 < side <= 0x100000,
            ;
            assert(num * stretch <= 0x2_8000_0000 * u32::MAX * (1000 + u32::MAX))
                by (nonlinear_arith)
                requires
                    0 <= num <= 0x2_8000_0000 * u32::MAX,
                    0 <= stretch <= 1000 + u32::MAX,
            ;
            let t = two(z as int);
            assert(o.extent * MILLI * t == (o.extent * side) * 1000) by (nonlinear_arith)
                requires
                    t == side,
                    MILLI == 1000,
            ;
            assert(10 * o.slack_span() == num * stretch) by (nonlinear_arith)
                requires
                    o.slack_span() == (PREC_I * o.radius) * (MILLI + o.hysteresis),
                    num == 0x2_8000_0000 * o.radius,
                    stretch == MILLI + o.hysteresis,
                    PREC_I == 0x4000_0000,
            ;
        }
        quotient_rounded(num * stretch, (o.extent as u128) * (side as u128) * 1000)
    }
}

/// Where more points fit, fewer do.
pub proof fn lemma_houses_less(o: Options, n: int, m: int)
    requires
        o.houses(n),
        0 <= m <= n,
    ensures
        o.houses(m),
{
    let w = o.cells_in_force();
    let k = o.max_cells_per_device as int;
    let z = o.max_zoom as int + 2;
    assert((2 * m) * w * 8 <= (2 * n) * w * 8) by (nonlinear_arith)
        requires
            0 <= m <= n,
            0 <= w,
    ;
    assert(z * (m * k) <= z * (n * k)) by (nonlinear_arith)
        requires
            0 <= m <= n,
            0 <= k,
            0 <= z,
    ;
}

} // verus!
