//! The order of the lists that an index keeps: the roots in each cell of the coarsest grid, and
//! the children of each point.
use crate::clusters::Window;
use crate::geometry::{cut_off, Options, PREC_I};
use crate::grid::{bucket_with, bucket_without, key_level, Slot};
use crate::index::grid_key;
use crate::net::{Net, Point};
use vstd::prelude::*;

verus! {

/// Per cell key of the coarsest grid the roots in it, and per handle its children, in list order.
#[verifier::ext_equal]
pub struct Lists {
    pub floor: spec_fn(u64) -> Seq<Slot>,
    pub kids: spec_fn(int) -> Seq<int>,
}

/// Every list is empty.
pub open spec fn no_lists() -> Lists {
    Lists { floor: |k: u64| Seq::empty(), kids: |s: int| Seq::empty() }
}

/// The part of the grids that the coarsest level has.
pub open spec fn floor_of(g: Map<u64, Seq<Slot>>) -> spec_fn(u64) -> Seq<Slot> {
    |k: u64|
        if key_level(k) == 0 && g.contains_key(k) {
            g[k]
        } else {
            Seq::empty()
        }
}

/// The children of each handle; those of a handle that was never made are none.
pub open spec fn kids_of(k: Seq<Seq<int>>) -> spec_fn(int) -> Seq<int> {
    |s: int|
        if 0 <= s < k.len() {
            k[s]
        } else {
            Seq::empty()
        }
}

/// With `s` in front of the list under `key`.
pub open spec fn fronted(f: spec_fn(u64) -> Seq<Slot>, key: u64, s: Slot) -> spec_fn(u64) -> Seq<
    Slot,
> {
    |k: u64|
        if k == key {
            seq![s] + f(k)
        } else {
            f(k)
        }
}

/// With `s` taken out of the list under `key`.
pub open spec fn lifted(f: spec_fn(u64) -> Seq<Slot>, key: u64, s: Slot) -> spec_fn(u64) -> Seq<
    Slot,
> {
    |k: u64|
        if k == key {
            f(k).remove(f(k).index_of(s))
        } else {
            f(k)
        }
}

/// How many points at the front of a list are of a coarser level.
pub open spec fn rank(q: Seq<int>, level: int, pts: Map<int, Point>) -> int
    decreases q.len(),
{
    if q.len() == 0 || pts[q[0]].level >= level {
        0
    } else {
        1 + rank(q.skip(1), level, pts)
    }
}

/// With `c` among the children of `p`, before the first of its level or a finer one.
pub open spec fn adopted(f: spec_fn(int) -> Seq<int>, p: int, c: int, pts: Map<int, Point>) -> spec_fn(
    int,
) -> Seq<int> {
    |s: int|
        if s == p {
            f(s).insert(rank(f(s), pts[c].level, pts), c)
        } else {
            f(s)
        }
}

/// Without `c` among the children of `p`.
pub open spec fn disowned(f: spec_fn(int) -> Seq<int>, p: int, c: int) -> spec_fn(int) -> Seq<int> {
    |s: int|
        if s == p {
            f(s).remove(f(s).index_of(c))
        } else {
            f(s)
        }
}

/// The key of the cell of the coarsest grid that a point lies in.
pub open spec fn floor_key(net: Net, s: int) -> u64 {
    grid_key(net.opts, net.pts[s].x, net.pts[s].y, 0)
}

impl Lists {
    /// The lists once a point of the net has taken its place in them.
    pub open spec fn seated(&self, net: Net, s: int) -> Lists {
        match net.pts[s].parent {
            None => Lists { floor: fronted(self.floor, floor_key(net, s), s as Slot), ..*self },
            Some(p) => Lists { kids: adopted(self.kids, p, s, net.pts), ..*self },
        }
    }

    /// The lists once a point of the net has left its place in them.
    pub open spec fn unseated(&self, net: Net, s: int) -> Lists {
        match net.pts[s].parent {
            None => Lists { floor: lifted(self.floor, floor_key(net, s), s as Slot), ..*self },
            Some(p) => Lists { kids: disowned(self.kids, p, s), ..*self },
        }
    }

    /// The lists once each point of `q` has found its place anew, one after the other.
    pub open spec fn rehomed(&self, net: Net, q: Seq<int>) -> Lists
        decreases q.len(),
    {
        if q.len() == 0 {
            *self
        } else {
            let before = self.rehomed(net, q.drop_last());
            before.unseated(net.rehome(q.drop_last()), q.last()).seated(net.rehome(q), q.last())
        }
    }

    /// The lists once a point has left and its children have found new parents.
    pub open spec fn unlinked(&self, net: Net, s: int) -> Lists {
        self.unseated(net, s).rehomed(net.drop_point(s), net.heirs_of(s))
    }

    /// The lists once a point has moved: a root that slides into another cell of the coarsest
    /// grid is listed there; a point that cannot slide leaves and comes back.
    pub open spec fn moved(&self, net: Net, s: int, x: int, y: int) -> Lists {
        let next = net.moved(s, x, y);
        if net.pts[s].x == x && net.pts[s].y == y {
            *self
        } else if net.may_slide(s, x, y) {
            if net.pts[s].parent is None && floor_key(net, s) != floor_key(next, s) {
                self.unseated(net, s).seated(next, s)
            } else {
                *self
            }
        } else {
            self.unlinked(net, s).seated(next, s)
        }
    }
}

pub proof fn lemma_floor_add(g: Map<u64, Seq<Slot>>, key: u64, s: Slot)
    ensures
        floor_of(bucket_with(g, key, s)) == (if key_level(key) == 0 {
            fronted(floor_of(g), key, s)
        } else {
            floor_of(g)
        }),
{
    let (f, h) = (floor_of(g), floor_of(bucket_with(g, key, s)));
    if key_level(key) == 0 {
        let goal = fronted(f, key, s);
        assert forall|k: u64| #[trigger] h(k) == goal(k) by {
            if k == key && !g.contains_key(key) {
                assert(seq![s] + Seq::<Slot>::empty() =~= seq![s]);
            }
        }
        assert(h =~= goal);
    } else {
        assert forall|k: u64| #[trigger] h(k) == f(k) by {}
        assert(h =~= f);
    }
}

pub proof fn lemma_floor_del(g: Map<u64, Seq<Slot>>, key: u64, s: Slot, i: int)
    requires
        g.contains_key(key),
        g[key].no_duplicates(),
        0 <= i < g[key].len(),
        g[key][i] == s,
    ensures
        floor_of(bucket_without(g, key, i)) == (if key_level(key) == 0 {
            lifted(floor_of(g), key, s)
        } else {
            floor_of(g)
        }),
{
    let (f, h) = (floor_of(g), floor_of(bucket_without(g, key, i)));
    if key_level(key) == 0 {
        let goal = lifted(f, key, s);
        assert(g[key].contains(s));
        assert(g[key].index_of(s) == i);
        assert forall|k: u64| #[trigger] h(k) == goal(k) by {
            if k == key && g[key].len() == 1 {
                assert(g[key].remove(i) =~= Seq::<Slot>::empty());
            }
        }
        assert(h =~= goal);
    } else {
        assert forall|k: u64| #[trigger] h(k) == f(k) by {}
        assert(h =~= f);
    }
}

pub proof fn lemma_adopt(k: Seq<Seq<int>>, p: int, c: int, i: int, net: Net)
    requires
        0 <= p < k.len(),
        0 <= i <= k[p].len(),
        forall|j: int| 0 <= j < i ==> net.pts[#[trigger] k[p][j]].level < net.pts[c].level,
        i < k[p].len() ==> net.pts[k[p][i]].level >= net.pts[c].level,
    ensures
        kids_of(k.update(p, k[p].insert(i, c))) == adopted(kids_of(k), p, c, net.pts),
{
    lemma_rank(k[p], net.pts[c].level, net.pts, i);
    let (f, g) = (kids_of(k.update(p, k[p].insert(i, c))), adopted(kids_of(k), p, c, net.pts));
    assert forall|s: int| #[trigger] f(s) == g(s) by {}
    assert(f =~= g);
}

pub proof fn lemma_disown(k: Seq<Seq<int>>, p: int, c: int, i: int)
    requires
        0 <= p < k.len(),
        k[p].no_duplicates(),
        0 <= i < k[p].len(),
        k[p][i] == c,
    ensures
        kids_of(k.update(p, k[p].remove(i))) == disowned(kids_of(k), p, c),
{
    assert(k[p].contains(c));
    assert(k[p].index_of(c) == i);
    let (f, g) = (kids_of(k.update(p, k[p].remove(i))), disowned(kids_of(k), p, c));
    assert forall|s: int| #[trigger] f(s) == g(s) by {}
    assert(f =~= g);
}

/// The rank is where the levels change.
pub proof fn lemma_rank(q: Seq<int>, level: int, pts: Map<int, Point>, i: int)
    requires
        0 <= i <= q.len(),
        forall|j: int| 0 <= j < i ==> pts[#[trigger] q[j]].level < level,
        i < q.len() ==> pts[q[i]].level >= level,
    ensures
        rank(q, level, pts) == i,
    decreases q.len(),
{
    if i > 0 {
        let r = q.skip(1);
        assert(pts[q[0]].level < level);
        assert forall|j: int| 0 <= j < i - 1 implies pts[#[trigger] r[j]].level < level by {
            assert(r[j] == q[j + 1]);
        }
        if i < q.len() {
            assert(r[i - 1] == q[i]);
        }
        lemma_rank(r, level, pts, i - 1);
    }
}

/// The centers of level `z` from `s` down, in the order in which a search comes upon them: `s`,
/// then what is below its children, the last child first.
pub open spec fn tour(kids: spec_fn(int) -> Seq<int>, pts: Map<int, Point>, s: int, z: int) -> Seq<
    int,
>
    decreases z + 1 - pts[s].level, kids(s).len() + 1,
{
    if pts[s].level > z {
        seq![]
    } else {
        seq![s] + tour_below(kids, pts, s, z, 0)
    }
}

/// The part of [`tour`] below the children of `s`, but for the first `i`.
pub open spec fn tour_below(
    kids: spec_fn(int) -> Seq<int>,
    pts: Map<int, Point>,
    s: int,
    z: int,
    i: int,
) -> Seq<int>
    decreases z + 1 - pts[s].level, kids(s).len() - i,
{
    if i < 0 || i >= kids(s).len() || pts[s].level > z {
        seq![]
    } else {
        let k = kids(s)[i];
        tour_below(kids, pts, s, z, i + 1) + (if pts[s].level < pts[k].level <= z {
            tour(kids, pts, k, z)
        } else {
            seq![]
        })
    }
}

/// The tours from some roots but for the first `i`, the last root first.
pub open spec fn descent(
    kids: spec_fn(int) -> Seq<int>,
    pts: Map<int, Point>,
    roots: Seq<Slot>,
    z: int,
    i: int,
) -> Seq<int>
    decreases roots.len() - i,
{
    if i < 0 || i >= roots.len() {
        seq![]
    } else {
        descent(kids, pts, roots, z, i + 1) + tour(kids, pts, roots[i] as int, z)
    }
}

/// The points inside the cluster of `s` at level `z`, in the order in which they are listed: `s`,
/// then what is inside each child that is finer than the level, the first child first.
pub open spec fn leaf_tour(kids: spec_fn(int) -> Seq<int>, pts: Map<int, Point>, s: int, z: int) -> Seq<
    int,
>
    decreases 22 - pts[s].level, kids(s).len() + 1,
{
    seq![s] + leaf_tour_of(kids, pts, s, z, kids(s).len() as int)
}

/// The part of [`leaf_tour`] that comes with the first `i` children.
pub open spec fn leaf_tour_of(
    kids: spec_fn(int) -> Seq<int>,
    pts: Map<int, Point>,
    s: int,
    z: int,
    i: int,
) -> Seq<int>
    decreases 22 - pts[s].level, i,
{
    if i <= 0 {
        seq![]
    } else {
        let k = kids(s)[i - 1];
        leaf_tour_of(kids, pts, s, z, i - 1) + (if pts[k].level > z && pts[s].level < pts[k].level
            <= 21 {
            leaf_tour(kids, pts, k, z)
        } else {
            seq![]
        })
    }
}

/// Those of the first `i` children that part from a cluster between one level and another.
pub open spec fn parting(q: Seq<int>, pts: Map<int, Point>, z: int, nz: int, i: int) -> Seq<int>
    decreases i,
{
    if i <= 0 {
        seq![]
    } else {
        let p = parting(q, pts, z, nz, i - 1);
        if z < pts[q[i - 1]].level <= nz {
            p.push(q[i - 1])
        } else {
            p
        }
    }
}

/// The key of a cell of the coarsest grid.
pub open spec fn cell_key(cx: int, cy: int) -> u64 {
    (cx * 0x2000_0000 + cy) as u64
}

/// The roots in one column of cells, from `lo` to below `hi`.
pub open spec fn column(floor: spec_fn(u64) -> Seq<Slot>, cx: int, lo: int, hi: int) -> Seq<Slot>
    decreases hi - lo,
{
    if hi <= lo {
        seq![]
    } else {
        column(floor, cx, lo, hi - 1) + floor(cell_key(cx, hi - 1))
    }
}

/// The roots in a rectangle of cells, column by column.
pub open spec fn ground(
    floor: spec_fn(u64) -> Seq<Slot>,
    xlo: int,
    xhi: int,
    ylo: int,
    yhi: int,
) -> Seq<Slot>
    decreases xhi - xlo,
{
    if xhi <= xlo {
        seq![]
    } else {
        ground(floor, xlo, xhi - 1, ylo, yhi) + column(floor, xhi - 1, ylo, yhi)
    }
}

/// The first cell of the coarsest grid that a search from `x` on looks into.
pub open spec fn first_cell(o: Options, x: int) -> int {
    let c = o.cell(cut_off(x), 0) - o.margin();
    if c < 0 {
        0
    } else {
        c
    }
}

/// The last cell of the coarsest grid that a search up to `x` looks into.
pub open spec fn last_cell(o: Options, x: int) -> int {
    let c = o.cell(cut_off(x), 0) + o.margin();
    let end = o.cell(PREC_I as int, 0);
    if c < end {
        c
    } else {
        end
    }
}

/// Those of a list that are drawn in a box.
pub open spec fn drawn_of(q: Seq<int>, net: Net, n: int, c: int, z: int, b: Window) -> Seq<int>
    decreases q.len(),
{
    if q.len() == 0 {
        seq![]
    } else {
        let p = drawn_of(q.drop_last(), net, n, c, z, b);
        if net.drawn(n, c, q.last(), z, b) {
            p.push(q.last())
        } else {
            p
        }
    }
}

/// The roots that a search of a box starts from.
pub open spec fn roots_of(lists: Lists, o: Options, b: Window) -> Seq<Slot> {
    ground(
        lists.floor,
        first_cell(o, b.x0),
        last_cell(o, b.x1) + 1,
        first_cell(o, b.y0),
        last_cell(o, b.y1) + 1,
    )
}

/// The centers drawn in a box, in the order in which the search comes upon them.
pub open spec fn sight(lists: Lists, net: Net, n: int, c: int, z: int, b: Window) -> Seq<int> {
    drawn_of(
        descent(lists.kids, net.pts, roots_of(lists, net.opts, b), z, 0),
        net,
        n,
        c,
        z,
        b,
    )
}

/// What is drawn of two lists, one behind the other.
pub proof fn lemma_drawn_add(
    p: Seq<int>,
    q: Seq<int>,
    net: Net,
    n: int,
    c: int,
    z: int,
    b: Window,
)
    ensures
        drawn_of(p + q, net, n, c, z, b) == drawn_of(p, net, n, c, z, b) + drawn_of(
            q,
            net,
            n,
            c,
            z,
            b,
        ),
    decreases q.len(),
{
    if q.len() == 0 {
        assert(p + q =~= p);
        assert(drawn_of(p, net, n, c, z, b) + drawn_of(q, net, n, c, z, b) =~= drawn_of(
            p,
            net,
            n,
            c,
            z,
            b,
        ));
    } else {
        lemma_drawn_add(p, q.drop_last(), net, n, c, z, b);
        assert((p + q).drop_last() =~= p + q.drop_last());
        assert((p + q).last() == q.last());
        assert(drawn_of(p + q, net, n, c, z, b) =~= drawn_of(p, net, n, c, z, b) + drawn_of(
            q,
            net,
            n,
            c,
            z,
            b,
        ));
    }
}

/// Nothing is drawn of a list where nothing is drawn.
pub proof fn lemma_drawn_none(q: Seq<int>, net: Net, n: int, c: int, z: int, b: Window)
    requires
        forall|i: int| 0 <= i < q.len() ==> !net.drawn(n, c, #[trigger] q[i], z, b),
    ensures
        drawn_of(q, net, n, c, z, b).len() == 0,
    decreases q.len(),
{
    if q.len() > 0 {
        let r = q.drop_last();
        assert forall|i: int| 0 <= i < r.len() implies !net.drawn(n, c, #[trigger] r[i], z, b) by {
            assert(r[i] == q[i]);
        }
        lemma_drawn_none(r, net, n, c, z, b);
        assert(!net.drawn(n, c, q[q.len() - 1], z, b));
    }
}

/// Nets that draw the same draw the same of a list.
pub proof fn lemma_drawn_alike(
    q: Seq<int>,
    net: Net,
    other: Net,
    n: int,
    c: int,
    z: int,
    b: Window,
)
    requires
        forall|s: int| #[trigger] net.drawn(n, c, s, z, b) == other.drawn(n, c, s, z, b),
    ensures
        drawn_of(q, net, n, c, z, b) == drawn_of(q, other, n, c, z, b),
    decreases q.len(),
{
    if q.len() > 0 {
        lemma_drawn_alike(q.drop_last(), net, other, n, c, z, b);
        assert(net.drawn(n, c, q.last(), z, b) == other.drawn(n, c, q.last(), z, b));
    }
}

} // verus!
